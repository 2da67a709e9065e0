//! The shell's live state: where it keeps it, what it holds, what changed.
use crate::app_config::{distinct_names, position_of};
use crate::json::{document, json_document, member_of, pairs, read_json, Json, JsonView};
use vstd::prelude::*;
use vstd::utf8::{encode_scalar, encode_utf8};

pub use crate::watch::{Changed, Watch};

verus! {

/// The environment variables that say where files are kept.
#[derive(Debug)]
pub struct Environment {
    pub home: Option<Vec<u8>>,
    pub state_home: Option<Vec<u8>>,
    pub config_home: Option<Vec<u8>>,
    pub runtime_dir: Option<Vec<u8>>,
}

/// `rest` below the directory `base`: one separator between them, and none
/// where `base` ends in one or is empty.
pub open spec fn below(base: Seq<u8>, rest: Seq<u8>) -> Seq<u8> {
    if base.len() == 0 || base.last() == 0x2f {
        base + rest
    } else {
        base.push(0x2f) + rest
    }
}

/// The path of `rest` below the directory `base`.
pub fn join(base: &[u8], rest: &str) -> (out: Vec<u8>)
    ensures
        out@ == below(base@, encode_utf8(rest@)),
{
    let mut out: Vec<u8> = Vec::new();
    for i in 0..base.len()
        invariant
            out@ == base@.take(i as int),
    {
        out.push(base[i]);
    }
    assert(out@ =~= base@);
    if base.len() > 0 && base[base.len() - 1] != 0x2f {
        out.push(0x2f);
    }
    let ghost head = out@;
    let tail = rest.as_bytes();
    for i in 0..tail.len()
        invariant
            tail@ == encode_utf8(rest@),
            out@ == head + tail@.take(i as int),
    {
        out.push(tail[i]);
        assert(tail@.take(i + 1) =~= tail@.take(i as int).push(tail@[i as int]));
    }
    assert(tail@.take(tail@.len() as int) =~= tail@);
    out
}

/// A value, or `fallback` where there is none.
pub open spec fn or_text(value: Option<Vec<u8>>, fallback: Seq<u8>) -> Seq<u8> {
    match value {
        Some(v) => v@,
        None => fallback,
    }
}

impl Environment {
    /// The home directory; `/root` where none is set.
    pub open spec fn home_path(self) -> Seq<u8> {
        or_text(self.home, encode_utf8("/root"@))
    }

    /// Where state is kept.
    pub open spec fn state_path(self) -> Seq<u8> {
        or_text(self.state_home, below(self.home_path(), encode_utf8(".local/state"@)))
    }

    /// Where configuration is kept.
    pub open spec fn config_path(self) -> Seq<u8> {
        or_text(self.config_home, below(self.home_path(), encode_utf8(".config"@)))
    }

    /// Where a session's sockets and locks are kept.
    pub open spec fn runtime_path(self) -> Seq<u8> {
        or_text(self.runtime_dir, encode_utf8("/tmp"@))
    }
}

/// Bytes of one's own.
pub(crate) fn copy_bytes(b: &[u8]) -> (out: Vec<u8>)
    ensures
        out@ == b@,
{
    let mut out: Vec<u8> = Vec::new();
    for i in 0..b.len()
        invariant
            out@ == b@.take(i as int),
    {
        out.push(b[i]);
    }
    assert(out@ =~= b@);
    out
}

fn home(env: &Environment) -> (out: Vec<u8>)
    ensures
        out@ == env.home_path(),
{
    match &env.home {
        Some(h) => copy_bytes(h.as_slice()),
        None => copy_bytes("/root".as_bytes()),
    }
}

fn state_dir(env: &Environment) -> (out: Vec<u8>)
    ensures
        out@ == env.state_path(),
{
    match &env.state_home {
        Some(s) => copy_bytes(s.as_slice()),
        None => join(home(env).as_slice(), ".local/state"),
    }
}

fn config_dir(env: &Environment) -> (out: Vec<u8>)
    ensures
        out@ == env.config_path(),
{
    match &env.config_home {
        Some(s) => copy_bytes(s.as_slice()),
        None => join(home(env).as_slice(), ".config"),
    }
}

/// The directory that holds the scheme file.
pub fn scheme_dir(env: &Environment) -> (out: Vec<u8>)
    ensures
        out@ == scheme_path(*env),
{
    join(state_dir(env).as_slice(), "caelestia")
}

/// The directory that holds the current wallpaper's path.
pub fn wallpaper_dir(env: &Environment) -> (out: Vec<u8>)
    ensures
        out@ == wallpaper_path(*env),
{
    join(state_dir(env).as_slice(), "caelestia/wallpaper")
}

/// The directory that holds the shell's own settings.
pub fn shell_dir(env: &Environment) -> (out: Vec<u8>)
    ensures
        out@ == shell_path(*env),
{
    join(config_dir(env).as_slice(), "caelestia")
}

/// The shell's directories, each resolved when it is first asked for and kept
/// from then on.
#[derive(Debug)]
pub struct ShellDirs {
    pub scheme: Option<Vec<u8>>,
    pub wallpaper: Option<Vec<u8>>,
    pub shell: Option<Vec<u8>>,
}

/// The directory that holds the scheme.
pub open spec fn scheme_path(env: Environment) -> Seq<u8> {
    below(env.state_path(), encode_utf8("caelestia"@))
}

/// The directory that holds the current wallpaper's path.
pub open spec fn wallpaper_path(env: Environment) -> Seq<u8> {
    below(env.state_path(), encode_utf8("caelestia/wallpaper"@))
}

/// The directory that holds the shell's settings.
pub open spec fn shell_path(env: Environment) -> Seq<u8> {
    below(env.config_path(), encode_utf8("caelestia"@))
}

/// Asking for a directory that would now be `fresh` gives `r`, and keeps it:
/// `was` is what was kept before and `is` what is kept after.
pub open spec fn kept(
    was: Option<Vec<u8>>,
    fresh: Seq<u8>,
    r: Seq<u8>,
    is: Option<Vec<u8>>,
) -> bool {
    r == or_text(was, fresh) && is is Some && is->0@ == r
}

impl ShellDirs {
    /// Nothing has been asked for.
    pub fn new() -> (r: ShellDirs)
        ensures
            r == (ShellDirs { scheme: None, wallpaper: None, shell: None }),
    {
        ShellDirs { scheme: None, wallpaper: None, shell: None }
    }

    /// The directory that holds the scheme.
    pub fn scheme_dir(&mut self, env: &Environment) -> (r: Vec<u8>)
        ensures
            kept(old(self).scheme, scheme_path(*env), r@, final(self).scheme),
            final(self).wallpaper == old(self).wallpaper,
            final(self).shell == old(self).shell,
    {
        let path = match &self.scheme {
            Some(path) => copy_bytes(path.as_slice()),
            None => scheme_dir(env),
        };
        self.scheme = Some(copy_bytes(path.as_slice()));
        path
    }

    /// The directory that holds the current wallpaper's path.
    pub fn wallpaper_dir(&mut self, env: &Environment) -> (r: Vec<u8>)
        ensures
            kept(old(self).wallpaper, wallpaper_path(*env), r@, final(self).wallpaper),
            final(self).scheme == old(self).scheme,
            final(self).shell == old(self).shell,
    {
        let path = match &self.wallpaper {
            Some(path) => copy_bytes(path.as_slice()),
            None => wallpaper_dir(env),
        };
        self.wallpaper = Some(copy_bytes(path.as_slice()));
        path
    }

    /// The directory that holds the shell's settings.
    pub fn shell_dir(&mut self, env: &Environment) -> (r: Vec<u8>)
        ensures
            kept(old(self).shell, shell_path(*env), r@, final(self).shell),
            final(self).scheme == old(self).scheme,
            final(self).wallpaper == old(self).wallpaper,
    {
        let path = match &self.shell {
            Some(path) => copy_bytes(path.as_slice()),
            None => shell_dir(env),
        };
        self.shell = Some(copy_bytes(path.as_slice()));
        path
    }
}

/// A directory is resolved by the environment of the first call, and every
/// later call gives the same path, whatever the environment is by then.
///
/// `calls` are what the directory would be by the environment of each call,
/// `paths` what each call gives, and `states` what is kept before each call
/// and after the last.
pub proof fn a_directory_is_resolved_once(
    calls: Seq<Seq<u8>>,
    paths: Seq<Seq<u8>>,
    states: Seq<Option<Vec<u8>>>,
    i: int,
)
    requires
        paths.len() == calls.len(),
        states.len() == calls.len() + 1,
        states[0] is None,
        forall|k: int|
            0 <= k < calls.len() ==> kept(
                states[k],
                calls[k],
                #[trigger] paths[k],
                states[k + 1],
            ),
        0 <= i < calls.len(),
    ensures
        paths[i] == calls[0],
        states[i + 1] is Some && states[i + 1]->0@ == calls[0],
    decreases i,
{
    if i > 0 {
        a_directory_is_resolved_once(calls, paths, states, i - 1);
        assert(kept(states[i], calls[i], paths[i], states[i + 1]));
    } else {
        assert(kept(states[0], calls[0], paths[0], states[1]));
    }
}

/// A path below the session's runtime directory.
pub(crate) fn runtime_file(env: &Environment, name: &str) -> (out: Vec<u8>)
    ensures
        out@ == below(env.runtime_path(), encode_utf8(name@)),
{
    match &env.runtime_dir {
        Some(d) => join(d.as_slice(), name),
        None => join("/tmp".as_bytes(), name),
    }
}

/// The members whose values are text, in order, with that text.
///
/// `values[i]` is member `i`'s value, read.
pub open spec fn text_members(
    members: Seq<(Seq<char>, Seq<char>)>,
    values: Seq<Option<JsonView>>,
) -> Seq<(Seq<char>, Seq<char>)>
    decreases members.len(),
{
    if members.len() == 0 {
        Seq::empty()
    } else {
        let rest = text_members(members.drop_last(), values.drop_last());
        match values.last() {
            Some(JsonView::Text(text)) => rest.push((members.last().0, text)),
            _ => rest,
        }
    }
}

/// Every member's value, read.
pub open spec fn values_read(members: Seq<(Seq<char>, Seq<char>)>) -> Seq<Option<JsonView>> {
    members.map_values(|m: (Seq<char>, Seq<char>)| json_document(m.1))
}

/// The roles that a scheme file gives colours for: the members of its member
/// `colours` whose values are text.
pub open spec fn scheme_colours(raw: Seq<char>) -> Option<Seq<(Seq<char>, Seq<char>)>> {
    match member_of(json_document(raw), "colours"@) {
        None => None,
        Some(inner) => match json_document(inner) {
            Some(JsonView::Object(members)) => Some(text_members(members, values_read(members))),
            _ => None,
        },
    }
}

/// The value of the member `name` of `doc`, as JSON text.
pub fn member_value(doc: &Option<Json>, name: &str) -> (r: Option<String>)
    ensures
        (match r {
            Some(text) => Some(text@),
            None => None,
        }) == member_of(document(*doc), name@),
{
    proof {
        reveal(member_of);
    }
    match doc {
        Some(Json::Object(members)) => {
            let ghost m = pairs(members@);
            match position_of(members.as_slice(), name) {
                Some(at) => {
                    proof {
                        assert(m[at as int].0 == name@);
                        let i = choose|i: int|
                            0 <= i < m.len() && (#[trigger] m[i]).0 == name@ && forall|j: int|
                                0 <= j < i ==> (#[trigger] m[j]).0 != name@;
                        assert forall|j: int| 0 <= j < at implies (#[trigger] m[j]).0 != name@ by {
                            assert(members@[j].0@ != name@);
                        }
                        assert(i == at);
                    }
                    Some(members[at].1.clone())
                },
                None => {
                    assert forall|j: int| 0 <= j < m.len() implies (#[trigger] m[j]).0
                        != name@ by {
                        assert(members@[j].0@ != name@);
                    }
                    None
                },
            }
        },
        _ => None,
    }
}

/// The documents in `values`, by value.
pub open spec fn documents(values: Seq<Option<Json>>) -> Seq<Option<JsonView>> {
    values.map_values(|v: Option<Json>| document(v))
}

/// The members whose values are text, with that text; the others are skipped.
pub fn keep_texts(members: &[(String, String)], values: &[Option<Json>]) -> (out: Vec<
    (String, String),
>)
    requires
        members@.len() == values@.len(),
        distinct_names(members@),
    ensures
        pairs(out@) == text_members(pairs(members@), documents(values@)),
        distinct_names(out@),
{
    let mut out: Vec<(String, String)> = Vec::new();
    let ghost m = pairs(members@);
    let ghost d = documents(values@);
    for i in 0..members.len()
        invariant
            members@.len() == values@.len(),
            distinct_names(members@),
            m == pairs(members@),
            d == documents(values@),
            pairs(out@) == text_members(m.take(i as int), d.take(i as int)),
            distinct_names(out@),
            forall|k: int|
                0 <= k < out@.len() ==> exists|j: int|
                    0 <= j < i && (#[trigger] out@[k]).0@ == (#[trigger] members@[j]).0@,
    {
        assert(m.take(i + 1).drop_last() =~= m.take(i as int));
        assert(d.take(i + 1).drop_last() =~= d.take(i as int));
        let ghost before = out@;
        match &values[i] {
            Some(Json::Text(text)) => {
                out.push((members[i].0.clone(), text.clone()));
                proof {
                    assert(pairs(out@) =~= pairs(before).push((members@[i as int].0@, text@)));
                    assert forall|k: int| 0 <= k < before.len() implies (#[trigger] before[k]).0@
                        != members@[i as int].0@ by {
                        let j = choose|j: int|
                            0 <= j < i && before[k].0@ == (#[trigger] members@[j]).0@;
                        assert(members@[j].0@ != members@[i as int].0@);
                    }
                    assert forall|k: int| 0 <= k < out@.len() implies exists|j: int|
                        0 <= j < i + 1 && (#[trigger] out@[k]).0@ == (
                        #[trigger] members@[j]).0@ by {
                        if k < before.len() {
                            assert(out@[k] == before[k]);
                            let j = choose|j: int|
                                0 <= j < i && before[k].0@ == (#[trigger] members@[j]).0@;
                            assert(out@[k].0@ == members@[j].0@);
                        } else {
                            assert(out@[k].0@ == members@[i as int].0@);
                        }
                    }
                }
            },
            _ => {},
        }
    }
    assert(m.take(m.len() as int) =~= m);
    assert(d.take(d.len() as int) =~= d);
    out
}

/// The roles that the scheme file `raw` gives colours for.
///
/// Members of its `colours` whose values are not text are skipped. Anything
/// but an object that holds an object there gives `None`.
pub fn colours(raw: &str) -> (r: Option<Vec<(String, String)>>)
    ensures
        (match r {
            Some(roles) => Some(pairs(roles@)),
            None => None,
        }) == scheme_colours(raw@),
        r matches Some(roles) ==> distinct_names(roles@),
{
    let inner = match member_value(&read_json(raw), "colours") {
        Some(inner) => inner,
        None => {
            return None;
        },
    };
    match read_json(inner.as_str()) {
        Some(Json::Object(members)) => {
            let mut values: Vec<Option<Json>> = Vec::new();
            for i in 0..members.len()
                invariant
                    documents(values@) == values_read(pairs(members@)).take(i as int),
            {
                let ghost before = values@;
                let v = read_json(members[i].1.as_str());
                values.push(v);
                assert(documents(values@) =~= documents(before).push(document(v)));
                assert(values_read(pairs(members@)).take(i + 1) =~= values_read(
                    pairs(members@),
                ).take(i as int).push(json_document(members@[i as int].1@)));
            }
            assert(documents(values@) =~= values_read(pairs(members@)));
            assert(values@.len() == documents(values@).len());
            Some(keep_texts(members.as_slice(), values.as_slice()))
        },
        _ => None,
    }
}

/// The shell's settings, as far as they are looked at.
#[derive(Clone, Copy, Debug)]
pub struct Shell {
    pub services: Services,
}

/// The `services` section of the shell's settings.
#[derive(Clone, Copy, Debug)]
pub struct Services {
    /// How many bars a visualiser is to draw.
    pub visualiser_bars: Option<u64>,
}

impl Default for Services {
    fn default() -> (r: Services)
        ensures
            r == (Services { visualiser_bars: None }),
    {
        Services { visualiser_bars: None }
    }
}

/// A bar count, brought into the range from 1 to 512.
pub open spec fn usable_count(n: u64) -> u32 {
    if n < 1 {
        1
    } else if n > 512 {
        512
    } else {
        n as u32
    }
}

/// The bar count that the shell's settings ask for.
pub open spec fn shell_count(shell: Option<Shell>) -> Option<u32> {
    match shell {
        Some(Shell { services: Services { visualiser_bars: Some(n) } }) => Some(usable_count(n)),
        _ => None,
    }
}

/// The bar count that the shell's settings ask for; `None` where they name
/// none, and where there are no settings that could be read.
///
/// Clamped: zero would divide by zero in the bar-width arithmetic, and the
/// count sizes a buffer.
pub fn bar_count(shell: Option<Shell>) -> (r: Option<u32>)
    ensures
        r == shell_count(shell),
{
    let n: u64 = match shell {
        Some(s) => match s.services.visualiser_bars {
            Some(n) => n,
            None => {
                return None;
            },
        },
        None => {
            return None;
        },
    };
    if n < 1 {
        Some(1)
    } else if n > 512 {
        Some(512)
    } else {
        Some(n as u32)
    }
}

/// A count that is followed can be drawn.
pub proof fn a_followed_count_is_usable(shell: Option<Shell>)
    ensures
        shell_count(shell) matches Some(n) ==> 1 <= n <= 512,
{
}

/// Text encodes piece by piece.
pub(crate) proof fn encoding_joins(a: Seq<char>, b: Seq<char>)
    ensures
        encode_utf8(a + b) == encode_utf8(a) + encode_utf8(b),
    decreases a.len(),
{
    if a.len() == 0 {
        assert(a + b =~= b);
        assert(encode_utf8(a) + encode_utf8(b) =~= encode_utf8(b));
    } else {
        encoding_joins(a.drop_first(), b);
        assert((a + b).drop_first() =~= a.drop_first() + b);
        assert(encode_utf8(a + b) =~= encode_utf8(a) + encode_utf8(b));
    }
}

/// A character of ASCII encodes as itself.
pub(crate) proof fn encoding_of_one(c: char)
    requires
        (c as u32) < 0x80,
    ensures
        encode_utf8(seq![c]) == seq![c as u8],
{
    let u = c as u32;
    assert(u & 0x7f == u) by (bit_vector)
        requires
            u < 0x80,
    ;
    assert(seq![c].drop_first() =~= Seq::<char>::empty());
    assert(encode_utf8(Seq::<char>::empty()) =~= Seq::<u8>::empty());
    assert(encode_utf8(seq![c]) =~= encode_scalar(u));
    assert(encode_scalar(u) =~= seq![c as u8]);
}

/// The wallpaper's directory is `wallpaper` below the scheme's.
pub proof fn the_wallpaper_lies_below_the_scheme(env: Environment)
    ensures
        wallpaper_path(env) == below(scheme_path(env), encode_utf8("wallpaper"@)),
{
    reveal_strlit("caelestia");
    reveal_strlit("caelestia/wallpaper");
    reveal_strlit("wallpaper");
    let head = "caelestia"@;
    let tail = "wallpaper"@;
    assert("caelestia/wallpaper"@ =~= head + (seq!['/'] + tail));
    encoding_joins(head, seq!['/'] + tail);
    encoding_joins(seq!['/'], tail);
    encoding_of_one('/');
    assert(head =~= head.drop_last() + seq!['a']);
    encoding_joins(head.drop_last(), seq!['a']);
    encoding_of_one('a');
    let h = encode_utf8(head);
    assert(h.last() == 0x61);
    let dir = scheme_path(env);
    assert(dir.last() == h.last());
    assert(wallpaper_path(env) =~= below(dir, encode_utf8(tail)));
}

/// Text of ASCII encodes byte by byte.
pub(crate) proof fn encoding_of_ascii(s: Seq<char>)
    requires
        forall|i: int| 0 <= i < s.len() ==> (#[trigger] s[i] as u32) < 0x80,
    ensures
        encode_utf8(s).len() == s.len(),
        forall|i: int| 0 <= i < s.len() ==> #[trigger] encode_utf8(s)[i] == s[i] as u8,
    decreases s.len(),
{
    if s.len() > 0 {
        let t = s.drop_first();
        assert forall|i: int| 0 <= i < t.len() implies (#[trigger] t[i] as u32) < 0x80 by {
            assert(t[i] == s[i + 1]);
        }
        encoding_of_ascii(t);
        assert(s =~= seq![s[0]] + t);
        encoding_of_one(s[0]);
        encoding_joins(seq![s[0]], t);
        assert forall|i: int| 0 <= i < s.len() implies #[trigger] encode_utf8(s)[i]
            == s[i] as u8 by {
            if i > 0 {
                assert(encode_utf8(t)[i - 1] == t[i - 1] as u8);
            }
        }
    }
}

/// `caelestia`, byte by byte.
pub open spec fn shell_name() -> Seq<u8> {
    seq![0x63u8, 0x61u8, 0x65u8, 0x6cu8, 0x65u8, 0x73u8, 0x74u8, 0x69u8, 0x61u8]
}

/// A path below a directory has one separator between the two, and everything
/// of both.
pub proof fn a_path_has_one_separator(base: Seq<u8>, rest: Seq<u8>)
    ensures
        base.len() > 0 && base.last() != 0x2f ==> below(base, rest) == base + seq![0x2fu8] + rest,
        base.len() == 0 || base.last() == 0x2f ==> below(base, rest) == base + rest,
{
    assert(base.push(0x2f) =~= base + seq![0x2fu8]);
}

/// The scheme lies below the state directory and the settings below the
/// configuration directory, each the one that is set, else the one below the
/// home directory; neither hangs on the other's variable.
pub proof fn directories_are_where_the_environment_says(env: Environment)
    ensures
        env.state_home matches Some(d) ==> scheme_path(env) == below(d@, shell_name()),
        env.config_home matches Some(d) ==> shell_path(env) == below(d@, shell_name()),
        env.state_home is None ==> scheme_path(env) == below(
            below(env.home_path(), encode_utf8(".local/state"@)),
            shell_name(),
        ),
        env.config_home is None ==> shell_path(env) == below(
            below(env.home_path(), encode_utf8(".config"@)),
            shell_name(),
        ),
        env.home matches Some(h) ==> env.home_path() == h@,
        env.home is None ==> env.home_path() == seq![0x2fu8, 0x72u8, 0x6fu8, 0x6fu8, 0x74u8],
        env.runtime_dir matches Some(d) ==> env.runtime_path() == d@,
        env.runtime_dir is None ==> env.runtime_path() == seq![0x2fu8, 0x74u8, 0x6du8, 0x70u8],
{
    reveal_strlit("caelestia");
    reveal_strlit("/root");
    reveal_strlit("/tmp");
    encoding_of_ascii("caelestia"@);
    encoding_of_ascii("/root"@);
    encoding_of_ascii("/tmp"@);
    assert(encode_utf8("caelestia"@) =~= shell_name());
    assert(encode_utf8("/root"@) =~= seq![0x2fu8, 0x72u8, 0x6fu8, 0x6fu8, 0x74u8]);
    assert(encode_utf8("/tmp"@) =~= seq![0x2fu8, 0x74u8, 0x6du8, 0x70u8]);
}

/// The fall-back directories below home are `.local/state` and `.config`.
pub proof fn fall_backs_lie_below_home()
    ensures
        encode_utf8(".local/state"@) == seq![
            0x2eu8,
            0x6cu8,
            0x6fu8,
            0x63u8,
            0x61u8,
            0x6cu8,
            0x2fu8,
            0x73u8,
            0x74u8,
            0x61u8,
            0x74u8,
            0x65u8,
        ],
        encode_utf8(".config"@) == seq![0x2eu8, 0x63u8, 0x6fu8, 0x6eu8, 0x66u8, 0x69u8, 0x67u8],
{
    reveal_strlit(".local/state");
    reveal_strlit(".config");
    encoding_of_ascii(".local/state"@);
    encoding_of_ascii(".config"@);
    assert(encode_utf8(".local/state"@) =~= seq![
        0x2eu8,
        0x6cu8,
        0x6fu8,
        0x63u8,
        0x61u8,
        0x6cu8,
        0x2fu8,
        0x73u8,
        0x74u8,
        0x61u8,
        0x74u8,
        0x65u8,
    ]);
    assert(encode_utf8(".config"@) =~= seq![
        0x2eu8,
        0x63u8,
        0x6fu8,
        0x6eu8,
        0x66u8,
        0x69u8,
        0x67u8,
    ]);
}

/// Every role whose value is text is kept, with that text, in order; a member
/// whose value is anything else is skipped, not rejected.
pub proof fn only_text_values_are_kept(
    members: Seq<(Seq<char>, Seq<char>)>,
    values: Seq<Option<JsonView>>,
    name: Seq<char>,
    raw: Seq<char>,
    value: Option<JsonView>,
)
    requires
        members.len() == values.len(),
    ensures
        text_members(Seq::empty(), Seq::empty()) == Seq::<(Seq<char>, Seq<char>)>::empty(),
        value matches Some(JsonView::Text(text)) ==> text_members(
            members.push((name, raw)),
            values.push(value),
        ) == text_members(members, values).push((name, text)),
        !(value matches Some(JsonView::Text(_))) ==> text_members(
            members.push((name, raw)),
            values.push(value),
        ) == text_members(members, values),
{
    assert(members.push((name, raw)).drop_last() =~= members);
    assert(values.push(value).drop_last() =~= values);
}

/// A count from 1 to 512 is followed as it is, and one beyond by the nearest of
/// these; without a count nothing is followed.
pub proof fn a_count_is_followed_within_bounds(n: u64)
    ensures
        ({
            let asks = |v: Option<u64>|
                shell_count(Some(Shell { services: Services { visualiser_bars: v } }));
            &&& 1 <= n <= 512 ==> asks(Some(n)) == Some(n as u32)
            &&& n == 0 ==> asks(Some(n)) == Some(1u32)
            &&& n > 512 ==> asks(Some(n)) == Some(512u32)
            &&& asks(None) is None
        }),
        shell_count(None) is None,
{
}

/// The roles come from the member `colours`, which must be an object itself;
/// without it there are none.
pub proof fn roles_come_from_the_colours(raw: Seq<char>)
    ensures
        ({
            let inner = member_of(
                json_document(raw),
                seq!['c', 'o', 'l', 'o', 'u', 'r', 's'],
            );
            match inner {
                None => scheme_colours(raw) is None,
                Some(text) => match json_document(text) {
                    Some(JsonView::Object(members)) => scheme_colours(raw) is Some
                        && scheme_colours(raw)->0 == text_members(members, values_read(members)),
                    _ => scheme_colours(raw) is None,
                },
            }
        }),
{
    reveal_strlit("colours");
    assert("colours"@ =~= seq!['c', 'o', 'l', 'o', 'u', 'r', 's']);
}

/// Each member's value is read as a document of its own.
pub proof fn each_value_is_read(members: Seq<(Seq<char>, Seq<char>)>, i: int)
    requires
        0 <= i < members.len(),
    ensures
        values_read(members).len() == members.len(),
        values_read(members)[i] == json_document(members[i].1),
{
}

/// A member of an object is found by its name; what is no object has none.
pub proof fn a_member_is_found_by_its_name(
    members: Seq<(Seq<char>, Seq<char>)>,
    i: int,
    name: Seq<char>,
)
    requires
        forall|a: int, b: int|
            0 <= a < b < members.len() ==> (#[trigger] members[a]).0 != (#[trigger] members[b]).0,
    ensures
        0 <= i < members.len() ==> member_of(Some(JsonView::Object(members)), members[i].0) == Some(
            members[i].1,
        ),
        (forall|k: int| 0 <= k < members.len() ==> (#[trigger] members[k]).0 != name) ==> member_of(
            Some(JsonView::Object(members)),
            name,
        ) is None,
        member_of(None, name) is None,
        member_of(Some(JsonView::Other), name) is None,
{
    reveal(member_of);
    if 0 <= i < members.len() {
        assert(members[i].0 == members[i].0);
        assert(forall|k: int|
            0 <= k < members.len() && (#[trigger] members[k]).0 == members[i].0 ==> k == i);
    }
}

} // verus!
