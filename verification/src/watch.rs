//! Which of the followed files changed, from the kernel's event records.
//!
//! A record is a header of sixteen bytes, whose first four are the watch
//! descriptor and whose last four the length of the name behind it, then that
//! name, padded with zero bytes.
use crate::scheme::encoding_of_ascii;
use vstd::prelude::*;
use vstd::utf8::encode_utf8;

verus! {

/// The watch descriptors of the directories that are followed, below zero
/// where one is not.
#[derive(Clone, Copy, Debug, PartialEq, Eq, Structural)]
pub struct Watch {
    pub scheme_wd: i32,
    pub shell_wd: i32,
    pub wallpaper_wd: i32,
    /// Whether header fields have their highest byte first.
    pub big_endian: bool,
}

/// Which of the followed files changed.
#[derive(Clone, Copy, Debug, PartialEq, Eq, Structural)]
pub struct Changed {
    pub scheme: bool,
    pub shell: bool,
    pub wallpaper: bool,
}

impl Default for Changed {
    fn default() -> (r: Changed)
        ensures
            r == (Changed { scheme: false, shell: false, wallpaper: false }),
    {
        Changed { scheme: false, shell: false, wallpaper: false }
    }
}

/// What changed in either of two drains.
pub open spec fn either(a: Changed, b: Changed) -> Changed {
    Changed {
        scheme: a.scheme || b.scheme,
        shell: a.shell || b.shell,
        wallpaper: a.wallpaper || b.wallpaper,
    }
}

impl Changed {
    /// What changed in either of two drains.
    pub fn or(self, other: Changed) -> (r: Changed)
        ensures
            r == either(self, other),
    {
        Changed {
            scheme: self.scheme || other.scheme,
            shell: self.shell || other.shell,
            wallpaper: self.wallpaper || other.wallpaper,
        }
    }
}

/// The file that holds the scheme.
pub open spec fn scheme_file() -> Seq<u8> {
    encode_utf8("scheme.json"@)
}

/// The file that holds the shell's settings.
pub open spec fn shell_file() -> Seq<u8> {
    encode_utf8("shell.json"@)
}

/// The file that holds the current wallpaper's path.
pub open spec fn wallpaper_file() -> Seq<u8> {
    encode_utf8("path.txt"@)
}

/// A descriptor, or -1 where a file is not asked for.
pub open spec fn descriptor(wd: Option<i32>) -> i32 {
    match wd {
        Some(d) => d,
        None => -1i32,
    }
}

/// The 32-bit word at `at`.
pub open spec fn word_at(b: Seq<u8>, at: int, big_endian: bool) -> int {
    if big_endian {
        b[at] * 16777216 + b[at + 1] * 65536 + b[at + 2] * 256 + b[at + 3]
    } else {
        b[at + 3] * 16777216 + b[at + 2] * 65536 + b[at + 1] * 256 + b[at]
    }
}

/// The word `u`, taken with its sign.
pub open spec fn signed(u: int) -> int {
    if u >= 0x8000_0000 {
        u - 0x1_0000_0000
    } else {
        u
    }
}

/// `s` up to its first zero byte.
pub open spec fn up_to_nul(s: Seq<u8>) -> Seq<u8>
    decreases s.len(),
{
    if s.len() == 0 || s[0] == 0 {
        Seq::empty()
    } else {
        seq![s[0]] + up_to_nul(s.drop_first())
    }
}

/// The events recorded in `b` from `off` on: each one's descriptor and name.
///
/// A name that was cut short by the end of `b` is what is there of it.
pub open spec fn events(b: Seq<u8>, off: int, big_endian: bool) -> Seq<(int, Seq<u8>)>
    decreases (if off <= b.len() { b.len() - off } else { 0 }),
{
    if off + 16 > b.len() {
        Seq::empty()
    } else {
        let len = word_at(b, off + 12, big_endian);
        let end = if off + 16 + len < b.len() {
            off + 16 + len
        } else {
            b.len() as int
        };
        seq![(signed(word_at(b, off, big_endian)), up_to_nul(b.subrange(off + 16, end)))] + events(
            b,
            off + 16 + if len >= 0 {
                len
            } else {
                0
            },
            big_endian,
        )
    }
}

/// One of the events names `file` under the descriptor `wd`.
pub open spec fn touched(events: Seq<(int, Seq<u8>)>, wd: int, file: Seq<u8>) -> bool {
    exists|i: int| 0 <= i < events.len() && #[trigger] events[i] == (wd, file)
}

/// What the events say has changed.
pub open spec fn changes(w: Watch, events: Seq<(int, Seq<u8>)>, r: Changed) -> bool {
    &&& r.scheme == touched(events, w.scheme_wd as int, scheme_file())
    &&& r.shell == touched(events, w.shell_wd as int, shell_file())
    &&& r.wallpaper == touched(events, w.wallpaper_wd as int, wallpaper_file())
}

fn read_word(b: &[u8], at: usize, big_endian: bool) -> (r: u32)
    requires
        at + 4 <= b@.len() <= usize::MAX,
    ensures
        r == word_at(b@, at as int, big_endian),
{
    if big_endian {
        b[at] as u32 * 16777216 + b[at + 1] as u32 * 65536 + b[at + 2] as u32 * 256 + b[at
            + 3] as u32
    } else {
        b[at + 3] as u32 * 16777216 + b[at + 2] as u32 * 65536 + b[at + 1] as u32 * 256
            + b[at] as u32
    }
}

fn signed_word(u: u32) -> (r: i32)
    ensures
        r == signed(u as int),
{
    if u >= 0x8000_0000 {
        (u as i64 - 0x1_0000_0000) as i32
    } else {
        u as i32
    }
}

proof fn up_to_nul_is(s: Seq<u8>, n: int)
    requires
        0 <= n <= s.len(),
        forall|i: int| 0 <= i < n ==> s[i] != 0,
        n == s.len() || s[n] == 0,
    ensures
        up_to_nul(s) == s.take(n),
    decreases n,
{
    if n == 0 {
        assert(s.take(0) =~= Seq::<u8>::empty());
    } else {
        up_to_nul_is(s.drop_first(), n - 1);
        assert(seq![s[0]] + s.drop_first().take(n - 1) =~= s.take(n));
    }
}

/// Whether the zero-padded name at `from..to` is `file`.
fn name_is(b: &[u8], from: usize, to: usize, file: &str) -> (r: bool)
    requires
        from <= to <= b@.len() <= usize::MAX,
    ensures
        r == (up_to_nul(b@.subrange(from as int, to as int)) == encode_utf8(file@)),
{
    let mut n: usize = 0;
    while n < to - from && b[from + n] != 0
        invariant
            from <= to <= b@.len() <= usize::MAX,
            n <= to - from,
            forall|i: int| from <= i < from + n ==> #[trigger] b@[i] != 0,
        decreases to - from - n,
    {
        n += 1;
    }
    let ghost s = b@.subrange(from as int, to as int);
    proof {
        up_to_nul_is(s, n as int);
    }
    let want = file.as_bytes();
    if want.len() != n {
        assert(s.take(n as int).len() != want@.len());
        return false;
    }
    for i in 0..n
        invariant
            from + n <= to <= b@.len() <= usize::MAX,
            s == b@.subrange(from as int, to as int),
            up_to_nul(s) == s.take(n as int),
            want@ == encode_utf8(file@),
            want@.len() == n,
            forall|j: int| 0 <= j < i ==> s[j] == want@[j],
    {
        if b[from + i] != want[i] {
            assert(s.take(n as int)[i as int] != want@[i as int]);
            return false;
        }
    }
    assert(s.take(n as int) =~= want@);
    true
}

proof fn touched_later(
    head: (int, Seq<u8>),
    rest: Seq<(int, Seq<u8>)>,
    wd: int,
    file: Seq<u8>,
)
    ensures
        touched(seq![head] + rest, wd, file) == (head == (wd, file) || touched(rest, wd, file)),
{
    let all = seq![head] + rest;
    assert(all[0] == head);
    if touched(rest, wd, file) {
        let i = choose|i: int| 0 <= i < rest.len() && #[trigger] rest[i] == (wd, file);
        assert(all[i + 1] == rest[i]);
    }
    if touched(all, wd, file) {
        let i = choose|i: int| 0 <= i < all.len() && #[trigger] all[i] == (wd, file);
        if i > 0 {
            assert(rest[i - 1] == all[i]);
        }
    }
}

/// A watch over these descriptors; `None` where nothing could be followed.
pub open spec fn watch_over(
    scheme: Option<i32>,
    shell: Option<i32>,
    wallpaper: Option<i32>,
    big_endian: bool,
) -> Option<Watch> {
    if descriptor(scheme) < 0 && descriptor(shell) < 0 && descriptor(wallpaper) < 0 {
        None
    } else {
        Some(
            Watch {
                scheme_wd: descriptor(scheme),
                shell_wd: descriptor(shell),
                wallpaper_wd: descriptor(wallpaper),
                big_endian,
            },
        )
    }
}

impl Watch {
    /// A watch over what could be followed, given the descriptor that came
    /// back for each file that was asked for; `None` where nothing could be.
    pub fn new(
        scheme: Option<i32>,
        shell: Option<i32>,
        wallpaper: Option<i32>,
        big_endian: bool,
    ) -> (r: Option<Watch>)
        ensures
            r == watch_over(scheme, shell, wallpaper, big_endian),
    {
        let scheme_wd: i32 = match scheme {
            Some(d) => d,
            None => -1,
        };
        let shell_wd: i32 = match shell {
            Some(d) => d,
            None => -1,
        };
        let wallpaper_wd: i32 = match wallpaper {
            Some(d) => d,
            None => -1,
        };
        if scheme_wd < 0 && shell_wd < 0 && wallpaper_wd < 0 {
            None
        } else {
            Some(Watch { scheme_wd, shell_wd, wallpaper_wd, big_endian })
        }
    }

    /// Which files the records in `b` say have changed.
    pub fn take(&self, b: &[u8]) -> (r: Changed)
        ensures
            changes(*self, events(b@, 0, self.big_endian), r),
    {
        let n: usize = b.len();
        let mut hit = Changed { scheme: false, shell: false, wallpaper: false };
        let mut off: usize = 0;
        let ghost all = events(b@, 0, self.big_endian);
        while n - off >= 16
            invariant
                n == b@.len(),
                off <= n,
                all == events(b@, 0, self.big_endian),
                touched(all, self.scheme_wd as int, scheme_file()) == (hit.scheme || touched(
                    events(b@, off as int, self.big_endian),
                    self.scheme_wd as int,
                    scheme_file(),
                )),
                touched(all, self.shell_wd as int, shell_file()) == (hit.shell || touched(
                    events(b@, off as int, self.big_endian),
                    self.shell_wd as int,
                    shell_file(),
                )),
                touched(all, self.wallpaper_wd as int, wallpaper_file()) == (hit.wallpaper
                    || touched(
                    events(b@, off as int, self.big_endian),
                    self.wallpaper_wd as int,
                    wallpaper_file(),
                )),
            decreases n - off,
        {
            let wd: i32 = signed_word(read_word(b, off, self.big_endian));
            let len: u32 = read_word(b, off + 12, self.big_endian);
            let start: usize = off + 16;
            let cut: bool = len as u64 >= (n - start) as u64;
            let end: usize = if cut {
                n
            } else {
                start + len as usize
            };
            let ghost name = up_to_nul(b@.subrange(start as int, end as int));
            let ghost rest = events(b@, start + len, self.big_endian);
            proof {
                assert(events(b@, off as int, self.big_endian) == seq![(wd as int, name)] + rest);
                touched_later((wd as int, name), rest, self.scheme_wd as int, scheme_file());
                touched_later((wd as int, name), rest, self.shell_wd as int, shell_file());
                touched_later((wd as int, name), rest, self.wallpaper_wd as int, wallpaper_file());
            }
            if wd == self.scheme_wd && name_is(b, start, end, "scheme.json") {
                hit.scheme = true;
            }
            if wd == self.shell_wd && name_is(b, start, end, "shell.json") {
                hit.shell = true;
            }
            if wd == self.wallpaper_wd && name_is(b, start, end, "path.txt") {
                hit.wallpaper = true;
            }
            proof {
                if cut {
                    assert(rest == events(b@, n as int, self.big_endian));
                }
            }
            off = end;
        }
        hit
    }
}

/// A name counts only under its own directory's descriptor: where no event
/// carries it, a file of the same name elsewhere changes nothing.
pub proof fn a_stray_name_does_not_count(w: Watch, events: Seq<(int, Seq<u8>)>, r: Changed)
    requires
        changes(w, events, r),
    ensures
        (forall|i: int| 0 <= i < events.len() ==> (#[trigger] events[i]).0 != w.scheme_wd)
            ==> !r.scheme,
        (forall|i: int| 0 <= i < events.len() ==> (#[trigger] events[i]).0 != w.shell_wd)
            ==> !r.shell,
        (forall|i: int| 0 <= i < events.len() ==> (#[trigger] events[i]).0 != w.wallpaper_wd)
            ==> !r.wallpaper,
{
}

/// However many events one change left behind, it is reported once and no
/// other way: what a list of events says is what its two halves say together.
pub proof fn draining_in_parts_is_the_same(
    w: Watch,
    a: Seq<(int, Seq<u8>)>,
    b: Seq<(int, Seq<u8>)>,
    ra: Changed,
    rb: Changed,
    r: Changed,
)
    requires
        changes(w, a, ra),
        changes(w, b, rb),
        changes(w, a + b, r),
    ensures
        r.scheme == (ra.scheme || rb.scheme),
        r.shell == (ra.shell || rb.shell),
        r.wallpaper == (ra.wallpaper || rb.wallpaper),
        r == either(ra, rb),
{
    touched_in_either(a, b, w.scheme_wd as int, scheme_file());
    touched_in_either(a, b, w.shell_wd as int, shell_file());
    touched_in_either(a, b, w.wallpaper_wd as int, wallpaper_file());
}

proof fn touched_in_either(
    a: Seq<(int, Seq<u8>)>,
    b: Seq<(int, Seq<u8>)>,
    wd: int,
    file: Seq<u8>,
)
    ensures
        touched(a + b, wd, file) == (touched(a, wd, file) || touched(b, wd, file)),
{
    let all = a + b;
    if touched(a, wd, file) {
        let i = choose|i: int| 0 <= i < a.len() && #[trigger] a[i] == (wd, file);
        assert(all[i] == a[i]);
    }
    if touched(b, wd, file) {
        let i = choose|i: int| 0 <= i < b.len() && #[trigger] b[i] == (wd, file);
        assert(all[a.len() + i] == b[i]);
    }
    if touched(all, wd, file) {
        let i = choose|i: int| 0 <= i < all.len() && #[trigger] all[i] == (wd, file);
        if i < a.len() {
            assert(a[i] == all[i]);
        } else {
            assert(b[i - a.len()] == all[i]);
        }
    }
}

/// The four bytes of a word, the highest first or the lowest.
pub open spec fn word_bytes(u: int, big_endian: bool) -> Seq<u8> {
    let (a, b, c, d) = (
        (u / 16777216) as u8,
        (u / 65536 % 256) as u8,
        (u / 256 % 256) as u8,
        (u % 256) as u8,
    );
    if big_endian {
        seq![a, b, c, d]
    } else {
        seq![d, c, b, a]
    }
}

/// A record as the kernel writes it: the descriptor, eight bytes that do not
/// matter, the length of what follows, and the name with `pad` zero bytes
/// behind it.
pub open spec fn record(
    wd: int,
    middle: Seq<u8>,
    name: Seq<u8>,
    pad: nat,
    big_endian: bool,
) -> Seq<u8> {
    word_bytes(
        if wd < 0 {
            wd + 0x1_0000_0000
        } else {
            wd
        },
        big_endian,
    ) + middle + word_bytes((name.len() + pad) as int, big_endian) + name + Seq::new(
        pad,
        |i: int| 0u8,
    )
}

proof fn word_reads_back(b: Seq<u8>, at: int, u: int, big_endian: bool)
    requires
        0 <= u < 0x1_0000_0000,
        0 <= at,
        at + 4 <= b.len(),
        b.subrange(at, at + 4) == word_bytes(u, big_endian),
    ensures
        word_at(b, at, big_endian) == u,
{
    let w = b.subrange(at, at + 4);
    assert(w[0] == b[at] && w[1] == b[at + 1] && w[2] == b[at + 2] && w[3] == b[at + 3]);
    assert(u / 16777216 * 16777216 + u / 65536 % 256 * 65536 + u / 256 % 256 * 256 + u % 256 == u);
    assert(0 <= u / 16777216 < 256);
}

proof fn events_by_what_follows(b: Seq<u8>, i: int, c: Seq<u8>, j: int, big_endian: bool)
    requires
        0 <= i <= b.len(),
        0 <= j <= c.len(),
        b.skip(i) == c.skip(j),
    ensures
        events(b, i, big_endian) == events(c, j, big_endian),
    decreases b.len() - i,
{
    let (x, y) = (b.skip(i), c.skip(j));
    assert(x.len() == b.len() - i && y.len() == c.len() - j);
    if i + 16 <= b.len() {
        assert forall|k: int| 0 <= k < 16 implies b[i + k] == #[trigger] c[j + k] by {
            assert(x[k] == y[k]);
        }
        assert(b[i + 0] == c[j + 0] && b[i + 1] == c[j + 1] && b[i + 2] == c[j + 2] && b[i + 3]
            == c[j + 3]);
        assert(b[i + 12] == c[j + 12] && b[i + 13] == c[j + 13] && b[i + 14] == c[j + 14] && b[i
            + 15] == c[j + 15]);
        let len = word_at(b, i + 12, big_endian);
        assert(len == word_at(c, j + 12, big_endian));
        let end = if i + 16 + len < b.len() {
            i + 16 + len
        } else {
            b.len() as int
        };
        assert(b.subrange(i + 16, end) =~= x.subrange(16, end - i));
        assert(c.subrange(j + 16, end - i + j) =~= y.subrange(16, end - i));
        if i + 16 + len <= b.len() {
            assert(b.skip(i + 16 + len) =~= x.skip(16 + len));
            assert(c.skip(j + 16 + len) =~= y.skip(16 + len));
            events_by_what_follows(b, i + 16 + len, c, j + 16 + len, big_endian);
        } else {
            assert(events(b, i + 16 + len, big_endian).len() == 0);
            assert(events(c, j + 16 + len, big_endian).len() == 0);
            assert(events(b, i + 16 + len, big_endian) =~= events(c, j + 16 + len, big_endian));
        }
    }
}

/// A record reads back as the descriptor and the name that it was written with,
/// whatever its padding and whichever byte comes first, and what follows it is
/// read as if it stood alone.
pub proof fn a_record_reads_back(
    wd: int,
    middle: Seq<u8>,
    name: Seq<u8>,
    pad: nat,
    rest: Seq<u8>,
    big_endian: bool,
)
    requires
        -0x8000_0000 <= wd < 0x8000_0000,
        middle.len() == 8,
        name.len() + pad < 0x1_0000_0000,
        forall|i: int| 0 <= i < name.len() ==> name[i] != 0,
    ensures
        events(record(wd, middle, name, pad, big_endian) + rest, 0, big_endian) == seq![(wd, name)]
            + events(rest, 0, big_endian),
{
    let u = if wd < 0 {
        wd + 0x1_0000_0000
    } else {
        wd
    };
    let r = record(wd, middle, name, pad, big_endian);
    let b = r + rest;
    let len = (name.len() + pad) as int;
    assert(r.len() == 16 + len);
    assert(b.subrange(0, 4) =~= word_bytes(u, big_endian));
    assert(b.subrange(12, 16) =~= word_bytes(len, big_endian));
    word_reads_back(b, 0, u, big_endian);
    word_reads_back(b, 12, len, big_endian);
    let field = b.subrange(16, 16 + len);
    assert(forall|i: int| 0 <= i < name.len() ==> field[i] == name[i]);
    assert(pad > 0 ==> field[name.len() as int] == 0);
    up_to_nul_is(field, name.len() as int);
    assert(field.take(name.len() as int) =~= name);
    assert(b.skip(16 + len) =~= rest);
    assert(rest.skip(0) =~= rest);
    events_by_what_follows(b, 16 + len, rest, 0, big_endian);
}

/// The followed files are `scheme.json`, `shell.json` and `path.txt`, and an
/// event that names one of them under its directory's descriptor is a change of
/// that file.
pub proof fn an_event_is_a_change_of_its_file(
    w: Watch,
    events: Seq<(int, Seq<u8>)>,
    r: Changed,
    i: int,
)
    requires
        changes(w, events, r),
        0 <= i < events.len(),
    ensures
        events[i].0 == w.scheme_wd && events[i].1 == seq![
            0x73u8, 0x63u8, 0x68u8, 0x65u8, 0x6du8, 0x65u8, 0x2eu8, 0x6au8, 0x73u8, 0x6fu8, 0x6eu8,
        ] ==> r.scheme,
        events[i].0 == w.shell_wd && events[i].1 == seq![
            0x73u8, 0x68u8, 0x65u8, 0x6cu8, 0x6cu8, 0x2eu8, 0x6au8, 0x73u8, 0x6fu8, 0x6eu8,
        ] ==> r.shell,
        events[i].0 == w.wallpaper_wd && events[i].1 == seq![
            0x70u8, 0x61u8, 0x74u8, 0x68u8, 0x2eu8, 0x74u8, 0x78u8, 0x74u8,
        ] ==> r.wallpaper,
{
    reveal_strlit("scheme.json");
    reveal_strlit("shell.json");
    reveal_strlit("path.txt");
    encoding_of_ascii("scheme.json"@);
    encoding_of_ascii("shell.json"@);
    encoding_of_ascii("path.txt"@);
    assert(scheme_file() =~= seq![
        0x73u8, 0x63u8, 0x68u8, 0x65u8, 0x6du8, 0x65u8, 0x2eu8, 0x6au8, 0x73u8, 0x6fu8, 0x6eu8,
    ]);
    assert(shell_file() =~= seq![
        0x73u8, 0x68u8, 0x65u8, 0x6cu8, 0x6cu8, 0x2eu8, 0x6au8, 0x73u8, 0x6fu8, 0x6eu8,
    ]);
    assert(wallpaper_file() =~= seq![
        0x70u8, 0x61u8, 0x74u8, 0x68u8, 0x2eu8, 0x74u8, 0x78u8, 0x74u8,
    ]);
    assert(events[i] == (events[i].0, events[i].1));
}

/// Where no event carries a file's name, that file has not changed.
pub proof fn another_name_is_no_change(w: Watch, events: Seq<(int, Seq<u8>)>, r: Changed)
    requires
        changes(w, events, r),
    ensures
        (forall|i: int| 0 <= i < events.len() ==> (#[trigger] events[i]).1.len() != 11)
            ==> !r.scheme,
        (forall|i: int| 0 <= i < events.len() ==> (#[trigger] events[i]).1.len() != 10) ==> !r.shell,
        (forall|i: int| 0 <= i < events.len() ==> (#[trigger] events[i]).1.len() != 8)
            ==> !r.wallpaper,
{
    reveal_strlit("scheme.json");
    reveal_strlit("shell.json");
    reveal_strlit("path.txt");
    encoding_of_ascii("scheme.json"@);
    encoding_of_ascii("shell.json"@);
    encoding_of_ascii("path.txt"@);
}

/// A watch follows exactly what came back with a descriptor, and there is none
/// where nothing did.
pub proof fn a_watch_follows_what_it_was_given(
    scheme: Option<i32>,
    shell: Option<i32>,
    wallpaper: Option<i32>,
    big_endian: bool,
)
    ensures
        ({
            let w = watch_over(scheme, shell, wallpaper, big_endian);
            let followed = |d: Option<i32>| d is Some && d->0 >= 0;
            &&& w is Some <==> followed(scheme) || followed(shell) || followed(wallpaper)
            &&& w is Some && followed(scheme) ==> w->0.scheme_wd == scheme->0
            &&& w is Some && followed(shell) ==> w->0.shell_wd == shell->0
            &&& w is Some && followed(wallpaper) ==> w->0.wallpaper_wd == wallpaper->0
            &&& w is Some && !followed(scheme) ==> w->0.scheme_wd < 0
            &&& w is Some && !followed(shell) ==> w->0.shell_wd < 0
            &&& w is Some && !followed(wallpaper) ==> w->0.wallpaper_wd < 0
            &&& w is Some ==> w->0.big_endian == big_endian
        }),
{
}

} // verus!
