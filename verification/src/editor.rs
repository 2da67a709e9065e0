//! The curve editor: a wallpaper's block in the configuration file, and the
//! pages that are served to a browser.
use crate::scheme::{below, copy_bytes, join, Environment};
use crate::text::{
    append, append_str, chars, copied, find, index_of, lower, lowered, replace, replaced,
    same, same_chars, show, shown, split_word, stands_at, string_of, trim, trim_end, trimmed,
    trimmed_len,
};
use crate::text::{after_word, first_from, first_word, index_is, occurs_at, parse_unsigned};
use crate::text::{none_occurs, text_view, trim_start, unsigned_value, white};
use vstd::prelude::*;
use vstd::utf8::encode_utf8;

verus! {

/// The line that a wallpaper's block starts with.
pub open spec fn header(key: Seq<char>) -> Seq<char> {
    "[curves."@ + key + "]"@
}

/// Where a block that starts at `from` ends: at the next line that opens a
/// section, or at the end of the text.
pub open spec fn block_end(text: Seq<char>, from: int) -> int {
    match index_of(text, "\n["@, from) {
        Some(i) => i + 1,
        None => text.len() as int,
    }
}

/// A wallpaper's block, without its first line.
pub open spec fn existing(text: Seq<char>, key: Seq<char>) -> Option<Seq<char>> {
    match index_of(text, header(key), 0) {
        Some(start) => {
            let from = start + header(key).len();
            Some(text.subrange(from, block_end(text, from)))
        },
        None => None,
    }
}

/// A block, written out.
pub open spec fn section(key: Seq<char>, block: Seq<char>) -> Seq<char> {
    header(key) + "\n"@ + trim_end(block) + "\n"@
}

/// What parts a block from the text that it is put behind: enough for one
/// empty line between them.
pub open spec fn gap(text: Seq<char>) -> Seq<char> {
    if text.len() >= 2 && text.last() == '\n' && text[text.len() - 2] == '\n' {
        Seq::empty()
    } else if text.len() >= 1 && text.last() == '\n' {
        seq!['\n']
    } else {
        seq!['\n', '\n']
    }
}

/// The text with a wallpaper's block replaced, or put at the end.
pub open spec fn rewritten(text: Seq<char>, key: Seq<char>, block: Seq<char>) -> Seq<char> {
    match index_of(text, header(key), 0) {
        Some(start) => text.take(start) + section(key, block) + text.skip(
            block_end(text, start + header(key).len()),
        ),
        None => text + gap(text) + section(key, block),
    }
}

fn header_of(key: &str) -> (out: Vec<char>)
    ensures
        out@ == header(key@),
{
    let mut out = chars("[curves.");
    append_str(&mut out, key);
    append_str(&mut out, "]");
    out
}

proof fn index_in_range(text: Seq<char>, needle: Seq<char>, from: int)
    ensures
        index_of(text, needle, from) matches Some(i) ==> from <= i && occurs_at(text, needle, i),
{
    if let Some(i) = index_of(text, needle, from) {
        assert(first_from(text, needle, from, Some(i)));
    }
}

fn end_of_block(text: &[char], from: usize) -> (r: usize)
    requires
        from <= text@.len(),
    ensures
        r == block_end(text@, from as int),
        from <= r <= text@.len(),
{
    let opening = chars("\n[");
    proof {
        reveal_strlit("\n[");
        index_in_range(text@, "\n["@, from as int);
    }
    let total: usize = text.len();
    match find(text, opening.as_slice(), from) {
        Some(i) => i + 1,
        None => total,
    }
}

/// The block that `text` holds for a wallpaper, if any.
pub fn existing_block(text: &str, key: &str) -> (r: Option<String>)
    ensures
        match r {
            Some(block) => existing(text@, key@) == Some(block@),
            None => existing(text@, key@) is None,
        },
{
    let t = chars(text);
    let total: usize = t.len();
    let h = header_of(key);
    match find(t.as_slice(), h.as_slice(), 0) {
        Some(start) => {
            let from: usize = start + h.len();
            let end: usize = end_of_block(t.as_slice(), from);
            let block = copied(t.as_slice(), from, end);
            Some(string_of(block.as_slice()))
        },
        None => None,
    }
}

/// `text` with a wallpaper's block replaced, or put at its end. Everything
/// else stays as it was.
pub fn write_block(text: &str, key: &str, block: &str) -> (out: String)
    ensures
        out@ == rewritten(text@, key@, block@),
{
    let t = chars(text);
    let total: usize = t.len();
    let h = header_of(key);
    let b = chars(block);
    let n: usize = trimmed_len(b.as_slice());
    let body = copied(b.as_slice(), 0, n);
    assert(body@ == trim_end(b@));
    let mut lines = header_of(key);
    append_str(&mut lines, "\n");
    append(&mut lines, body.as_slice());
    append_str(&mut lines, "\n");
    assert(lines@ == section(key@, block@));
    let mut out: Vec<char> = Vec::new();
    match find(t.as_slice(), h.as_slice(), 0) {
        Some(start) => {
            let end: usize = end_of_block(t.as_slice(), start + h.len());
            let head = copied(t.as_slice(), 0, start);
            let tail = copied(t.as_slice(), end, total);
            append(&mut out, head.as_slice());
            append(&mut out, lines.as_slice());
            append(&mut out, tail.as_slice());
            assert(out@ =~= rewritten(text@, key@, block@));
        },
        None => {
            append(&mut out, t.as_slice());
            if total == 0 || t[total - 1] != '\n' {
                out.push('\n');
                out.push('\n');
            } else if total == 1 || t[total - 2] != '\n' {
                out.push('\n');
            }
            assert(out@ =~= text@ + gap(text@));
            append(&mut out, lines.as_slice());
            assert(out@ =~= rewritten(text@, key@, block@));
        },
    }
    string_of(out.as_slice())
}

/// What follows a block's first line, up to the end of the text.
pub open spec fn behind_header(text: Seq<char>, key: Seq<char>) -> Option<Seq<char>> {
    match index_of(text, header(key), 0) {
        Some(at) => Some(text.skip(at + header(key).len())),
        None => None,
    }
}

/// What follows a block's first line, up to the end of the text.
pub fn after_header(text: &str, key: &str) -> (r: Option<String>)
    ensures
        text_view(r) == behind_header(text@, key@),
{
    let t = chars(text);
    let total: usize = t.len();
    let h = header_of(key);
    match find(t.as_slice(), h.as_slice(), 0) {
        Some(start) => {
            let rest = copied(t.as_slice(), start + h.len(), total);
            assert(rest@ =~= t@.skip(start + h@.len()));
            Some(string_of(rest.as_slice()))
        },
        None => None,
    }
}

/// Nothing in the block opens a section of its own.
pub open spec fn one_section(block: Seq<char>) -> bool {
    index_of("\n"@ + trim_end(block), "\n["@, 0) is None
}

/// Where the block stands in the rewritten text.
pub open spec fn block_start(text: Seq<char>, key: Seq<char>) -> int {
    match index_of(text, header(key), 0) {
        Some(start) => start,
        None => text.len() as int + gap(text).len(),
    }
}

/// The block stands at its start in the rewritten text.
proof fn block_stands(text: Seq<char>, key: Seq<char>, block: Seq<char>)
    ensures
        0 <= block_start(text, key),
        block_start(text, key) + section(key, block).len() <= rewritten(text, key, block).len(),
        rewritten(text, key, block).subrange(
            block_start(text, key),
            block_start(text, key) + section(key, block).len(),
        ) == section(key, block),
{
    index_in_range(text, header(key), 0);
    let s = block_start(text, key);
    let u = rewritten(text, key, block);
    assert(u.subrange(s, s + section(key, block).len()) =~= section(key, block));
}

/// The header stands first at the block's start in the rewritten text.
proof fn header_is_found(text: Seq<char>, key: Seq<char>, block: Seq<char>)
    requires
        index_of(text, header(key), 0) is None ==> !key.contains('\n'),
    ensures
        index_of(rewritten(text, key, block), header(key), 0) == Some(block_start(text, key)),
{
    let h = header(key);
    let u = rewritten(text, key, block);
    let s = block_start(text, key);
    reveal_strlit("[curves.");
    reveal_strlit("]");
    assert(!key.contains('\n') ==> !h.contains('\n')) by {
        if !key.contains('\n') && h.contains('\n') {
            let k = choose|k: int| 0 <= k < h.len() && h[k] == '\n';
            if k < "[curves."@.len() {
                assert(h[k] == "[curves."@[k]);
            } else if k < "[curves."@.len() + key.len() {
                assert(h[k] == key[k - "[curves."@.len()]);
            } else {
                assert(h[k] == "]"@[0]);
            }
        }
    }
    index_in_range(text, h, 0);
    let sec = section(key, block);
    assert(sec.subrange(0, h.len() as int) =~= h);
    assert(occurs_at(u, h, s)) by {
        assert(u.subrange(s, s + sec.len()) =~= sec);
        assert(u.subrange(s, s + h.len()) =~= sec.subrange(0, h.len() as int));
    }
    assert forall|j: int| 0 <= j < s implies !#[trigger] occurs_at(u, h, j) by {
        if occurs_at(u, h, j) {
            match index_of(text, h, 0) {
                Some(start) => {
                    assert(first_from(text, h, 0, Some(start)));
                    assert forall|k: int| 0 <= k < s + h.len() implies u[k] == text[k] by {
                        if k >= s {
                            assert(text.subrange(s, s + h.len())[k - s] == h[k - s]);
                            assert(u.subrange(s, s + h.len())[k - s] == h[k - s]);
                        }
                    }
                    assert(text.subrange(j, j + h.len()) =~= u.subrange(j, j + h.len()));
                    assert(occurs_at(text, h, j));
                },
                None => {
                    if j + h.len() <= text.len() {
                        assert(text.subrange(j, j + h.len()) =~= u.subrange(j, j + h.len()));
                        none_occurs(text, h, 0, j);
                    } else {
                        let k = if j > text.len() {
                            j
                        } else if gap(text).len() > 0 {
                            text.len() as int
                        } else {
                            text.len() - 1
                        };
                        assert(u[k] == '\n');
                        assert(u.subrange(j, j + h.len())[k - j] == u[k]);
                        assert(h.contains('\n'));
                    }
                },
            }
        }
    }
    assert(first_from(u, h, 0, Some(s)));
    index_is(u, h, 0, Some(s));
}

/// Where the block ends in the rewritten text.
proof fn end_is_found(text: Seq<char>, key: Seq<char>, block: Seq<char>)
    requires
        one_section(block),
    ensures
        block_end(
            rewritten(text, key, block),
            block_start(text, key) + header(key).len(),
        ) == block_start(text, key) + section(key, block).len(),
        rewritten(text, key, block).len() >= block_start(text, key) + section(key, block).len(),
{
    let h = header(key);
    let u = rewritten(text, key, block);
    let s = block_start(text, key);
    let sec = section(key, block);
    let body = "\n"@ + trim_end(block);
    let from = s + h.len();
    let p = from + body.len();
    let open = "\n["@;
    reveal_strlit("\n[");
    reveal_strlit("\n");
    index_in_range(text, h, 0);
    let tail = match index_of(text, h, 0) {
        Some(start) => text.skip(block_end(text, start + h.len())),
        None => Seq::empty(),
    };
    if let Some(start) = index_of(text, h, 0) {
        index_in_range(text, open, start + h.len());
        if let Some(i) = index_of(text, open, start + h.len()) {
            assert(text.subrange(i, i + 2)[1] == '[');
            assert(text[i + 1] == '[');
        }
    }
    assert(tail.len() == 0 || tail[0] == '[');
    assert(u.subrange(s, s + sec.len()) =~= sec);
    assert(u.skip(s + sec.len()) =~= tail);
    assert(sec =~= h + body + "\n"@);
    assert(sec.len() == h.len() + body.len() + 1);
    assert forall|k: int| 0 <= k < body.len() implies u[from + k] == #[trigger] body[k] by {
        assert(u.subrange(s, s + sec.len())[h.len() + k] == sec[h.len() + k]);
    }
    assert(u[p] == '\n') by {
        assert(u.subrange(s, s + sec.len())[sec.len() - 1] == sec[sec.len() - 1]);
    }
    assert forall|j: int| from <= j < p implies !#[trigger] occurs_at(u, open, j) by {
        if occurs_at(u, open, j) {
            assert(u.subrange(j, j + 2)[0] == open[0]);
            assert(u.subrange(j, j + 2)[1] == open[1]);
            if j + 1 < p {
                assert(u[j] == body[j - from]);
                assert(u[j + 1] == body[j + 1 - from]);
                assert(body.subrange(j - from, j - from + 2) =~= open);
                none_occurs(body, open, 0, j - from);
            }
        }
    }
    if tail.len() > 0 {
        assert(u[p + 1] == '[') by {
            assert(u.skip(s + sec.len())[0] == tail[0]);
        }
        assert(u.subrange(p, p + 2) =~= open);
        assert(first_from(u, open, from, Some(p)));
        index_is(u, open, from, Some(p));
    } else {
        assert(u.len() == p + 1);
        assert(first_from(u, open, from, None));
        index_is(u, open, from, None);
    }
}

proof fn section_body(key: Seq<char>, block: Seq<char>)
    ensures
        header(key).len() <= section(key, block).len(),
        section(key, block).skip(header(key).len() as int) == "\n"@ + trim_end(block) + "\n"@,
{
    assert(section(key, block).skip(header(key).len() as int) =~= "\n"@ + trim_end(block)
        + "\n"@);
}

proof fn tail_of_part(s: Seq<char>, from: int, part: Seq<char>, n: int)
    requires
        0 <= from,
        from + part.len() <= s.len(),
        s.subrange(from, from + part.len()) == part,
        0 <= n <= part.len(),
    ensures
        s.subrange(from + n, from + part.len()) == part.skip(n),
{
    assert forall|i: int| 0 <= i < part.len() implies s[from + i] == #[trigger] part[i] by {
        assert(s.subrange(from, from + part.len())[i] == s[from + i]);
    }
    assert(s.subrange(from + n, from + part.len()) =~= part.skip(n));
}

/// What is written is what is read back: the block, less the white space at
/// its end, on lines of its own.
pub proof fn a_written_block_reads_back(text: Seq<char>, key: Seq<char>, block: Seq<char>)
    requires
        index_of(text, header(key), 0) is None ==> !key.contains('\n'),
        one_section(block),
    ensures
        existing(rewritten(text, key, block), key) == Some(
            "\n"@ + trim_end(block) + "\n"@,
        ),
{
    header_is_found(text, key, block);
    end_is_found(text, key, block);
    block_stands(text, key, block);
    section_body(key, block);
    tail_of_part(
        rewritten(text, key, block),
        block_start(text, key),
        section(key, block),
        header(key).len() as int,
    );
}

/// Saving the same block again changes nothing.
pub proof fn saving_twice_is_saving_once(text: Seq<char>, key: Seq<char>, block: Seq<char>)
    requires
        index_of(text, header(key), 0) is None ==> !key.contains('\n'),
        one_section(block),
    ensures
        rewritten(rewritten(text, key, block), key, block) == rewritten(text, key, block),
{
    header_is_found(text, key, block);
    end_is_found(text, key, block);
    let u = rewritten(text, key, block);
    let s = block_start(text, key);
    let sec = section(key, block);
    block_stands(text, key, block);
    assert(rewritten(u, key, block) =~= u);
}

/// Everything outside the block is left as it was: what stands before it and
/// behind it where there was one, and all of the text, in front of the block,
/// where there was none.
pub proof fn the_rest_is_left_alone(text: Seq<char>, key: Seq<char>, block: Seq<char>)
    ensures
        match index_of(text, header(key), 0) {
            Some(start) => {
                let u = rewritten(text, key, block);
                let end = block_end(text, start + header(key).len());
                &&& u.take(start) == text.take(start)
                &&& u.skip(start + section(key, block).len()) == text.skip(end)
            },
            None => {
                let u = rewritten(text, key, block);
                &&& u.take(text.len() as int) == text
                &&& u.skip(text.len() as int + gap(text).len()) == section(key, block)
            },
        },
{
    let u = rewritten(text, key, block);
    index_in_range(text, header(key), 0);
    match index_of(text, header(key), 0) {
        Some(start) => {
            let end = block_end(text, start + header(key).len());
            assert(u.take(start) =~= text.take(start));
            assert(u.skip(start + section(key, block).len()) =~= text.skip(end));
        },
        None => {
            assert(u.take(text.len() as int) =~= text);
            assert(u.skip(text.len() as int + gap(text).len()) =~= section(key, block));
        },
    }
}

/// Where the editor finds the configuration file.
pub open spec fn config_file(env: Environment) -> Seq<u8> {
    below(
        match env.config_home {
            Some(dir) => dir@,
            None => match env.home {
                Some(home) => below(home@, encode_utf8(".config"@)),
                None => Seq::empty(),
            },
        },
        encode_utf8("cavawall/config.toml"@),
    )
}

/// Where the editor finds the configuration file.
pub fn config_path(env: &Environment) -> (out: Vec<u8>)
    ensures
        out@ == config_file(*env),
{
    match &env.config_home {
        Some(dir) => join(dir.as_slice(), "cavawall/config.toml"),
        None => match &env.home {
            Some(home) => {
                let dir = join(home.as_slice(), ".config");
                join(dir.as_slice(), "cavawall/config.toml")
            },
            None => {
                let nothing: Vec<u8> = Vec::new();
                assert(nothing@ =~= Seq::<u8>::empty());
                join(nothing.as_slice(), "cavawall/config.toml")
            },
        },
    }
}

/// What a request asks for.
#[derive(Clone, Copy, Debug, PartialEq, Eq, Structural)]
pub enum Route {
    Page,
    Wallpaper,
    Existing,
    Save,
    Unknown,
}

/// What a request with this method and path asks for.
pub open spec fn route_of(method: Seq<char>, path: Seq<char>) -> Route {
    if method == "GET"@ && path == "/"@ {
        Route::Page
    } else if method == "GET"@ && path == "/wallpaper"@ {
        Route::Wallpaper
    } else if method == "GET"@ && path == "/existing"@ {
        Route::Existing
    } else if method == "POST"@ && path == "/save"@ {
        Route::Save
    } else {
        Route::Unknown
    }
}

/// What a request's first line asks for: its first word is the method, its
/// second the path.
pub fn route(line: &str) -> (r: Route)
    ensures
        r == route_of(first_word(line@), first_word(after_word(line@))),
{
    let cs = chars(line);
    let (method, rest) = split_word(cs.as_slice());
    let (path, _) = split_word(rest.as_slice());
    let get = chars("GET");
    let post = chars("POST");
    let page = chars("/");
    let wallpaper = chars("/wallpaper");
    let old_one = chars("/existing");
    let save = chars("/save");
    if same_chars(method.as_slice(), get.as_slice()) {
        proof {
            reveal_strlit("GET");
            reveal_strlit("POST");
            assert("GET"@.len() != "POST"@.len());
        }
        if same_chars(path.as_slice(), page.as_slice()) {
            Route::Page
        } else if same_chars(path.as_slice(), wallpaper.as_slice()) {
            Route::Wallpaper
        } else if same_chars(path.as_slice(), old_one.as_slice()) {
            Route::Existing
        } else {
            Route::Unknown
        }
    } else if same_chars(method.as_slice(), post.as_slice()) && same_chars(
        path.as_slice(),
        save.as_slice(),
    ) {
        Route::Save
    } else {
        Route::Unknown
    }
}

/// `s` with the capitals `A` to `Z` turned small.
pub open spec fn lower_case(s: Seq<char>) -> Seq<char> {
    s.map_values(|c: char| lower(c))
}

/// Nothing but white space.
pub open spec fn blank(s: Seq<char>) -> bool {
    trim(s).len() == 0
}

/// The length that a header line gives: `None` where it gives none, and zero
/// where what it gives is no number.
pub open spec fn length_in(line: Seq<char>) -> Option<nat> {
    let name = "content-length:"@;
    let s = lower_case(line);
    if occurs_at(s, name, 0) {
        Some(
            match unsigned_value(trim(s.skip(name.len() as int)), usize::MAX as nat) {
                Some(n) => n,
                None => 0,
            },
        )
    } else {
        None
    }
}

/// The body's length by the first `n` header lines: the last one that was
/// given, or zero.
pub open spec fn length_by(lines: Seq<String>, n: int) -> nat
    decreases n,
{
    if n <= 0 {
        0
    } else {
        match length_in(lines[n - 1]@) {
            Some(len) => len,
            None => length_by(lines, n - 1),
        }
    }
}

/// Whether a line ends the headers.
pub fn is_blank(line: &str) -> (r: bool)
    ensures
        r == blank(line@),
{
    let cs = chars(line);
    trimmed(cs.as_slice()).len() == 0
}

fn header_length(line: &str) -> (r: Option<usize>)
    ensures
        match r {
            Some(n) => length_in(line@) == Some(n as nat),
            None => length_in(line@) is None,
        },
{
    let cs = chars(line);
    let mut s: Vec<char> = Vec::new();
    for i in 0..cs.len()
        invariant
            cs@ == line@,
            s@.len() == i,
            forall|j: int| 0 <= j < i ==> #[trigger] s@[j] == lower(line@[j]),
    {
        s.push(lowered(cs[i]));
    }
    assert(s@ =~= lower_case(line@));
    let name = chars("content-length:");
    if !stands_at(s.as_slice(), name.as_slice(), 0) {
        return None;
    }
    let rest = copied(s.as_slice(), name.len(), s.len());
    assert(rest@ =~= s@.skip(name@.len() as int));
    let value = trimmed(rest.as_slice());
    match parse_unsigned(value.as_slice(), usize::MAX as u64) {
        Some(n) => Some(n as usize),
        None => Some(0),
    }
}

/// The body's length by a request's header lines.
pub fn body_length(lines: &[String]) -> (r: usize)
    ensures
        r == length_by(lines@, lines@.len() as int),
{
    let mut len: usize = 0;
    for i in 0..lines.len()
        invariant
            len == length_by(lines@, i as int),
    {
        if let Some(n) = header_length(lines[i].as_str()) {
            len = n;
        }
    }
    len
}

/// What to answer with.
#[derive(Debug)]
pub struct Reply {
    pub status: &'static str,
    pub mime: &'static str,
    pub body: Vec<u8>,
}

/// What came of a request.
#[derive(Debug)]
pub enum Outcome {
    /// The page was asked for; its template.
    Page(String),
    /// The wallpaper was asked for: what could be read of it, and the
    /// extension of its name.
    Wallpaper(Option<Vec<u8>>, Option<String>),
    /// The block was asked for; the configuration file's text, if it could be
    /// read.
    Existing(Option<String>),
    /// The block was asked for, and has been taken out already, if there is
    /// one.
    Block(Option<String>),
    /// Fewer bytes came than the headers promised.
    Short,
    /// A block was saved, or why it was not.
    Saved(Option<String>),
    /// Nothing that is served.
    Unknown,
}

/// An answer by value: its status, its type and its body.
pub open spec fn reply_view(r: Reply) -> (Seq<char>, Seq<char>, Seq<u8>) {
    (r.status@, r.mime@, r.body@)
}

/// The type of an image, by the extension of its name.
pub open spec fn image_type(extension: Option<Seq<char>>) -> Seq<char> {
    if extension == Some("png"@) {
        "image/png"@
    } else if extension == Some("webp"@) {
        "image/webp"@
    } else if extension == Some("gif"@) {
        "image/gif"@
    } else {
        "image/jpeg"@
    }
}

/// The answer to what came of a request.
pub open spec fn answer_to(outcome: Outcome, key: Seq<char>) -> (Seq<char>, Seq<char>, Seq<u8>) {
    match outcome {
        Outcome::Page(template) => (
            "200 OK"@,
            "text/html; charset=utf-8"@,
            encode_utf8(replaced(template@, "__KEY__"@, key)),
        ),
        Outcome::Wallpaper(Some(bytes), extension) => (
            "200 OK"@,
            image_type(text_view(extension)),
            bytes@,
        ),
        Outcome::Wallpaper(None, _) => (
            "404 Not Found"@,
            "text/plain"@,
            encode_utf8("no wallpaper"@),
        ),
        Outcome::Existing(text) => (
            "200 OK"@,
            "text/plain; charset=utf-8"@,
            match text {
                Some(t) => match existing(t@, key) {
                    Some(block) => encode_utf8(block),
                    None => Seq::empty(),
                },
                None => Seq::empty(),
            },
        ),
        Outcome::Block(block) => (
            "200 OK"@,
            "text/plain; charset=utf-8"@,
            match block {
                Some(b) => encode_utf8(b@),
                None => Seq::empty(),
            },
        ),
        Outcome::Short => ("400 Bad Request"@, "text/plain"@, encode_utf8("short body"@)),
        Outcome::Saved(None) => ("200 OK"@, "text/plain"@, encode_utf8("saved"@)),
        Outcome::Saved(Some(error)) => (
            "500 Server Error"@,
            "text/plain"@,
            encode_utf8(error@),
        ),
        Outcome::Unknown => ("404 Not Found"@, "text/plain"@, encode_utf8("no"@)),
    }
}

fn bytes_of(text: &str) -> (out: Vec<u8>)
    ensures
        out@ == encode_utf8(text@),
{
    copy_bytes(text.as_bytes())
}

fn mime_of(extension: &Option<String>) -> (r: &'static str)
    ensures
        r@ == image_type(text_view(*extension)),
{
    if let Some(e) = extension {
        if same(e.as_str(), "png") {
            return "image/png";
        }
        if same(e.as_str(), "webp") {
            return "image/webp";
        }
        if same(e.as_str(), "gif") {
            return "image/gif";
        }
    }
    "image/jpeg"
}

/// The answer to what came of a request.
pub fn answer(outcome: Outcome, key: &str) -> (r: Reply)
    ensures
        reply_view(r) == answer_to(outcome, key@),
{
    match outcome {
        Outcome::Page(template) => {
            proof {
                reveal_strlit("__KEY__");
            }
            let page = replace(template.as_str(), "__KEY__", key);
            Reply {
                status: "200 OK",
                mime: "text/html; charset=utf-8",
                body: bytes_of(page.as_str()),
            }
        },
        Outcome::Wallpaper(Some(bytes), extension) => Reply {
            status: "200 OK",
            mime: mime_of(&extension),
            body: bytes,
        },
        Outcome::Wallpaper(None, _) => Reply {
            status: "404 Not Found",
            mime: "text/plain",
            body: bytes_of("no wallpaper"),
        },
        Outcome::Existing(text) => {
            let mut body: Vec<u8> = Vec::new();
            assert(body@ =~= Seq::<u8>::empty());
            if let Some(t) = &text {
                if let Some(block) = existing_block(t.as_str(), key) {
                    body = bytes_of(block.as_str());
                }
            }
            Reply { status: "200 OK", mime: "text/plain; charset=utf-8", body }
        },
        Outcome::Block(block) => {
            let mut body: Vec<u8> = Vec::new();
            assert(body@ =~= Seq::<u8>::empty());
            if let Some(b) = &block {
                body = bytes_of(b.as_str());
            }
            Reply { status: "200 OK", mime: "text/plain; charset=utf-8", body }
        },
        Outcome::Short => Reply {
            status: "400 Bad Request",
            mime: "text/plain",
            body: bytes_of("short body"),
        },
        Outcome::Saved(None) => Reply {
            status: "200 OK",
            mime: "text/plain",
            body: bytes_of("saved"),
        },
        Outcome::Saved(Some(error)) => Reply {
            status: "500 Server Error",
            mime: "text/plain",
            body: bytes_of(error.as_str()),
        },
        Outcome::Unknown => Reply {
            status: "404 Not Found",
            mime: "text/plain",
            body: bytes_of("no"),
        },
    }
}

/// What goes before an answer's body.
pub open spec fn head_of(status: Seq<char>, mime: Seq<char>, length: nat) -> Seq<char> {
    "HTTP/1.1 "@ + status + "\r\nContent-Type: "@ + mime + "\r\nContent-Length: "@ + shown(length)
        + "\r\nConnection: close\r\n\r\n"@
}

/// What goes before the body of `reply`.
pub fn reply_head(reply: &Reply) -> (out: String)
    ensures
        out@ == head_of(reply.status@, reply.mime@, reply.body@.len()),
{
    let mut out = chars("HTTP/1.1 ");
    append_str(&mut out, reply.status);
    append_str(&mut out, "\r\nContent-Type: ");
    append_str(&mut out, reply.mime);
    append_str(&mut out, "\r\nContent-Length: ");
    let n = show(reply.body.len() as u64);
    append(&mut out, n.as_slice());
    append_str(&mut out, "\r\nConnection: close\r\n\r\n");
    string_of(out.as_slice())
}

/// A block's first line is the key between `[curves.` and `]`.
pub proof fn a_header_holds_its_key(key: Seq<char>)
    ensures
        header(key) == seq!['[', 'c', 'u', 'r', 'v', 'e', 's', '.'] + key + seq![']'],
{
    reveal_strlit("[curves.");
    reveal_strlit("]");
    assert("[curves."@ =~= seq!['[', 'c', 'u', 'r', 'v', 'e', 's', '.']);
    assert("]"@ =~= seq![']']);
}

/// A block is what stands between its first line and the next line that opens a
/// section, or the end of the text; no line in it opens one.
pub proof fn a_block_ends_at_the_next_section(text: Seq<char>, key: Seq<char>) -> (at: int)
    requires
        existing(text, key) is Some,
    ensures
        ({
            let (h, block) = (header(key), existing(text, key)->0);
            let end = at + h.len() + block.len();
            &&& 0 <= at && end <= text.len()
            &&& text.subrange(at, at + h.len()) == h
            &&& text.subrange(at + h.len(), end) == block
            &&& end < text.len() ==> text[end] == '[' && end > 0 && text[end - 1] == '\n'
            &&& forall|i: int|
                0 <= i && i + 1 < block.len() ==> !(#[trigger] block[i] == '\n' && block[i + 1]
                    == '[')
        }),
{
    reveal_strlit("\n[");
    let h = header(key);
    let at = index_of(text, h, 0)->0;
    let from = at + h.len();
    let open = "\n["@;
    index_in_range(text, h, 0);
    index_in_range(text, open, from);
    let end = block_end(text, from);
    let block = existing(text, key)->0;
    if let Some(i) = index_of(text, open, from) {
        assert(text.subrange(i, i + 2)[0] == '\n' && text.subrange(i, i + 2)[1] == '[');
        assert(first_from(text, open, from, Some(i)));
    }
    assert forall|i: int| 0 <= i && i + 1 < block.len() implies !(#[trigger] block[i] == '\n'
        && block[i + 1] == '[') by {
        if block[i] == '\n' && block[i + 1] == '[' {
            let j = from + i;
            assert(text[j] == '\n' && text[j + 1] == '[');
            assert(text.subrange(j, j + 2) =~= open);
            assert(occurs_at(text, open, j));
            if index_of(text, open, from) is None {
                none_occurs(text, open, from, j);
            }
        }
    }
    at
}

/// A block that is put behind a text is parted from it by an empty line, and by
/// no more than it takes.
pub proof fn an_empty_line_parts_a_new_block(text: Seq<char>)
    ensures
        ({
            let all = text + gap(text);
            all.len() >= 2 && all.last() == '\n' && all[all.len() - 2] == '\n'
        }),
        gap(text).len() <= 2,
        text.len() >= 2 && text.last() == '\n' && text[text.len() - 2] == '\n' ==> gap(text).len()
            == 0,
        text.len() >= 2 && text.last() == '\n' && text[text.len() - 2] != '\n' ==> gap(text).len()
            == 1,
{
}

/// A written block is its first line, the block without the white space at its
/// end, and a line end.
pub proof fn a_section_is_its_lines(key: Seq<char>, block: Seq<char>)
    ensures
        section(key, block) == header(key) + seq!['\n'] + trim_end(block) + seq!['\n'],
{
    reveal_strlit("\n");
    assert("\n"@ =~= seq!['\n']);
}

/// Where the home directory is known, the editor finds the configuration where
/// the visualiser keeps it: below the configuration directory.
pub proof fn the_editor_finds_the_configuration(env: Environment)
    ensures
        env.home is Some || env.config_home is Some ==> config_file(env) == below(
            env.config_path(),
            encode_utf8("cavawall/config.toml"@),
        ),
{
}

/// The page, the wallpaper and the block are read, a block is saved, and
/// nothing else is served: reading never saves, and saving never reads.
pub proof fn only_four_things_are_served(method: Seq<char>, path: Seq<char>)
    ensures
        route_of(seq!['G', 'E', 'T'], seq!['/']) == Route::Page,
        method == seq!['G', 'E', 'T'] ==> route_of(method, path) != Route::Save,
        method == seq!['P', 'O', 'S', 'T'] ==> route_of(method, path) == Route::Save || route_of(
            method,
            path,
        ) == Route::Unknown,
        method != seq!['G', 'E', 'T'] && method != seq!['P', 'O', 'S', 'T'] ==> route_of(
            method,
            path,
        ) == Route::Unknown,
        route_of(method, path) == Route::Wallpaper ==> path == seq![
            '/', 'w', 'a', 'l', 'l', 'p', 'a', 'p', 'e', 'r',
        ],
        route_of(method, path) == Route::Existing ==> path == seq![
            '/', 'e', 'x', 'i', 's', 't', 'i', 'n', 'g',
        ],
        route_of(seq!['P', 'O', 'S', 'T'], path) == Route::Save <==> path == seq![
            '/', 's', 'a', 'v', 'e',
        ],
        route_of(
            seq!['G', 'E', 'T'],
            seq!['/', 'w', 'a', 'l', 'l', 'p', 'a', 'p', 'e', 'r'],
        ) == Route::Wallpaper,
        route_of(
            seq!['G', 'E', 'T'],
            seq!['/', 'e', 'x', 'i', 's', 't', 'i', 'n', 'g'],
        ) == Route::Existing,
{
    reveal_strlit("GET");
    reveal_strlit("POST");
    reveal_strlit("/");
    reveal_strlit("/wallpaper");
    reveal_strlit("/existing");
    reveal_strlit("/save");
    let (get, post) = (seq!['G', 'E', 'T'], seq!['P', 'O', 'S', 'T']);
    assert("GET"@ =~= get);
    assert("POST"@ =~= post);
    assert(get.len() == 3 && post.len() == 4);
    assert("/"@ =~= seq!['/']);
    assert("/wallpaper"@ =~= seq!['/', 'w', 'a', 'l', 'l', 'p', 'a', 'p', 'e', 'r']);
    assert("/existing"@ =~= seq!['/', 'e', 'x', 'i', 's', 't', 'i', 'n', 'g']);
    assert("/save"@ =~= seq!['/', 's', 'a', 'v', 'e']);
    assert("/"@.len() == 1 && "/wallpaper"@.len() == 10 && "/existing"@.len() == 9);
}

/// The name of the header that gives a body's length, small.
pub open spec fn length_name() -> Seq<char> {
    seq!['c', 'o', 'n', 't', 'e', 'n', 't', '-', 'l', 'e', 'n', 'g', 't', 'h', ':']
}

proof fn lower_case_of_digits(s: Seq<char>)
    requires
        forall|i: int| 0 <= i < s.len() ==> 48 <= #[trigger] s[i] as int <= 57,
    ensures
        lower_case(s) == s,
{
    assert(lower_case(s) =~= s);
}

proof fn trim_start_of(blank: Seq<char>, s: Seq<char>)
    requires
        forall|i: int| 0 <= i < blank.len() ==> white(#[trigger] blank[i]),
        s.len() == 0 || !white(s[0]),
    ensures
        trim_start(blank + s) == s,
    decreases blank.len(),
{
    if blank.len() > 0 {
        trim_start_of(blank.drop_first(), s);
        assert((blank + s).drop_first() =~= blank.drop_first() + s);
        assert((blank + s)[0] == blank[0]);
    } else {
        assert(blank + s =~= s);
    }
}

proof fn trim_end_of(s: Seq<char>, blank: Seq<char>)
    requires
        forall|i: int| 0 <= i < blank.len() ==> white(#[trigger] blank[i]),
        s.len() == 0 || !white(s.last()),
    ensures
        trim_end(s + blank) == s,
    decreases blank.len(),
{
    if blank.len() > 0 {
        trim_end_of(s, blank.drop_last());
        assert((s + blank).drop_last() =~= s + blank.drop_last());
        assert((s + blank).last() == blank.last());
    } else {
        assert(s + blank =~= s);
    }
}

/// A header line that gives the length gives the number behind its name, in
/// whatever case the name is written and whatever blanks are round the number.
pub proof fn a_length_reads_back(name: Seq<char>, a: Seq<char>, n: nat, b: Seq<char>)
    requires
        name.len() == 15,
        forall|i: int|
            0 <= i < 15 ==> (#[trigger] name[i]) as int == length_name()[i] as int || (97
                <= length_name()[i] as int <= 122 && name[i] as int == length_name()[i] as int
                - 32),
        n <= usize::MAX,
        forall|i: int|
            0 <= i < a.len() ==> (#[trigger] a[i]) as int == 32 || a[i] as int == 9 || a[i] as int
                == 13 || a[i] as int == 10,
        forall|i: int|
            0 <= i < b.len() ==> (#[trigger] b[i]) as int == 32 || b[i] as int == 9 || b[i] as int
                == 13 || b[i] as int == 10,
    ensures
        length_in(name + a + shown(n) + b) == Some(n),
{
    reveal_strlit("content-length:");
    let digits = shown(n);
    let line = name + a + digits + b;
    let s = lower_case(line);
    let small = "content-length:"@;
    assert(small =~= length_name());
    crate::text::shown_is_decimal(n);
    crate::text::digits_count_by_tens(Seq::empty(), '0', n);
    assert(lower_case(name) =~= small) by {
        assert forall|i: int| 0 <= i < 15 implies lower_case(name)[i] == small[i] by {
            assert(name[i] as int == length_name()[i] as int || (97 <= length_name()[i] as int
                <= 122 && name[i] as int == length_name()[i] as int - 32));
            assert(lower(name[i]) as int == small[i] as int);
        }
    }
    lower_case_of_digits(digits);
    assert(lower_case(a) =~= a);
    assert(lower_case(b) =~= b);
    assert(s =~= small + (a + (digits + b)));
    assert(s.subrange(0, 15) =~= small);
    assert(s.skip(15) =~= a + (digits + b));
    assert forall|i: int| 0 <= i < a.len() implies white(#[trigger] a[i]) by {}
    assert forall|i: int| 0 <= i < b.len() implies white(#[trigger] b[i]) by {}
    assert(!white(digits[0]) && !white(digits.last()));
    assert((digits + b)[0] == digits[0]);
    trim_start_of(a, digits + b);
    trim_end_of(digits, b);
    crate::text::shown_reads_back(n, usize::MAX as nat);
}

/// A line that does not start with that name gives no length.
pub proof fn another_header_gives_no_length(line: Seq<char>, i: int)
    requires
        0 <= i < 15,
        line.len() <= i || ((line[i]) as int != length_name()[i] as int && (line[i]) as int + 32
            != length_name()[i] as int),
    ensures
        length_in(line) is None,
{
    reveal_strlit("content-length:");
    let s = lower_case(line);
    let small = "content-length:"@;
    assert(small =~= length_name());
    if occurs_at(s, small, 0) {
        assert(s.subrange(0, 15)[i] == s[i]);
        assert(s[i] == lower(line[i]));
    }
}

/// The last length that is given counts, and none is nought.
pub proof fn the_last_length_counts(lines: Seq<String>, l: String)
    ensures
        length_by(Seq::<String>::empty(), 0) == 0,
        length_in(l@) matches Some(n) ==> length_by(lines.push(l), lines.len() as int + 1) == n,
        length_in(l@) is None ==> length_by(lines.push(l), lines.len() as int + 1) == length_by(
            lines,
            lines.len() as int,
        ),
{
    length_by_prefix(lines, lines.push(l), lines.len() as int);
}

proof fn length_by_prefix(a: Seq<String>, b: Seq<String>, n: int)
    requires
        0 <= n <= a.len(),
        n <= b.len(),
        forall|i: int| 0 <= i < n ==> #[trigger] a[i] == b[i],
    ensures
        length_by(a, n) == length_by(b, n),
    decreases n,
{
    if n > 0 {
        length_by_prefix(a, b, n - 1);
        assert(a[n - 1] == b[n - 1]);
    }
}

/// The type of an image is `image/` and its extension for PNG, WebP and GIF
/// files, and `image/jpeg` for every other.
pub proof fn an_image_is_served_as_what_it_is(extension: Seq<char>)
    ensures
        extension == seq!['p', 'n', 'g'] || extension == seq!['w', 'e', 'b', 'p'] || extension
            == seq!['g', 'i', 'f'] ==> image_type(Some(extension)) == seq![
            'i', 'm', 'a', 'g', 'e', '/',
        ] + extension,
        extension != seq!['p', 'n', 'g'] && extension != seq!['w', 'e', 'b', 'p'] && extension
            != seq!['g', 'i', 'f'] ==> image_type(Some(extension)) == seq![
            'i', 'm', 'a', 'g', 'e', '/', 'j', 'p', 'e', 'g',
        ],
        image_type(None) == seq!['i', 'm', 'a', 'g', 'e', '/', 'j', 'p', 'e', 'g'],
{
    reveal_strlit("png");
    reveal_strlit("webp");
    reveal_strlit("gif");
    reveal_strlit("image/png");
    reveal_strlit("image/webp");
    reveal_strlit("image/gif");
    reveal_strlit("image/jpeg");
    let head = seq!['i', 'm', 'a', 'g', 'e', '/'];
    assert("png"@ =~= seq!['p', 'n', 'g']);
    assert("webp"@ =~= seq!['w', 'e', 'b', 'p']);
    assert("gif"@ =~= seq!['g', 'i', 'f']);
    assert("png"@[0] == 'p' && "gif"@[0] == 'g' && "webp"@[0] == 'w');
    assert("image/png"@ =~= head + "png"@);
    assert("image/webp"@ =~= head + "webp"@);
    assert("image/gif"@ =~= head + "gif"@);
    assert("image/jpeg"@ =~= seq!['i', 'm', 'a', 'g', 'e', '/', 'j', 'p', 'e', 'g']);
}

/// A success is answered with 200, what is not there with 404, a body cut short
/// with 400, a save that failed with 500 and the reason.
pub proof fn an_answer_tells_how_it_went(outcome: Outcome, key: Seq<char>)
    ensures
        ({
            let (status, mime, body) = answer_to(outcome, key);
            let code = status.take(3);
            match outcome {
                Outcome::Page(template) => {
                    &&& code == seq!['2', '0', '0']
                    &&& body == encode_utf8(replaced(template@, "__KEY__"@, key))
                },
                Outcome::Wallpaper(bytes, _) => if bytes is Some {
                    code == seq!['2', '0', '0'] && body == bytes->0@
                } else {
                    code == seq!['4', '0', '4']
                },
                Outcome::Existing(text) => {
                    &&& code == seq!['2', '0', '0']
                    &&& text is None ==> body.len() == 0
                    &&& text is Some && existing(text->0@, key) is None ==> body.len() == 0
                    &&& text is Some && existing(text->0@, key) is Some ==> body == encode_utf8(
                        existing(text->0@, key)->0,
                    )
                },
                Outcome::Block(block) => {
                    &&& code == seq!['2', '0', '0']
                    &&& block is None ==> body.len() == 0
                    &&& block is Some ==> body == encode_utf8(block->0@)
                },
                Outcome::Short => code == seq!['4', '0', '0'],
                Outcome::Saved(error) => if error is None {
                    code == seq!['2', '0', '0']
                } else {
                    code == seq!['5', '0', '0'] && body == encode_utf8(error->0@)
                },
                Outcome::Unknown => code == seq!['4', '0', '4'],
            }
        }),
{
    reveal_strlit("200 OK");
    reveal_strlit("404 Not Found");
    reveal_strlit("400 Bad Request");
    reveal_strlit("500 Server Error");
    reveal_strlit("__KEY__");
    assert("200 OK"@.take(3) =~= seq!['2', '0', '0']);
    assert("404 Not Found"@.take(3) =~= seq!['4', '0', '4']);
    assert("400 Bad Request"@.take(3) =~= seq!['4', '0', '0']);
    assert("500 Server Error"@.take(3) =~= seq!['5', '0', '0']);
}

/// An answer's head states its status, its type and its length, and the length
/// reads back as the body's; an empty line ends it.
pub proof fn a_head_states_the_length(status: Seq<char>, mime: Seq<char>, length: nat)
    requires
        length <= usize::MAX,
    ensures
        ({
            let line = "Content-Length: "@ + shown(length) + "\r\n"@;
            &&& length_in(line) == Some(length)
            &&& head_of(status, mime, length) == "HTTP/1.1 "@ + status + "\r\n"@
                + "Content-Type: "@ + mime + "\r\n"@ + line + "Connection: close"@ + "\r\n"@
                + "\r\n"@
        }),
{
    reveal_strlit("Content-Length: ");
    reveal_strlit("\r\n");
    reveal_strlit("\r\nContent-Type: ");
    reveal_strlit("Content-Type: ");
    reveal_strlit("\r\nContent-Length: ");
    reveal_strlit("Connection: close");
    reveal_strlit("\r\nConnection: close\r\n\r\n");
    let all = "Content-Length: "@;
    let name = all.take(15);
    let line = all + shown(length) + "\r\n"@;
    assert(all =~= name + seq![' ']);
    assert(line =~= name + seq![' '] + shown(length) + "\r\n"@);
    a_length_reads_back(name, seq![' '], length, "\r\n"@);
    assert(head_of(status, mime, length) =~= "HTTP/1.1 "@ + status + "\r\n"@ + "Content-Type: "@
        + mime + "\r\n"@ + line + "Connection: close"@ + "\r\n"@ + "\r\n"@);
}

/// What follows a block's first line is all of the text behind the first place
/// where that line stands.
pub proof fn everything_behind_the_header_is_taken(a: Seq<char>, b: Seq<char>, key: Seq<char>)
    requires
        forall|j: int| 0 <= j < a.len() ==> !#[trigger] occurs_at(a + header(key) + b, header(key), j),
    ensures
        behind_header(a + header(key) + b, key) == Some(b),
{
    let h = header(key);
    let text = a + h + b;
    assert(text.subrange(a.len() as int, a.len() as int + h.len()) =~= h);
    assert(occurs_at(text, h, a.len() as int));
    assert(first_from(text, h, 0, Some(a.len() as int)));
    index_is(text, h, 0, Some(a.len() as int));
    assert(text.skip(a.len() as int + h.len()) =~= b);
}

/// A line ends the headers exactly where it holds nothing but white space.
pub proof fn only_a_blank_line_ends_the_headers(line: Seq<char>)
    ensures
        blank(line) <==> forall|i: int| 0 <= i < line.len() ==> white(#[trigger] line[i]),
{
    let a = crate::text::trimming_takes_white_space_alone(line);
    let t = trim(line);
    if t.len() == 0 {
        assert forall|i: int| 0 <= i < line.len() implies white(#[trigger] line[i]) by {
            if i >= a {
                assert(a + t.len() <= i);
            }
        }
    } else {
        assert(t[0] == line[a]);
        assert(!white(line[a]));
    }
}

/// A header of that name always gives a length: nought where what it gives is
/// no number.
pub proof fn what_is_no_number_counts_as_nought(line: Seq<char>, rest: Seq<char>)
    requires
        line == length_name() + rest,
        exists|i: int|
            0 <= i < rest.len() && !white(#[trigger] rest[i]) && rest[i] != '+' && !(48
                <= rest[i] as int <= 57),
    ensures
        length_in(line) == Some(0nat),
{
    reveal_strlit("content-length:");
    let s = lower_case(line);
    let small = "content-length:"@;
    assert(small =~= length_name());
    assert(s.subrange(0, 15) =~= small) by {
        assert forall|k: int| 0 <= k < 15 implies s[k] == small[k] by {
            assert(line[k] == length_name()[k]);
        }
    }
    let tail = s.skip(15);
    let i = choose|i: int|
        0 <= i < rest.len() && !white(#[trigger] rest[i]) && rest[i] != '+' && !(48
            <= rest[i] as int <= 57);
    assert(tail[i] == lower(rest[i]));
    let a = crate::text::trimming_takes_white_space_alone(tail);
    let t = trim(tail);
    assert(!white(tail[i]));
    assert(a <= i < a + t.len());
    assert(t[i - a] == tail[i]);
    crate::text::only_digits_are_a_number(t, usize::MAX as nat);
    if t[0] == '+' {
        crate::text::only_digits_are_a_number(t.drop_first(), usize::MAX as nat);
        assert(i - a > 0);
        assert(t.drop_first()[i - a - 1] == t[i - a]);
    }
}

} // verus!
