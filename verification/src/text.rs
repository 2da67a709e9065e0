//! Text as the sequence of its characters.
//!
//! A `str` is viewed as a `Seq<char>`. Searching, trimming and ordering are
//! stated over that sequence; UTF-8 keeps the order of characters and the
//! positions of matches, so each statement holds of the encoded bytes too.
use vstd::prelude::*;

verus! {

/// `String::push`: one character is appended, nothing else changes.
pub assume_specification[ String::push ](text: &mut String, c: char)
    ensures
        final(text)@ == old(text)@.push(c),
;

/// The characters of `text`, in order.
pub fn chars(text: &str) -> (out: Vec<char>)
    ensures
        out@ == text@,
{
    let mut out: Vec<char> = Vec::new();
    for c in it: text.chars()
        invariant
            it.seq() == text@,
            out@ == text@.take(it.index() as int),
    {
        out.push(c);
    }
    assert(text@.take(text@.len() as int) == text@);
    out
}

/// The string that `cs` spells.
pub fn string_of(cs: &[char]) -> (out: String)
    ensures
        out@ == cs@,
{
    let mut out = String::new();
    for i in 0..cs.len()
        invariant
            out@ == cs@.take(i as int),
    {
        out.push(cs[i]);
    }
    assert(cs@.take(cs@.len() as int) == cs@);
    out
}

/// An optional text, by value.
pub open spec fn text_view(t: Option<String>) -> Option<Seq<char>> {
    match t {
        Some(s) => Some(s@),
        None => None,
    }
}

/// A text of one's own.
pub fn owned(text: &str) -> (out: String)
    ensures
        out@ == text@,
{
    let cs = chars(text);
    string_of(cs.as_slice())
}

/// Whether two texts are the same.
pub fn same(a: &str, b: &str) -> (r: bool)
    ensures
        r == (a@ == b@),
{
    let x = chars(a);
    let y = chars(b);
    same_chars(x.as_slice(), y.as_slice())
}

/// Whether two character sequences are the same.
pub fn same_chars(a: &[char], b: &[char]) -> (r: bool)
    ensures
        r == (a@ == b@),
{
    if a.len() != b.len() {
        return false;
    }
    for i in 0..a.len()
        invariant
            a@.len() == b@.len(),
            forall|j: int| 0 <= j < i ==> a@[j] == b@[j],
    {
        if a[i] != b[i] {
            return false;
        }
    }
    assert(a@ =~= b@);
    true
}

/// The scalar value of a character.
pub fn code(c: char) -> (r: u32)
    ensures
        r == c as int,
{
    c as u32
}

/// `a` sorts strictly before `b`: a proper prefix first, else by the first
/// character that differs.
pub open spec fn before(a: Seq<char>, b: Seq<char>) -> bool
    decreases a.len(),
{
    if b.len() == 0 {
        false
    } else if a.len() == 0 {
        true
    } else if a[0] != b[0] {
        (a[0] as int) < (b[0] as int)
    } else {
        before(a.drop_first(), b.drop_first())
    }
}

/// Whether `a` sorts strictly before `b`.
pub fn is_before(a: &str, b: &str) -> (r: bool)
    ensures
        r == before(a@, b@),
{
    let x = chars(a);
    let y = chars(b);
    let mut i: usize = 0;
    assert(x@.skip(0) == x@ && y@.skip(0) == y@);
    while i < x.len() && i < y.len() && x[i] == y[i]
        invariant
            x@ == a@,
            y@ == b@,
            i <= x@.len(),
            i <= y@.len(),
            before(a@, b@) == before(x@.skip(i as int), y@.skip(i as int)),
        decreases x@.len() - i,
    {
        assert(x@.skip(i as int).drop_first() == x@.skip(i + 1));
        assert(y@.skip(i as int).drop_first() == y@.skip(i + 1));
        i += 1;
    }
    i < y.len() && (i == x.len() || code(x[i]) < code(y[i]))
}

/// No text sorts before itself.
pub proof fn before_irreflexive(a: Seq<char>)
    ensures
        !before(a, a),
    decreases a.len(),
{
    if a.len() > 0 {
        before_irreflexive(a.drop_first());
    }
}

/// The order of texts chains.
pub proof fn before_transitive(a: Seq<char>, b: Seq<char>, c: Seq<char>)
    requires
        before(a, b),
        before(b, c),
    ensures
        before(a, c),
    decreases a.len(),
{
    if a.len() > 0 && a[0] == b[0] && b[0] == c[0] {
        before_transitive(a.drop_first(), b.drop_first(), c.drop_first());
    }
}

/// Of two different texts one sorts before the other.
pub proof fn before_total(a: Seq<char>, b: Seq<char>)
    ensures
        a == b || before(a, b) || before(b, a),
    decreases a.len(),
{
    if a.len() > 0 && b.len() > 0 && a[0] == b[0] {
        before_total(a.drop_first(), b.drop_first());
        if a.drop_first() == b.drop_first() {
            assert(a =~= seq![a[0]] + a.drop_first());
            assert(b =~= seq![b[0]] + b.drop_first());
        }
    } else if a.len() == 0 && b.len() == 0 {
        assert(a =~= b);
    }
}

/// No two texts sort before each other.
pub proof fn before_asymmetric(a: Seq<char>, b: Seq<char>)
    requires
        before(a, b),
    ensures
        !before(b, a),
{
    if before(b, a) {
        before_transitive(a, b, a);
        before_irreflexive(a);
    }
}

/// `needle` stands in `hay` at position `at`.
pub open spec fn occurs_at(hay: Seq<char>, needle: Seq<char>, at: int) -> bool {
    0 <= at && at + needle.len() <= hay.len() && hay.subrange(at, at + needle.len()) == needle
}

/// `found` is the first place at or after `from` where `needle` stands in
/// `hay`, or `None` where there is none.
pub open spec fn first_from(
    hay: Seq<char>,
    needle: Seq<char>,
    from: int,
    found: Option<int>,
) -> bool {
    match found {
        Some(at) => from <= at && occurs_at(hay, needle, at) && forall|j: int|
            from <= j < at ==> !#[trigger] occurs_at(hay, needle, j),
        None => forall|j: int| from <= j ==> !#[trigger] occurs_at(hay, needle, j),
    }
}

/// The first place at or after `from` where `needle` stands in `hay`.
pub open spec fn index_of(hay: Seq<char>, needle: Seq<char>, from: int) -> Option<int> {
    if exists|at: int| #[trigger] first_from(hay, needle, from, Some(at)) {
        Some(choose|at: int| #[trigger] first_from(hay, needle, from, Some(at)))
    } else {
        None
    }
}

/// There is one first place, or none.
pub proof fn index_is(hay: Seq<char>, needle: Seq<char>, from: int, found: Option<int>)
    requires
        first_from(hay, needle, from, found),
    ensures
        index_of(hay, needle, from) == found,
{
    match found {
        Some(at) => {
            let b = index_of(hay, needle, from)->0;
            assert(first_from(hay, needle, from, Some(b)));
            if b < at {
                assert(!occurs_at(hay, needle, b));
            }
            if at < b {
                assert(!occurs_at(hay, needle, at));
            }
        },
        None => {
            if index_of(hay, needle, from) is Some {
                let b = index_of(hay, needle, from)->0;
                assert(first_from(hay, needle, from, Some(b)));
                assert(!occurs_at(hay, needle, b));
            }
        },
    }
}

/// Whether `needle` stands in `hay` at `at`.
pub fn stands_at(hay: &[char], needle: &[char], at: usize) -> (r: bool)
    ensures
        r == occurs_at(hay@, needle@, at as int),
{
    let total: usize = hay.len();
    if at > total || needle.len() > total - at {
        return false;
    }
    for k in 0..needle.len()
        invariant
            at + needle@.len() <= total == hay@.len(),
            forall|j: int| 0 <= j < k ==> hay@[at + j] == needle@[j],
    {
        if hay[at + k] != needle[k] {
            assert(hay@.subrange(at as int, at + needle@.len())[k as int] != needle@[k as int]);
            return false;
        }
    }
    assert(hay@.subrange(at as int, at + needle@.len()) =~= needle@);
    true
}

/// The first place at or after `from` where `needle` stands in `hay`.
pub fn find(hay: &[char], needle: &[char], from: usize) -> (r: Option<usize>)
    ensures
        index_of(hay@, needle@, from as int) == match r {
            Some(at) => Some(at as int),
            None => None,
        },
        r matches Some(at) ==> from <= at && at + needle@.len() <= hay@.len(),
{
    if from > hay.len() {
        proof {
            index_is(hay@, needle@, from as int, None);
        }
        return None;
    }
    let mut i: usize = from;
    loop
        invariant
            from <= i <= hay@.len(),
            forall|j: int| from <= j < i ==> !#[trigger] occurs_at(hay@, needle@, j),
        decreases hay@.len() - i,
    {
        if stands_at(hay, needle, i) {
            proof {
                index_is(hay@, needle@, from as int, Some(i as int));
            }
            return Some(i);
        }
        if i == hay.len() {
            proof {
                index_is(hay@, needle@, from as int, None);
            }
            return None;
        }
        i += 1;
    }
}

/// The characters with the Unicode property White_Space.
pub open spec fn white(c: char) -> bool {
    let u = c as int;
    ||| 0x09 <= u <= 0x0d
    ||| u == 0x20
    ||| u == 0x85
    ||| u == 0xa0
    ||| u == 0x1680
    ||| 0x2000 <= u <= 0x200a
    ||| u == 0x2028
    ||| u == 0x2029
    ||| u == 0x202f
    ||| u == 0x205f
    ||| u == 0x3000
}

/// Whether `c` has the Unicode property White_Space.
pub fn is_white(c: char) -> (r: bool)
    ensures
        r == white(c),
{
    let u = code(c);
    (0x09 <= u && u <= 0x0d) || u == 0x20 || u == 0x85 || u == 0xa0 || u == 0x1680 || (0x2000 <= u
        && u <= 0x200a) || u == 0x2028 || u == 0x2029 || u == 0x202f || u == 0x205f || u == 0x3000
}

/// `s` without its trailing white space.
pub open spec fn trim_end(s: Seq<char>) -> Seq<char>
    decreases s.len(),
{
    if s.len() > 0 && white(s.last()) {
        trim_end(s.drop_last())
    } else {
        s
    }
}

/// `s` without its leading white space.
pub open spec fn trim_start(s: Seq<char>) -> Seq<char>
    decreases s.len(),
{
    if s.len() > 0 && white(s[0]) {
        trim_start(s.drop_first())
    } else {
        s
    }
}

/// `s` without white space at either end.
pub open spec fn trim(s: Seq<char>) -> Seq<char> {
    trim_end(trim_start(s))
}

/// How much of `cs` is left when its trailing white space goes.
pub fn trimmed_len(cs: &[char]) -> (n: usize)
    ensures
        n <= cs@.len(),
        trim_end(cs@) == cs@.take(n as int),
{
    let mut n: usize = cs.len();
    assert(cs@.take(n as int) == cs@);
    while n > 0 && is_white(cs[n - 1])
        invariant
            n <= cs@.len(),
            trim_end(cs@) == trim_end(cs@.take(n as int)),
        decreases n,
    {
        assert(cs@.take(n as int).drop_last() == cs@.take(n - 1));
        n -= 1;
    }
    n
}

/// How many white characters `cs` starts with.
pub fn leading_white(cs: &[char]) -> (n: usize)
    ensures
        n <= cs@.len(),
        trim_start(cs@) == cs@.skip(n as int),
{
    let mut n: usize = 0;
    assert(cs@.skip(0) == cs@);
    while n < cs.len() && is_white(cs[n])
        invariant
            n <= cs@.len(),
            trim_start(cs@) == trim_start(cs@.skip(n as int)),
        decreases cs@.len() - n,
    {
        assert(cs@.skip(n as int).drop_first() == cs@.skip(n + 1));
        n += 1;
    }
    n
}

/// `cs` without white space at either end.
pub fn trimmed(cs: &[char]) -> (out: Vec<char>)
    ensures
        out@ == trim(cs@),
{
    let a = leading_white(cs);
    let tail = copied(cs, a, cs.len());
    assert(tail@ == cs@.skip(a as int));
    let n = trimmed_len(tail.as_slice());
    copied(tail.as_slice(), 0, n)
}

/// The characters of `cs` from `from` up to `to`.
pub fn copied(cs: &[char], from: usize, to: usize) -> (out: Vec<char>)
    requires
        from <= to <= cs@.len(),
    ensures
        out@ == cs@.subrange(from as int, to as int),
{
    let mut out: Vec<char> = Vec::new();
    for i in from..to
        invariant
            from <= to <= cs@.len(),
            out@ == cs@.subrange(from as int, i as int),
    {
        out.push(cs[i]);
    }
    out
}

/// Puts `tail` behind `cs`.
pub fn append(cs: &mut Vec<char>, tail: &[char])
    ensures
        final(cs)@ == old(cs)@ + tail@,
{
    let ghost head = cs@;
    for i in 0..tail.len()
        invariant
            cs@ == head + tail@.take(i as int),
    {
        cs.push(tail[i]);
        assert(tail@.take(i + 1) =~= tail@.take(i as int).push(tail@[i as int]));
    }
    assert(tail@.take(tail@.len() as int) =~= tail@);
}

/// Puts the characters of `tail` behind `cs`.
pub fn append_str(cs: &mut Vec<char>, tail: &str)
    ensures
        final(cs)@ == old(cs)@ + tail@,
{
    let t = chars(tail);
    append(cs, t.as_slice());
}

/// `s` with each `needle`, found from the left, replaced by `with`.
pub open spec fn replaced(s: Seq<char>, needle: Seq<char>, with: Seq<char>) -> Seq<char>
    decreases s.len(),
{
    if s.len() == 0 || needle.len() == 0 {
        s
    } else if occurs_at(s, needle, 0) {
        with + replaced(s.skip(needle.len() as int), needle, with)
    } else {
        seq![s[0]] + replaced(s.drop_first(), needle, with)
    }
}

/// Replaces each `needle` in `text` by `with`.
pub fn replace(text: &str, needle: &str, with: &str) -> (out: String)
    requires
        needle@.len() > 0,
    ensures
        out@ == replaced(text@, needle@, with@),
{
    let s = chars(text);
    let n = chars(needle);
    let w = chars(with);
    let total: usize = s.len();
    let mut out: Vec<char> = Vec::new();
    let mut i: usize = 0;
    assert(s@.skip(0) =~= s@);
    assert(out@ + replaced(s@, n@, w@) =~= replaced(s@, n@, w@));
    while i < total
        invariant
            n@.len() > 0,
            i <= total == s@.len(),
            out@ + replaced(s@.skip(i as int), n@, w@) == replaced(s@, n@, w@),
        decreases total - i,
    {
        let ghost rest = s@.skip(i as int);
        let ghost kept = out@;
        if stands_at(s.as_slice(), n.as_slice(), i) {
            proof {
                assert(rest.subrange(0, n@.len() as int) =~= s@.subrange(
                    i as int,
                    i + n@.len(),
                ));
                assert(rest.skip(n@.len() as int) =~= s@.skip(i + n@.len()));
                assert(kept + (w@ + replaced(s@.skip(i + n@.len()), n@, w@)) =~= (kept + w@)
                    + replaced(s@.skip(i + n@.len()), n@, w@));
            }
            append(&mut out, w.as_slice());
            i = i + n.len();
        } else {
            proof {
                if occurs_at(rest, n@, 0) {
                    assert(rest.subrange(0, n@.len() as int) =~= s@.subrange(
                        i as int,
                        i + n@.len(),
                    ));
                }
                assert(rest.drop_first() =~= s@.skip(i + 1));
                assert(kept + (seq![rest[0]] + replaced(s@.skip(i + 1), n@, w@)) =~= kept.push(
                    rest[0],
                ) + replaced(s@.skip(i + 1), n@, w@));
            }
            out.push(s[i]);
            i = i + 1;
        }
    }
    assert(s@.skip(i as int) =~= Seq::<char>::empty());
    assert(out@ + Seq::<char>::empty() =~= out@);
    string_of(out.as_slice())
}

/// How many characters `s` has before its first white one.
pub open spec fn word_len(s: Seq<char>) -> nat
    decreases s.len(),
{
    if s.len() == 0 || white(s[0]) {
        0
    } else {
        1 + word_len(s.drop_first())
    }
}

/// The first word of `s`, empty where there is none.
pub open spec fn first_word(s: Seq<char>) -> Seq<char> {
    let t = trim_start(s);
    t.take(word_len(t) as int)
}

/// What follows the first word of `s`.
pub open spec fn after_word(s: Seq<char>) -> Seq<char> {
    let t = trim_start(s);
    t.skip(word_len(t) as int)
}

/// The first word of `cs`, and what follows it.
pub fn split_word(cs: &[char]) -> (r: (Vec<char>, Vec<char>))
    ensures
        r.0@ == first_word(cs@),
        r.1@ == after_word(cs@),
{
    let a = leading_white(cs);
    let ghost t = cs@.skip(a as int);
    let mut n: usize = a;
    assert(t.skip(0) == t);
    while n < cs.len() && !is_white(cs[n])
        invariant
            a <= n <= cs@.len(),
            t == cs@.skip(a as int),
            word_len(t) == (n - a) + word_len(t.skip(n - a)),
        decreases cs@.len() - n,
    {
        assert(t.skip(n - a).drop_first() == t.skip(n + 1 - a));
        n += 1;
    }
    assert(word_len(t) == n - a);
    let word = copied(cs, a, n);
    let rest = copied(cs, n, cs.len());
    assert(word@ =~= t.take(n - a));
    assert(rest@ =~= t.skip(n - a));
    (word, rest)
}

/// `c` is one of `0` to `9`.
pub open spec fn digit(c: char) -> bool {
    '0' <= c <= '9'
}

/// The number that the decimal digits of `s` write.
pub open spec fn decimal(s: Seq<char>) -> nat
    decreases s.len(),
{
    if s.len() == 0 {
        0
    } else {
        decimal(s.drop_last()) * 10 + (s.last() as int - '0' as int) as nat
    }
}

/// A decimal number up to `max`: one digit or more, and nothing else.
pub open spec fn digits_value(s: Seq<char>, max: nat) -> Option<nat> {
    if s.len() > 0 && (forall|i: int| 0 <= i < s.len() ==> digit(#[trigger] s[i])) && decimal(s)
        <= max {
        Some(decimal(s))
    } else {
        None
    }
}

/// An unsigned number as `parse` reads it: digits, with a `+` before them or
/// without.
pub open spec fn unsigned_value(s: Seq<char>, max: nat) -> Option<nat> {
    if s.len() > 0 && s[0] == '+' {
        digits_value(s.drop_first(), max)
    } else {
        digits_value(s, max)
    }
}

proof fn decimal_grows(s: Seq<char>, n: int)
    requires
        0 <= n <= s.len(),
    ensures
        decimal(s.take(n)) <= decimal(s),
    decreases s.len() - n,
{
    if n < s.len() {
        decimal_grows(s, n + 1);
        assert(s.take(n + 1).drop_last() == s.take(n));
    } else {
        assert(s.take(n) == s);
    }
}

/// The number that `cs` writes in decimal digits, if it is at most `max`.
pub fn parse_digits(cs: &[char], max: u64) -> (r: Option<u64>)
    ensures
        r is Some == digits_value(cs@, max as nat) is Some,
        r matches Some(n) ==> digits_value(cs@, max as nat) == Some(n as nat),
{
    if cs.len() == 0 {
        return None;
    }
    let mut value: u64 = 0;
    for i in 0..cs.len()
        invariant
            value == decimal(cs@.take(i as int)),
            value <= max,
            forall|j: int| 0 <= j < i ==> digit(#[trigger] cs@[j]),
    {
        let c = cs[i];
        if !('0' <= c && c <= '9') {
            assert(!digit(cs@[i as int]));
            return None;
        }
        let d: u32 = code(c) - code('0');
        let next: u128 = value as u128 * 10 + d as u128;
        assert(cs@.take(i + 1).drop_last() == cs@.take(i as int));
        assert(next == decimal(cs@.take(i + 1)));
        if next > max as u128 {
            proof {
                decimal_grows(cs@, i + 1);
            }
            return None;
        }
        value = next as u64;
    }
    assert(cs@.take(cs@.len() as int) == cs@);
    Some(value)
}

/// The unsigned number that `cs` writes, if it is at most `max`.
pub fn parse_unsigned(cs: &[char], max: u64) -> (r: Option<u64>)
    ensures
        r is Some == unsigned_value(cs@, max as nat) is Some,
        r matches Some(n) ==> unsigned_value(cs@, max as nat) == Some(n as nat),
{
    if cs.len() > 0 && cs[0] == '+' {
        let rest = copied(cs, 1, cs.len());
        assert(rest@ == cs@.drop_first());
        parse_digits(rest.as_slice(), max)
    } else {
        parse_digits(cs, max)
    }
}

/// The digit `d`.
pub open spec fn digit_char(d: nat) -> char {
    ('0' as int + d) as char
}

/// The decimal digits of `n`.
pub open spec fn shown(n: nat) -> Seq<char>
    decreases n,
{
    if n < 10 {
        seq![digit_char(n)]
    } else {
        shown(n / 10).push(digit_char(n % 10))
    }
}

/// The decimal digits of `n`.
pub fn show(n: u64) -> (out: Vec<char>)
    ensures
        out@ == shown(n as nat),
    decreases n,
{
    let low: u8 = (n % 10) as u8;
    let d: u8 = 48 + low;
    let c: char = d as char;
    assert(c == digit_char((n % 10) as nat));
    if n < 10 {
        let mut out: Vec<char> = Vec::new();
        out.push(c);
        assert(out@ =~= shown(n as nat));
        out
    } else {
        let mut out = show(n / 10);
        out.push(c);
        out
    }
}

/// What is shown of a number reads back as that number.
pub proof fn shown_reads_back(n: nat, max: nat)
    requires
        n <= max,
    ensures
        unsigned_value(shown(n), max) == Some(n),
{
    shown_is_decimal(n);
}

pub(crate) proof fn shown_is_decimal(n: nat)
    ensures
        shown(n).len() > 0,
        forall|i: int| 0 <= i < shown(n).len() ==> digit(#[trigger] shown(n)[i]),
        decimal(shown(n)) == n,
    decreases n,
{
    if n < 10 {
        let s = shown(n);
        assert(s.drop_last() =~= Seq::<char>::empty());
        assert(decimal(s.drop_last()) == 0);
        assert(s.last() == digit_char(n));
        assert(s.last() as int - '0' as int == n);
        assert(decimal(s) == n);
    } else {
        shown_is_decimal(n / 10);
        assert(shown(n).drop_last() =~= shown(n / 10));
        assert(shown(n).last() == digit_char(n % 10));
        assert(decimal(shown(n)) == n / 10 * 10 + n % 10);
    }
}

/// `c` with the capitals `A` to `Z` turned small.
pub open spec fn lower(c: char) -> char {
    if 'A' <= c <= 'Z' {
        ((c as int) + 32) as char
    } else {
        c
    }
}

/// `c` with the capitals `A` to `Z` turned small.
pub fn lowered(c: char) -> (r: char)
    ensures
        r == lower(c),
{
    if 'A' <= c && c <= 'Z' {
        let b: u8 = (code(c) as u8) + 32;
        b as char
    } else {
        c
    }
}

/// What was not found from `from` on stands nowhere there.
pub(crate) proof fn none_occurs(hay: Seq<char>, needle: Seq<char>, from: int, j: int)
    requires
        index_of(hay, needle, from) is None,
        from <= j,
        0 <= from,
    ensures
        !occurs_at(hay, needle, j),
    decreases j,
{
    if occurs_at(hay, needle, j) {
        let k = least_from(hay, needle, from, j);
        assert(first_from(hay, needle, from, Some(k)));
    }
}

proof fn least_from(hay: Seq<char>, needle: Seq<char>, from: int, j: int) -> (k: int)
    requires
        0 <= from <= j,
        occurs_at(hay, needle, j),
    ensures
        first_from(hay, needle, from, Some(k)),
    decreases j,
{
    if exists|i: int| from <= i < j && #[trigger] occurs_at(hay, needle, i) {
        let i = choose|i: int| from <= i < j && #[trigger] occurs_at(hay, needle, i);
        least_from(hay, needle, from, i)
    } else {
        j
    }
}


/// A search finds the first place: where the needle's characters stand
/// somewhere at or behind the start of the search, it finds such a place, and
/// none that is further on.
pub proof fn a_search_finds_the_first_place(
    hay: Seq<char>,
    needle: Seq<char>,
    from: int,
    at: int,
)
    requires
        0 <= from <= at,
        at + needle.len() <= hay.len(),
        forall|k: int| 0 <= k < needle.len() ==> hay[at + k] == #[trigger] needle[k],
    ensures
        index_of(hay, needle, from) is Some,
        from <= index_of(hay, needle, from)->0 <= at,
        forall|k: int|
            0 <= k < needle.len() ==> hay[index_of(hay, needle, from)->0 + k]
                == #[trigger] needle[k],
{
    assert(hay.subrange(at, at + needle.len()) =~= needle);
    assert(occurs_at(hay, needle, at));
    if index_of(hay, needle, from) is None {
        none_occurs(hay, needle, from, at);
    }
    let i = index_of(hay, needle, from)->0;
    assert(first_from(hay, needle, from, Some(i)));
    assert forall|k: int| 0 <= k < needle.len() implies hay[i + k] == #[trigger] needle[k] by {
        assert(hay.subrange(i, i + needle.len())[k] == hay[i + k]);
    }
}

/// The first difference decides the order, by the characters' numbers, and a
/// text comes after its own beginning.
pub proof fn the_first_difference_decides(
    s: Seq<char>,
    a: char,
    b: char,
    x: Seq<char>,
    y: Seq<char>,
)
    requires
        a != b,
    ensures
        before(s + (seq![a] + x), s + (seq![b] + y)) <==> (a as int) < (b as int),
        before(s, s + (seq![a] + x)),
        !before(s + (seq![a] + x), s),
    decreases s.len(),
{
    let (p, q) = (s + (seq![a] + x), s + (seq![b] + y));
    if s.len() > 0 {
        let t = s.drop_first();
        the_first_difference_decides(t, a, b, x, y);
        assert(p.drop_first() =~= t + (seq![a] + x));
        assert(q.drop_first() =~= t + (seq![b] + y));
        assert(p[0] == s[0] && q[0] == s[0]);
    } else {
        assert(p[0] == a && q[0] == b);
    }
}

/// Blanks, tabs and line ends are white space; nothing that prints in ASCII is.
pub proof fn blanks_are_white(c: char)
    ensures
        c as int == 32 || 9 <= c as int <= 13 ==> white(c),
        33 <= c as int <= 126 ==> !white(c),
{
}

proof fn trim_start_cuts(s: Seq<char>) -> (a: int)
    ensures
        0 <= a <= s.len(),
        trim_start(s) == s.skip(a),
        forall|i: int| 0 <= i < a ==> white(#[trigger] s[i]),
        a < s.len() ==> !white(s[a]),
    decreases s.len(),
{
    if s.len() > 0 && white(s[0]) {
        let a = trim_start_cuts(s.drop_first());
        assert(s.drop_first().skip(a) =~= s.skip(a + 1));
        assert forall|i: int| 0 <= i < a + 1 implies white(#[trigger] s[i]) by {
            if i > 0 {
                assert(s.drop_first()[i - 1] == s[i]);
            }
        }
        a + 1
    } else {
        assert(s.skip(0) =~= s);
        0
    }
}

proof fn trim_end_cuts(s: Seq<char>)
    ensures
        trim_end(s).len() <= s.len(),
        trim_end(s) == s.take(trim_end(s).len() as int),
        forall|i: int| trim_end(s).len() <= i < s.len() ==> white(#[trigger] s[i]),
        trim_end(s).len() > 0 ==> !white(s[trim_end(s).len() - 1]),
    decreases s.len(),
{
    if s.len() > 0 && white(s.last()) {
        trim_end_cuts(s.drop_last());
        let n = trim_end(s).len() as int;
        assert(s.drop_last().take(n) =~= s.take(n));
        assert forall|i: int| n <= i < s.len() implies white(#[trigger] s[i]) by {
            if i < s.len() - 1 {
                assert(s.drop_last()[i] == s[i]);
            }
        }
    } else {
        assert(s.take(s.len() as int) =~= s);
    }
}

/// Trimming takes the white space at both ends and nothing else: what is left
/// stands in the text with white space alone round it, and starts and ends in
/// something else.
pub proof fn trimming_takes_white_space_alone(s: Seq<char>) -> (a: int)
    ensures
        0 <= a,
        a + trim(s).len() <= s.len(),
        trim(s) == s.subrange(a, a + trim(s).len()),
        forall|i: int| 0 <= i < a ==> white(#[trigger] s[i]),
        forall|i: int| a + trim(s).len() <= i < s.len() ==> white(#[trigger] s[i]),
        trim(s).len() > 0 ==> !white(trim(s)[0]) && !white(trim(s).last()),
{
    let a = trim_start_cuts(s);
    let t = s.skip(a);
    trim_end_cuts(t);
    let n = trim(s).len() as int;
    assert(trim(s) =~= s.subrange(a, a + n));
    assert forall|i: int| a + n <= i < s.len() implies white(#[trigger] s[i]) by {
        assert(t[i - a] == s[i]);
    }
    if n > 0 {
        assert(t[0] == s[a]);
    }
    a
}

proof fn word_len_is(s: Seq<char>)
    ensures
        word_len(s) <= s.len(),
        forall|i: int| 0 <= i < word_len(s) ==> !white(#[trigger] s[i]),
        word_len(s) < s.len() ==> white(s[word_len(s) as int]),
    decreases s.len(),
{
    if s.len() > 0 && !white(s[0]) {
        let t = s.drop_first();
        word_len_is(t);
        assert forall|i: int| 0 <= i < word_len(s) implies !white(#[trigger] s[i]) by {
            if i > 0 {
                assert(t[i - 1] == s[i]);
            }
        }
        if word_len(s) < s.len() {
            assert(t[word_len(t) as int] == s[word_len(s) as int]);
        }
    }
}

/// A text is white space, then its first word, which holds none and is empty
/// only where there is nothing but white space, then what follows the word,
/// which starts with white space or is empty.
pub proof fn a_word_ends_at_white_space(s: Seq<char>) -> (a: int)
    ensures
        0 <= a,
        s == s.take(a) + first_word(s) + after_word(s),
        a <= s.len(),
        forall|i: int| 0 <= i < a ==> white(#[trigger] s[i]),
        forall|i: int| 0 <= i < first_word(s).len() ==> !white(#[trigger] first_word(s)[i]),
        after_word(s).len() > 0 ==> white(after_word(s)[0]),
        first_word(s).len() == 0 ==> a == s.len(),
{
    let a = trim_start_cuts(s);
    let t = s.skip(a);
    word_len_is(t);
    assert(s =~= s.take(a) + first_word(s) + after_word(s));
    assert forall|i: int| 0 <= i < first_word(s).len() implies !white(
        #[trigger] first_word(s)[i],
    ) by {
        assert(first_word(s)[i] == t[i]);
    }
    if a < s.len() {
        assert(t[0] == s[a]);
    }
    a
}

/// A text in which the needle does not stand is left alone.
pub proof fn without_a_needle_nothing_is_replaced(a: Seq<char>, needle: Seq<char>, with: Seq<char>)
    requires
        needle.len() > 0,
        forall|j: int| !#[trigger] occurs_at(a, needle, j),
    ensures
        replaced(a, needle, with) == a,
    decreases a.len(),
{
    if a.len() > 0 {
        let t = a.drop_first();
        assert forall|j: int| !#[trigger] occurs_at(t, needle, j) by {
            if occurs_at(t, needle, j) {
                assert(a.subrange(j + 1, j + 1 + needle.len()) =~= t.subrange(
                    j,
                    j + needle.len(),
                ));
                assert(occurs_at(a, needle, j + 1));
            }
        }
        without_a_needle_nothing_is_replaced(t, needle, with);
        assert(!occurs_at(a, needle, 0));
        assert(seq![a[0]] + t =~= a);
    }
}

/// The first needle in a text is replaced, and then those behind it.
pub proof fn needles_are_replaced_from_the_left(
    a: Seq<char>,
    b: Seq<char>,
    needle: Seq<char>,
    with: Seq<char>,
)
    requires
        needle.len() > 0,
        forall|j: int| 0 <= j < a.len() ==> !#[trigger] occurs_at(a + needle + b, needle, j),
    ensures
        replaced(a + needle + b, needle, with) == a + with + replaced(b, needle, with),
    decreases a.len(),
{
    let all = a + needle + b;
    if a.len() == 0 {
        assert(all.subrange(0, needle.len() as int) =~= needle);
        assert(all.skip(needle.len() as int) =~= b);
        assert(a + with =~= with);
    } else {
        let t = a.drop_first();
        let rest = t + needle + b;
        assert(all.drop_first() =~= rest);
        assert forall|j: int| 0 <= j < t.len() implies !#[trigger] occurs_at(rest, needle, j) by {
            if occurs_at(rest, needle, j) {
                assert(all.subrange(j + 1, j + 1 + needle.len()) =~= rest.subrange(
                    j,
                    j + needle.len(),
                ));
                assert(occurs_at(all, needle, j + 1));
            }
        }
        needles_are_replaced_from_the_left(t, b, needle, with);
        assert(!occurs_at(all, needle, 0));
        assert(all[0] == a[0]);
        let tail = replaced(b, needle, with);
        assert(seq![a[0]] + (t + with + tail) =~= a + with + tail);
    }
}

/// Capitals of ASCII turn small by their number, and nothing else changes.
pub proof fn only_capitals_turn_small(c: char)
    ensures
        65 <= c as int <= 90 ==> lower(c) as int == c as int + 32,
        (c as int) < 65 || 90 < (c as int) ==> lower(c) == c,
{
}

/// A further digit makes a number ten times as large, and adds its own worth;
/// digits are the characters from 48 on, and no number starts with a nought
/// but nought itself.
pub proof fn digits_count_by_tens(s: Seq<char>, c: char, n: nat)
    requires
        48 <= c as int <= 57,
    ensures
        decimal(Seq::<char>::empty()) == 0,
        decimal(s.push(c)) == 10 * decimal(s) + (c as int - 48),
        digit(c),
        forall|i: int|
            0 <= i < shown(n).len() ==> 48 <= #[trigger] shown(n)[i] as int <= 57,
        n > 0 ==> shown(n)[0] as int != 48,
    decreases n,
{
    assert(s.push(c).drop_last() =~= s);
    shown_is_decimal(n);
    assert forall|i: int| 0 <= i < shown(n).len() implies 48 <= #[trigger] shown(n)[i] as int
        <= 57 by {
        assert(digit(shown(n)[i]));
    }
    if n >= 10 {
        digits_count_by_tens(s, c, n / 10);
        shown_is_decimal(n / 10);
        assert(shown(n)[0] == shown(n / 10)[0]);
    }
}

/// Only digits are a number, one or more of them, and one that is at most
/// `max`; a plus sign before them changes nothing.
pub proof fn only_digits_are_a_number(s: Seq<char>, max: nat)
    ensures
        digits_value(s, max) matches Some(n) ==> n <= max && n == decimal(s) && s.len() > 0,
        digits_value(s, max) is Some ==> forall|i: int|
            0 <= i < s.len() ==> 48 <= #[trigger] s[i] as int <= 57,
        unsigned_value(seq!['+'] + s, max) == digits_value(s, max),
        s.len() > 0 && 48 <= s[0] as int <= 57 ==> unsigned_value(s, max) == digits_value(s, max),
{
    assert((seq!['+'] + s).drop_first() =~= s);
    if digits_value(s, max) is Some {
        assert forall|i: int| 0 <= i < s.len() implies 48 <= #[trigger] s[i] as int <= 57 by {
            assert(digit(s[i]));
        }
    }
}

} // verus!
