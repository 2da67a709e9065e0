//! What a wallpaper's bytes say of it: a key for its content and its size.
use vstd::prelude::*;

verus! {

/// Where the 64-bit FNV-1a hash starts.
pub const FNV_OFFSET: u64 = 0xcbf2_9ce4_8422_2325;

/// What each step of the 64-bit FNV-1a hash multiplies by.
pub const FNV_PRIME: u64 = 0x100_0000_01b3;

/// FNV-1a: fold each byte in by exclusive or, then multiply modulo 2^64.
pub open spec fn fnv(bytes: Seq<u8>) -> u64
    decreases bytes.len(),
{
    if bytes.len() == 0 {
        FNV_OFFSET
    } else {
        let mixed: u64 = fnv(bytes.drop_last()) ^ (bytes.last() as u64);
        ((mixed as nat * FNV_PRIME as nat) % 0x1_0000_0000_0000_0000) as u64
    }
}

/// FNV-1a over `bytes`, 64 bits wide.
pub fn fnv1a(bytes: &[u8]) -> (h: u64)
    ensures
        h == fnv(bytes@),
{
    let mut h: u64 = FNV_OFFSET;
    for i in 0..bytes.len()
        invariant
            h == fnv(bytes@.take(i as int)),
    {
        assert(bytes@.take(i + 1).drop_last() == bytes@.take(i as int));
        h = (h ^ (bytes[i] as u64)).wrapping_mul(FNV_PRIME);
    }
    assert(bytes@.take(bytes@.len() as int) == bytes@);
    h
}

/// The small hexadecimal digit for `n`.
pub open spec fn hex_char(n: u64) -> char {
    if n < 10 {
        (0x30 + n) as char
    } else {
        (0x57 + n) as char
    }
}

/// The `i`-th hexadecimal digit of `h`, counted from the highest.
pub open spec fn nibble(h: u64, i: int) -> u64 {
    (h >> ((60 - 4 * i) as u64)) & 0xf
}

/// `h` in sixteen small hexadecimal digits, the highest first.
pub open spec fn hex(h: u64) -> Seq<char> {
    Seq::new(16, |i: int| hex_char(nibble(h, i)))
}

/// The key of content that hashes to `h`.
fn hex_of(h: u64) -> (key: String)
    ensures
        key@ == hex(h),
{
    let mut key = String::new();
    for i in 0..16u64
        invariant
            key@ == hex(h).take(i as int),
    {
        let shift: u64 = 60 - 4 * i;
        let n: u64 = (h >> shift) & 0xf;
        assert((h >> shift) & 0xf < 16) by (bit_vector);
        let b: u8 = if n < 10 {
            0x30 + n as u8
        } else {
            0x57 + n as u8
        };
        key.push(b as char);
    }
    assert(hex(h).take(16) == hex(h));
    key
}

/// A wallpaper's key: the FNV-1a hash of its content, in hexadecimal.
pub open spec fn key_of(bytes: Seq<u8>) -> Seq<char> {
    hex(fnv(bytes))
}

/// A wallpaper's key and, where its format says, its pixel size.
pub open spec fn described(bytes: Seq<u8>) -> (Seq<char>, Option<(u32, u32)>) {
    (key_of(bytes), image_dimensions(bytes))
}

/// A wallpaper's key: the FNV-1a hash of its content, in hexadecimal.
pub fn content_key(bytes: &[u8]) -> (key: String)
    ensures
        key@ == key_of(bytes@),
{
    hex_of(fnv1a(bytes))
}

/// A wallpaper's key and, where its format says, its pixel size.
pub fn describe(bytes: &[u8]) -> (r: (String, Option<(u32, u32)>))
    ensures
        (r.0@, r.1) == described(bytes@),
{
    (content_key(bytes), size_of_image(bytes))
}

/// Two keys are the same exactly where the hashes are.
pub proof fn keys_tell_hashes_apart(a: u64, b: u64)
    ensures
        hex(a) == hex(b) <==> a == b,
{
    if hex(a) == hex(b) {
        assert forall|i: int| 0 <= i < 16 implies #[trigger] nibble(a, i) == nibble(b, i) by {
            let s: u64 = (60 - 4 * i) as u64;
            assert((a >> s) & 0xf < 16 && (b >> s) & 0xf < 16) by (bit_vector);
            assert(hex(a)[i] == hex_char(nibble(a, i)));
            assert(hex(b)[i] == hex_char(nibble(b, i)));
        }
        let same = |i: int| nibble(a, i) == nibble(b, i);
        assert(same(0) && same(1) && same(2) && same(3) && same(4) && same(5) && same(6) && same(7)
            && same(8) && same(9) && same(10) && same(11) && same(12) && same(13) && same(14)
            && same(15));
        assert(a == b) by (bit_vector)
            requires
                (a >> 60u64) & 0xf == (b >> 60u64) & 0xf,
                (a >> 56u64) & 0xf == (b >> 56u64) & 0xf,
                (a >> 52u64) & 0xf == (b >> 52u64) & 0xf,
                (a >> 48u64) & 0xf == (b >> 48u64) & 0xf,
                (a >> 44u64) & 0xf == (b >> 44u64) & 0xf,
                (a >> 40u64) & 0xf == (b >> 40u64) & 0xf,
                (a >> 36u64) & 0xf == (b >> 36u64) & 0xf,
                (a >> 32u64) & 0xf == (b >> 32u64) & 0xf,
                (a >> 28u64) & 0xf == (b >> 28u64) & 0xf,
                (a >> 24u64) & 0xf == (b >> 24u64) & 0xf,
                (a >> 20u64) & 0xf == (b >> 20u64) & 0xf,
                (a >> 16u64) & 0xf == (b >> 16u64) & 0xf,
                (a >> 12u64) & 0xf == (b >> 12u64) & 0xf,
                (a >> 8u64) & 0xf == (b >> 8u64) & 0xf,
                (a >> 4u64) & 0xf == (b >> 4u64) & 0xf,
                (a >> 0u64) & 0xf == (b >> 0u64) & 0xf,
        ;
    }
}

/// The eight bytes that every PNG file starts with.
pub open spec fn png_magic() -> Seq<u8> {
    seq![0x89u8, 0x50, 0x4e, 0x47, 0x0d, 0x0a, 0x1a, 0x0a]
}

/// The two bytes at `at`, the higher first.
pub open spec fn big16(b: Seq<u8>, at: int) -> int {
    b[at] * 256 + b[at + 1]
}

/// The four bytes at `at`, the highest first.
pub open spec fn big32(b: Seq<u8>, at: int) -> int {
    big16(b, at) * 65536 + big16(b, at + 2)
}

/// A marker with no length behind it: RSTn, SOI, EOI or TEM.
pub open spec fn standalone(marker: u8) -> bool {
    0xd0 <= marker <= 0xd9 || marker == 0x01
}

/// A frame header: SOFn, less the three codes in its range that are not one.
pub open spec fn frame_header(marker: u8) -> bool {
    0xc0 <= marker <= 0xcf && marker != 0xc4 && marker != 0xc8 && marker != 0xcc
}

/// The width and height of the first frame header that the marker segments
/// from `i` on lead to.
///
/// Bytes before a marker, and further 0xff bytes in front of its code, are
/// passed over one by one. A segment too short to hold its own length ends
/// the walk.
pub open spec fn jpeg_frame(b: Seq<u8>, i: int) -> Option<(u32, u32)>
    decreases (if i < b.len() { b.len() - i } else { 0 }),
{
    if i + 9 >= b.len() {
        None
    } else if b[i] != 0xff || b[i + 1] == 0xff {
        jpeg_frame(b, i + 1)
    } else if standalone(b[i + 1]) {
        jpeg_frame(b, i + 2)
    } else if frame_header(b[i + 1]) {
        Some((big16(b, i + 7) as u32, big16(b, i + 5) as u32))
    } else if big16(b, i + 2) < 2 {
        None
    } else {
        jpeg_frame(b, i + 2 + big16(b, i + 2))
    }
}

/// An image's width and height, as a PNG or JPEG file states them.
pub open spec fn image_dimensions(b: Seq<u8>) -> Option<(u32, u32)> {
    if b.len() >= 24 && b.take(8) == png_magic() {
        Some((big32(b, 16) as u32, big32(b, 20) as u32))
    } else if b.len() >= 2 && b[0] == 0xff && b[1] == 0xd8 {
        jpeg_frame(b, 2)
    } else {
        None
    }
}

fn read16(b: &[u8], at: usize) -> (r: u16)
    requires
        at + 2 <= b@.len(),
    ensures
        r == big16(b@, at as int),
{
    b[at] as u16 * 256 + b[at + 1] as u16
}

fn read32(b: &[u8], at: usize) -> (r: u32)
    requires
        at + 4 <= b@.len() <= usize::MAX,
    ensures
        r == big32(b@, at as int),
{
    read16(b, at) as u32 * 65536 + read16(b, at + 2) as u32
}

/// An image's width and height, from the header in `b`.
///
/// PNG and JPEG only; anything else, and a header cut short, gives `None`.
pub fn size_of_image(b: &[u8]) -> (r: Option<(u32, u32)>)
    ensures
        r == image_dimensions(b@),
{
    let len: usize = b.len();
    if len >= 24 && b[0] == 0x89 && b[1] == 0x50 && b[2] == 0x4e && b[3] == 0x47 && b[4] == 0x0d
        && b[5] == 0x0a && b[6] == 0x1a && b[7] == 0x0a {
        assert(b@.take(8) =~= png_magic());
        return Some((read32(b, 16), read32(b, 20)));
    }
    assert(!(b@.len() >= 24 && b@.take(8) == png_magic())) by {
        if b@.len() >= 24 && b@.take(8) == png_magic() {
            let t = b@.take(8);
            assert(t[0] == 0x89 && t[1] == 0x50 && t[2] == 0x4e && t[3] == 0x47 && t[4] == 0x0d
                && t[5] == 0x0a && t[6] == 0x1a && t[7] == 0x0a);
        }
    }
    if len < 2 || b[0] != 0xff || b[1] != 0xd8 {
        return None;
    }
    let mut i: usize = 2;
    while len - i > 9
        invariant
            len == b@.len(),
            image_dimensions(b@) == jpeg_frame(b@, i as int),
            i <= len,
        decreases len - i,
    {
        let marker = b[i + 1];
        if b[i] != 0xff || marker == 0xff {
            i += 1;
            continue;
        }
        if (0xd0 <= marker && marker <= 0xd9) || marker == 0x01 {
            i += 2;
            continue;
        }
        let size: usize = read16(b, i + 2) as usize;
        if 0xc0 <= marker && marker <= 0xcf && marker != 0xc4 && marker != 0xc8 && marker != 0xcc {
            return Some((read16(b, i + 7) as u32, read16(b, i + 5) as u32));
        }
        if size < 2 {
            return None;
        }
        if size > len - i - 2 {
            assert(jpeg_frame(b@, i + 2 + size) is None);
            return None;
        }
        i += 2 + size;
    }
    None
}

proof fn frame_survives(b: Seq<u8>, tail: Seq<u8>, i: int)
    requires
        0 <= i,
        jpeg_frame(b, i) is Some,
    ensures
        jpeg_frame(b + tail, i) == jpeg_frame(b, i),
    decreases (if i < b.len() { b.len() - i } else { 0 }),
{
    let c = b + tail;
    assert(c[i] == b[i] && c[i + 1] == b[i + 1] && c[i + 2] == b[i + 2] && c[i + 3] == b[i + 3]);
    assert(c[i + 5] == b[i + 5] && c[i + 6] == b[i + 6] && c[i + 7] == b[i + 7] && c[i + 8] == b[i
        + 8]);
    if b[i] != 0xff || b[i + 1] == 0xff {
        frame_survives(b, tail, i + 1);
    } else if standalone(b[i + 1]) {
        frame_survives(b, tail, i + 2);
    } else if frame_header(b[i + 1]) {
    } else {
        frame_survives(b, tail, i + 2 + big16(b, i + 2));
    }
}

/// The size of the image that a file holds, by what was read of it; `None`
/// where the file could not be read, too.
pub open spec fn file_dimensions(file: Option<Seq<u8>>) -> Option<(u32, u32)> {
    match file {
        Some(b) => image_dimensions(b),
        None => None,
    }
}

/// The size of the image that a file holds, by what was read of it.
pub fn image_size(file: Option<&[u8]>) -> (r: Option<(u32, u32)>)
    ensures
        r == file_dimensions(
            match file {
                Some(b) => Some(b@),
                None => None,
            },
        ),
{
    match file {
        Some(b) => size_of_image(b),
        None => None,
    }
}

/// The size comes from the header alone: where a file's first bytes give one,
/// whatever follows them changes nothing.
pub proof fn size_needs_the_header_only(head: Seq<u8>, tail: Seq<u8>)
    requires
        image_dimensions(head) is Some,
    ensures
        image_dimensions(head + tail) == image_dimensions(head),
{
    let b = head + tail;
    if head.len() >= 24 && head.take(8) == png_magic() {
        assert(b.take(8) == head.take(8));
    } else {
        frame_survives(head, tail, 2);
        assert(b[0] == head[0] && b[1] == head[1]);
        if b.len() >= 24 && b.take(8) == png_magic() {
            assert(b.take(8)[0] == 0x89);
        }
    }
}

/// The hash of nothing is the offset basis, and each further byte changes only
/// the low eight bits of the hash so far before that is multiplied by the
/// prime, modulo 2^64.
pub proof fn a_byte_is_folded_into_the_low_bits(s: Seq<u8>, b: u8)
    ensures
        fnv(Seq::<u8>::empty()) == 0xcbf2_9ce4_8422_2325u64,
        ({
            let h = fnv(s) as int;
            let low = ((h % 256) as u8 ^ b) as int;
            fnv(s.push(b)) == ((h / 256 * 256 + low) * 0x100_0000_01b3) % 0x1_0000_0000_0000_0000
        }),
{
    let h: u64 = fnv(s);
    let w: u64 = b as u64;
    let m: u64 = h ^ w;
    assert(s.push(b).drop_last() =~= s);
    assert(m / 256 == h / 256 && m % 256 == ((h % 256) as u8 ^ b) as u64) by (bit_vector)
        requires
            m == h ^ w,
            w == b as u64,
    ;
    assert(m == h / 256 * 256 + ((h % 256) as u8 ^ b));
}

/// The value of a small hexadecimal digit, by its character's number.
pub open spec fn digit_worth(c: char) -> int {
    if 48 <= c as int <= 57 {
        c as int - 48
    } else {
        c as int - 97 + 10
    }
}

/// The number that hexadecimal digits write, the highest first.
pub open spec fn worth(s: Seq<char>) -> int
    decreases s.len(),
{
    if s.len() == 0 {
        0
    } else {
        worth(s.drop_last()) * 16 + digit_worth(s.last())
    }
}

proof fn worth_up_to(h: u64, k: int)
    requires
        1 <= k <= 16,
    ensures
        worth(hex(h).take(k)) == (h >> ((64 - 4 * k) as u64)),
    decreases k,
{
    let s: u64 = (60 - 4 * (k - 1)) as u64;
    let n: u64 = (h >> s) & 0xf;
    let t = hex(h).take(k);
    assert(n < 16) by (bit_vector)
        requires
            n == (h >> s) & 0xf,
    ;
    assert(t.last() == hex_char(nibble(h, k - 1)));
    assert(nibble(h, k - 1) == n);
    assert(digit_worth(t.last()) == n);
    assert(t.drop_last() =~= hex(h).take(k - 1));
    if k == 1 {
        assert(t.drop_last().len() == 0);
        assert(worth(t.drop_last()) == 0);
        assert(h >> 60u64 == (h >> 60u64) & 0xf) by (bit_vector);
    } else {
        worth_up_to(h, k - 1);
        let up: u64 = (s + 4) as u64;
        assert(h >> s == (h >> up) * 16 + n) by (bit_vector)
            requires
                n == (h >> s) & 0xf,
                up == s + 4,
                s <= 56,
        ;
        assert((h >> up) * 16 <= u64::MAX) by (bit_vector)
            requires
                4 <= up <= 60,
        ;
    }
}

/// A key is sixteen digits out of `0` to `9` and `a` to `f`, and read as a
/// hexadecimal number it gives the hash back.
pub proof fn a_key_reads_back_as_the_hash(h: u64)
    ensures
        hex(h).len() == 16,
        forall|i: int|
            0 <= i < 16 ==> 48 <= #[trigger] hex(h)[i] as int <= 57 || 97 <= hex(h)[i] as int
                <= 102,
        worth(hex(h)) == h,
{
    assert forall|i: int| 0 <= i < 16 implies 48 <= #[trigger] hex(h)[i] as int <= 57 || 97
        <= hex(h)[i] as int <= 102 by {
        let s: u64 = (60 - 4 * i) as u64;
        let n: u64 = (h >> s) & 0xf;
        assert(n < 16) by (bit_vector)
            requires
                n == (h >> s) & 0xf,
        ;
        assert(hex(h)[i] == hex_char(nibble(h, i)));
        assert(nibble(h, i) == n);
    }
    worth_up_to(h, 16);
    assert(hex(h).take(16) =~= hex(h));
    assert(h >> 0u64 == h) by (bit_vector);
}

/// The marker codes SOF0 to SOF15, of which three are not frame headers.
pub open spec fn starts_a_frame(m: int) -> bool {
    m == 0xc0 || m == 0xc1 || m == 0xc2 || m == 0xc3 || m == 0xc5 || m == 0xc6 || m == 0xc7 || m
        == 0xc9 || m == 0xca || m == 0xcb || m == 0xcd || m == 0xce || m == 0xcf
}

/// The marker codes that no length follows.
pub open spec fn stands_alone(m: int) -> bool {
    m == 0x01 || m == 0xd0 || m == 0xd1 || m == 0xd2 || m == 0xd3 || m == 0xd4 || m == 0xd5 || m
        == 0xd6 || m == 0xd7 || m == 0xd8 || m == 0xd9
}

/// A JPEG file whose first segment is a frame header has the size that the
/// header states: behind the length and the precision, the height and then the
/// width, each in two bytes, the higher first.
pub proof fn a_frame_header_states_the_size(b: Seq<u8>)
    requires
        b.len() >= 12,
        b[0] == 0xff,
        b[1] == 0xd8,
        b[2] == 0xff,
        starts_a_frame(b[3] as int),
    ensures
        image_dimensions(b) == Some(
            ((b[9] * 256 + b[10]) as u32, (b[7] * 256 + b[8]) as u32),
        ),
{
    assert(b.take(8)[0] == 0xff);
    assert(png_magic()[0] == 0x89);
}

/// A PNG file has the size that its first chunk states: the width and then the
/// height, each in four bytes, the highest first.
pub proof fn a_first_chunk_states_the_size(b: Seq<u8>)
    requires
        b.len() >= 24,
        b[0] == 0x89 && b[1] == 0x50 && b[2] == 0x4e && b[3] == 0x47,
        b[4] == 0x0d && b[5] == 0x0a && b[6] == 0x1a && b[7] == 0x0a,
    ensures
        image_dimensions(b) == Some(
            (
                (b[16] * 16777216 + b[17] * 65536 + b[18] * 256 + b[19]) as u32,
                (b[20] * 16777216 + b[21] * 65536 + b[22] * 256 + b[23]) as u32,
            ),
        ),
{
    assert(b.take(8) =~= png_magic());
}

/// Any other file has none: one that does not start as a JPEG file does, and
/// is cut short or does not start as a PNG file does.
pub proof fn other_files_have_no_size(b: Seq<u8>)
    requires
        b.len() < 2 || b[0] != 0xff || b[1] != 0xd8,
        b.len() < 24 || b[0] != 0x89 || b[1] != 0x50 || b[2] != 0x4e || b[3] != 0x47 || b[4] != 0x0d
            || b[5] != 0x0a || b[6] != 0x1a || b[7] != 0x0a,
    ensures
        image_dimensions(b) is None,
{
    if b.len() >= 24 && b.take(8) == png_magic() {
        let t = b.take(8);
        assert(t[0] == 0x89 && t[1] == 0x50 && t[2] == 0x4e && t[3] == 0x47 && t[4] == 0x0d && t[5]
            == 0x0a && t[6] == 0x1a && t[7] == 0x0a);
    }
}

proof fn frame_by_what_follows(b: Seq<u8>, i: int, c: Seq<u8>, j: int)
    requires
        0 <= i <= b.len(),
        0 <= j <= c.len(),
        b.skip(i) == c.skip(j),
    ensures
        jpeg_frame(b, i) == jpeg_frame(c, j),
    decreases b.len() - i,
{
    let (x, y) = (b.skip(i), c.skip(j));
    assert(x.len() == b.len() - i && y.len() == c.len() - j);
    if i + 9 < b.len() {
        assert forall|k: int| 0 <= k < 9 implies b[i + k] == #[trigger] c[j + k] by {
            assert(x[k] == y[k]);
        }
        assert(b[i + 0] == c[j + 0] && b[i + 1] == c[j + 1] && b[i + 2] == c[j + 2] && b[i + 3]
            == c[j + 3]);
        assert(b[i + 5] == c[j + 5] && b[i + 6] == c[j + 6] && b[i + 7] == c[j + 7] && b[i + 8]
            == c[j + 8]);
        let step = if b[i] != 0xff || b[i + 1] == 0xff {
            1int
        } else if standalone(b[i + 1]) {
            2
        } else {
            2 + big16(b, i + 2)
        };
        if i + step <= b.len() {
            assert(b.skip(i + step) =~= x.skip(step));
            assert(c.skip(j + step) =~= y.skip(step));
            frame_by_what_follows(b, i + step, c, j + step);
        }
    }
}

/// The start of every JPEG file.
pub open spec fn jpeg_start() -> Seq<u8> {
    seq![0xffu8, 0xd8u8]
}

proof fn jpeg_dimensions(rest: Seq<u8>)
    ensures
        image_dimensions(jpeg_start() + rest) == jpeg_frame(jpeg_start() + rest, 2),
{
    let b = jpeg_start() + rest;
    assert(b[0] == 0xff && b[1] == 0xd8);
    if b.len() >= 24 && b.take(8) == png_magic() {
        assert(b.take(8)[0] == 0xff);
    }
}

/// A segment that is no frame header is passed over by its length: the file
/// has the size that it would have without it.
pub proof fn other_segments_are_passed_over(m: u8, hi: u8, lo: u8, payload: Seq<u8>, rest: Seq<u8>)
    requires
        !starts_a_frame(m as int),
        !stands_alone(m as int),
        m != 0xff,
        payload.len() + 2 == hi * 256 + lo,
    ensures
        image_dimensions(jpeg_start() + (seq![0xffu8, m, hi, lo] + payload + rest))
            == image_dimensions(jpeg_start() + rest),
{
    let seg = seq![0xffu8, m, hi, lo] + payload;
    let (b, c) = (jpeg_start() + rest, jpeg_start() + (seg + rest));
    jpeg_dimensions(rest);
    jpeg_dimensions(seg + rest);
    assert(c[2] == 0xff && c[3] == m && c[4] == hi && c[5] == lo);
    if c.len() > 11 {
        let next = 2 + seg.len() as int;
        assert(next == 4 + big16(c, 4));
        assert(c.skip(next) =~= rest);
        assert(b.skip(2) =~= rest);
        frame_by_what_follows(c, next, b, 2);
    }
}

/// A segment too short to hold its own length ends the search.
pub proof fn a_broken_segment_ends_the_search(b: Seq<u8>)
    requires
        b.len() >= 6,
        b[0] == 0xff && b[1] == 0xd8 && b[2] == 0xff && b[3] != 0xff,
        !starts_a_frame(b[3] as int),
        !stands_alone(b[3] as int),
        b[4] == 0 && b[5] < 2,
    ensures
        image_dimensions(b) is None,
{
    if b.len() >= 24 && b.take(8) == png_magic() {
        assert(b.take(8)[0] == 0xff);
    }
}

/// A marker that stands alone is passed over, and so is a byte that belongs to
/// no marker: one that is not 0xff, or one more 0xff before another.
pub proof fn filling_is_passed_over(m: u8, x: u8, rest: Seq<u8>)
    requires
        stands_alone(m as int),
        x != 0xff || (rest.len() > 0 && rest[0] == 0xff),
    ensures
        image_dimensions(jpeg_start() + (seq![0xffu8, m] + rest)) == image_dimensions(
            jpeg_start() + rest,
        ),
        image_dimensions(jpeg_start() + (seq![x] + rest)) == image_dimensions(jpeg_start() + rest),
{
    let b = jpeg_start() + rest;
    let c = jpeg_start() + (seq![0xffu8, m] + rest);
    let d = jpeg_start() + (seq![x] + rest);
    jpeg_dimensions(rest);
    jpeg_dimensions(seq![0xffu8, m] + rest);
    jpeg_dimensions(seq![x] + rest);
    assert(c[2] == 0xff && c[3] == m && d[2] == x);
    assert(rest.len() > 0 ==> d[3] == rest[0]);
    assert(b.skip(2) =~= rest && c.skip(4) =~= rest && d.skip(3) =~= rest);
    frame_by_what_follows(c, 4, b, 2);
    frame_by_what_follows(d, 3, b, 2);
}

/// Two wallpapers have the same key exactly where all of their content hashes
/// to the same number, and a description is that key and the size.
pub proof fn a_key_is_that_of_all_the_content(a: Seq<u8>, b: Seq<u8>)
    ensures
        worth(key_of(a)) == fnv(a),
        key_of(a) == key_of(b) <==> fnv(a) == fnv(b),
        described(a).0 == key_of(a) && described(a).1 == image_dimensions(a),
        file_dimensions(Some(a)) == image_dimensions(a),
        file_dimensions(None) is None,
{
    a_key_reads_back_as_the_hash(fnv(a));
    keys_tell_hashes_apart(fnv(a), fnv(b));
}

/// A JPEG file too short for a frame header with a byte behind it has no size.
pub proof fn a_file_cut_short_has_no_size(b: Seq<u8>)
    requires
        b.len() < 12,
    ensures
        image_dimensions(b) is None,
{
}

} // verus!
