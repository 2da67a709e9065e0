use cavawall::curve::{content_key, describe, fnv1a, image_size, size_of_image};

/// Known answers from the FNV reference vectors. Without these a typo in
/// the prime is invisible: every key still looks like a hash, and the only
/// symptom is that no curve ever matches its wallpaper
#[test]
fn fnv1a_matches_the_reference_vectors() {
    assert_eq!(fnv1a(b""), 0xcbf2_9ce4_8422_2325);
    assert_eq!(fnv1a(b"a"), 0xaf63_dc4c_8601_ec8c);
    assert_eq!(fnv1a(b"foobar"), 0x8594_4171_f739_67e8);
}

#[test]
fn a_key_is_the_hash_in_sixteen_small_digits() {
    assert_eq!(content_key(b"a"), "af63dc4c8601ec8c");
    assert_eq!(content_key(b""), "cbf29ce484222325");
    assert_ne!(content_key(b"a"), content_key(b"b"));
}

fn png(w: u32, h: u32) -> Vec<u8> {
    let mut b = b"\x89PNG\r\n\x1a\n\0\0\0\x0dIHDR".to_vec();
    b.extend_from_slice(&w.to_be_bytes());
    b.extend_from_slice(&h.to_be_bytes());
    b
}

#[test]
fn a_png_states_its_size_in_the_first_chunk() {
    let b = png(2560, 1440);
    assert_eq!(size_of_image(&b), Some((2560, 1440)));
    // One byte short of the header is no header
    assert_eq!(size_of_image(&b[..23]), None);
    let mut more = b.clone();
    more.extend_from_slice(&[0xff; 64]);
    assert_eq!(size_of_image(&more), Some((2560, 1440)));
    assert_eq!(image_size(Some(&b)), Some((2560, 1440)));
    assert_eq!(image_size(None), None);
    assert_eq!(describe(&b).1, Some((2560, 1440)));
    assert_eq!(describe(&b).0, content_key(&b));
}

#[test]
fn a_jpeg_is_walked_to_its_frame_header() {
    // SOI, an APP0 of four bytes, padding, a restart marker, then SOF2
    let b = [
        0xffu8, 0xd8, 0xff, 0xe0, 0x00, 0x04, 0x01, 0x02, 0xff, 0xff, 0xd0, 0xff, 0xc2, 0x00, 0x0b, 0x08,
        0x04, 0x38, 0x07, 0x80, 0x03, 0x00,
    ];
    assert_eq!(size_of_image(&b), Some((1920, 1080)));
    // A Huffman table sits in the same code range and is no frame header
    let mut dht = b;
    dht[12] = 0xc4;
    assert_eq!(size_of_image(&dht), None);
    // A segment shorter than its own length field ends the walk
    let mut short = b;
    short[5] = 0x01;
    assert_eq!(size_of_image(&short), None);
    // A length that runs past the end finds nothing
    let mut long = b;
    long[4] = 0xff;
    assert_eq!(size_of_image(&long), None);
}

#[test]
fn other_formats_have_no_size() {
    assert_eq!(size_of_image(b""), None);
    assert_eq!(size_of_image(b"GIF89a.................."), None);
    assert_eq!(size_of_image(&[0xff, 0xd8]), None);
}
