use image_filter::digest::ContentHash;

fn md5_hex(chunks: &[&[u8]]) -> String {
    let mut h = ContentHash::new();
    for c in chunks {
        h.update(c);
    }
    h.finish_hex()
}

#[test]
fn md5_of_empty_content() {
    assert_eq!(md5_hex(&[]), "d41d8cd98f00b204e9800998ecf8427e");
}

#[test]
fn md5_of_abc() {
    assert_eq!(md5_hex(&[b"abc"]), "900150983cd24fb0d6963f7d28e17f72");
}

#[test]
fn md5_chunked_equals_whole() {
    let whole = md5_hex(&[b"The quick brown fox jumps over the lazy dog"]);
    let parts = md5_hex(&[b"The quick ", b"", b"brown fox jumps", b" over the lazy dog"]);
    assert_eq!(whole, "9e107d9d372bb6826bd81d3542a419d6");
    assert_eq!(whole, parts);
}

#[test]
fn md5_hex_is_32_lowercase_digits() {
    let h = md5_hex(&[&[0u8, 255, 16, 1][..]]);
    assert_eq!(h.len(), 32);
    assert!(h.chars().all(|c| c.is_ascii_hexdigit() && !c.is_ascii_uppercase()));
}
