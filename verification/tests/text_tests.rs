use image_filter::text::{
    bytes_less, chars_of, decimal_chars, hex_fixed_chars, hex_of_bytes, replace_chars, stable_order,
    trim_chars, zero_padded,
};

fn s(v: &[char]) -> String {
    v.iter().collect()
}

#[test]
fn replace_scans_left_to_right_without_overlap() {
    let r = replace_chars(&chars_of("aaaa"), &chars_of("aa"), &chars_of("b"));
    assert_eq!(s(&r), "bb");
    let r = replace_chars(&chars_of("{date}/{date}"), &chars_of("{date}"), &chars_of("2026-08-10"));
    assert_eq!(s(&r), "2026-08-10/2026-08-10");
    let r = replace_chars(&chars_of("no match"), &chars_of("{x}"), &chars_of("y"));
    assert_eq!(s(&r), "no match");
}

#[test]
fn trim_removes_unicode_white_space_at_both_ends() {
    assert_eq!(s(&trim_chars(&chars_of("  a b \t\n"))), "a b");
    assert_eq!(s(&trim_chars(&chars_of("\u{3000}x\u{00A0}"))), "x");
    assert_eq!(s(&trim_chars(&chars_of("   "))), "");
    assert_eq!(s(&trim_chars(&chars_of(""))), "");
}

#[test]
fn decimal_and_padding_match_std_formatting() {
    for n in [0u64, 7, 10, 99, 1234, 99999, u64::MAX] {
        assert_eq!(s(&decimal_chars(n)), format!("{}", n));
        assert_eq!(s(&zero_padded(n, 4)), format!("{:04}", n));
    }
}

#[test]
fn hex_matches_std_formatting() {
    for n in [0u64, 1, 0xdead_beef, u64::MAX] {
        assert_eq!(s(&hex_fixed_chars(n, 16)), format!("{:016x}", n));
    }
    assert_eq!(s(&hex_of_bytes(&[0x0a, 0x14, 0x1e, 0xff])), "0a141eff");
}

#[test]
fn byte_order_is_std_string_order() {
    let words = ["", "a", "ab", "b", "Z", "é", "e"];
    for x in words {
        for y in words {
            assert_eq!(bytes_less(x.as_bytes(), y.as_bytes()), x < y, "{} {}", x, y);
        }
    }
}

#[test]
fn stable_order_sorts_and_keeps_ties() {
    let keys: Vec<Vec<u8>> = vec![b"b".to_vec(), b"a".to_vec(), b"b".to_vec(), b"a".to_vec(), b"".to_vec()];
    assert_eq!(stable_order(&keys), vec![4, 1, 3, 0, 2]);
    let empty: Vec<Vec<u8>> = Vec::new();
    assert_eq!(stable_order(&empty), Vec::<usize>::new());
}

#[test]
fn strings_round_trip_through_chars() {
    let t = "Sony A7 — 相机";
    assert_eq!(s(&chars_of(t)), t);
    assert_eq!(image_filter::importer::sanitize_path(t), "Sony_A7_—_相机");
}
