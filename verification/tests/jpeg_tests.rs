use image_filter::jpeg::{
    extract_largest_preview_bytes, extract_largest_preview_full, jpeg_dimensions, jpeg_start_candidates,
};

fn fake_jpeg(w: u16, h: u16) -> Vec<u8> {
    let mut v = vec![0xFF, 0xD8, 0xFF, 0xE0, 0x00, 0x04, 0x00, 0x00];
    v.extend_from_slice(&[0xFF, 0xC0, 0x00, 0x11, 0x08]);
    v.extend_from_slice(&h.to_be_bytes());
    v.extend_from_slice(&w.to_be_bytes());
    v.extend_from_slice(&[0x03, 1, 2, 3, 4, 5, 6, 7, 8, 9]);
    v.extend_from_slice(&[0xFF, 0xD9]);
    v
}

#[test]
fn dimensions_come_from_the_sof_segment() {
    assert_eq!(jpeg_dimensions(&fake_jpeg(6000, 4000)), Some((6000, 4000)));
    assert_eq!(jpeg_dimensions(&fake_jpeg(160, 120)), Some((160, 120)));
}

#[test]
fn progressive_sof2_is_recognised() {
    let mut j = fake_jpeg(800, 600);
    j[9] = 0xC2;
    assert_eq!(jpeg_dimensions(&j), Some((800, 600)));
}

#[test]
fn short_segment_length_ends_the_walk() {
    let v = vec![0xFF, 0xD8, 0xFF, 0xE1, 0x00, 0x01, 0xFF, 0xC0, 0, 0, 0, 0, 0];
    assert_eq!(jpeg_dimensions(&v), None);
    assert_eq!(jpeg_dimensions(&[0xFF, 0xD8]), None);
    assert_eq!(jpeg_dimensions(&[]), None);
}

#[test]
fn sof_too_close_to_the_end_is_skipped() {
    let v = vec![0xFF, 0xD8, 0xFF, 0xC0, 0x00, 0x11, 0x08, 0x00, 0x10];
    assert_eq!(jpeg_dimensions(&v), None);
}

#[test]
fn largest_embedded_preview_wins() {
    let small = fake_jpeg(160, 120);
    let big = fake_jpeg(1616, 1080);
    let mid = fake_jpeg(1024, 768);
    let mut raw = vec![0x49, 0x49, 0x2A, 0x00, 7, 7, 7];
    raw.extend_from_slice(&small);
    raw.extend_from_slice(&[1, 2, 3]);
    raw.extend_from_slice(&big);
    raw.extend_from_slice(&mid);
    raw.extend_from_slice(&[0, 0, 0, 0]);
    let (w, h, bytes) = extract_largest_preview_full(&raw).unwrap();
    assert_eq!((w, h), (1616, 1080));
    assert_eq!(bytes, big);
}

#[test]
fn equal_areas_keep_the_first_preview() {
    let a = fake_jpeg(200, 100);
    let mut b = fake_jpeg(100, 200);
    b[8] = 0x11;
    let mut raw = a.clone();
    raw.extend_from_slice(&b);
    raw.push(0);
    let (w, h, bytes) = extract_largest_preview_full(&raw).unwrap();
    assert_eq!((w, h), (200, 100));
    assert_eq!(bytes, a);
}

#[test]
fn no_end_marker_means_no_preview() {
    let mut j = fake_jpeg(3000, 2000);
    j.truncate(j.len() - 2);
    j.extend_from_slice(&[0, 0, 0]);
    assert!(extract_largest_preview_full(&j).is_none());
    assert!(extract_largest_preview_full(&[]).is_none());
}

#[test]
fn quick_preview_needs_a_600_pixel_edge() {
    let mut raw = fake_jpeg(599, 599);
    raw.extend_from_slice(&[0, 0, 0, 0]);
    assert_eq!(extract_largest_preview_bytes(&raw), None);
    let mut raw2 = fake_jpeg(600, 10);
    raw2.extend_from_slice(&[0, 0, 0, 0]);
    assert_eq!(extract_largest_preview_bytes(&raw2), Some(fake_jpeg(600, 10)));
}

#[test]
fn start_candidates_list_every_soi() {
    let v = vec![0xFF, 0xD8, 0xFF, 0x00, 0xFF, 0xD8, 0xFF, 0xD8, 0xFF, 0x01, 0xFF, 0xD8, 0xFF];
    assert_eq!(jpeg_start_candidates(&v), vec![0, 4, 6]);
    assert_eq!(jpeg_start_candidates(&[0xFF, 0xD8, 0xFF]), Vec::<usize>::new());
}

#[test]
fn first_of_equal_largest_previews_wins() {
    fn stream(w: u16, h: u16, tag: u8) -> Vec<u8> {
        let mut v = vec![0xFF, 0xD8, 0xFF, 0xE0, 0x00, 0x04, tag, 0x00];
        v.extend_from_slice(&[0xFF, 0xC0, 0x00, 0x11, 0x08]);
        v.extend_from_slice(&h.to_be_bytes());
        v.extend_from_slice(&w.to_be_bytes());
        v.extend_from_slice(&[0x03, 0x01, 0x22, 0x00, 0xFF, 0xD9]);
        v
    }
    let mut data = vec![0u8; 5];
    data.extend(stream(800, 600, 1));
    data.extend(stream(600, 800, 2));
    data.extend(stream(100, 100, 3));
    let (w, h, bytes) = image_filter::jpeg::extract_largest_preview_full(&data).unwrap();
    assert_eq!((w, h), (800, 600));
    assert_eq!(bytes[6], 1);
}
