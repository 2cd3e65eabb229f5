use image_filter::exif::{
    exif_entries, exif_orientation, extract_exif, first_text_field, orientation, photo_exif, read_exif_orientation, tag, ExifContext, ExifEntry,
};

fn e(context: ExifContext, number: u16, first_uint: Option<u32>, text: &str) -> ExifEntry {
    ExifEntry { tag: tag(context, number), first_uint, text: text.to_string() }
}

#[test]
fn orientation_reads_the_first_orientation_field() {
    let es = vec![
        e(ExifContext::Tiff, 0x110, None, "Model"),
        e(ExifContext::Tiff, 0x112, Some(6), "row 0 at right"),
        e(ExifContext::Tiff, 0x112, Some(1), "row 0 at top"),
    ];
    assert_eq!(orientation(&es), Some(6));
    assert_eq!(read_exif_orientation(&es), Some(6));
}

#[test]
fn orientation_without_integer_value_is_none() {
    let es = vec![e(ExifContext::Tiff, 0x112, None, "?"), e(ExifContext::Tiff, 0x112, Some(3), "")];
    assert_eq!(orientation(&es), None);
    assert_eq!(orientation(&vec![]), None);
}

#[test]
fn orientation_outside_one_to_eight_is_none() {
    let es = vec![e(ExifContext::Tiff, 0x112, Some(0x1_0008), "")];
    assert_eq!(orientation(&es), None);
    assert_eq!(orientation(&vec![e(ExifContext::Tiff, 0x112, Some(9), "")]), None);
    assert_eq!(orientation(&vec![e(ExifContext::Tiff, 0x112, Some(0), "")]), None);
    assert_eq!(orientation(&vec![e(ExifContext::Tiff, 0x112, Some(8), "")]), Some(8));
}

#[test]
fn same_number_in_another_context_is_another_tag() {
    let es = vec![e(ExifContext::Exif, 0x112, Some(5), "")];
    assert_eq!(orientation(&es), None);
}

#[test]
fn first_text_field_takes_the_first_matching_tag() {
    let es = vec![
        e(ExifContext::Tiff, 0x132, None, "2020-01-01 00:00:00"),
        e(ExifContext::Exif, 0x9003, None, "2026-08-10 12:34:56"),
    ];
    let tags = [tag(ExifContext::Exif, 0x9003), tag(ExifContext::Tiff, 0x132)];
    assert_eq!(first_text_field(&es, &tags), Some("2020-01-01 00:00:00".to_string()));
    assert_eq!(first_text_field(&es, &[tag(ExifContext::Tiff, 0x110)]), None);
}

#[test]
fn summary_keeps_the_last_value_of_each_item() {
    let es = vec![
        e(ExifContext::Tiff, 0x10f, None, "SONY"),
        e(ExifContext::Tiff, 0x110, None, "ILCE-7M4"),
        e(ExifContext::Exif, 0xa434, None, "FE 24-70mm"),
        e(ExifContext::Exif, 0x920a, None, "35 mm"),
        e(ExifContext::Exif, 0x829d, None, "2.8"),
        e(ExifContext::Exif, 0x829a, None, "1/250"),
        e(ExifContext::Exif, 0x8827, Some(400), "400"),
        e(ExifContext::Exif, 0x9003, None, "2026-08-10 12:34:56"),
        e(ExifContext::Tiff, 0x132, None, ""),
        e(ExifContext::Tiff, 0x100, Some(7008), "7008"),
        e(ExifContext::Tiff, 0x101, Some(4672), "4672"),
        e(ExifContext::Tiff, 0x100, Some(160), "160"),
        e(ExifContext::Exif, 0x8827, None, "x"),
    ];
    let x = extract_exif(&es, 123456);
    assert_eq!(x.camera_make.as_deref(), Some("SONY"));
    assert_eq!(x.camera_model.as_deref(), Some("ILCE-7M4"));
    assert_eq!(x.lens_model.as_deref(), Some("FE 24-70mm"));
    assert_eq!(x.focal_length.as_deref(), Some("35 mm"));
    assert_eq!(x.aperture.as_deref(), Some("2.8"));
    assert_eq!(x.shutter_speed.as_deref(), Some("1/250"));
    assert_eq!(x.iso, Some(400));
    assert_eq!(x.date_taken.as_deref(), Some("2026-08-10 12:34:56"));
    assert_eq!(x.image_width, Some(160));
    assert_eq!(x.image_height, Some(4672));
    assert_eq!(x.file_size, 123456);
}

#[test]
fn summary_of_no_fields_is_empty() {
    let x = extract_exif(&vec![], 0);
    assert!(x.camera_make.is_none() && x.iso.is_none() && x.date_taken.is_none());
    assert_eq!(x.file_size, 0);
}

fn tiny_tiff_with_orientation(o: u16) -> Vec<u8> {
    // Little-endian TIFF header, one IFD with one SHORT entry: Orientation.
    let mut b = vec![b'I', b'I', 42, 0, 8, 0, 0, 0, 1, 0, 0x12, 0x01, 3, 0, 1, 0, 0, 0];
    b.extend_from_slice(&o.to_le_bytes());
    b.extend_from_slice(&[0, 0, 0, 0, 0, 0]);
    b
}

#[test]
fn exif_is_parsed_from_bytes() {
    let bytes = tiny_tiff_with_orientation(6);
    let es = exif_entries(&bytes).expect("readable EXIF");
    assert!(es.iter().any(|x| x.tag == tag(ExifContext::Tiff, 0x112) && x.first_uint == Some(6)));
    assert_eq!(exif_orientation(&bytes), Some(6));
    assert_eq!(exif_orientation(&tiny_tiff_with_orientation(9)), None);
    assert!(exif_entries(&[1, 2, 3]).is_none());
    assert_eq!(exif_orientation(&[1, 2, 3]), None);
    let summary = photo_exif(&[1, 2, 3], 42);
    assert_eq!(summary.file_size, 42);
    assert!(summary.camera_make.is_none());
}
