use image_filter::images::{
    bgra_to_rgba, cache_hash, decode_jpeg_fast, dng_buffer_len, embedded_preview_is_full, exif_flips, extract_raw_preview,
    full_cache_name, full_decode_plan, is_full_res, needs_resize, preview_cache_name, preview_needs_reorient,
    thumbnail_cache_name, thumbnail_source, transpose_rgb, FullDecodeStep, ThumbnailSource,
};

fn small_jpeg(w: u32, h: u32) -> Vec<u8> {
    let img = image::DynamicImage::ImageRgb8(image::RgbImage::new(w, h));
    let mut buf = std::io::Cursor::new(Vec::new());
    img.write_to(&mut buf, image::ImageFormat::Jpeg).unwrap();
    buf.into_inner()
}

#[test]
fn full_resolution_threshold_on_long_edge() {
    assert!(is_full_res(1500, 10));
    assert!(is_full_res(10, 1500));
    assert!(!is_full_res(1499, 1499));
    assert!(embedded_preview_is_full(3000, 2000));
    assert!(!embedded_preview_is_full(2999, 2000));
}

#[test]
fn resize_only_above_max_edge() {
    assert!(needs_resize(5001, 100, 5000));
    assert!(!needs_resize(5000, 5000, 5000));
    assert!(needs_resize(100, 301, 300));
}

#[test]
fn cache_hash_is_stable_for_same_input() {
    assert_eq!(cache_hash("/a/b.ARW", 1700000000), cache_hash("/a/b.ARW", 1700000000));
}

#[test]
fn cache_file_names() {
    assert_eq!(thumbnail_cache_name(0xabc, 256), "0000000000000abc_256.jpg");
    assert_eq!(thumbnail_cache_name(0, 0), "0000000000000000_0.jpg");
    assert_eq!(preview_cache_name(u64::MAX), "ffffffffffffffff_prev.jpg");
    assert_eq!(full_cache_name(0x0123456789abcdef), "0123456789abcdef_full.jpg");
    let h = 0xdead_beef_u64;
    assert_eq!(thumbnail_cache_name(h, 300), format!("{:016x}_{}.jpg", h, 300));
}

#[test]
fn orientation_flips_follow_exif_values() {
    assert_eq!(exif_flips(None), (false, false, false));
    assert_eq!(exif_flips(Some(1)), (false, false, false));
    assert_eq!(exif_flips(Some(2)), (false, true, false));
    assert_eq!(exif_flips(Some(3)), (false, true, true));
    assert_eq!(exif_flips(Some(4)), (false, false, true));
    assert_eq!(exif_flips(Some(5)), (true, false, false));
    assert_eq!(exif_flips(Some(6)), (true, false, true));
    assert_eq!(exif_flips(Some(7)), (true, true, true));
    assert_eq!(exif_flips(Some(8)), (true, true, false));
    assert_eq!(exif_flips(Some(99)), (false, false, false));
}

#[test]
fn preview_reorient_only_when_rotated() {
    assert!(!preview_needs_reorient(None));
    assert!(!preview_needs_reorient(Some(1)));
    assert!(preview_needs_reorient(Some(6)));
    assert!(preview_needs_reorient(Some(0)));
}

#[test]
fn transpose_two_by_two() {
    let d = vec![1, 1, 1, 2, 2, 2, 3, 3, 3, 4, 4, 4];
    assert_eq!(transpose_rgb(&d, 2, 2), vec![1, 1, 1, 3, 3, 3, 2, 2, 2, 4, 4, 4]);
}

#[test]
fn transpose_twice_is_identity() {
    let d: Vec<u8> = (0u8..18).collect();
    let t = transpose_rgb(&d, 3, 2);
    assert_eq!(t, vec![0, 1, 2, 9, 10, 11, 3, 4, 5, 12, 13, 14, 6, 7, 8, 15, 16, 17]);
    assert_eq!(transpose_rgb(&t, 2, 3), d);
}

#[test]
fn raw_preview_found_after_garbage() {
    let jpeg = small_jpeg(16, 8);
    let mut data = vec![0x00, 0x11, 0xFF, 0xD8, 0x00, 0x42];
    data.extend_from_slice(&jpeg);
    data.extend_from_slice(&[0x00, 0x00]);
    let img = extract_raw_preview(&data).expect("embedded preview");
    assert_eq!((img.width, img.height), (16, 8));
    assert_eq!(img.pixels.len(), 16 * 8 * 4);
    let direct = image::load_from_memory(&jpeg).unwrap().to_rgba8();
    assert_eq!(img.pixels, direct.into_raw());
}

#[test]
fn raw_preview_absent_without_decodable_jpeg() {
    assert!(extract_raw_preview(&[]).is_none());
    assert!(extract_raw_preview(&[0x01, 0x02, 0x03]).is_none());
    assert!(extract_raw_preview(&[0xFF, 0xD8, 0xFF, 0x00, 0x01]).is_none());
}

#[test]
fn thumbnail_source_by_extension() {
    assert_eq!(thumbnail_source("MP4"), ThumbnailSource::VideoFrame);
    assert_eq!(thumbnail_source("arw"), ThumbnailSource::RawPreview);
    assert_eq!(thumbnail_source("JPEG"), ThumbnailSource::Jpeg);
    assert_eq!(thumbnail_source("jpg"), ThumbnailSource::Jpeg);
    assert_eq!(thumbnail_source("png"), ThumbnailSource::Image);
    assert_eq!(thumbnail_source(""), ThumbnailSource::Image);
}

#[test]
fn full_decode_order_by_file_kind() {
    assert_eq!(
        full_decode_plan(true, false),
        vec![FullDecodeStep::DevelopThenDng, FullDecodeStep::FinalDevelop]
    );
    assert_eq!(
        full_decode_plan(false, true),
        vec![FullDecodeStep::EmbeddedPreview, FullDecodeStep::SystemCodec, FullDecodeStep::FinalDevelop]
    );
}

#[test]
fn bgra_swaps_red_and_blue_of_whole_pixels() {
    let mut px = vec![1, 2, 3, 4, 5, 6, 7, 8, 9];
    bgra_to_rgba(&mut px);
    assert_eq!(px, vec![3, 2, 1, 4, 7, 6, 5, 8, 9]);
}

#[test]
fn dng_buffer_limits() {
    assert_eq!(dng_buffer_len(100, 50), Some(15000));
    assert_eq!(dng_buffer_len(0, 5), None);
    assert_eq!(dng_buffer_len(-3, 5), None);
    assert_eq!(dng_buffer_len(20001, 1), None);
    assert_eq!(dng_buffer_len(20000, 20000), None);
    assert_eq!(dng_buffer_len(10000, 10000), Some(300_000_000));
}

#[test]
fn bgra_swap_twice_restores_pixels() {
    let orig: Vec<u8> = (0u8..11).collect();
    let mut px = orig.clone();
    bgra_to_rgba(&mut px);
    assert_ne!(px, orig);
    bgra_to_rgba(&mut px);
    assert_eq!(px, orig);
}

#[test]
fn fast_jpeg_decode_of_valid_and_invalid_bytes() {
    let img = decode_jpeg_fast(&small_jpeg(24, 10)).expect("decodes");
    assert_eq!((img.width, img.height), (24, 10));
    assert!(img.pixels.len() >= 24 * 10 * 3);
    match decode_jpeg_fast(&[0x00, 0x01, 0x02, 0x03]) {
        Err(m) => assert!(m.starts_with("JPEG decode: ")),
        Ok(_) => panic!("garbage must not decode"),
    }
}

#[test]
fn later_decodable_preview_wins() {
    let mut data = small_jpeg(16, 8);
    data.extend_from_slice(&small_jpeg(4, 2));
    let img = extract_raw_preview(&data).unwrap();
    assert_eq!((img.width, img.height), (4, 2));
}

#[test]
fn picture_decoding_gives_rgba_pixels() {
    let p = image_filter::images::decode_picture(&small_jpeg(5, 3)).unwrap();
    assert_eq!((p.width, p.height, p.pixels.len()), (5, 3, 60));
    assert!(image_filter::images::decode_picture(&[9, 9, 9]).is_none());
}

use image_filter::images::{
    full_image_after_permit, full_image_after_removal, full_image_after_step, full_image_start, FullCache,
    FullImageAction, StepOutcome,
};

fn fail_text(a: &FullImageAction) -> String {
    match a {
        FullImageAction::Fail(m) => m.clone(),
        other => panic!("expected a failure, got {:?}", other),
    }
}

#[test]
fn full_image_start_decisions() {
    let (_, a) = full_image_start("x.ARW", false, true, false, false, FullCache::Missing, false);
    assert_eq!(fail_text(&a), "File not found: x.ARW");
    let (_, a) = full_image_start("x.jpg", true, false, false, false, FullCache::Missing, false);
    assert!(matches!(a, FullImageAction::ReturnSource));
    let (_, a) = full_image_start("x.ARW", true, true, false, false, FullCache::FullRes, false);
    assert!(matches!(a, FullImageAction::ReturnCache));
    let (r, a) = full_image_start("x.ARW", true, true, false, false, FullCache::LowRes, false);
    assert!(matches!(a, FullImageAction::RemoveCache));
    let (_, a) = full_image_after_removal(r, false);
    assert!(matches!(a, FullImageAction::Run(FullDecodeStep::EmbeddedPreview)));
}

#[test]
fn raw_request_walks_its_decoders() {
    let (r, a) = full_image_start("x.ARW", true, true, false, true, FullCache::Missing, false);
    assert!(matches!(a, FullImageAction::Run(FullDecodeStep::EmbeddedPreview)));
    let (r, a) = full_image_after_step(r, false, StepOutcome::Error(String::new()));
    assert!(matches!(a, FullImageAction::AcquirePermit));
    let (r, a) = full_image_after_permit(r, false);
    assert!(matches!(a, FullImageAction::Run(FullDecodeStep::SystemCodec)));
    let (r, a) = full_image_after_step(r, false, StepOutcome::Error(String::new()));
    assert!(matches!(a, FullImageAction::Run(FullDecodeStep::FinalDevelop)));
    let (_, a) = full_image_after_step(r, false, StepOutcome::LowResolution);
    assert_eq!(fail_text(&a), "RAW full decode returned low resolution");
}

#[test]
fn superseded_requests_give_up_at_the_permit() {
    let (r, a) = full_image_start("x.ARW", true, true, false, false, FullCache::Missing, true);
    assert!(matches!(a, FullImageAction::Run(FullDecodeStep::EmbeddedPreview)));
    let (_, a) = full_image_after_step(r, true, StepOutcome::Error(String::new()));
    assert_eq!(fail_text(&a), "superseded");
    let (r, a) = full_image_start("x.DNG", true, true, true, false, FullCache::Missing, false);
    assert!(matches!(a, FullImageAction::AcquirePermit));
    let (_, a) = full_image_after_permit(r, true);
    assert_eq!(fail_text(&a), "superseded");
}

#[test]
fn dng_request_and_outcomes() {
    let (r, _) = full_image_start("x.DNG", true, true, true, false, FullCache::Missing, false);
    let (r, a) = full_image_after_permit(r, false);
    assert!(matches!(a, FullImageAction::Run(FullDecodeStep::DevelopThenDng)));
    let (r, a) = full_image_after_step(r, false, StepOutcome::Error(String::new()));
    assert!(matches!(a, FullImageAction::Run(FullDecodeStep::FinalDevelop)));
    let (_, a) = full_image_after_step(r, false, StepOutcome::LowResolution);
    assert_eq!(fail_text(&a), "DNG full decode returned low resolution");
    let (r, _) = full_image_start("x.DNG", true, true, true, false, FullCache::Missing, false);
    let (r, _) = full_image_after_permit(r, false);
    let (_, a) = full_image_after_step(r, false, StepOutcome::Succeeded);
    assert!(matches!(a, FullImageAction::ReturnCache));
}
