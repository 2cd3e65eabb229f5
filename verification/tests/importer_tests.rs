use image_filter::exif::{tag, ExifContext, ExifEntry};
use image_filter::importer::{
    after_candidate_check, after_compare, after_copy, after_target_check, copy_begin, CopyAction,
    build_dest_path, components, date_cuts_valid, dest_path_for_name, display_file_name, get_exif_info, hashes_match,
    import_subfolder, is_safe_relative, next_candidate, same_content, sanitize_path, split_file_name,
    unique_candidate, CopyFailure, FileOutcome, ImportProgress, ImportTally,
};
use image_filter::text::chars_of;

fn s(v: &[char]) -> String {
    v.iter().collect()
}

fn sony() -> Vec<ExifEntry> {
    vec![
        ExifEntry { tag: tag(ExifContext::Tiff, 0x110), first_uint: None, text: "Sony A7M4".to_string() },
        ExifEntry {
            tag: tag(ExifContext::Exif, 0x9003),
            first_uint: None,
            text: "2026-08-10 12:34:56".to_string(),
        },
    ]
}

#[test]
fn sanitize_replaces_reserved_characters_and_spaces() {
    assert_eq!(sanitize_path("  a<b>c:d\"e/f\\g|h?i*j  "), "a_b_c_d_e_f_g_h_i_j");
    assert_eq!(sanitize_path("Sony A7M4"), "Sony_A7M4");
    assert_eq!(sanitize_path(" \t "), "");
    assert_eq!(sanitize_path("相机 一号"), "相机_一号");
}

#[test]
fn sanitize_is_idempotent_on_examples() {
    for t in ["  x y ", "a/b", " ?* ", "\u{3000}z\u{3000}", ""] {
        let once = sanitize_path(t);
        assert_eq!(sanitize_path(&once), once);
    }
}

#[test]
fn file_names_split_like_std_path() {
    let cases = [
        ("IMG_0001.ARW", "IMG_0001", Some("ARW")),
        ("archive.tar.gz", "archive.tar", Some("gz")),
        (".bashrc", ".bashrc", None),
        ("noext", "noext", None),
        ("trailing.", "trailing", Some("")),
        ("..", "..", None),
        ("...", "..", Some("")),
    ];
    for (name, stem, ext) in cases {
        let p = std::path::Path::new(name);
        let (st, ex) = split_file_name(&chars_of(name));
        assert_eq!(s(&st), stem);
        assert_eq!(ex.map(|e| s(&e)), ext.map(|e| e.to_string()));
        if name != ".." {
            assert_eq!(p.file_stem().and_then(|x| x.to_str()), Some(stem));
            assert_eq!(p.extension().and_then(|x| x.to_str()), ext);
        }
    }
}

#[test]
fn exif_parts_cut_the_date_and_sanitize_the_model() {
    let (y, m, d, c) = get_exif_info(&sony());
    assert_eq!((y.as_str(), m.as_str(), d.as_str(), c.as_str()), ("2026", "08", "10", "Sony_A7M4"));
    let (y, m, d, c) = get_exif_info(&vec![]);
    assert_eq!((y.as_str(), m.as_str(), d.as_str(), c.as_str()), ("0000", "00", "00", "Unknown"));
    let short = vec![ExifEntry { tag: tag(ExifContext::Tiff, 0x132), first_uint: None, text: "2026".to_string() }];
    let (y, _, _, _) = get_exif_info(&short);
    assert_eq!(y, "0000");
}

#[test]
fn readme_naming_scenario() {
    let d = dest_path_for_name("{date}/{camera}", "{seq}.{ext}", Some("DSC00001.ARW"), &sony(), 1);
    assert_eq!(d.folder(), &strings(&["2026-08-10", "Sony_A7M4"]));
    assert_eq!(d.file_name(), "0001.ARW");
    let d = dest_path_for_name("{year}/{month}", "{camera}_{original}_{day}", Some("a b.JPG"), &sony(), 12);
    assert_eq!(d.folder(), &strings(&["2026", "08"]));
    assert_eq!(d.file_name(), "Sony_A7M4_a_b_10");
}

#[test]
fn folder_templates_nest_at_slashes_only() {
    let d = dest_path_for_name("/{date}//{camera}/", "{seq}.{ext}", Some("x.ARW"), &sony(), 1);
    assert_eq!(d.folder(), &strings(&["2026-08-10", "Sony_A7M4"]));
    let d = dest_path_for_name("a\\b: c", "f", Some("x.ARW"), &sony(), 1);
    assert_eq!(d.folder(), &strings(&["a_b__c"]));
    let d = dest_path_for_name("", "f", Some("x.ARW"), &sony(), 1);
    assert!(d.folder().is_empty());
}

#[test]
fn empty_templates_keep_the_original_name() {
    let d = dest_path_for_name("", "", Some("IMG_1.CR3"), &vec![], 5);
    assert!(d.folder().is_empty());
    assert_eq!(d.file_name(), "IMG_1.CR3");
    let d = dest_path_for_name("", "", Some("README"), &vec![], 5);
    assert_eq!(d.file_name(), "README");
    let d = dest_path_for_name("", "", None, &vec![], 5);
    assert_eq!(d.file_name(), "unknown");
}

#[test]
fn seq_counter_pads_to_four_digits() {
    let d = dest_path_for_name("", "{seq}", Some("a.jpg"), &vec![], 12345);
    assert_eq!(d.file_name(), "12345");
    let d = dest_path_for_name("", "{seq}", Some("a.jpg"), &vec![], 7);
    assert_eq!(d.file_name(), "0007");
}

#[test]
fn build_dest_path_takes_the_final_component() {
    let d = build_dest_path("{date}", "{original}.{ext}", "/media/card/DCIM/DSC01234.ARW", &sony(), 1);
    assert_eq!(d.file_name(), "DSC01234.ARW");
    let d = build_dest_path("", "{original}_{seq}.{ext}", "card/My Pic.jpg", &vec![], 7);
    assert!(d.folder().is_empty());
    assert_eq!(d.file_name(), "My_Pic_0007.jpg");
    let d = build_dest_path("", "", "DCIM/IMG_0001.CR2", &vec![], 5);
    assert_eq!(d.file_name(), "IMG_0001.CR2");
    let d = build_dest_path("", "", "DCIM/./", &vec![], 5);
    assert_eq!(d.file_name(), "DCIM");
    let d = build_dest_path("", "", "DCIM/..", &vec![], 5);
    assert_eq!(d.file_name(), "unknown");
    assert_eq!(display_file_name("/media/card/DCIM/DSC01234.ARW"), "DSC01234.ARW");
    assert_eq!(display_file_name("/"), "unknown");
    assert_eq!(display_file_name("IMG_0001.ARW"), "IMG_0001.ARW");
    assert_eq!(display_file_name("/a/.."), "unknown");
}

#[test]
fn destinations_with_dot_components_are_refused() {
    let e = vec![];
    let ok = dest_path_for_name("{date}", "{original}.{ext}", Some("a.jpg"), &e, 1);
    assert_eq!(components(&ok), strings(&["0000-00-00", "a.jpg"]));
    let up = dest_path_for_name("../..", "x", Some("a.jpg"), &e, 1);
    assert_eq!(up.folder(), &strings(&["..", ".."]));
    match copy_begin(&up, "../../x") {
        CopyAction::Fail(m) => assert_eq!(m, "非法目标路径: ../../x"),
        other => panic!("unexpected {:?}", other),
    }
    let lead_dot = dest_path_for_name("./a", "x", Some("a.jpg"), &e, 1);
    assert!(matches!(copy_begin(&lead_dot, "./a/x"), CopyAction::Fail(_)));
    let mid_dot = dest_path_for_name("a/.", "x", Some("a.jpg"), &e, 1);
    assert!(matches!(copy_begin(&mid_dot, "a/./x"), CopyAction::CheckTarget(_)));
}

#[test]
fn safety_check_reads_any_path() {
    assert!(is_safe_relative("2026-08-10/0001.ARW"));
    assert!(is_safe_relative("a/./b"));
    assert!(is_safe_relative(""));
    assert!(!is_safe_relative("/etc/passwd"));
    assert!(!is_safe_relative("../DSC_0001.arw"));
    assert!(!is_safe_relative("a/.."));
    assert!(!is_safe_relative("./a"));
    assert!(!is_safe_relative("."));
}

#[test]
fn alternative_names_number_the_stem() {
    let comps = vec!["2026-08-10".to_string(), "0001.arw".to_string()];
    assert_eq!(unique_candidate(&comps, 1), vec!["2026-08-10".to_string(), "0001_1.arw".to_string()]);
    assert_eq!(unique_candidate(&comps, 23), vec!["2026-08-10".to_string(), "0001_23.arw".to_string()]);
    let plain = vec!["README".to_string()];
    assert_eq!(unique_candidate(&plain, 2), vec!["README_2".to_string()]);
    assert_eq!(unique_candidate(&vec![], 1), vec!["file_1".to_string()]);
    assert_ne!(unique_candidate(&comps, 1), unique_candidate(&comps, 11));
}

#[test]
fn probing_stops_after_9999() {
    assert_eq!(next_candidate(1), Some(2));
    assert_eq!(next_candidate(9998), Some(9999));
    assert_eq!(next_candidate(9999), None);
}

#[test]
fn content_comparison() {
    assert!(same_content("abc", "abc"));
    assert!(!same_content("", ""));
    assert!(!same_content("abc", "abd"));
    assert!(hashes_match("", ""));
    assert!(!hashes_match("a", "ab"));
}

#[test]
fn subfolder_is_sanitized_or_absent() {
    assert_eq!(import_subfolder(""), None);
    assert_eq!(import_subfolder(" Trip: Day 1 "), Some("Trip__Day_1".to_string()));
}

#[test]
fn failure_messages() {
    assert_eq!(CopyFailure::UnsafeDestination.message("../x"), "非法目标路径: ../x");
    assert_eq!(CopyFailure::NoFreeName.message("x"), "无法生成唯一文件名");
    assert_eq!(CopyFailure::ContentMismatch.message("x"), "校验失败，文件不匹配");
}

#[test]
fn progress_reports() {
    let p = ImportProgress::checking("a.jpg".to_string(), 50);
    assert_eq!((p.status.as_str(), p.message.as_str(), p.percent), ("checking", "检查中...", 50));
    let p = ImportProgress::copying("a.jpg".to_string(), "0001.jpg");
    assert_eq!((p.status.as_str(), p.message.as_str()), ("copying", "复制中 → 0001.jpg"));
    let p = ImportProgress::skipped("a.jpg".to_string(), "/x/0001.jpg");
    assert_eq!((p.status.as_str(), p.message.as_str()), ("skipped", "已存在且相同 → /x/0001.jpg"));
    let p = ImportProgress::done("a.jpg".to_string(), "/x/0001.jpg");
    assert_eq!((p.status.as_str(), p.message.as_str()), ("done", "完成 → /x/0001.jpg"));
    let p = ImportProgress::failed("a.jpg".to_string(), "复制失败: x".to_string());
    assert_eq!((p.status.as_str(), p.message.as_str()), ("error", "复制失败: x"));
    let p = ImportProgress::task_failed("a.jpg".to_string(), "panic");
    assert_eq!((p.status.as_str(), p.message.as_str(), p.file_name.as_str()), ("error", "任务失败: panic", "a.jpg"));
}

#[test]
fn only_copied_files_advance_the_counter() {
    let mut t = ImportTally::new();
    assert_eq!(t.next_counter(), 1);
    t.record(FileOutcome::Copied);
    t.record(FileOutcome::Skipped);
    t.record(FileOutcome::Failed);
    assert_eq!(t.next_counter(), 2);
    assert_eq!(t.imported(), 1);
}

#[test]
fn date_cuts_valid_checks_char_boundaries() {
    assert!(date_cuts_valid(&sony()));
    assert!(date_cuts_valid(&vec![]));
    let short = vec![ExifEntry { tag: tag(ExifContext::Tiff, 0x132), first_uint: None, text: "年月日".to_string() }];
    assert!(date_cuts_valid(&short));
    let wide = vec![ExifEntry {
        tag: tag(ExifContext::Exif, 0x9003),
        first_uint: None,
        text: "2024年01月02日".to_string(),
    }];
    assert!(!date_cuts_valid(&wide));
}

#[test]
fn alternative_name_never_equals_taken_name() {
    for name in ["a.", "..", ".hidden", "x_1.jpg", "file"] {
        let comps = vec!["d".to_string(), name.to_string()];
        for n in [1u32, 9, 10, 9999] {
            assert_ne!(unique_candidate(&comps, n), comps);
        }
    }
    assert_eq!(unique_candidate(&vec!["a.".to_string()], 1), vec!["a_1".to_string()]);
    assert_eq!(unique_candidate(&vec!["d".to_string(), "..".to_string()], 3), vec!["d".to_string(), "file_3".to_string()]);
}

fn strings(v: &[&str]) -> Vec<String> {
    v.iter().map(|x| x.to_string()).collect()
}

#[test]
fn copy_begins_with_target_check() {
    let d = dest_path_for_name("{date}", "{seq}.{ext}", Some("DSC01234.ARW"), &sony(), 1);
    match copy_begin(&d, "2026-08-10/0001.ARW") {
        CopyAction::CheckTarget(p) => assert_eq!(p, strings(&["2026-08-10", "0001.ARW"])),
        other => panic!("unexpected {:?}", other),
    }
    let dotted = dest_path_for_name("", "..", Some("DSC_0001.arw"), &vec![], 1);
    match copy_begin(&dotted, "..") {
        CopyAction::Fail(m) => assert_eq!(m, "非法目标路径: .."),
        other => panic!("unexpected {:?}", other),
    }
}

#[test]
fn copy_steps_never_overwrite_and_verify() {
    let t = strings(&["d", "a.jpg"]);
    assert!(matches!(after_target_check(&t, true), CopyAction::Compare(p) if p == t));
    assert!(matches!(after_target_check(&t, false), CopyAction::CopyTo(p) if p == t));
    assert!(matches!(after_compare(&t, "abc", "abc"), CopyAction::Skip(p, h) if p == t && h == "abc"));
    assert!(matches!(after_compare(&t, "", ""), CopyAction::CheckCandidate(1, p) if p == strings(&["d", "a_1.jpg"])));
    assert!(matches!(after_compare(&t, "abc", "abd"), CopyAction::CheckCandidate(1, _)));
    assert!(matches!(after_candidate_check(&t, 3, false), CopyAction::CopyTo(p) if p == strings(&["d", "a_3.jpg"])));
    assert!(matches!(after_candidate_check(&t, 3, true), CopyAction::CheckCandidate(4, p) if p == strings(&["d", "a_4.jpg"])));
    match after_candidate_check(&t, 9999, true) {
        CopyAction::Fail(m) => assert_eq!(m, "无法生成唯一文件名"),
        other => panic!("unexpected {:?}", other),
    }
    assert!(matches!(after_copy(&t, "ff", "ff"), CopyAction::Done(p, h) if p == t && h == "ff"));
    match after_copy(&t, "ff", "fe") {
        CopyAction::Fail(m) => assert_eq!(m, "校验失败，文件不匹配"),
        other => panic!("unexpected {:?}", other),
    }
}

#[test]
fn date_taken_is_preferred_over_file_date() {
    let e = vec![
        ExifEntry { tag: tag(ExifContext::Tiff, 0x132), first_uint: None, text: "2026-08-12 18:00:00".to_string() },
        ExifEntry { tag: tag(ExifContext::Exif, 0x9003), first_uint: None, text: "2026-08-10 09:00:00".to_string() },
    ];
    let (y, m, d, _) = get_exif_info(&e);
    assert_eq!((y.as_str(), m.as_str(), d.as_str()), ("2026", "08", "10"));
    let only_plain = vec![ExifEntry {
        tag: tag(ExifContext::Tiff, 0x132),
        first_uint: None,
        text: "2026-08-12 18:00:00".to_string(),
    }];
    let (_, _, d, _) = get_exif_info(&only_plain);
    assert_eq!(d, "12");
}

#[test]
fn readme_example_through_a_card_path() {
    let d = build_dest_path("{date}/{camera}", "{seq}.{ext}", "DCIM/DSC00001.ARW", &sony(), 1);
    assert_eq!(components(&d), strings(&["2026-08-10", "Sony_A7M4", "0001.ARW"]));
}
