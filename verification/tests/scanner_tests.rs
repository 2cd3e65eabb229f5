use image_filter::scanner::{
    build_folder_entry, count_photos_recursive, descends_into, extension_of, has_subdirectories,
    is_photo_name_exec, is_raw_extension, is_supported_extension, is_video_extension, list_photos,
    CountWalk, DirEntryInfo, EntryKind, FileEntryInfo, PhotoExif, WalkEntry, MAX_WALK_DEPTH,
};

fn dir_entry(name: &str, kind: EntryKind, has_subdirs: bool) -> DirEntryInfo {
    DirEntryInfo { name: name.to_string(), path: format!("/root/{}", name), kind, has_subdirs }
}

fn file_entry(name: &str, size: u64) -> FileEntryInfo {
    FileEntryInfo { path: format!("/card/{}", name), file_name: name.to_string(), size, modified_ms: 1000 + size as i64 }
}

#[test]
fn extension_lists_ignore_case() {
    assert!(is_supported_extension("JPG"));
    assert!(is_supported_extension("heif"));
    assert!(!is_supported_extension("txt"));
    assert!(!is_supported_extension(""));
    assert!(is_raw_extension("Cr3"));
    assert!(!is_raw_extension("jpg"));
    assert!(is_video_extension("MKV"));
    assert!(!is_video_extension("heic"));
}

#[test]
fn extension_of_file_names() {
    assert_eq!(extension_of("IMG_1.JPG"), "JPG");
    assert_eq!(extension_of("archive.tar.gz"), "gz");
    assert_eq!(extension_of("README"), "");
    assert_eq!(extension_of(".hidden"), "");
    assert!(is_photo_name_exec("a.Nef"));
    assert!(!is_photo_name_exec(".jpg"));
    assert!(!is_photo_name_exec("notes.txt"));
}

#[test]
fn folder_entry_counts_photos_and_sorts_subfolders() {
    let entries = vec![
        dir_entry("b.JPG", EntryKind::File, false),
        dir_entry("notes.txt", EntryKind::File, false),
        dir_entry("Zeta", EntryKind::Dir, true),
        dir_entry("alpha", EntryKind::Dir, false),
        dir_entry("link.jpg", EntryKind::Symlink, false),
        dir_entry("c.mov", EntryKind::File, false),
        dir_entry("beta", EntryKind::Dir, false),
    ];
    let f = build_folder_entry("/root".to_string(), "root".to_string(), &entries);
    assert_eq!(f.path, "/root");
    assert_eq!(f.name, "root");
    assert_eq!(f.photo_count, 2);
    assert!(f.has_subdirs);
    let names: Vec<&str> = f.subfolders.iter().map(|s| s.name.as_str()).collect();
    assert_eq!(names, vec!["alpha", "beta", "Zeta"]);
    let zeta = &f.subfolders[2];
    assert_eq!(zeta.path, "/root/Zeta");
    assert!(zeta.has_subdirs);
    assert_eq!(zeta.photo_count, 0);
    assert!(zeta.subfolders.is_empty());
}

#[test]
fn folder_entry_without_subfolders() {
    let entries = vec![dir_entry("x.png", EntryKind::File, false)];
    let f = build_folder_entry("/p".to_string(), "p".to_string(), &entries);
    assert_eq!(f.photo_count, 1);
    assert!(!f.has_subdirs);
    assert!(f.subfolders.is_empty());
}

#[test]
fn list_photos_filters_and_sorts_by_lowercase_name() {
    let files = vec![file_entry("b.ARW", 10), file_entry("a.jpg", 20), file_entry("x.txt", 30), file_entry("C.mp4", 40)];
    let photos = list_photos(&files);
    let names: Vec<&str> = photos.iter().map(|p| p.file_name.as_str()).collect();
    assert_eq!(names, vec!["a.jpg", "b.ARW", "C.mp4"]);
    assert!(!photos[0].is_raw && !photos[0].is_video);
    assert!(photos[1].is_raw && !photos[1].is_video);
    assert!(!photos[2].is_raw && photos[2].is_video);
    assert_eq!(photos[1].path, "/card/b.ARW");
    assert_eq!(photos[1].file_size, 10);
    assert_eq!(photos[1].modified_at, 1010);
    assert_eq!(photos[1].exif.file_size, 0);
    assert!(photos[1].exif.camera_make.is_none());
}

#[test]
fn subdirectory_detection() {
    assert!(!has_subdirectories(&vec![]));
    assert!(!has_subdirectories(&vec![EntryKind::File, EntryKind::Symlink, EntryKind::Other]));
    assert!(has_subdirectories(&vec![EntryKind::File, EntryKind::Dir]));
}

#[test]
fn recursive_count_adds_subfolder_counts() {
    let entries = vec![
        WalkEntry { kind: EntryKind::File, name: "a.jpg".to_string(), sub_count: 0 },
        WalkEntry { kind: EntryKind::File, name: "b.txt".to_string(), sub_count: 0 },
        WalkEntry { kind: EntryKind::Dir, name: "sub".to_string(), sub_count: 5 },
        WalkEntry { kind: EntryKind::Symlink, name: "link".to_string(), sub_count: 2 },
        WalkEntry { kind: EntryKind::Other, name: "x.jpg".to_string(), sub_count: 9 },
    ];
    assert_eq!(count_photos_recursive(&entries), 8);
    assert_eq!(count_photos_recursive(&vec![]), 0);
    assert!(descends_into(EntryKind::Dir));
    assert!(descends_into(EntryKind::Symlink));
    assert!(!descends_into(EntryKind::File));
}

#[test]
fn count_walk_visits_each_folder_once_within_depth() {
    let mut w = CountWalk::new();
    assert!(w.enter(0, Some(b"/a".to_vec())));
    assert!(!w.enter(1, Some(b"/a".to_vec())));
    assert!(!w.enter(MAX_WALK_DEPTH + 1, Some(b"/b".to_vec())));
    assert!(w.enter(MAX_WALK_DEPTH, Some(b"/b".to_vec())));
    assert!(w.enter(3, None));
    assert!(w.enter(3, None));
    assert!(!w.enter(MAX_WALK_DEPTH + 1, None));
}

#[test]
fn photo_exif_default_is_empty() {
    let e = PhotoExif::default();
    assert!(e.camera_make.is_none() && e.iso.is_none() && e.image_width.is_none());
    assert_eq!(e.file_size, 0);
}

#[test]
fn raw_and_video_extensions_are_supported() {
    for e in ["arw", "cr2", "cr3", "nef", "dng", "orf", "rw2", "raf", "pef", "srw", "mp4", "mov", "avi", "mkv"] {
        assert!(is_raw_extension(e) || is_video_extension(e));
        assert!(is_supported_extension(e));
    }
}
