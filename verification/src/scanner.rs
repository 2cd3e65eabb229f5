//! Folder browsing, photo listing and removable-drive handling: the values
//! reported to the interface and the decisions taken on directory entries.

use vstd::prelude::*;
use crate::importer::{split_file_name, name_extension};
use crate::text::{chars_of, string_of, push_all, to_lowercase, unicode_lowercase, stable_order, is_stable_order};
use vstd::utf8::encode_utf8;
use vstd::string::StringSliceAdditionalSpecFns;

verus! {

/// EXIF summary of a photo, shown when it is selected.
#[derive(Debug)]
pub struct PhotoExif {
    pub camera_make: Option<String>,
    pub camera_model: Option<String>,
    pub lens_model: Option<String>,
    pub focal_length: Option<String>,
    pub aperture: Option<String>,
    pub shutter_speed: Option<String>,
    pub iso: Option<u32>,
    pub date_taken: Option<String>,
    pub image_width: Option<u32>,
    pub image_height: Option<u32>,
    pub file_size: u64,
}

impl Default for PhotoExif {
    fn default() -> (r: Self)
        ensures
            r.camera_make is None && r.camera_model is None && r.lens_model is None
                && r.focal_length is None && r.aperture is None && r.shutter_speed is None
                && r.iso is None && r.date_taken is None && r.image_width is None
                && r.image_height is None && r.file_size == 0,
    {
        PhotoExif {
            camera_make: None,
            camera_model: None,
            lens_model: None,
            focal_length: None,
            aperture: None,
            shutter_speed: None,
            iso: None,
            date_taken: None,
            image_width: None,
            image_height: None,
            file_size: 0,
        }
    }
}


/// The extensions listed and counted as photos or videos.
pub open spec fn supported_extensions() -> Seq<Seq<char>> {
    seq!["jpg"@, "jpeg"@, "png"@, "gif"@, "bmp"@, "tiff"@, "tif"@, "webp"@, "arw"@, "cr2"@, "cr3"@, "nef"@, "dng"@, "orf"@, "rw2"@, "raf"@, "pef"@, "srw"@, "raw"@, "mp4"@, "mov"@, "avi"@, "mkv"@, "heic"@, "heif"@]
}

/// The extensions of camera RAW files.
pub open spec fn raw_extensions() -> Seq<Seq<char>> {
    seq!["arw"@, "cr2"@, "cr3"@, "nef"@, "dng"@, "orf"@, "rw2"@, "raf"@, "pef"@, "srw"@]
}

/// The extensions of videos.
pub open spec fn video_extensions() -> Seq<Seq<char>> {
    seq!["mp4"@, "mov"@, "avi"@, "mkv"@]
}

/// Every RAW and every video extension is also listed as supported, so
/// RAW files and videos are listed and counted with the photos.
pub proof fn lemma_kinds_are_supported(e: Seq<char>)
    ensures
        raw_extensions().contains(e) ==> supported_extensions().contains(e),
        video_extensions().contains(e) ==> supported_extensions().contains(e),
{
    if raw_extensions().contains(e) {
        let k = choose|k: int| 0 <= k < raw_extensions().len() && raw_extensions()[k] == e;
        assert(supported_extensions()[k + 8] == raw_extensions()[k]);
    }
    if video_extensions().contains(e) {
        let k = choose|k: int| 0 <= k < video_extensions().len() && video_extensions()[k] == e;
        assert(supported_extensions()[k + 19] == video_extensions()[k]);
    }
}

/// The photo and video extensions, letter by letter: jpg, jpeg, png, gif,
/// bmp, tiff, tif, webp, the RAW extensions arw, cr2, cr3, nef, dng, orf,
/// rw2, raf, pef, srw, raw, the videos mp4, mov, avi, mkv, and heic, heif.
/// Each is listed once.
pub proof fn lemma_supported_extensions_listed()
    ensures
        supported_extensions() == seq![
            seq!['j', 'p', 'g'],
            seq!['j', 'p', 'e', 'g'],
            seq!['p', 'n', 'g'],
            seq!['g', 'i', 'f'],
            seq!['b', 'm', 'p'],
            seq!['t', 'i', 'f', 'f'],
            seq!['t', 'i', 'f'],
            seq!['w', 'e', 'b', 'p'],
            seq!['a', 'r', 'w'],
            seq!['c', 'r', '2'],
            seq!['c', 'r', '3'],
            seq!['n', 'e', 'f'],
            seq!['d', 'n', 'g'],
            seq!['o', 'r', 'f'],
            seq!['r', 'w', '2'],
            seq!['r', 'a', 'f'],
            seq!['p', 'e', 'f'],
            seq!['s', 'r', 'w'],
            seq!['r', 'a', 'w'],
            seq!['m', 'p', '4'],
            seq!['m', 'o', 'v'],
            seq!['a', 'v', 'i'],
            seq!['m', 'k', 'v'],
            seq!['h', 'e', 'i', 'c'],
            seq!['h', 'e', 'i', 'f'],
        ],
        supported_extensions().no_duplicates(),
        raw_extensions() == seq![
            seq!['a', 'r', 'w'],
            seq!['c', 'r', '2'],
            seq!['c', 'r', '3'],
            seq!['n', 'e', 'f'],
            seq!['d', 'n', 'g'],
            seq!['o', 'r', 'f'],
            seq!['r', 'w', '2'],
            seq!['r', 'a', 'f'],
            seq!['p', 'e', 'f'],
            seq!['s', 'r', 'w'],
        ],
        video_extensions() == seq![
            seq!['m', 'p', '4'],
            seq!['m', 'o', 'v'],
            seq!['a', 'v', 'i'],
            seq!['m', 'k', 'v'],
        ],
{
    reveal_strlit("jpg");
    assert("jpg"@ =~= seq!['j', 'p', 'g']);
    reveal_strlit("jpeg");
    assert("jpeg"@ =~= seq!['j', 'p', 'e', 'g']);
    reveal_strlit("png");
    assert("png"@ =~= seq!['p', 'n', 'g']);
    reveal_strlit("gif");
    assert("gif"@ =~= seq!['g', 'i', 'f']);
    reveal_strlit("bmp");
    assert("bmp"@ =~= seq!['b', 'm', 'p']);
    reveal_strlit("tiff");
    assert("tiff"@ =~= seq!['t', 'i', 'f', 'f']);
    reveal_strlit("tif");
    assert("tif"@ =~= seq!['t', 'i', 'f']);
    reveal_strlit("webp");
    assert("webp"@ =~= seq!['w', 'e', 'b', 'p']);
    reveal_strlit("arw");
    assert("arw"@ =~= seq!['a', 'r', 'w']);
    reveal_strlit("cr2");
    assert("cr2"@ =~= seq!['c', 'r', '2']);
    reveal_strlit("cr3");
    assert("cr3"@ =~= seq!['c', 'r', '3']);
    reveal_strlit("nef");
    assert("nef"@ =~= seq!['n', 'e', 'f']);
    reveal_strlit("dng");
    assert("dng"@ =~= seq!['d', 'n', 'g']);
    reveal_strlit("orf");
    assert("orf"@ =~= seq!['o', 'r', 'f']);
    reveal_strlit("rw2");
    assert("rw2"@ =~= seq!['r', 'w', '2']);
    reveal_strlit("raf");
    assert("raf"@ =~= seq!['r', 'a', 'f']);
    reveal_strlit("pef");
    assert("pef"@ =~= seq!['p', 'e', 'f']);
    reveal_strlit("srw");
    assert("srw"@ =~= seq!['s', 'r', 'w']);
    reveal_strlit("raw");
    assert("raw"@ =~= seq!['r', 'a', 'w']);
    reveal_strlit("mp4");
    assert("mp4"@ =~= seq!['m', 'p', '4']);
    reveal_strlit("mov");
    assert("mov"@ =~= seq!['m', 'o', 'v']);
    reveal_strlit("avi");
    assert("avi"@ =~= seq!['a', 'v', 'i']);
    reveal_strlit("mkv");
    assert("mkv"@ =~= seq!['m', 'k', 'v']);
    reveal_strlit("heic");
    assert("heic"@ =~= seq!['h', 'e', 'i', 'c']);
    reveal_strlit("heif");
    assert("heif"@ =~= seq!['h', 'e', 'i', 'f']);
    assert(supported_extensions() =~= seq![
            seq!['j', 'p', 'g'],
            seq!['j', 'p', 'e', 'g'],
            seq!['p', 'n', 'g'],
            seq!['g', 'i', 'f'],
            seq!['b', 'm', 'p'],
            seq!['t', 'i', 'f', 'f'],
            seq!['t', 'i', 'f'],
            seq!['w', 'e', 'b', 'p'],
            seq!['a', 'r', 'w'],
            seq!['c', 'r', '2'],
            seq!['c', 'r', '3'],
            seq!['n', 'e', 'f'],
            seq!['d', 'n', 'g'],
            seq!['o', 'r', 'f'],
            seq!['r', 'w', '2'],
            seq!['r', 'a', 'f'],
            seq!['p', 'e', 'f'],
            seq!['s', 'r', 'w'],
            seq!['r', 'a', 'w'],
            seq!['m', 'p', '4'],
            seq!['m', 'o', 'v'],
            seq!['a', 'v', 'i'],
            seq!['m', 'k', 'v'],
            seq!['h', 'e', 'i', 'c'],
            seq!['h', 'e', 'i', 'f'],
        ]);
    assert(raw_extensions() =~= seq![
            seq!['a', 'r', 'w'],
            seq!['c', 'r', '2'],
            seq!['c', 'r', '3'],
            seq!['n', 'e', 'f'],
            seq!['d', 'n', 'g'],
            seq!['o', 'r', 'f'],
            seq!['r', 'w', '2'],
            seq!['r', 'a', 'f'],
            seq!['p', 'e', 'f'],
            seq!['s', 'r', 'w'],
        ]);
    assert(video_extensions() =~= seq![
            seq!['m', 'p', '4'],
            seq!['m', 'o', 'v'],
            seq!['a', 'v', 'i'],
            seq!['m', 'k', 'v'],
        ]);
}

/// Whether an extension is supported depends only on its lowercase form:
/// `JPG`, `Jpg` and `jpg` are judged alike.
pub proof fn lemma_extension_case_blind(a: Seq<char>, b: Seq<char>)
    requires
        unicode_lowercase(a) == unicode_lowercase(b),
    ensures
        supported_extensions().contains(unicode_lowercase(a)) == supported_extensions().contains(unicode_lowercase(b)),
{
}

/// The characters of each string.
pub open spec fn str_views(l: Seq<&str>) -> Seq<Seq<char>> {
    l.map_values(|s: &str| s@)
}

fn same_chars(a: &Vec<char>, b: &Vec<char>) -> (r: bool)
    ensures
        r == (a@ == b@),
{
    if a.len() != b.len() {
        return false;
    }
    let mut i: usize = 0;
    while i < a.len()
        invariant
            a.len() == b.len(),
            0 <= i <= a.len(),
            forall|k: int| 0 <= k < i ==> a@[k] == b@[k],
        decreases a.len() - i,
    {
        if a[i] != b[i] {
            assert(a@[i as int] != b@[i as int]);
            return false;
        }
        i += 1;
    }
    assert(a@ =~= b@);
    true
}

fn listed(ext: &Vec<char>, list: &[&str]) -> (r: bool)
    ensures
        r == str_views(list@).contains(ext@),
{
    let mut i: usize = 0;
    while i < list.len()
        invariant
            0 <= i <= list.len(),
            forall|k: int| 0 <= k < i ==> list@[k]@ != ext@,
        decreases list.len() - i,
    {
        let item = chars_of(list[i]);
        if same_chars(&item, ext) {
            assert(str_views(list@)[i as int] == ext@);
            return true;
        }
        i += 1;
    }
    assert forall|k: int| 0 <= k < str_views(list@).len() implies str_views(list@)[k] != ext@ by {
        assert(str_views(list@)[k] == list@[k]@);
    }
    false
}

/// Whether the lowercased `ext` is a photo or video extension.
pub fn is_supported_extension(ext: &str) -> (b: bool)
    ensures
        b == supported_extensions().contains(unicode_lowercase(ext@)),
{
    let lower = to_lowercase(ext);
    let v = chars_of(lower.as_str());
    let list: [&str; 25] = ["jpg", "jpeg", "png", "gif", "bmp", "tiff", "tif", "webp", "arw", "cr2", "cr3", "nef", "dng", "orf", "rw2", "raf", "pef", "srw", "raw", "mp4", "mov", "avi", "mkv", "heic", "heif"];
    let l: &[&str] = &list;
    assert(str_views(l@) =~= supported_extensions());
    listed(&v, l)
}

/// Whether the lowercased `ext` is a camera RAW extension.
pub fn is_raw_extension(ext: &str) -> (b: bool)
    ensures
        b == raw_extensions().contains(unicode_lowercase(ext@)),
{
    let lower = to_lowercase(ext);
    let v = chars_of(lower.as_str());
    let list: [&str; 10] = ["arw", "cr2", "cr3", "nef", "dng", "orf", "rw2", "raf", "pef", "srw"];
    let l: &[&str] = &list;
    assert(str_views(l@) =~= raw_extensions());
    listed(&v, l)
}

/// Whether the lowercased `ext` is a video extension.
pub fn is_video_extension(ext: &str) -> (b: bool)
    ensures
        b == video_extensions().contains(unicode_lowercase(ext@)),
{
    let lower = to_lowercase(ext);
    let v = chars_of(lower.as_str());
    let list: [&str; 4] = ["mp4", "mov", "avi", "mkv"];
    let l: &[&str] = &list;
    assert(str_views(l@) =~= video_extensions());
    listed(&v, l)
}

/// The extension of a file name as `Path::extension` gives it, or empty.
pub open spec fn ext_or_empty(name: Seq<char>) -> Seq<char> {
    match name_extension(name) {
        Some(e) => e,
        None => Seq::empty(),
    }
}

/// The extension of a file name, or the empty string when it has none.
pub fn extension_of(name: &str) -> (r: String)
    ensures
        r@ == ext_or_empty(name@),
{
    let v = chars_of(name);
    let (_, e) = split_file_name(&v);
    match e {
        Some(e) => string_of(e.as_slice()),
        None => string_of(Vec::<char>::new().as_slice()),
    }
}

/// Whether a file of this name is a photo or video: its extension, in
/// lowercase, is listed. A name without extension is not.
pub open spec fn is_photo_name(name: Seq<char>) -> bool {
    name_extension(name) matches Some(e) && supported_extensions().contains(unicode_lowercase(e))
}

/// Whether a file of this name is listed as a photo or video.
pub fn is_photo_name_exec(name: &str) -> (b: bool)
    ensures
        b == is_photo_name(name@),
{
    let v = chars_of(name);
    let (_, e) = split_file_name(&v);
    match e {
        Some(e) => {
            let es = string_of(e.as_slice());
            is_supported_extension(es.as_str())
        },
        None => false,
    }
}


/// What a directory entry is, as its file type says (links not followed).
#[derive(Clone, Copy, Debug, PartialEq, Eq, Structural)]
pub enum EntryKind {
    Dir,
    File,
    Symlink,
    Other,
}

/// A directory entry as listed while browsing: its name, full path, kind,
/// and whether it is a directory holding a sub-directory.
#[derive(Debug)]
pub struct DirEntryInfo {
    pub name: String,
    pub path: String,
    pub kind: EntryKind,
    pub has_subdirs: bool,
}

/// A folder of the browsing tree.
#[derive(Debug)]
pub struct FolderEntry {
    pub path: String,
    pub name: String,
    pub photo_count: u32,
    pub has_subdirs: bool,
    pub subfolders: Vec<FolderEntry>,
}

/// Sort key of a name: the UTF-8 bytes of its lowercase form.
pub open spec fn name_key(name: Seq<char>) -> Seq<u8> {
    encode_utf8(unicode_lowercase(name))
}

fn lower_key(s: &str) -> (r: Vec<u8>)
    ensures
        r@ == name_key(s@),
{
    let l = to_lowercase(s);
    vstd::slice::slice_to_vec(l.as_str().as_bytes())
}

/// Number of files among `es` that are photos or videos.
pub open spec fn photo_file_count(es: Seq<DirEntryInfo>) -> nat
    decreases es.len(),
{
    if es.len() == 0 {
        0
    } else {
        photo_file_count(es.drop_last()) + if es.last().kind == EntryKind::File && is_photo_name(
            es.last().name@,
        ) {
            1nat
        } else {
            0nat
        }
    }
}

/// Indices of the sub-directories among `es`, in order.
pub open spec fn dir_indices(es: Seq<DirEntryInfo>) -> Seq<int>
    decreases es.len(),
{
    if es.len() == 0 {
        Seq::empty()
    } else {
        dir_indices(es.drop_last()) + if es.last().kind == EntryKind::Dir {
            seq![es.len() - 1]
        } else {
            Seq::empty()
        }
    }
}

proof fn lemma_dir_indices(es: Seq<DirEntryInfo>)
    ensures
        forall|k: int|
            0 <= k < dir_indices(es).len() ==> 0 <= #[trigger] dir_indices(es)[k] < es.len()
                && es[dir_indices(es)[k]].kind == EntryKind::Dir,
    decreases es.len(),
{
    if es.len() > 0 {
        lemma_dir_indices(es.drop_last());
    }
}

/// Sort keys of the sub-directories among `es`, in listing order.
pub open spec fn dir_keys(es: Seq<DirEntryInfo>) -> Seq<Seq<u8>> {
    dir_indices(es).map_values(|i: int| name_key(es[i].name@))
}

/// A sub-folder entry as browsing reports it: no count yet, no children.
pub open spec fn is_shallow_folder(f: FolderEntry, e: DirEntryInfo) -> bool {
    &&& f.path@ == e.path@
    &&& f.name@ == e.name@
    &&& f.photo_count == 0
    &&& f.has_subdirs == e.has_subdirs
    &&& f.subfolders@.len() == 0
}

/// The folder entry of a directory from its listing: the number of photo
/// and video files it holds, and its sub-directories (each with a count of
/// zero) sorted by lowercase name, ties kept in listing order.
pub fn build_folder_entry(path: String, name: String, entries: &Vec<DirEntryInfo>) -> (r: FolderEntry)
    requires
        photo_file_count(entries@) <= u32::MAX,
    ensures
        r.path == path,
        r.name == name,
        r.photo_count == photo_file_count(entries@),
        r.has_subdirs == (r.subfolders@.len() > 0),
        r.subfolders@.len() == dir_indices(entries@).len(),
        exists|perm: Seq<usize>|
            #[trigger] is_stable_order(dir_keys(entries@), perm) && forall|k: int|
                0 <= k < perm.len() ==> is_shallow_folder(
                    #[trigger] r.subfolders@[k],
                    entries@[dir_indices(entries@)[perm[k] as int]],
                ),
{
    let mut count: u32 = 0;
    let mut dirs: Vec<usize> = Vec::new();
    let mut keys: Vec<Vec<u8>> = Vec::new();
    let mut i: usize = 0;
    while i < entries.len()
        invariant
            0 <= i <= entries.len(),
            photo_file_count(entries@) <= u32::MAX,
            count == photo_file_count(entries@.take(i as int)),
            dirs@.len() == dir_indices(entries@.take(i as int)).len(),
            forall|k: int| 0 <= k < dirs@.len() ==> #[trigger] dirs@[k] as int == dir_indices(entries@.take(i as int))[k],
            keys@.len() == dirs@.len(),
            forall|k: int| 0 <= k < keys@.len() ==> #[trigger] keys@[k]@ == name_key(entries@[dirs@[k] as int].name@),
            forall|k: int| 0 <= k < dirs@.len() ==> #[trigger] dirs@[k] < i,
        decreases entries.len() - i,
    {
        let e = &entries[i];
        proof {
            assert(entries@.take(i + 1).drop_last() =~= entries@.take(i as int));
            assert(entries@.take(i + 1).last() == entries@[i as int]);
            lemma_photo_count_prefix(entries@, i as int + 1);
        }
        if e.kind == EntryKind::File {
            if is_photo_name_exec(e.name.as_str()) {
                count = count + 1;
            }
        }
        if e.kind == EntryKind::Dir {
            dirs.push(i);
            keys.push(lower_key(e.name.as_str()));
        }
        i += 1;
    }
    assert(entries@.take(entries.len() as int) =~= entries@);
    let perm = stable_order(&keys);
    let ghost di = dir_indices(entries@);
    let ghost ks = dir_keys(entries@);
    assert(keys@.map_values(|k: Vec<u8>| k@) =~= ks);
    let mut subfolders: Vec<FolderEntry> = Vec::new();
    let mut k: usize = 0;
    while k < perm.len()
        invariant
            0 <= k <= perm.len(),
            perm@.len() == dirs@.len(),
            dirs@.len() == di.len(),
            di == dir_indices(entries@),
            forall|t: int| 0 <= t < perm@.len() ==> #[trigger] perm@[t] < dirs@.len(),
            forall|t: int| 0 <= t < dirs@.len() ==> #[trigger] dirs@[t] as int == di[t],
            forall|t: int| 0 <= t < dirs@.len() ==> #[trigger] dirs@[t] < entries@.len(),
            subfolders@.len() == k,
            forall|t: int|
                0 <= t < k ==> is_shallow_folder(#[trigger] subfolders@[t], entries@[di[perm@[t] as int]]),
        decreases perm.len() - k,
    {
        let j = dirs[perm[k]];
        let e = &entries[j];
        subfolders.push(
            FolderEntry {
                path: e.path.clone(),
                name: e.name.clone(),
                photo_count: 0,
                has_subdirs: e.has_subdirs,
                subfolders: Vec::new(),
            },
        );
        k += 1;
    }
    let has = subfolders.len() > 0;
    assert(is_stable_order(ks, perm@));
    FolderEntry { path, name, photo_count: count, has_subdirs: has, subfolders }
}

proof fn lemma_photo_count_prefix(es: Seq<DirEntryInfo>, i: int)
    requires
        0 <= i <= es.len(),
    ensures
        photo_file_count(es.take(i)) <= photo_file_count(es),
    decreases es.len() - i,
{
    if i < es.len() {
        lemma_photo_count_prefix(es, i + 1);
        assert(es.take(i + 1).drop_last() =~= es.take(i));
    } else {
        assert(es.take(i) =~= es);
    }
}


/// A photo or video of a listed folder.
#[derive(Debug)]
pub struct ScannedPhoto {
    pub path: String,
    pub file_name: String,
    pub file_size: u64,
    pub is_raw: bool,
    pub is_video: bool,
    pub modified_at: i64,
    pub exif: PhotoExif,
}

/// A regular file of a folder, with its metadata.
#[derive(Debug)]
pub struct FileEntryInfo {
    pub path: String,
    pub file_name: String,
    pub size: u64,
    pub modified_ms: i64,
}

/// Indices of the photo and video files among `fs`, in order.
pub open spec fn photo_indices(fs: Seq<FileEntryInfo>) -> Seq<int>
    decreases fs.len(),
{
    if fs.len() == 0 {
        Seq::empty()
    } else {
        photo_indices(fs.drop_last()) + if is_photo_name(fs.last().file_name@) {
            seq![fs.len() - 1]
        } else {
            Seq::empty()
        }
    }
}

/// Sort keys of the photo and video files among `fs`, in listing order.
pub open spec fn photo_keys(fs: Seq<FileEntryInfo>) -> Seq<Seq<u8>> {
    photo_indices(fs).map_values(|i: int| name_key(fs[i].file_name@))
}

/// The entry listed for a photo file: size and time from its metadata,
/// whether it is RAW or video from its lowercase extension, and no EXIF yet.
pub open spec fn is_listed_photo(p: ScannedPhoto, f: FileEntryInfo) -> bool {
    let ext = unicode_lowercase(ext_or_empty(f.file_name@));
    &&& p.path@ == f.path@
    &&& p.file_name@ == f.file_name@
    &&& p.file_size == f.size
    &&& p.is_raw == raw_extensions().contains(ext)
    &&& p.is_video == video_extensions().contains(ext)
    &&& p.modified_at == f.modified_ms
    &&& p.exif.camera_make is None && p.exif.camera_model is None && p.exif.lens_model is None
        && p.exif.focal_length is None && p.exif.aperture is None && p.exif.shutter_speed is None
        && p.exif.iso is None && p.exif.date_taken is None && p.exif.image_width is None
        && p.exif.image_height is None && p.exif.file_size == 0
}

fn listed_photo(f: &FileEntryInfo) -> (p: ScannedPhoto)
    ensures
        is_listed_photo(p, *f),
{
    let ext = extension_of(f.file_name.as_str());
    ScannedPhoto {
        path: f.path.clone(),
        file_name: f.file_name.clone(),
        file_size: f.size,
        is_raw: is_raw_extension(ext.as_str()),
        is_video: is_video_extension(ext.as_str()),
        modified_at: f.modified_ms,
        exif: PhotoExif::default(),
    }
}

/// The photos and videos of a folder listing, sorted by lowercase file
/// name (ties kept in listing order).
pub fn list_photos(files: &Vec<FileEntryInfo>) -> (r: Vec<ScannedPhoto>)
    ensures
        r@.len() == photo_indices(files@).len(),
        exists|perm: Seq<usize>|
            #[trigger] is_stable_order(photo_keys(files@), perm) && forall|k: int|
                0 <= k < perm.len() ==> is_listed_photo(
                    #[trigger] r@[k],
                    files@[photo_indices(files@)[perm[k] as int]],
                ),
{
    let mut sel: Vec<usize> = Vec::new();
    let mut keys: Vec<Vec<u8>> = Vec::new();
    let mut i: usize = 0;
    while i < files.len()
        invariant
            0 <= i <= files.len(),
            sel@.len() == photo_indices(files@.take(i as int)).len(),
            forall|k: int| 0 <= k < sel@.len() ==> #[trigger] sel@[k] as int == photo_indices(files@.take(i as int))[k],
            keys@.len() == sel@.len(),
            forall|k: int| 0 <= k < keys@.len() ==> #[trigger] keys@[k]@ == name_key(files@[sel@[k] as int].file_name@),
            forall|k: int| 0 <= k < sel@.len() ==> #[trigger] sel@[k] < i,
        decreases files.len() - i,
    {
        let f = &files[i];
        proof {
            assert(files@.take(i + 1).drop_last() =~= files@.take(i as int));
            assert(files@.take(i + 1).last() == files@[i as int]);
        }
        if is_photo_name_exec(f.file_name.as_str()) {
            sel.push(i);
            keys.push(lower_key(f.file_name.as_str()));
        }
        i += 1;
    }
    assert(files@.take(files.len() as int) =~= files@);
    let perm = stable_order(&keys);
    let ghost pi = photo_indices(files@);
    let ghost ks = photo_keys(files@);
    assert(keys@.map_values(|k: Vec<u8>| k@) =~= ks);
    let mut out: Vec<ScannedPhoto> = Vec::new();
    let mut k: usize = 0;
    while k < perm.len()
        invariant
            0 <= k <= perm.len(),
            perm@.len() == sel@.len(),
            sel@.len() == pi.len(),
            pi == photo_indices(files@),
            forall|t: int| 0 <= t < perm@.len() ==> #[trigger] perm@[t] < sel@.len(),
            forall|t: int| 0 <= t < sel@.len() ==> #[trigger] sel@[t] as int == pi[t],
            forall|t: int| 0 <= t < sel@.len() ==> #[trigger] sel@[t] < files@.len(),
            out@.len() == k,
            forall|t: int| 0 <= t < k ==> is_listed_photo(#[trigger] out@[t], files@[pi[perm@[t] as int]]),
        decreases perm.len() - k,
    {
        let j = sel[perm[k]];
        out.push(listed_photo(&files[j]));
        k += 1;
    }
    assert(is_stable_order(ks, perm@));
    out
}

/// Whether a listing holds a sub-directory.
pub fn has_subdirectories(kinds: &Vec<EntryKind>) -> (b: bool)
    ensures
        b == kinds@.contains(EntryKind::Dir),
{
    let mut i: usize = 0;
    while i < kinds.len()
        invariant
            0 <= i <= kinds.len(),
            forall|k: int| 0 <= k < i ==> kinds@[k] != EntryKind::Dir,
        decreases kinds.len() - i,
    {
        if kinds[i] == EntryKind::Dir {
            assert(kinds@[i as int] == EntryKind::Dir);
            return true;
        }
        i += 1;
    }
    false
}


/// An entry met while counting photos below a folder: its kind, its name,
/// and for a directory or link the count found below it.
#[derive(Debug)]
pub struct WalkEntry {
    pub kind: EntryKind,
    pub name: String,
    pub sub_count: u32,
}

/// Whether the count descends into an entry: directories and links do.
pub open spec fn descends(kind: EntryKind) -> bool {
    kind == EntryKind::Dir || kind == EntryKind::Symlink
}

/// Whether the count descends into an entry of this kind.
pub fn descends_into(kind: EntryKind) -> (b: bool)
    ensures
        b == descends(kind),
{
    kind == EntryKind::Dir || kind == EntryKind::Symlink
}

/// What an entry adds to its folder's count.
pub open spec fn walk_contribution(e: WalkEntry) -> nat {
    if descends(e.kind) {
        e.sub_count as nat
    } else if e.kind == EntryKind::File && is_photo_name(e.name@) {
        1
    } else {
        0
    }
}

/// The count of a folder from its entries.
pub open spec fn walk_total(es: Seq<WalkEntry>) -> nat
    decreases es.len(),
{
    if es.len() == 0 {
        0
    } else {
        walk_total(es.drop_last()) + walk_contribution(es.last())
    }
}

proof fn lemma_walk_prefix(es: Seq<WalkEntry>, i: int)
    requires
        0 <= i <= es.len(),
    ensures
        walk_total(es.take(i)) <= walk_total(es),
    decreases es.len() - i,
{
    if i < es.len() {
        lemma_walk_prefix(es, i + 1);
        assert(es.take(i + 1).drop_last() =~= es.take(i));
    } else {
        assert(es.take(i) =~= es);
    }
}

/// A folder of plain files counts exactly the files that the listing of
/// the same folder shows: for entries that are all regular files, with the
/// same names as the file entries `fs`, the count equals the number of
/// photos listed from `fs`.
pub proof fn lemma_count_matches_listing(es: Seq<WalkEntry>, fs: Seq<FileEntryInfo>)
    requires
        es.len() == fs.len(),
        forall|i: int| 0 <= i < es.len() ==> (#[trigger] es[i]).kind == EntryKind::File,
        forall|i: int| 0 <= i < es.len() ==> (#[trigger] es[i]).name@ == fs[i].file_name@,
    ensures
        walk_total(es) == photo_indices(fs).len(),
    decreases es.len(),
{
    if es.len() > 0 {
        let es1 = es.drop_last();
        let fs1 = fs.drop_last();
        assert forall|i: int| 0 <= i < es1.len() implies (#[trigger] es1[i]).kind == EntryKind::File
            && es1[i].name@ == fs1[i].file_name@ by {
            assert(es1[i] == es[i] && fs1[i] == fs[i]);
        }
        lemma_count_matches_listing(es1, fs1);
        assert(es.last() == es[es.len() - 1]);
        assert(fs.last() == fs[fs.len() - 1]);
    }
}

/// The count judges a regular file by its extension in lowercase: two
/// files whose extensions have the same lowercase form (`ARW` and `arw`)
/// add the same to the count.
pub proof fn lemma_count_case_blind(a: WalkEntry, b: WalkEntry)
    requires
        a.kind == EntryKind::File,
        b.kind == EntryKind::File,
        name_extension(a.name@) is Some,
        name_extension(b.name@) is Some,
        unicode_lowercase(name_extension(a.name@)->0) == unicode_lowercase(name_extension(b.name@)->0),
    ensures
        walk_contribution(a) == walk_contribution(b),
{
}

/// The number of photos and videos in a folder tree: the photo files of
/// the folder plus the counts found below its sub-directories and links.
pub fn count_photos_recursive(entries: &Vec<WalkEntry>) -> (n: u32)
    requires
        walk_total(entries@) <= u32::MAX,
    ensures
        n == walk_total(entries@),
{
    let mut n: u32 = 0;
    let mut i: usize = 0;
    while i < entries.len()
        invariant
            0 <= i <= entries.len(),
            walk_total(entries@) <= u32::MAX,
            n == walk_total(entries@.take(i as int)),
        decreases entries.len() - i,
    {
        proof {
            assert(entries@.take(i + 1).drop_last() =~= entries@.take(i as int));
            assert(entries@.take(i + 1).last() == entries@[i as int]);
            lemma_walk_prefix(entries@, i + 1);
        }
        let e = &entries[i];
        if descends_into(e.kind) {
            n = n + e.sub_count;
        } else if e.kind == EntryKind::File && is_photo_name_exec(e.name.as_str()) {
            n = n + 1;
        }
        i += 1;
    }
    assert(entries@.take(entries.len() as int) =~= entries@);
    n
}

/// Deepest level of folders that the count descends to.
pub const MAX_WALK_DEPTH: u32 = 64;

/// The bytes of a canonical path, where it could be resolved.
pub open spec fn path_bytes(canonical: Option<Vec<u8>>) -> Option<Seq<u8>> {
    match canonical {
        Some(c) => Some(c@),
        None => None,
    }
}

/// Whether a count that has already counted the folders `seen` counts the
/// folder met at `depth` with canonical path `canonical`.
pub open spec fn enter_admits(seen: Seq<Seq<u8>>, depth: u32, canonical: Option<Seq<u8>>) -> bool {
    depth <= MAX_WALK_DEPTH && match canonical {
        Some(p) => !seen.contains(p),
        None => true,
    }
}

/// The folders counted after that folder was met.
pub open spec fn seen_after(seen: Seq<Seq<u8>>, depth: u32, canonical: Option<Seq<u8>>) -> Seq<Seq<u8>> {
    match canonical {
        Some(p) => if enter_admits(seen, depth, canonical) {
            seen.push(p)
        } else {
            seen
        },
        None => seen,
    }
}

/// The folders counted after the folders `calls` (depth and canonical path,
/// in the order met) were met, starting from `seen`.
pub open spec fn walk_seen(seen: Seq<Seq<u8>>, calls: Seq<(u32, Option<Seq<u8>>)>) -> Seq<Seq<u8>>
    decreases calls.len(),
{
    if calls.len() == 0 {
        seen
    } else {
        seen_after(walk_seen(seen, calls.drop_last()), calls.last().0, calls.last().1)
    }
}

/// Whether the `i`-th folder met in `calls` is counted.
pub open spec fn walk_admits(seen: Seq<Seq<u8>>, calls: Seq<(u32, Option<Seq<u8>>)>, i: int) -> bool {
    enter_admits(walk_seen(seen, calls.take(i)), calls[i].0, calls[i].1)
}

proof fn lemma_walk_step(seen: Seq<Seq<u8>>, calls: Seq<(u32, Option<Seq<u8>>)>, k: int)
    requires
        0 <= k < calls.len(),
    ensures
        walk_seen(seen, calls.take(k + 1)) == seen_after(walk_seen(seen, calls.take(k)), calls[k].0, calls[k].1),
{
    assert(calls.take(k + 1).drop_last() =~= calls.take(k));
    assert(calls.take(k + 1).last() == calls[k]);
}

proof fn lemma_walk_keeps(seen: Seq<Seq<u8>>, calls: Seq<(u32, Option<Seq<u8>>)>, i: int, k: int, x: Seq<u8>)
    requires
        0 <= i <= k <= calls.len(),
        walk_seen(seen, calls.take(i)).contains(x),
    ensures
        walk_seen(seen, calls.take(k)).contains(x),
    decreases k - i,
{
    if i < k {
        lemma_walk_keeps(seen, calls, i, k - 1, x);
        lemma_walk_step(seen, calls, k - 1);
        let before = walk_seen(seen, calls.take(k - 1));
        let j = choose|j: int| 0 <= j < before.len() && before[j] == x;
        let after = walk_seen(seen, calls.take(k));
        if after != before {
            assert(after[j] == x);
        }
    }
}

/// Over any sequence of folders met during one count, each canonical folder
/// is counted at most once, and no folder deeper than the depth limit is
/// counted: of two counted folders met at different steps, both with a
/// resolved canonical path, the paths differ.
pub proof fn lemma_walk_counts_each_folder_once(seen: Seq<Seq<u8>>, calls: Seq<(u32, Option<Seq<u8>>)>)
    ensures
        forall|i: int| 0 <= i < calls.len() && #[trigger] walk_admits(seen, calls, i)
            ==> calls[i].0 <= MAX_WALK_DEPTH,
        forall|i: int, j: int|
            0 <= i < j < calls.len() && #[trigger] walk_admits(seen, calls, i) && #[trigger] walk_admits(seen, calls, j)
                && calls[i].1 is Some && calls[j].1 is Some
                ==> calls[i].1 != calls[j].1,
        forall|i: int| 0 <= i < calls.len() && #[trigger] walk_admits(seen, calls, i) && calls[i].1 is Some
            ==> !seen.contains(calls[i].1->0),
{
    assert forall|i: int| 0 <= i < calls.len() && #[trigger] walk_admits(seen, calls, i) && calls[i].1 is Some
        implies !seen.contains(calls[i].1->0) by {
        if seen.contains(calls[i].1->0) {
            assert(walk_seen(seen, calls.take(0)) == seen) by {
                assert(calls.take(0).len() == 0);
            }
            lemma_walk_keeps(seen, calls, 0, i, calls[i].1->0);
        }
    }
    assert forall|i: int, j: int|
        0 <= i < j < calls.len() && #[trigger] walk_admits(seen, calls, i) && #[trigger] walk_admits(seen, calls, j)
            && calls[i].1 is Some && calls[j].1 is Some
        implies calls[i].1 != calls[j].1 by {
        let p = calls[i].1->0;
        lemma_walk_step(seen, calls, i);
        let after = walk_seen(seen, calls.take(i + 1));
        assert(after[after.len() - 1] == p);
        lemma_walk_keeps(seen, calls, i + 1, j, p);
    }
}

/// The folders already counted during one count, by the bytes of their
/// canonical path (as the platform encodes it), so that link cycles and
/// repeated references are counted once.
pub struct CountWalk {
    visited: Vec<Vec<u8>>,
}

fn same_bytes(a: &Vec<u8>, b: &Vec<u8>) -> (r: bool)
    ensures
        r == (a@ == b@),
{
    if a.len() != b.len() {
        return false;
    }
    let mut i: usize = 0;
    while i < a.len()
        invariant
            a.len() == b.len(),
            0 <= i <= a.len(),
            forall|k: int| 0 <= k < i ==> a@[k] == b@[k],
        decreases a.len() - i,
    {
        if a[i] != b[i] {
            assert(a@[i as int] != b@[i as int]);
            return false;
        }
        i += 1;
    }
    assert(a@ =~= b@);
    true
}

impl CountWalk {
    #[verifier::type_invariant]
    spec fn distinct(self) -> bool {
        self.visited@.map_values(|s: Vec<u8>| s@).no_duplicates()
    }

    /// The canonical paths counted so far.
    pub closed spec fn seen(self) -> Seq<Seq<u8>> {
        self.visited@.map_values(|s: Vec<u8>| s@)
    }

    /// A count that has seen no folder.
    pub fn new() -> (w: CountWalk)
        ensures
            w.seen() == Seq::<Seq<u8>>::empty(),
            w.seen().no_duplicates(),
    {
        let w = CountWalk { visited: Vec::new() };
        assert(w.seen() =~= Seq::<Seq<u8>>::empty());
        w
    }

    /// Whether to count the folder met at `depth` whose canonical path is
    /// `canonical` (when it could be resolved): not beyond the depth limit,
    /// and not already counted. A counted folder is remembered.
    pub fn enter(&mut self, depth: u32, canonical: Option<Vec<u8>>) -> (b: bool)
        ensures
            b == enter_admits(old(self).seen(), depth, path_bytes(canonical)),
            final(self).seen() == seen_after(old(self).seen(), depth, path_bytes(canonical)),
            b == (depth <= MAX_WALK_DEPTH && match canonical {
                Some(c) => !old(self).seen().contains(c@),
                None => true,
            }),
            final(self).seen() == match canonical {
                Some(c) => if depth <= MAX_WALK_DEPTH && !old(self).seen().contains(c@) {
                    old(self).seen().push(c@)
                } else {
                    old(self).seen()
                },
                None => old(self).seen(),
            },
            final(self).seen().no_duplicates(),
            forall|x: Seq<u8>| old(self).seen().contains(x) ==> #[trigger] final(self).seen().contains(x),
            b ==> depth <= MAX_WALK_DEPTH,
            b && canonical is Some ==> final(self).seen().contains(canonical->0@),
    {
        proof {
            use_type_invariant(&*self);
        }
        if depth > MAX_WALK_DEPTH {
            return false;
        }
        match canonical {
            None => true,
            Some(c) => {
                let mut i: usize = 0;
                let mut found = false;
                while i < self.visited.len() && !found
                    invariant
                        0 <= i <= self.visited.len(),
                        self.visited@ == old(self).visited@,
                        !found ==> forall|k: int| 0 <= k < i ==> self.visited@[k]@ != c@,
                        found ==> old(self).seen().contains(c@),
                    decreases self.visited.len() - i,
                {
                    if same_bytes(&self.visited[i], &c) {
                        assert(old(self).seen()[i as int] == c@);
                        found = true;
                    }
                    i += 1;
                }
                if found {
                    assert(self.seen() =~= old(self).seen());
                    return false;
                }
                assert forall|k: int| 0 <= k < self.seen().len() implies self.seen()[k] != c@ by {
                    assert(self.seen()[k] == self.visited@[k]@);
                }
                let ghost before = self.visited@;
                let mut list: Vec<Vec<u8>> = Vec::new();
                std::mem::swap(&mut list, &mut self.visited);
                list.push(c);
                let ghost grown = before.map_values(|s: Vec<u8>| s@).push(c@);
                assert(list@.map_values(|s: Vec<u8>| s@) =~= grown);
                assert(grown.no_duplicates()) by {
                    assert forall|a: int, b: int| 0 <= a < b < grown.len() implies grown[a] != grown[b] by {
                        if b == grown.len() - 1 {
                            assert(grown[a] == old(self).seen()[a]);
                        } else {
                            assert(grown[a] == old(self).seen()[a]);
                            assert(grown[b] == old(self).seen()[b]);
                        }
                    }
                }
                self.visited = list;
                assert(self.seen() =~= grown);
                assert(self.seen()[self.seen().len() - 1] == grown.last());
                assert forall|x: Seq<u8>| old(self).seen().contains(x) implies #[trigger] self.seen().contains(x) by {
                    let k = choose|k: int| 0 <= k < old(self).seen().len() && old(self).seen()[k] == x;
                    assert(self.seen()[k] == x);
                }
                true
            },
        }
    }
}

} // verus!
