//! Interpretation of EXIF fields: orientation, the first text value among
//! a set of tags, and the summary shown for a selected photo.
//!
//! The fields are parsed from a file's bytes with the `kamadak-exif` reader
//! ([`exif_entries`]) and kept as [`ExifEntry`] values in the reader's order.

use vstd::prelude::*;
use crate::scanner::PhotoExif;

verus! {

/// The IFD family of a tag, as `exif::Context` distinguishes them.
#[derive(Clone, Copy, Debug, PartialEq, Eq, Structural)]
pub enum ExifContext {
    Tiff,
    Exif,
    Gps,
    Interop,
    /// A context that this library does not distinguish.
    Other,
}

/// A tag: its context and number, as `exif::Tag` holds them.
#[derive(Clone, Copy, Debug, PartialEq, Eq, Structural)]
pub struct ExifTag {
    pub context: ExifContext,
    pub number: u16,
}

/// One EXIF field: its tag, the unsigned integer at position 0 of its value
/// (`Value::get_uint(0)`), and its display text (`Field::display_value`).
#[derive(Debug)]
pub struct ExifEntry {
    pub tag: ExifTag,
    pub first_uint: Option<u32>,
    pub text: String,
}

/// The tags that this library reads.
pub open spec fn tag_of(context: ExifContext, number: u16) -> ExifTag {
    ExifTag { context, number }
}

pub open spec fn image_width_tag() -> ExifTag {
    tag_of(ExifContext::Tiff, 0x100)
}

pub open spec fn image_length_tag() -> ExifTag {
    tag_of(ExifContext::Tiff, 0x101)
}

pub open spec fn make_tag() -> ExifTag {
    tag_of(ExifContext::Tiff, 0x10f)
}

pub open spec fn model_tag() -> ExifTag {
    tag_of(ExifContext::Tiff, 0x110)
}

pub open spec fn orientation_tag() -> ExifTag {
    tag_of(ExifContext::Tiff, 0x112)
}

pub open spec fn date_time_tag() -> ExifTag {
    tag_of(ExifContext::Tiff, 0x132)
}

pub open spec fn exposure_time_tag() -> ExifTag {
    tag_of(ExifContext::Exif, 0x829a)
}

pub open spec fn f_number_tag() -> ExifTag {
    tag_of(ExifContext::Exif, 0x829d)
}

pub open spec fn sensitivity_tag() -> ExifTag {
    tag_of(ExifContext::Exif, 0x8827)
}

pub open spec fn date_time_original_tag() -> ExifTag {
    tag_of(ExifContext::Exif, 0x9003)
}

pub open spec fn focal_length_tag() -> ExifTag {
    tag_of(ExifContext::Exif, 0x920a)
}

pub open spec fn lens_model_tag() -> ExifTag {
    tag_of(ExifContext::Exif, 0xa434)
}

/// Builds a tag value.
pub fn tag(context: ExifContext, number: u16) -> (t: ExifTag)
    ensures
        t == tag_of(context, number),
{
    ExifTag { context, number }
}

/// Index of the first entry whose tag is in `tags`, if any.
pub open spec fn first_with_tag(es: Seq<ExifEntry>, tags: Seq<ExifTag>) -> Option<int>
    decreases es.len(),
{
    if es.len() == 0 {
        None
    } else if tags.contains(es[0].tag) {
        Some(0)
    } else {
        match first_with_tag(es.drop_first(), tags) {
            Some(k) => Some(k + 1),
            None => None,
        }
    }
}

proof fn lemma_first_with_tag(es: Seq<ExifEntry>, tags: Seq<ExifTag>, i: int)
    requires
        0 <= i <= es.len(),
        forall|k: int| 0 <= k < i ==> !tags.contains(#[trigger] es[k].tag),
    ensures
        first_with_tag(es, tags) == match first_with_tag(es.skip(i), tags) {
            Some(k) => Some(k + i),
            None => None,
        },
    decreases i,
{
    if i == 0 {
        assert(es.skip(0) =~= es);
        match first_with_tag(es, tags) {
            Some(k) => {},
            None => {},
        }
    } else {
        assert(es.drop_first().skip(i - 1) =~= es.skip(i));
        assert forall|k: int| 0 <= k < i - 1 implies !tags.contains(#[trigger] es.drop_first()[k].tag) by {
            assert(es.drop_first()[k] == es[k + 1]);
        }
        lemma_first_with_tag(es.drop_first(), tags, i - 1);
    }
}

fn find_tag(entries: &Vec<ExifEntry>, tags: &[ExifTag]) -> (r: Option<usize>)
    ensures
        first_with_tag(entries@, tags@) == match r {
            Some(k) => Some(k as int),
            None => None::<int>,
        },
        r matches Some(k) ==> k < entries.len(),
{
    let mut i: usize = 0;
    while i < entries.len()
        invariant
            0 <= i <= entries.len(),
            forall|k: int| 0 <= k < i ==> !tags@.contains(#[trigger] entries@[k].tag),
        decreases entries.len() - i,
    {
        let t = entries[i].tag;
        let mut j: usize = 0;
        let mut found = false;
        while j < tags.len()
            invariant
                0 <= j <= tags.len(),
                found == exists|q: int| 0 <= q < j && tags@[q] == t,
            decreases tags.len() - j,
        {
            if tags[j] == t {
                found = true;
            }
            j += 1;
        }
        if found {
            proof {
                lemma_first_with_tag(entries@, tags@, i as int);
                let q = choose|q: int| 0 <= q < tags.len() && tags@[q] == t;
                assert(tags@.contains(entries@.skip(i as int)[0].tag));
            }
            return Some(i);
        }
        proof {
            assert(!tags@.contains(t)) by {
                if tags@.contains(t) {
                    let q = choose|q: int| 0 <= q < tags@.len() && tags@[q] == t;
                    assert(false);
                }
            }
        }
        i += 1;
    }
    proof {
        lemma_first_with_tag(entries@, tags@, i as int);
        assert(entries@.skip(i as int).len() == 0);
    }
    None
}

/// The value of the first Orientation field (TIFF 0x112) when that field
/// holds an unsigned integer from 1 to 8; any other value counts as none.
pub open spec fn orientation_value(es: Seq<ExifEntry>) -> Option<u16> {
    match first_with_tag(es, seq![orientation_tag()]) {
        Some(k) => match es[k].first_uint {
            Some(v) => if 1 <= v <= 8 {
                Some(v as u16)
            } else {
                None
            },
            None => None,
        },
        None => None,
    }
}

/// The EXIF orientation of a photo, 1 to 8, or none when it has no valid one.
pub fn orientation(entries: &Vec<ExifEntry>) -> (r: Option<u16>)
    ensures
        r == orientation_value(entries@),
{
    let tags = [tag(ExifContext::Tiff, 0x112)];
    let ts: &[ExifTag] = &tags;
    assert(ts@ =~= seq![orientation_tag()]);
    match find_tag(entries, ts) {
        Some(k) => match entries[k].first_uint {
            Some(v) => if 1 <= v && v <= 8 {
                Some(v as u16)
            } else {
                None
            },
            None => None,
        },
        None => None,
    }
}

/// The orientation used when correcting thumbnails and previews: the same
/// first Orientation field as [`orientation`].
pub fn read_exif_orientation(entries: &Vec<ExifEntry>) -> (r: Option<u16>)
    ensures
        r == orientation_value(entries@),
{
    orientation(entries)
}

/// The display text of the first field whose tag is one of `tags`.
pub fn first_text_field(entries: &Vec<ExifEntry>, tags: &[ExifTag]) -> (r: Option<String>)
    ensures
        match first_with_tag(entries@, tags@) {
            Some(k) => r matches Some(s) && s@ == entries@[k].text@,
            None => r is None,
        },
{
    match find_tag(entries, tags) {
        Some(k) => Some(entries[k].text.clone()),
        None => None,
    }
}

/// The text of the last entry with tag `t`.
pub open spec fn last_text(es: Seq<ExifEntry>, t: ExifTag) -> Option<Seq<char>>
    decreases es.len(),
{
    if es.len() == 0 {
        None
    } else if es.last().tag == t {
        Some(es.last().text@)
    } else {
        last_text(es.drop_last(), t)
    }
}

/// The integer of the last entry with tag `t` that holds one.
pub open spec fn last_uint(es: Seq<ExifEntry>, t: ExifTag) -> Option<u32>
    decreases es.len(),
{
    if es.len() == 0 {
        None
    } else if es.last().tag == t && es.last().first_uint is Some {
        es.last().first_uint
    } else {
        last_uint(es.drop_last(), t)
    }
}

/// The non-empty text of the last DateTimeOriginal or DateTime entry.
pub open spec fn last_date(es: Seq<ExifEntry>) -> Option<Seq<char>>
    decreases es.len(),
{
    if es.len() == 0 {
        None
    } else if (es.last().tag == date_time_original_tag() || es.last().tag == date_time_tag())
        && es.last().text@.len() > 0 {
        Some(es.last().text@)
    } else {
        last_date(es.drop_last())
    }
}

/// The characters of an optional string.
pub open spec fn opt_chars(o: Option<String>) -> Option<Seq<char>> {
    match o {
        Some(s) => Some(s@),
        None => None,
    }
}

/// What [`extract_exif`] reports: for each item the last field that sets it
/// (a later field overrides an earlier one), and the file size.
pub open spec fn is_exif_summary(es: Seq<ExifEntry>, file_size: u64, r: PhotoExif) -> bool {
    &&& opt_chars(r.camera_make) == last_text(es, make_tag())
    &&& opt_chars(r.camera_model) == last_text(es, model_tag())
    &&& opt_chars(r.lens_model) == last_text(es, lens_model_tag())
    &&& opt_chars(r.focal_length) == last_text(es, focal_length_tag())
    &&& opt_chars(r.aperture) == last_text(es, f_number_tag())
    &&& opt_chars(r.shutter_speed) == last_text(es, exposure_time_tag())
    &&& r.iso == last_uint(es, sensitivity_tag())
    &&& opt_chars(r.date_taken) == last_date(es)
    &&& r.image_width == last_uint(es, image_width_tag())
    &&& r.image_height == last_uint(es, image_length_tag())
    &&& r.file_size == file_size
}

fn clone_text(s: &String) -> (r: Option<String>)
    ensures
        r matches Some(t) && t@ == s@,
{
    Some(s.clone())
}

/// The EXIF summary of a photo: camera, lens, exposure, date and size.
pub fn extract_exif(entries: &Vec<ExifEntry>, file_size: u64) -> (r: PhotoExif)
    ensures
        is_exif_summary(entries@, file_size, r),
{
    let mut exif = PhotoExif {
        camera_make: None,
        camera_model: None,
        lens_model: None,
        focal_length: None,
        aperture: None,
        shutter_speed: None,
        iso: None,
        date_taken: None,
        image_width: None,
        image_height: None,
        file_size,
    };
    let mut i: usize = 0;
    while i < entries.len()
        invariant
            0 <= i <= entries.len(),
            is_exif_summary(entries@.take(i as int), file_size, exif),
        decreases entries.len() - i,
    {
        let e = &entries[i];
        let t = e.tag;
        assert(entries@.take(i + 1).drop_last() =~= entries@.take(i as int));
        assert(entries@.take(i + 1).last() == entries@[i as int]);
        if t == tag(ExifContext::Tiff, 0x10f) {
            exif.camera_make = clone_text(&e.text);
        } else if t == tag(ExifContext::Tiff, 0x110) {
            exif.camera_model = clone_text(&e.text);
        } else if t == tag(ExifContext::Exif, 0xa434) {
            exif.lens_model = clone_text(&e.text);
        } else if t == tag(ExifContext::Exif, 0x920a) {
            exif.focal_length = clone_text(&e.text);
        } else if t == tag(ExifContext::Exif, 0x829d) {
            exif.aperture = clone_text(&e.text);
        } else if t == tag(ExifContext::Exif, 0x829a) {
            exif.shutter_speed = clone_text(&e.text);
        } else if t == tag(ExifContext::Exif, 0x8827) {
            if let Some(v) = e.first_uint {
                exif.iso = Some(v);
            }
        } else if t == tag(ExifContext::Exif, 0x9003) || t == tag(ExifContext::Tiff, 0x132) {
            if !e.text.as_str().is_empty() {
                exif.date_taken = clone_text(&e.text);
            }
        } else if t == tag(ExifContext::Tiff, 0x100) {
            if let Some(v) = e.first_uint {
                exif.image_width = Some(v);
            }
        } else if t == tag(ExifContext::Tiff, 0x101) {
            if let Some(v) = e.first_uint {
                exif.image_height = Some(v);
            }
        }
        i += 1;
    }
    assert(entries@.take(entries.len() as int) =~= entries@);
    exif
}


/// A number for each context, as [`exif_fields`] records it.
pub open spec fn context_code(c: ExifContext) -> u8 {
    match c {
        ExifContext::Tiff => 0,
        ExifContext::Exif => 1,
        ExifContext::Gps => 2,
        ExifContext::Interop => 3,
        ExifContext::Other => 4,
    }
}

/// What an entry records: context number, tag number, first integer and
/// display text.
pub open spec fn entry_view(e: ExifEntry) -> (u8, u16, Option<u32>, Seq<char>) {
    (context_code(e.tag.context), e.tag.number, e.first_uint, e.text@)
}

/// What a list of entries records, entry by entry.
pub open spec fn entry_views(es: Seq<ExifEntry>) -> Seq<(u8, u16, Option<u32>, Seq<char>)> {
    es.map_values(|e: ExifEntry| entry_view(e))
}

/// A name for what kamadak-exif's `Reader::read_from_container` finds in
/// the given bytes: for each field, in the reader's order, its context
/// (numbered as [`context_code`] numbers them), tag number, the integer at
/// position 0 of its value (`Value::get_uint(0)`) and its display text
/// (`Field::display_value`); `None` when the bytes hold no readable EXIF.
pub uninterp spec fn exif_fields(bytes: Seq<u8>) -> Option<Seq<(u8, u16, Option<u32>, Seq<char>)>>;

/// Parses EXIF from a file's bytes with kamadak-exif.
///
/// Trusted: the fields found are [`exif_fields`] of the bytes, one entry per
/// field, every context kept.
#[verifier::external_body]
fn read_exif_fields(bytes: &[u8]) -> (r: Option<Vec<ExifEntry>>)
    ensures
        r is Some == exif_fields(bytes@) is Some,
        r matches Some(v) ==> exif_fields(bytes@) == Some(entry_views(v@)),
{
    let parsed = ::exif::Reader::new().read_from_container(&mut std::io::Cursor::new(bytes)).ok()?;
    Some(parsed.fields().map(|f| ExifEntry {
        tag: ExifTag { context: match f.tag.0 {
            ::exif::Context::Tiff => ExifContext::Tiff,
            ::exif::Context::Exif => ExifContext::Exif,
            ::exif::Context::Gps => ExifContext::Gps,
            ::exif::Context::Interop => ExifContext::Interop,
            _ => ExifContext::Other,
        }, number: f.tag.1 },
        first_uint: f.value.get_uint(0),
        text: f.display_value().to_string(),
    }).collect())
}


/// Two lists of entries that agree on every tag, integer and text.
pub open spec fn agree(a: Seq<ExifEntry>, b: Seq<ExifEntry>) -> bool {
    &&& a.len() == b.len()
    &&& forall|i: int|
        0 <= i < a.len() ==> (#[trigger] a[i]).tag == b[i].tag && a[i].first_uint == b[i].first_uint
            && a[i].text@ == b[i].text@
}

proof fn lemma_views_agree(a: Seq<ExifEntry>, b: Seq<ExifEntry>)
    requires
        entry_views(a) == entry_views(b),
    ensures
        agree(a, b),
{
    assert(entry_views(a).len() == a.len());
    assert(entry_views(b).len() == b.len());
    assert forall|i: int| 0 <= i < a.len() implies (#[trigger] a[i]).tag == b[i].tag && a[i].first_uint
        == b[i].first_uint && a[i].text@ == b[i].text@ by {
        assert(entry_views(a)[i] == entry_view(a[i]));
        assert(entry_views(b)[i] == entry_view(b[i]));
        assert(context_code(a[i].tag.context) == context_code(b[i].tag.context));
    }
}

proof fn lemma_first_in_range(es: Seq<ExifEntry>, tags: Seq<ExifTag>)
    ensures
        first_with_tag(es, tags) matches Some(k) ==> 0 <= k < es.len(),
    decreases es.len(),
{
    if es.len() > 0 {
        lemma_first_in_range(es.drop_first(), tags);
    }
}

proof fn lemma_agree_first(a: Seq<ExifEntry>, b: Seq<ExifEntry>, tags: Seq<ExifTag>)
    requires
        agree(a, b),
    ensures
        first_with_tag(a, tags) == first_with_tag(b, tags),
    decreases a.len(),
{
    if a.len() > 0 {
        assert(a[0].tag == b[0].tag);
        assert forall|i: int| 0 <= i < a.drop_first().len() implies (#[trigger] a.drop_first()[i]).tag
            == b.drop_first()[i].tag && a.drop_first()[i].first_uint == b.drop_first()[i].first_uint
            && a.drop_first()[i].text@ == b.drop_first()[i].text@ by {
            assert(a[i + 1].tag == b[i + 1].tag);
        }
        lemma_agree_first(a.drop_first(), b.drop_first(), tags);
    }
}

proof fn lemma_agree_last(a: Seq<ExifEntry>, b: Seq<ExifEntry>, t: ExifTag)
    requires
        agree(a, b),
    ensures
        last_text(a, t) == last_text(b, t),
        last_uint(a, t) == last_uint(b, t),
        last_date(a) == last_date(b),
    decreases a.len(),
{
    if a.len() > 0 {
        let n = a.len() - 1;
        assert(a[n].tag == b[n].tag);
        assert forall|i: int| 0 <= i < a.drop_last().len() implies (#[trigger] a.drop_last()[i]).tag
            == b.drop_last()[i].tag && a.drop_last()[i].first_uint == b.drop_last()[i].first_uint
            && a.drop_last()[i].text@ == b.drop_last()[i].text@ by {
            assert(a[i].tag == b[i].tag);
        }
        lemma_agree_last(a.drop_last(), b.drop_last(), t);
    }
}

proof fn lemma_views_determine_orientation(es: Seq<ExifEntry>)
    ensures
        forall|o: Seq<ExifEntry>| entry_views(es) == #[trigger] entry_views(o) ==> orientation_value(o)
            == orientation_value(es),
{
    assert forall|o: Seq<ExifEntry>| entry_views(es) == #[trigger] entry_views(o) implies orientation_value(o)
        == orientation_value(es) by {
        lemma_views_agree(es, o);
        lemma_agree_first(es, o, seq![orientation_tag()]);
        lemma_first_in_range(es, seq![orientation_tag()]);
        match first_with_tag(es, seq![orientation_tag()]) {
            Some(k) => {
                assert(es[k].first_uint == o[k].first_uint);
            },
            None => {},
        }
    }
}

proof fn lemma_views_determine_summary(es: Seq<ExifEntry>, file_size: u64)
    ensures
        forall|o: Seq<ExifEntry>, r: PhotoExif| entry_views(es) == entry_views(o) ==> (#[trigger] is_exif_summary(
            o,
            file_size,
            r,
        ) == is_exif_summary(es, file_size, r)),
{
    assert forall|o: Seq<ExifEntry>, r: PhotoExif| entry_views(es) == entry_views(o) implies (#[trigger] is_exif_summary(
        o,
        file_size,
        r,
    ) == is_exif_summary(es, file_size, r)) by {
        lemma_views_agree(es, o);
        lemma_agree_last(es, o, make_tag());
        lemma_agree_last(es, o, model_tag());
        lemma_agree_last(es, o, lens_model_tag());
        lemma_agree_last(es, o, focal_length_tag());
        lemma_agree_last(es, o, f_number_tag());
        lemma_agree_last(es, o, exposure_time_tag());
        lemma_agree_last(es, o, sensitivity_tag());
        lemma_agree_last(es, o, image_width_tag());
        lemma_agree_last(es, o, image_length_tag());
    }
}

/// The EXIF fields of a file, from its bytes; `None` when it has no
/// readable EXIF.
pub fn exif_entries(bytes: &[u8]) -> (r: Option<Vec<ExifEntry>>)
    ensures
        r is Some == exif_fields(bytes@) is Some,
        r matches Some(v) ==> exif_fields(bytes@) == Some(entry_views(v@)),
{
    read_exif_fields(bytes)
}

/// The orientation of a photo from its bytes: that of its EXIF fields, or
/// none without EXIF.
pub fn exif_orientation(bytes: &[u8]) -> (r: Option<u16>)
    ensures
        exif_fields(bytes@) is None ==> r is None,
        forall|es: Seq<ExifEntry>| exif_fields(bytes@) == Some(#[trigger] entry_views(es)) ==> r
            == orientation_value(es),
{
    match exif_entries(bytes) {
        Some(es) => {
            proof {
                lemma_views_determine_orientation(es@);
            }
            orientation(&es)
        },
        None => None,
    }
}

/// The summary of a photo from its bytes and size: that of its EXIF fields,
/// or of none without EXIF.
pub fn photo_exif(bytes: &[u8], file_size: u64) -> (r: PhotoExif)
    ensures
        exif_fields(bytes@) is None ==> is_exif_summary(Seq::empty(), file_size, r),
        forall|es: Seq<ExifEntry>| exif_fields(bytes@) == Some(#[trigger] entry_views(es))
            ==> is_exif_summary(es, file_size, r),
{
    match exif_entries(bytes) {
        Some(es) => {
            proof {
                lemma_views_determine_summary(es@, file_size);
            }
            extract_exif(&es, file_size)
        },
        None => extract_exif(&Vec::new(), file_size),
    }
}

} // verus!
