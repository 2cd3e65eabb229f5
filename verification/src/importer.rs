//! Import naming and bookkeeping: destination paths from folder and file
//! templates, path sanitising, the safety check on destinations, unique
//! names for conflicting files, and the progress reports of an import.

use vstd::prelude::*;
use crate::exif::{opt_chars, ExifEntry, ExifTag, ExifContext, first_with_tag, first_text_field, tag, date_time_original_tag, date_time_tag, model_tag};
use crate::text::{chars_of, string_of, push_all, replace_all, replace_chars, trim, trim_chars, zero_pad, decimal, zero_padded, decimal_chars};
use vstd::utf8::{encode_utf8, decode_utf8, is_char_boundary};
use vstd::string::StringSliceAdditionalSpecFns;

verus! {

/// Characters that Windows forbids in file names (and the path separators).
pub open spec fn is_reserved_char(c: char) -> bool {
    c == '<' || c == '>' || c == ':' || c == '"' || c == '/' || c == '\\' || c == '|' || c == '?'
        || c == '*'
}

/// `s` with each reserved character replaced by `'_'`.
pub open spec fn replace_reserved(s: Seq<char>) -> Seq<char> {
    s.map_values(|c: char| if is_reserved_char(c) { '_' } else { c })
}

/// `s` with each space replaced by `'_'`.
pub open spec fn underscore_spaces(s: Seq<char>) -> Seq<char> {
    s.map_values(|c: char| if c == ' ' { '_' } else { c })
}

/// What `sanitize_path` returns: reserved characters replaced by `'_'`,
/// surrounding white space trimmed, and remaining spaces replaced by `'_'`.
pub open spec fn sanitized(s: Seq<char>) -> Seq<char> {
    underscore_spaces(trim(replace_reserved(s)))
}

fn sanitize_chars(s: &Vec<char>) -> (r: Vec<char>)
    ensures
        r@ == sanitized(s@),
{
    let mut a: Vec<char> = Vec::new();
    let mut i: usize = 0;
    while i < s.len()
        invariant
            0 <= i <= s.len(),
            a@ == replace_reserved(s@.take(i as int)),
        decreases s.len() - i,
    {
        let c = s[i];
        let reserved = c == '<' || c == '>' || c == ':' || c == '"' || c == '/' || c == '\\' || c
            == '|' || c == '?' || c == '*';
        a.push(if reserved { '_' } else { c });
        i += 1;
        assert(a@ =~= replace_reserved(s@.take(i as int)));
    }
    assert(s@.take(s.len() as int) =~= s@);
    let t = trim_chars(&a);
    let mut r: Vec<char> = Vec::new();
    let mut k: usize = 0;
    while k < t.len()
        invariant
            0 <= k <= t.len(),
            r@ == underscore_spaces(t@.take(k as int)),
        decreases t.len() - k,
    {
        let c = t[k];
        r.push(if c == ' ' { '_' } else { c });
        k += 1;
        assert(r@ =~= underscore_spaces(t@.take(k as int)));
    }
    assert(t@.take(t.len() as int) =~= t@);
    r
}

/// Removes characters that are illegal in Windows paths: each of
/// `< > : " / \ | ? *` becomes `_`, the ends are trimmed of white space,
/// and spaces become `_`.
pub fn sanitize_path(s: &str) -> (r: String)
    ensures
        r@ == sanitized(s@),
{
    let v = chars_of(s);
    let r = sanitize_chars(&v);
    string_of(r.as_slice())
}

/// A sanitized text holds no reserved character and no space.
pub proof fn lemma_sanitized_clean(s: Seq<char>)
    ensures
        forall|i: int|
            0 <= i < sanitized(s).len() ==> !is_reserved_char(#[trigger] sanitized(s)[i])
                && sanitized(s)[i] != ' ',
{
    lemma_trim_sub(replace_reserved(s));
    assert forall|i: int| 0 <= i < sanitized(s).len() implies !is_reserved_char(
        #[trigger] sanitized(s)[i],
    ) && sanitized(s)[i] != ' ' by {
        let t = trim(replace_reserved(s));
        let k = choose|k: int|
            0 <= k < replace_reserved(s).len() && replace_reserved(s)[k] == t[i];
    }
}

/// The trimmed text is made of characters of the original, and, when not
/// empty, starts and ends with non-white-space characters.
pub proof fn lemma_trim_sub(s: Seq<char>)
    ensures
        forall|i: int|
            0 <= i < trim(s).len() ==> exists|k: int| 0 <= k < s.len() && s[k] == #[trigger] trim(s)[i],
        trim(s).len() > 0 ==> !crate::text::is_white_space(trim(s)[0]) && !crate::text::is_white_space(
            trim(s).last(),
        ),
{
    lemma_trim_start_sub(s);
    lemma_trim_end_sub(crate::text::trim_start(s));
    let a = crate::text::trim_start(s);
    assert forall|i: int| 0 <= i < trim(s).len() implies exists|k: int|
        0 <= k < s.len() && s[k] == #[trigger] trim(s)[i] by {
        let j = choose|j: int| 0 <= j < a.len() && a[j] == trim(s)[i];
        let k = choose|k: int| 0 <= k < s.len() && s[k] == a[j];
    }
}

proof fn lemma_trim_start_sub(s: Seq<char>)
    ensures
        forall|i: int|
            0 <= i < crate::text::trim_start(s).len() ==> exists|k: int|
                0 <= k < s.len() && s[k] == #[trigger] crate::text::trim_start(s)[i],
        crate::text::trim_start(s).len() > 0 ==> !crate::text::is_white_space(
            crate::text::trim_start(s)[0],
        ),
        crate::text::trim_start(s).len() > 0 ==> crate::text::trim_start(s).last() == s.last(),
    decreases s.len(),
{
    if s.len() > 0 && crate::text::is_white_space(s[0]) {
        lemma_trim_start_sub(s.drop_first());
        assert forall|i: int| 0 <= i < crate::text::trim_start(s).len() implies exists|k: int|
            0 <= k < s.len() && s[k] == #[trigger] crate::text::trim_start(s)[i] by {
            let k = choose|k: int|
                0 <= k < s.drop_first().len() && s.drop_first()[k] == crate::text::trim_start(s)[i];
            assert(s[k + 1] == s.drop_first()[k]);
        }
    } else {
        assert forall|i: int| 0 <= i < crate::text::trim_start(s).len() implies exists|k: int|
            0 <= k < s.len() && s[k] == #[trigger] crate::text::trim_start(s)[i] by {
            assert(s[i] == crate::text::trim_start(s)[i]);
        }
    }
}

proof fn lemma_trim_end_sub(s: Seq<char>)
    requires
        s.len() > 0 ==> !crate::text::is_white_space(s[0]),
    ensures
        forall|i: int|
            0 <= i < crate::text::trim_end(s).len() ==> exists|k: int|
                0 <= k < s.len() && s[k] == #[trigger] crate::text::trim_end(s)[i],
        crate::text::trim_end(s).len() > 0 ==> !crate::text::is_white_space(crate::text::trim_end(s)[0])
            && !crate::text::is_white_space(crate::text::trim_end(s).last()),
    decreases s.len(),
{
    if s.len() > 0 && crate::text::is_white_space(s.last()) {
        if s.len() > 1 {
            assert(s.drop_last()[0] == s[0]);
        }
        lemma_trim_end_sub(s.drop_last());
        assert forall|i: int| 0 <= i < crate::text::trim_end(s).len() implies exists|k: int|
            0 <= k < s.len() && s[k] == #[trigger] crate::text::trim_end(s)[i] by {
            let k = choose|k: int|
                0 <= k < s.drop_last().len() && s.drop_last()[k] == crate::text::trim_end(s)[i];
            assert(s[k] == s.drop_last()[k]);
        }
    } else {
        assert forall|i: int| 0 <= i < crate::text::trim_end(s).len() implies exists|k: int|
            0 <= k < s.len() && s[k] == #[trigger] crate::text::trim_end(s)[i] by {
            assert(s[i] == crate::text::trim_end(s)[i]);
        }
    }
}


/// Sanitizing is idempotent: a sanitized text is left as it is.
pub proof fn lemma_sanitize_idempotent(s: Seq<char>)
    ensures
        sanitized(sanitized(s)) == sanitized(s),
{
    let t = trim(replace_reserved(s));
    let u = sanitized(s);
    lemma_trim_sub(replace_reserved(s));
    lemma_sanitized_clean(s);
    assert(replace_reserved(u) =~= u);
    if u.len() > 0 {
        assert(u[0] == t[0]);
        assert(u.last() == t.last());
        assert(crate::text::trim_start(u) == u);
        assert(crate::text::trim_end(u) == u);
    } else {
        assert(crate::text::trim_start(u) == u);
        assert(crate::text::trim_end(u) == u);
    }
    assert(underscore_spaces(u) =~= u);
}

/// Index of the last `'.'` of `s`.
pub open spec fn last_dot(s: Seq<char>) -> Option<int>
    decreases s.len(),
{
    if s.len() == 0 {
        None
    } else if s.last() == '.' {
        Some(s.len() - 1)
    } else {
        last_dot(s.drop_last())
    }
}

proof fn lemma_last_dot(s: Seq<char>)
    ensures
        last_dot(s) matches Some(d) ==> 0 <= d < s.len() && s[d] == '.' && forall|k: int|
            d < k < s.len() ==> s[k] != '.',
        last_dot(s) is None ==> forall|k: int| 0 <= k < s.len() ==> s[k] != '.',
    decreases s.len(),
{
    if s.len() > 0 && s.last() != '.' {
        lemma_last_dot(s.drop_last());
        assert forall|k: int| 0 <= k < s.len() - 1 implies s[k] == s.drop_last()[k] by {}
    }
}

/// Whether `s` is `".."`.
pub open spec fn is_dot_dot(s: Seq<char>) -> bool {
    s == seq!['.', '.']
}

/// Whether `s` is `"."`.
pub open spec fn is_dot(s: Seq<char>) -> bool {
    s == seq!['.']
}

/// What std's `Path::file_stem` gives for a file name other than `".."`:
/// the part before the last `'.'`, or the whole name when it has no `'.'`
/// other than a leading one. For `".."`, which std treats as no file name,
/// it is `".."` itself.
pub open spec fn name_stem(s: Seq<char>) -> Seq<char> {
    if is_dot_dot(s) {
        s
    } else {
        match last_dot(s) {
            Some(d) => if d > 0 {
                s.take(d)
            } else {
                s
            },
            None => s,
        }
    }
}

/// What std's `Path::extension` gives for a file name: the part after the
/// last `'.'`, unless the name has no `'.'` other than a leading one (or is
/// `".."`).
pub open spec fn name_extension(s: Seq<char>) -> Option<Seq<char>> {
    if is_dot_dot(s) {
        None
    } else {
        match last_dot(s) {
            Some(d) => if d > 0 {
                Some(s.skip(d + 1))
            } else {
                None
            },
            None => None,
        }
    }
}

/// Splits a file name into stem and extension as `Path::file_stem` and
/// `Path::extension` do (see [`name_stem`] for `".."`).
pub fn split_file_name(name: &Vec<char>) -> (r: (Vec<char>, Option<Vec<char>>))
    ensures
        r.0@ == name_stem(name@),
        match name_extension(name@) {
            Some(e) => r.1 matches Some(v) && v@ == e,
            None => r.1 is None,
        },
{
    let n = name.len();
    if n == 2 && name[0] == '.' && name[1] == '.' {
        assert(name@ =~= seq!['.', '.']);
        return (name.clone(), None);
    }
    assert(!is_dot_dot(name@));
    let mut i: usize = n;
    assert(name@.take(n as int) =~= name@);
    while i > 0 && name[i - 1] != '.'
        invariant
            n == name.len(),
            0 <= i <= n,
            last_dot(name@) == last_dot(name@.take(i as int)),
        decreases i,
    {
        assert(name@.take(i as int).drop_last() =~= name@.take(i - 1));
        i -= 1;
    }
    if i <= 1 {
        if i == 1 {
            assert(name@.take(1).last() == '.');
        } else {
            assert(name@.take(0).len() == 0);
        }
        return (name.clone(), None);
    }
    let d = i - 1;
    assert(name@.take(i as int).last() == '.');
    let mut stem: Vec<char> = Vec::new();
    let mut k: usize = 0;
    while k < d
        invariant
            d < n,
            n == name.len(),
            0 <= k <= d,
            stem@ == name@.take(k as int),
        decreases d - k,
    {
        stem.push(name[k]);
        k += 1;
        assert(stem@ =~= name@.take(k as int));
    }
    let mut ext: Vec<char> = Vec::new();
    let mut m: usize = i;
    while m < n
        invariant
            i <= m <= n,
            n == name.len(),
            ext@ == name@.subrange(i as int, m as int),
        decreases n - m,
    {
        ext.push(name[m]);
        m += 1;
        assert(ext@ =~= name@.subrange(i as int, m as int));
    }
    assert(name@.skip(i as int) =~= name@.subrange(i as int, n as int));
    (stem, Some(ext))
}

/// Whether `s` is a piece of `path`: the characters at some position.
pub open spec fn is_piece_of(s: Seq<char>, path: Seq<char>) -> bool {
    exists|i: int| 0 <= i && i + s.len() <= path.len() && #[trigger] path.subrange(i, i + s.len()) == s
}

/// Whether a path is a bare name on every platform: not empty, not `.` or
/// `..`, and without `/`, `\` or `:`.
pub open spec fn is_bare_name(path: Seq<char>) -> bool {
    &&& path.len() > 0
    &&& !path.contains('/')
    &&& !path.contains('\\')
    &&& !path.contains(':')
    &&& !is_dot(path)
    &&& !is_dot_dot(path)
}

/// The last piece that is neither empty nor `.`.
pub open spec fn last_named(ps: Seq<Seq<char>>) -> Option<Seq<char>>
    decreases ps.len(),
{
    if ps.len() == 0 {
        None
    } else if ps.last().len() == 0 || is_dot(ps.last()) {
        last_named(ps.drop_last())
    } else {
        Some(ps.last())
    }
}

/// Whether every platform reads the path with `/` as its only separator:
/// it holds no `\` or `:`, and does not start with `//`.
pub open spec fn slash_only(path: Seq<char>) -> bool {
    &&& !path.contains('\\')
    &&& !path.contains(':')
    &&& !(path.len() >= 2 && path[0] == '/' && path[1] == '/')
}

/// The final component of a path whose only separator is `/`: the last
/// piece between `/` characters that is neither empty nor `.`, and none when
/// that piece is `..` or there is no such piece (`/`, `.`, the empty path).
pub open spec fn slash_file_name(path: Seq<char>) -> Option<Seq<char>> {
    match last_named(slash_pieces(path)) {
        Some(l) => if is_dot_dot(l) {
            None
        } else {
            Some(l)
        },
        None => None,
    }
}

/// The final component of a path, with std's `Path::file_name`.
///
/// Trusted: what std documents of the final component on every platform:
/// it is a piece of the path, never empty, without `/`, and never `..`; a
/// bare name is its own final component; for a path whose only separator
/// is `/`, the components are the pieces between `/` characters, empty
/// pieces and `.` pieces left out (a leading `.` is the current folder),
/// and the final one is the file name unless it is `..`. Where `\` or `:`
/// occur, or the path starts with `//`, Windows reads prefixes and other
/// separators, so nothing more is said there.
#[verifier::external_body]
fn path_file_name(path: &str) -> (r: Option<String>)
    ensures
        r matches Some(n) ==> n@.len() > 0 && !n@.contains('/') && !is_dot_dot(n@),
        r matches Some(n) ==> is_piece_of(n@, path@),
        is_bare_name(path@) ==> r is Some && r->0@ == path@,
        slash_only(path@) ==> opt_chars(r) == slash_file_name(path@),
{
    std::path::Path::new(path).file_name().and_then(|n| n.to_str()).map(|n| n.to_string())
}

/// What a path's final component is allowed to be.
pub open spec fn is_file_name(n: Seq<char>) -> bool {
    n.len() > 0 && !n.contains('/') && !is_dot_dot(n)
}

/// The file name shown in import progress: the final component of `path`,
/// or `"unknown"` when it has none.
pub fn display_file_name(path: &str) -> (r: String)
    ensures
        r@.len() > 0,
        !r@.contains('/'),
        r@ == "unknown"@ || is_piece_of(r@, path@),
        is_bare_name(path@) ==> r@ == path@,
        slash_only(path@) ==> r@ == match slash_file_name(path@) {
            Some(n) => n,
            None => "unknown"@,
        },
{
    match path_file_name(path) {
        Some(n) => n,
        None => {
            let u = "unknown".to_string();
            proof {
                reveal_strlit("unknown");
                assert(!u@.contains('/'));
            }
            u
        },
    }
}


/// The date text used for naming, the date taken: the display text of the
/// first DateTimeOriginal field, else of the first DateTime field, else empty.
pub open spec fn exif_date_text(es: Seq<ExifEntry>) -> Seq<char> {
    match first_with_tag(es, seq![date_time_original_tag()]) {
        Some(k) => es[k].text@,
        None => match first_with_tag(es, seq![date_time_tag()]) {
            Some(k) => es[k].text@,
            None => Seq::empty(),
        },
    }
}

fn exif_date_string(entries: &Vec<ExifEntry>) -> (r: String)
    ensures
        r@ == exif_date_text(entries@),
{
    let original_tags = [tag(ExifContext::Exif, 0x9003)];
    let ots: &[ExifTag] = &original_tags;
    assert(ots@ =~= seq![date_time_original_tag()]);
    match first_text_field(entries, ots) {
        Some(s) => s,
        None => {
            let plain_tags = [tag(ExifContext::Tiff, 0x132)];
            let pts: &[ExifTag] = &plain_tags;
            assert(pts@ =~= seq![date_time_tag()]);
            match first_text_field(entries, pts) {
                Some(s) => s,
                None => String::new(),
            }
        },
    }
}

/// The byte positions at which the date text is cut (4, 5, 7, 8 and 10) fall
/// on character boundaries whenever it is at least 10 bytes long; cutting a
/// string elsewhere panics.
pub open spec fn date_cuts_ok(d: Seq<char>) -> bool {
    let b = encode_utf8(d);
    b.len() >= 10 ==> is_char_boundary(b, 4) && is_char_boundary(b, 5) && is_char_boundary(b, 7)
        && is_char_boundary(b, 8) && is_char_boundary(b, 10)
}

/// The characters of bytes `a..e` of the UTF-8 form of `d`.
pub open spec fn byte_slice(d: Seq<char>, a: int, e: int) -> Seq<char> {
    decode_utf8(encode_utf8(d).subrange(a, e))
}

/// Year, month, day and camera used by the naming templates.
pub open spec fn exif_name_parts(es: Seq<ExifEntry>) -> (Seq<char>, Seq<char>, Seq<char>, Seq<char>) {
    let d = exif_date_text(es);
    let dated = encode_utf8(d).len() >= 10;
    let year = if dated {
        byte_slice(d, 0, 4)
    } else {
        seq!['0', '0', '0', '0']
    };
    let month = if dated {
        byte_slice(d, 5, 7)
    } else {
        seq!['0', '0']
    };
    let day = if dated {
        byte_slice(d, 8, 10)
    } else {
        seq!['0', '0']
    };
    let camera = match first_with_tag(es, seq![model_tag()]) {
        Some(k) => sanitized(es[k].text@),
        None => seq!['U', 'n', 'k', 'n', 'o', 'w', 'n'],
    };
    (year, month, day, camera)
}

proof fn lemma_first_with_single_tag(es: Seq<ExifEntry>, t: ExifTag, k: int)
    requires
        0 <= k <= es.len(),
        forall|j: int| 0 <= j < k ==> (#[trigger] es[j]).tag != t,
    ensures
        k < es.len() && es[k].tag == t ==> first_with_tag(es, seq![t]) == Some(k),
        k == es.len() ==> first_with_tag(es, seq![t]) is None,
    decreases k,
{
    if es.len() > 0 {
        if k > 0 {
            assert(es[0].tag != t);
            assert(!seq![t].contains(es[0].tag)) by {
                if seq![t].contains(es[0].tag) {
                    assert(seq![t][0] == t);
                }
            }
            let rest = es.drop_first();
            assert forall|j: int| 0 <= j < k - 1 implies (#[trigger] rest[j]).tag != t by {
                assert(rest[j] == es[j + 1]);
            }
            lemma_first_with_single_tag(rest, t, k - 1);
            if k < es.len() {
                assert(rest[k - 1] == es[k]);
            }
        } else {
            if k < es.len() && es[0].tag == t {
                assert(seq![t][0] == t);
            }
        }
    }
}

/// The camera part of the names is the camera model: the sanitized text of
/// the first field tagged Model (TIFF tag 0x110), whatever other fields
/// (the maker among them) come before it.
pub proof fn lemma_camera_is_model(es: Seq<ExifEntry>, k: int)
    requires
        0 <= k < es.len(),
        es[k].tag == (ExifTag { context: ExifContext::Tiff, number: 0x110 }),
        forall|j: int| 0 <= j < k ==> (#[trigger] es[j]).tag != (ExifTag { context: ExifContext::Tiff, number: 0x110 }),
    ensures
        exif_name_parts(es).3 == sanitized(es[k].text@),
{
    lemma_first_with_single_tag(es, ExifTag { context: ExifContext::Tiff, number: 0x110 }, k);
}

/// Without a Model field the camera part is `Unknown`, whatever other
/// fields (the maker among them) there are.
pub proof fn lemma_camera_unknown(es: Seq<ExifEntry>)
    requires
        forall|j: int| 0 <= j < es.len() ==> (#[trigger] es[j]).tag != (ExifTag { context: ExifContext::Tiff, number: 0x110 }),
    ensures
        exif_name_parts(es).3 == seq!['U', 'n', 'k', 'n', 'o', 'w', 'n'],
{
    lemma_first_with_single_tag(es, ExifTag { context: ExifContext::Tiff, number: 0x110 }, es.len() as int);
}

/// Year, month and day cut from the EXIF date text (bytes 0..4, 5..7 and
/// 8..10 when it is at least 10 bytes long, else `0000`, `00`, `00`), and
/// the sanitized camera model (else `Unknown`).
pub fn get_exif_info(entries: &Vec<ExifEntry>) -> (r: (String, String, String, String))
    requires
        date_cuts_ok(exif_date_text(entries@)),
    ensures
        (r.0@, r.1@, r.2@, r.3@) == exif_name_parts(entries@),
{
    broadcast use vstd::utf8::encode_utf8_valid_utf8, vstd::utf8::encode_utf8_decode_utf8;

    let date = exif_date_string(entries);
    let ghost d = exif_date_text(entries@);
    assert(date@ == d);
    let s: &str = date.as_str();
    let ghost b = encode_utf8(d);
    let (year, month, day) = if s.as_bytes().len() >= 10 {
        proof {
            assert(s.spec_bytes() == b);
            vstd::utf8::valid_utf8_split(b, 7);
            vstd::utf8::valid_utf8_split(b, 10);
            vstd::utf8::is_char_boundary_iff_not_is_continuation_byte(b, 5);
            vstd::utf8::is_char_boundary_iff_not_is_continuation_byte(b, 8);
            vstd::utf8::is_char_boundary_iff_not_is_continuation_byte(b.subrange(0, 7), 5);
            vstd::utf8::is_char_boundary_iff_not_is_continuation_byte(b.subrange(0, 10), 8);
        }
        let (y, _) = s.split_at(4);
        let (p7, _) = s.split_at(7);
        let (_, m) = p7.split_at(5);
        let (p10, _) = s.split_at(10);
        let (_, dd) = p10.split_at(8);
        proof {
            assert(y.spec_bytes() =~= b.subrange(0, 4));
            assert(m.spec_bytes() =~= b.subrange(5, 7));
            assert(dd.spec_bytes() =~= b.subrange(8, 10));
            assert(decode_utf8(encode_utf8(y@)) == y@);
            assert(decode_utf8(encode_utf8(m@)) == m@);
            assert(decode_utf8(encode_utf8(dd@)) == dd@);
            assert(encode_utf8(d).len() >= 10);
            assert(y@ == byte_slice(d, 0, 4));
            assert(m@ == byte_slice(d, 5, 7));
        }
        (y.to_owned(), m.to_owned(), dd.to_owned())
    } else {
        let y = "0000".to_string();
        let m = "00".to_string();
        let dd = "00".to_string();
        proof {
            reveal_strlit("0000");
            reveal_strlit("00");
            assert(y@ =~= seq!['0', '0', '0', '0']);
            assert(m@ =~= seq!['0', '0']);
            assert(encode_utf8(d).len() < 10);
        }
        (y, m, dd)
    };
    let model_tags = [tag(ExifContext::Tiff, 0x110)];
    let mts: &[ExifTag] = &model_tags;
    assert(mts@ =~= seq![model_tag()]);
    let camera = match first_text_field(entries, mts) {
        Some(model) => sanitize_path(model.as_str()),
        None => {
            let u = "Unknown".to_string();
            proof {
                reveal_strlit("Unknown");
                assert(u@ =~= seq!['U', 'n', 'k', 'n', 'o', 'w', 'n']);
            }
            u
        },
    };
    assert(year@ == exif_name_parts(entries@).0);
    assert(month@ == exif_name_parts(entries@).1);
    assert(day@ == exif_name_parts(entries@).2);
    assert(camera@ == exif_name_parts(entries@).3);
    (year, month, day, camera)
}

/// Whether the EXIF date text can be cut as [`get_exif_info`] cuts it: the
/// condition that [`get_exif_info`] and [`build_dest_path`] require.
pub fn date_cuts_valid(entries: &Vec<ExifEntry>) -> (b: bool)
    ensures
        b == date_cuts_ok(exif_date_text(entries@)),
{
    let date = exif_date_string(entries);
    assert(date@ == exif_date_text(entries@));
    let s: &str = date.as_str();
    if s.as_bytes().len() >= 10 {
        s.is_char_boundary(4) && s.is_char_boundary(5) && s.is_char_boundary(7) && s.is_char_boundary(8)
            && s.is_char_boundary(10)
    } else {
        true
    }
}


pub open spec fn ph_date() -> Seq<char> {
    seq!['{', 'd', 'a', 't', 'e', '}']
}

pub open spec fn ph_year() -> Seq<char> {
    seq!['{', 'y', 'e', 'a', 'r', '}']
}

pub open spec fn ph_month() -> Seq<char> {
    seq!['{', 'm', 'o', 'n', 't', 'h', '}']
}

pub open spec fn ph_day() -> Seq<char> {
    seq!['{', 'd', 'a', 'y', '}']
}

pub open spec fn ph_camera() -> Seq<char> {
    seq!['{', 'c', 'a', 'm', 'e', 'r', 'a', '}']
}

pub open spec fn ph_original() -> Seq<char> {
    seq!['{', 'o', 'r', 'i', 'g', 'i', 'n', 'a', 'l', '}']
}

pub open spec fn ph_ext() -> Seq<char> {
    seq!['{', 'e', 'x', 't', '}']
}

pub open spec fn ph_seq() -> Seq<char> {
    seq!['{', 's', 'e', 'q', '}']
}

/// `year-month-day`.
pub open spec fn date_text(y: Seq<char>, m: Seq<char>, d: Seq<char>) -> Seq<char> {
    y + seq!['-'] + m + seq!['-'] + d
}

/// A template with `{date}`, `{year}`, `{month}`, `{day}` and `{camera}`
/// replaced, in that order.
pub open spec fn fill_common(t: Seq<char>, y: Seq<char>, m: Seq<char>, d: Seq<char>, cam: Seq<char>) -> Seq<char> {
    replace_all(
        replace_all(
            replace_all(replace_all(replace_all(t, ph_date(), date_text(y, m, d)), ph_year(), y), ph_month(), m),
            ph_day(),
            d,
        ),
        ph_camera(),
        cam,
    )
}

/// A text made a path component: sanitized.
pub open spec fn component(s: Seq<char>) -> Seq<char> {
    sanitized(s)
}

/// A name without reserved characters, so without separators.
pub open spec fn is_clean_name(s: Seq<char>) -> bool {
    forall|i: int| 0 <= i < s.len() ==> !is_reserved_char(#[trigger] s[i])
}

/// A clean name that is not empty: a sub-folder.
pub open spec fn is_clean_folder(s: Seq<char>) -> bool {
    s.len() > 0 && is_clean_name(s)
}

/// Splitting a text at `/`: the pieces that a `/` has closed, and the piece
/// still open.
pub open spec fn slash_split(t: Seq<char>) -> (Seq<Seq<char>>, Seq<char>)
    decreases t.len(),
{
    if t.len() == 0 {
        (Seq::empty(), Seq::empty())
    } else {
        let (done, cur) = slash_split(t.drop_last());
        if t.last() == '/' {
            (done.push(cur), Seq::empty())
        } else {
            (done, cur.push(t.last()))
        }
    }
}

/// The pieces of `t` between `/` characters, in order (one piece when `t`
/// has no `/`).
pub open spec fn slash_pieces(t: Seq<char>) -> Seq<Seq<char>> {
    slash_split(t).0.push(slash_split(t).1)
}

/// The folder a piece of the folder template names: filled in and made a
/// component; nothing when that leaves it empty.
pub open spec fn folder_piece(
    p: Seq<char>,
    parts: (Seq<char>, Seq<char>, Seq<char>, Seq<char>),
) -> Seq<Seq<char>> {
    let c = component(fill_common(p, parts.0, parts.1, parts.2, parts.3));
    if c.len() > 0 {
        seq![c]
    } else {
        Seq::empty()
    }
}

/// The folders named by a list of template pieces, in order.
pub open spec fn folder_pieces(
    ps: Seq<Seq<char>>,
    parts: (Seq<char>, Seq<char>, Seq<char>, Seq<char>),
) -> Seq<Seq<char>>
    decreases ps.len(),
{
    if ps.len() == 0 {
        Seq::empty()
    } else {
        folder_pieces(ps.drop_last(), parts) + folder_piece(ps.last(), parts)
    }
}

/// The nested sub-folders named by the folder template: the template is
/// split at `/`, and each piece names one folder (an empty template, or
/// empty pieces, name none).
pub open spec fn dest_folder(
    folder_t: Seq<char>,
    parts: (Seq<char>, Seq<char>, Seq<char>, Seq<char>),
) -> Seq<Seq<char>> {
    folder_pieces(slash_pieces(folder_t), parts)
}

/// The file name named by the file template, after the common variables
/// also `{original}`, `{ext}` and `{seq}` (the counter on four digits),
/// made a component; with an empty template the source's own file name
/// (or `unknown`).
pub open spec fn dest_file(
    file_t: Seq<char>,
    name: Option<Seq<char>>,
    parts: (Seq<char>, Seq<char>, Seq<char>, Seq<char>),
    counter: u32,
) -> Seq<char> {
    if file_t.len() == 0 {
        component(
            match name {
                Some(n) => n,
                None => seq!['u', 'n', 'k', 'n', 'o', 'w', 'n'],
            },
        )
    } else {
        component(
            replace_all(
                replace_all(
                    replace_all(
                        fill_common(file_t, parts.0, parts.1, parts.2, parts.3),
                        ph_original(),
                        source_original(name),
                    ),
                    ph_ext(),
                    source_ext(name),
                ),
                ph_seq(),
                zero_pad(decimal(counter as nat), 4),
            ),
        )
    }
}

/// The original name used by `{original}`: the stem of the source's file
/// name, or `unknown` when it has none.
pub open spec fn source_original(name: Option<Seq<char>>) -> Seq<char> {
    match name {
        Some(n) => name_stem(n),
        None => seq!['u', 'n', 'k', 'n', 'o', 'w', 'n'],
    }
}

/// The extension used by `{ext}`: the extension of the source's file name
/// as it is written, or empty.
pub open spec fn source_ext(name: Option<Seq<char>>) -> Seq<char> {
    match name {
        Some(n) => match name_extension(n) {
            Some(e) => e,
            None => Seq::empty(),
        },
        None => Seq::empty(),
    }
}

/// A made component is clean.
pub proof fn lemma_component_clean(s: Seq<char>)
    ensures
        is_clean_name(component(s)),
{
    lemma_sanitized_clean(s);
}

/// Every folder named by template pieces is a clean folder name.
pub proof fn lemma_folder_pieces_clean(
    ps: Seq<Seq<char>>,
    parts: (Seq<char>, Seq<char>, Seq<char>, Seq<char>),
)
    ensures
        forall|k: int|
            0 <= k < folder_pieces(ps, parts).len() ==> is_clean_folder(#[trigger] folder_pieces(ps, parts)[k]),
    decreases ps.len(),
{
    if ps.len() > 0 {
        lemma_folder_pieces_clean(ps.drop_last(), parts);
        lemma_component_clean(fill_common(ps.last(), parts.0, parts.1, parts.2, parts.3));
        let a = folder_pieces(ps.drop_last(), parts);
        let b = folder_piece(ps.last(), parts);
        assert forall|k: int| 0 <= k < (a + b).len() implies is_clean_folder(#[trigger] (a + b)[k]) by {
            if k >= a.len() {
                assert((a + b)[k] == b[k - a.len()]);
            } else {
                assert((a + b)[k] == a[k]);
            }
        }
    }
}

/// A destination relative to the import folder: nested sub-folders (none,
/// one or more) and a file name, each a clean name (no separator).
pub struct DestPath {
    folder: Vec<String>,
    file_name: String,
}

impl DestPath {
    #[verifier::type_invariant]
    spec fn clean(self) -> bool {
        &&& forall|k: int| 0 <= k < self.folder@.len() ==> is_clean_folder(#[trigger] self.folder@[k]@)
        &&& is_clean_name(self.file_name@)
    }

    /// The sub-folders, outermost first.
    pub closed spec fn folder_view(self) -> Seq<Seq<char>> {
        views(self.folder@)
    }

    /// The file name.
    pub closed spec fn file_view(self) -> Seq<char> {
        self.file_name@
    }

    /// The sub-folders, outermost first; each a clean, non-empty name.
    pub fn folder(&self) -> (r: &Vec<String>)
        ensures
            views(r@) == self.folder_view(),
            forall|k: int| 0 <= k < r@.len() ==> is_clean_folder(#[trigger] r@[k]@),
    {
        proof {
            use_type_invariant(self);
        }
        &self.folder
    }

    /// The file name; a clean name.
    pub fn file_name(&self) -> (r: &String)
        ensures
            r@ == self.file_view(),
            is_clean_name(r@),
    {
        proof {
            use_type_invariant(self);
        }
        &self.file_name
    }
}

fn literal_chars(s: &str) -> (v: Vec<char>)
    ensures
        v@ == s@,
{
    chars_of(s)
}

fn fill_common_chars(t: &Vec<char>, y: &Vec<char>, m: &Vec<char>, d: &Vec<char>, cam: &Vec<char>) -> (r: Vec<char>)
    ensures
        r@ == fill_common(t@, y@, m@, d@, cam@),
{
    let p_date = literal_chars("{date}");
    let p_year = literal_chars("{year}");
    let p_month = literal_chars("{month}");
    let p_day = literal_chars("{day}");
    let p_camera = literal_chars("{camera}");
    proof {
        reveal_strlit("{date}");
        reveal_strlit("{year}");
        reveal_strlit("{month}");
        reveal_strlit("{day}");
        reveal_strlit("{camera}");
        assert(p_date@ =~= ph_date());
        assert(p_year@ =~= ph_year());
        assert(p_month@ =~= ph_month());
        assert(p_day@ =~= ph_day());
        assert(p_camera@ =~= ph_camera());
    }
    let mut date: Vec<char> = Vec::new();
    push_all(&mut date, y);
    date.push('-');
    push_all(&mut date, m);
    date.push('-');
    push_all(&mut date, d);
    assert(date@ =~= date_text(y@, m@, d@));
    let a = replace_chars(t, &p_date, &date);
    let b = replace_chars(&a, &p_year, y);
    let c = replace_chars(&b, &p_month, m);
    let e = replace_chars(&c, &p_day, d);
    replace_chars(&e, &p_camera, cam)
}

fn make_component(s: &Vec<char>) -> (r: Vec<char>)
    ensures
        r@ == component(s@),
{
    sanitize_chars(s)
}

fn push_folder_piece(
    out: &mut Vec<String>,
    piece: &Vec<char>,
    y: &Vec<char>,
    m: &Vec<char>,
    d: &Vec<char>,
    cam: &Vec<char>,
)
    ensures
        views(final(out)@) == views(old(out)@) + folder_piece(piece@, (y@, m@, d@, cam@)),
{
    let filled = fill_common_chars(piece, y, m, d, cam);
    let c = make_component(&filled);
    let ghost before = out@;
    if c.len() > 0 {
        out.push(string_of(c.as_slice()));
        assert(views(out@) =~= views(before) + seq![c@]);
    } else {
        assert(views(out@) =~= views(before) + Seq::<Seq<char>>::empty());
    }
}

fn folder_chars(
    t: &Vec<char>,
    y: &Vec<char>,
    m: &Vec<char>,
    d: &Vec<char>,
    cam: &Vec<char>,
) -> (r: Vec<String>)
    ensures
        views(r@) == folder_pieces(slash_pieces(t@), (y@, m@, d@, cam@)),
{
    let ghost parts = (y@, m@, d@, cam@);
    let mut out: Vec<String> = Vec::new();
    let mut cur: Vec<char> = Vec::new();
    let mut i: usize = 0;
    assert(t@.take(0) =~= Seq::<char>::empty());
    while i < t.len()
        invariant
            0 <= i <= t.len(),
            parts == (y@, m@, d@, cam@),
            cur@ == slash_split(t@.take(i as int)).1,
            views(out@) == folder_pieces(slash_split(t@.take(i as int)).0, parts),
        decreases t.len() - i,
    {
        let ghost prev = slash_split(t@.take(i as int));
        assert(t@.take(i + 1).drop_last() =~= t@.take(i as int));
        assert(t@.take(i + 1).last() == t@[i as int]);
        if t[i] == '/' {
            push_folder_piece(&mut out, &cur, y, m, d, cam);
            assert(prev.0.push(prev.1).drop_last() =~= prev.0);
            cur = Vec::new();
            assert(cur@ =~= Seq::<char>::empty());
        } else {
            cur.push(t[i]);
        }
        i += 1;
    }
    assert(t@.take(t.len() as int) =~= t@);
    let ghost sp = slash_split(t@);
    push_folder_piece(&mut out, &cur, y, m, d, cam);
    assert(sp.0.push(sp.1).drop_last() =~= sp.0);
    out
}

fn make_dest(folder: Vec<String>, file: Vec<char>) -> (r: DestPath)
    requires
        forall|k: int| 0 <= k < folder@.len() ==> is_clean_folder(#[trigger] folder@[k]@),
        is_clean_name(file@),
    ensures
        r.folder_view() == views(folder@),
        r.file_view() == file@,
{
    DestPath { folder, file_name: string_of(file.as_slice()) }
}

/// The destination for a source whose final path component is `name`:
/// the folder template split into nested folders and the file template,
/// filled in with the EXIF date and camera, the source's stem and
/// extension, and the counter, each component then made clean.
pub fn dest_path_for_name(
    folder_template: &str,
    file_template: &str,
    name: Option<&str>,
    exif: &Vec<ExifEntry>,
    counter: u32,
) -> (r: DestPath)
    requires
        date_cuts_ok(exif_date_text(exif@)),
    ensures
        r.folder_view() == dest_folder(folder_template@, exif_name_parts(exif@)),
        r.file_view() == dest_file(file_template@, opt_text(name), exif_name_parts(exif@), counter),
{
    let ghost oname: Option<Seq<char>> = opt_text(name);
    let (original, ext): (Vec<char>, Vec<char>) = match name {
        Some(n) => {
            let nv = chars_of(n);
            let (stem, ext) = split_file_name(&nv);
            match ext {
                Some(e) => (stem, e),
                None => (stem, Vec::new()),
            }
        },
        None => {
            let u = literal_chars("unknown");
            proof {
                reveal_strlit("unknown");
                assert(u@ =~= seq!['u', 'n', 'k', 'n', 'o', 'w', 'n']);
            }
            (u, Vec::new())
        },
    };
    assert(original@ == source_original(oname));
    assert(ext@ == source_ext(oname));
    let (year, month, day, camera) = get_exif_info(exif);
    let y = chars_of(year.as_str());
    let m = chars_of(month.as_str());
    let d = chars_of(day.as_str());
    let cam = chars_of(camera.as_str());
    let ghost parts = exif_name_parts(exif@);
    assert((y@, m@, d@, cam@) == parts);
    let ft = chars_of(folder_template);
    let folder = folder_chars(&ft, &y, &m, &d, &cam);
    let lt = chars_of(file_template);
    let file = if lt.len() == 0 {
        let whole = match name {
            Some(n) => chars_of(n),
            None => {
                let u = literal_chars("unknown");
                proof {
                    reveal_strlit("unknown");
                    assert(u@ =~= seq!['u', 'n', 'k', 'n', 'o', 'w', 'n']);
                }
                u
            },
        };
        make_component(&whole)
    } else {
        let p_original = literal_chars("{original}");
        let p_ext = literal_chars("{ext}");
        let p_seq = literal_chars("{seq}");
        proof {
            reveal_strlit("{original}");
            reveal_strlit("{ext}");
            reveal_strlit("{seq}");
            assert(p_original@ =~= ph_original());
            assert(p_ext@ =~= ph_ext());
            assert(p_seq@ =~= ph_seq());
        }
        let seq_text = zero_padded(counter as u64, 4);
        let a = fill_common_chars(&lt, &y, &m, &d, &cam);
        let b = replace_chars(&a, &p_original, &original);
        let c = replace_chars(&b, &p_ext, &ext);
        let e = replace_chars(&c, &p_seq, &seq_text);
        make_component(&e)
    };
    proof {
        lemma_folder_pieces_clean(slash_pieces(folder_template@), parts);
        lemma_component_clean(
            match oname {
                Some(n) => n,
                None => seq!['u', 'n', 'k', 'n', 'o', 'w', 'n'],
            },
        );
        lemma_component_clean(
            replace_all(
                replace_all(
                    replace_all(fill_common(file_template@, y@, m@, d@, cam@), ph_original(), original@),
                    ph_ext(),
                    ext@,
                ),
                ph_seq(),
                zero_pad(decimal(counter as nat), 4),
            ),
        );
        assert forall|k: int| 0 <= k < folder@.len() implies is_clean_folder(#[trigger] folder@[k]@) by {
            assert(views(folder@)[k] == folder@[k]@);
        }
    }
    make_dest(folder, file)
}

/// Builds the destination of a source file from the folder and file
/// templates (variables `{date}`, `{year}`, `{month}`, `{day}`, `{camera}`,
/// and in file names also `{original}`, `{ext}`, `{seq}`). A template or
/// value that yields `.` or `..` is kept as it is; the copy refuses such a
/// destination (see [`copy_begin`]).
///
/// The source's final path component is taken with std's `Path`: for a
/// path whose only separator is `/` it is [`slash_file_name`] on every
/// platform; otherwise it is some valid final component taken from the
/// path, or none.
pub fn build_dest_path(
    folder_template: &str,
    file_template: &str,
    source_path: &str,
    exif: &Vec<ExifEntry>,
    counter: u32,
) -> (r: DestPath)
    requires
        date_cuts_ok(exif_date_text(exif@)),
    ensures
        r.folder_view() == dest_folder(folder_template@, exif_name_parts(exif@)),
        slash_only(source_path@) ==> r.file_view() == dest_file(
            file_template@,
            slash_file_name(source_path@),
            exif_name_parts(exif@),
            counter,
        ),
        exists|name: Option<Seq<char>>|
            (name matches Some(n) ==> is_file_name(n) && is_piece_of(n, source_path@)) && (is_bare_name(
                source_path@,
            ) ==> name == Some(source_path@)) && r.file_view() == dest_file(
                file_template@,
                name,
                exif_name_parts(exif@),
                counter,
            ),
{
    let name = path_file_name(source_path);
    let r = match &name {
        Some(n) => dest_path_for_name(folder_template, file_template, Some(n.as_str()), exif, counter),
        None => dest_path_for_name(folder_template, file_template, None, exif, counter),
    };
    let ghost witness: Option<Seq<char>> = opt_chars(name);
    assert(witness matches Some(n) ==> is_file_name(n) && is_piece_of(n, source_path@));
    r
}

/// The optional text of an optional string slice.
pub open spec fn opt_text(o: Option<&str>) -> Option<Seq<char>> {
    match o {
        Some(s) => Some(s@),
        None => None,
    }
}


/// The components that `Path::components` gives for the pieces of a path
/// after its first one: empty pieces and `.` are left out, `..` is the
/// parent folder (kind 3), any other piece a name (kind 4).
pub open spec fn name_parts(ps: Seq<Seq<char>>) -> Seq<(u8, Seq<char>)>
    decreases ps.len(),
{
    if ps.len() == 0 {
        Seq::empty()
    } else {
        let l = ps.last();
        name_parts(ps.drop_last()) + if l.len() == 0 || is_dot(l) {
            Seq::empty()
        } else if is_dot_dot(l) {
            seq![(3u8, Seq::<char>::empty())]
        } else {
            seq![(4u8, l)]
        }
    }
}

/// The components of a path whose only separator is `/`, as
/// `Path::components` gives them on every platform: a leading `/` is the
/// root (kind 1), a leading `.` piece the current folder (kind 2), and the
/// other pieces as [`name_parts`] reads them.
pub open spec fn slash_parts(p: Seq<char>) -> Seq<(u8, Seq<char>)> {
    let ps = slash_pieces(p);
    if p.len() > 0 && p[0] == '/' {
        seq![(1u8, Seq::<char>::empty())] + name_parts(ps.drop_first())
    } else if is_dot(ps[0]) {
        seq![(2u8, Seq::<char>::empty())] + name_parts(ps.drop_first())
    } else {
        name_parts(ps)
    }
}

/// The kind and text of each component.
pub open spec fn part_views(v: Seq<(u8, String)>) -> Seq<(u8, Seq<char>)> {
    v.map_values(|x: (u8, String)| (x.0, x.1@))
}

/// Whether every component is a name.
pub open spec fn all_names(ps: Seq<(u8, Seq<char>)>) -> bool {
    forall|k: int| 0 <= k < ps.len() ==> (#[trigger] ps[k]).0 == 4
}

/// The components of a path with std's `Path::components`, each as a kind
/// (0 prefix, 1 root, 2 current folder, 3 parent folder, 4 name) and, for
/// a name, its text.
///
/// Trusted: what std documents of the components of a path whose only
/// separator is `/`, on every platform ([`slash_parts`]). Where `\\` or `:`
/// occur, or the path starts with `//`, Windows reads prefixes and other
/// separators, so nothing is said there.
#[verifier::external_body]
fn path_parts(path: &str) -> (r: Vec<(u8, String)>)
    ensures
        slash_only(path@) ==> part_views(r@) == slash_parts(path@),
{
    std::path::Path::new(path).components().map(|c| match c {
        std::path::Component::Prefix(_) => (0u8, String::new()),
        std::path::Component::RootDir => (1u8, String::new()),
        std::path::Component::CurDir => (2u8, String::new()),
        std::path::Component::ParentDir => (3u8, String::new()),
        std::path::Component::Normal(n) => (4u8, n.to_string_lossy().into_owned()),
    }).collect()
}

/// Whether a destination path stays inside the import folder when joined
/// to it: all of its components are plain names, so no root, prefix,
/// current or parent folder. For a path whose only separator is `/` this
/// is [`all_names`] of [`slash_parts`].
pub fn is_safe_relative(path: &str) -> (b: bool)
    ensures
        slash_only(path@) ==> b == all_names(slash_parts(path@)),
{
    let parts = path_parts(path);
    let mut i: usize = 0;
    while i < parts.len()
        invariant
            0 <= i <= parts.len(),
            slash_only(path@) ==> part_views(parts@) == slash_parts(path@),
            forall|k: int| 0 <= k < i ==> (#[trigger] parts@[k]).0 == 4,
        decreases parts.len() - i,
    {
        if parts[i].0 != 4 {
            assert(part_views(parts@)[i as int].0 != 4);
            return false;
        }
        i += 1;
    }
    proof {
        assert forall|k: int| 0 <= k < part_views(parts@).len() implies (#[trigger] part_views(parts@)[k]).0 == 4 by {
            assert(part_views(parts@)[k].0 == parts@[k].0);
        }
    }
    true
}

/// The text of a destination: its folders and file name joined with `/`.
pub open spec fn joined(cs: Seq<Seq<char>>) -> Seq<char>
    decreases cs.len(),
{
    if cs.len() <= 1 {
        if cs.len() == 1 {
            cs[0]
        } else {
            Seq::empty()
        }
    } else {
        joined(cs.drop_last()).push('/') + cs.last()
    }
}

/// Whether `folder/file` stays inside the import folder, as
/// [`is_safe_relative`] judges the joined path.
pub open spec fn safe_relative(folder: Seq<Seq<char>>, file: Seq<char>) -> bool {
    all_names(slash_parts(joined(folder.push(file))))
}

proof fn lemma_split_append(t: Seq<char>, s: Seq<char>)
    requires
        !s.contains('/'),
    ensures
        slash_split(t + s) == (slash_split(t).0, slash_split(t).1 + s),
    decreases s.len(),
{
    if s.len() == 0 {
        assert(t + s =~= t);
        assert(slash_split(t).1 + s =~= slash_split(t).1);
    } else {
        assert(!s.drop_last().contains('/')) by {
            if s.drop_last().contains('/') {
                let k = choose|k: int| 0 <= k < s.drop_last().len() && s.drop_last()[k] == '/';
                assert(s[k] == '/');
            }
        }
        lemma_split_append(t, s.drop_last());
        assert((t + s).drop_last() =~= t + s.drop_last());
        assert((t + s).last() == s.last());
        assert(s.last() != '/') by {
            assert(s[s.len() - 1] == s.last());
        }
        assert((slash_split(t).1 + s.drop_last()).push(s.last()) =~= slash_split(t).1 + s);
    }
}

proof fn lemma_pieces_of_joined(cs: Seq<Seq<char>>)
    requires
        cs.len() >= 1,
        forall|k: int| 0 <= k < cs.len() ==> !(#[trigger] cs[k]).contains('/'),
    ensures
        slash_pieces(joined(cs)) == cs,
    decreases cs.len(),
{
    if cs.len() == 1 {
        lemma_split_append(Seq::empty(), cs[0]);
        assert(Seq::<char>::empty() + cs[0] =~= cs[0]);
        assert(Seq::<char>::empty() + cs[0] =~= cs[0]);
        assert(slash_pieces(joined(cs)) =~= cs);
    } else {
        let dl = cs.drop_last();
        assert forall|k: int| 0 <= k < dl.len() implies !(#[trigger] dl[k]).contains('/') by {
            assert(dl[k] == cs[k]);
        }
        lemma_pieces_of_joined(dl);
        let t = joined(dl).push('/');
        assert(!cs.last().contains('/')) by {
            assert(cs[cs.len() - 1] == cs.last());
        }
        lemma_split_append(t, cs.last());
        assert(t.drop_last() =~= joined(dl));
        assert(slash_split(t) == (slash_pieces(joined(dl)), Seq::<char>::empty()));
        assert(Seq::<char>::empty() + cs.last() =~= cs.last());
        assert(slash_pieces(joined(cs)) =~= dl.push(cs.last()));
        assert(dl.push(cs.last()) =~= cs);
    }
}

proof fn lemma_joined_chars(cs: Seq<Seq<char>>, x: char)
    requires
        x != '/',
        forall|k: int| 0 <= k < cs.len() ==> !(#[trigger] cs[k]).contains(x),
    ensures
        !joined(cs).contains(x),
    decreases cs.len(),
{
    if cs.len() > 1 {
        let dl = cs.drop_last();
        assert forall|k: int| 0 <= k < dl.len() implies !(#[trigger] dl[k]).contains(x) by {
            assert(dl[k] == cs[k]);
        }
        lemma_joined_chars(dl, x);
        let j = joined(cs);
        let a = joined(dl).push('/');
        let l = cs.last();
        assert(!l.contains(x)) by {
            assert(cs[cs.len() - 1] == l);
        }
        if j.contains(x) {
            let k = choose|k: int| 0 <= k < j.len() && j[k] == x;
            if k < a.len() {
                if k < joined(dl).len() {
                    assert(a[k] == joined(dl)[k]);
                }
            } else {
                assert(j[k] == l[k - a.len()]);
            }
        }
    }
}

proof fn lemma_joined_start(cs: Seq<Seq<char>>)
    requires
        cs.len() >= 1,
        cs[0].len() > 0,
    ensures
        joined(cs).len() > 0 && joined(cs)[0] == cs[0][0],
    decreases cs.len(),
{
    if cs.len() > 1 {
        let dl = cs.drop_last();
        assert(dl[0] == cs[0]);
        lemma_joined_start(dl);
        assert((joined(dl).push('/') + cs.last())[0] == joined(dl)[0]);
    }
}

proof fn lemma_name_parts_all_names(ps: Seq<Seq<char>>)
    ensures
        all_names(name_parts(ps)) <==> forall|k: int| 0 <= k < ps.len() ==> !is_dot_dot(#[trigger] ps[k]),
    decreases ps.len(),
{
    if ps.len() > 0 {
        let dl = ps.drop_last();
        lemma_name_parts_all_names(dl);
        let l = ps.last();
        let a = name_parts(dl);
        let n = name_parts(ps);
        assert(n == a + if l.len() == 0 || is_dot(l) {
            Seq::<(u8, Seq<char>)>::empty()
        } else if is_dot_dot(l) {
            seq![(3u8, Seq::<char>::empty())]
        } else {
            seq![(4u8, l)]
        });
        if all_names(n) {
            assert forall|k: int| 0 <= k < ps.len() implies !is_dot_dot(#[trigger] ps[k]) by {
                if k < dl.len() {
                    assert(all_names(a)) by {
                        assert forall|m: int| 0 <= m < a.len() implies (#[trigger] a[m]).0 == 4 by {
                            assert(n[m] == a[m]);
                        }
                    }
                    assert(dl[k] == ps[k]);
                } else {
                    assert(ps[k] == l);
                    if is_dot_dot(l) {
                        assert(n[a.len() as int].0 == 3);
                    }
                }
            }
        }
        if forall|k: int| 0 <= k < ps.len() ==> !is_dot_dot(#[trigger] ps[k]) {
            assert forall|k: int| 0 <= k < dl.len() implies !is_dot_dot(#[trigger] dl[k]) by {
                assert(dl[k] == ps[k]);
            }
            assert(!is_dot_dot(l)) by {
                assert(ps[ps.len() - 1] == l);
            }
            assert forall|m: int| 0 <= m < n.len() implies (#[trigger] n[m]).0 == 4 by {
                if m < a.len() {
                    assert(n[m] == a[m]);
                }
            }
        }
    }
}

/// A destination made of clean names stays inside the import folder
/// exactly when its first component is not `.` and none of its components
/// is `..`.
pub proof fn lemma_safe_relative(folder: Seq<Seq<char>>, file: Seq<char>)
    requires
        forall|k: int| 0 <= k < folder.len() ==> is_clean_folder(#[trigger] folder[k]),
        is_clean_name(file),
    ensures
        slash_only(joined(folder.push(file))),
        safe_relative(folder, file) <==> (!is_dot(folder.push(file)[0]) && forall|k: int|
            0 <= k < folder.push(file).len() ==> !is_dot_dot(#[trigger] folder.push(file)[k])),
{
    let cs = folder.push(file);
    assert forall|k: int| 0 <= k < cs.len() implies is_clean_name(#[trigger] cs[k]) by {
        if k < folder.len() {
            assert(cs[k] == folder[k]);
        }
    }
    assert forall|k: int| 0 <= k < cs.len() implies !(#[trigger] cs[k]).contains('/') by {
        if cs[k].contains('/') {
            let i = choose|i: int| 0 <= i < cs[k].len() && cs[k][i] == '/';
            assert(is_clean_name(cs[k]));
            assert(is_reserved_char(cs[k][i]));
        }
    }
    assert forall|k: int| 0 <= k < cs.len() implies !(#[trigger] cs[k]).contains('\\') by {
        if cs[k].contains('\\') {
            let i = choose|i: int| 0 <= i < cs[k].len() && cs[k][i] == '\\';
            assert(is_clean_name(cs[k]));
            assert(is_reserved_char(cs[k][i]));
        }
    }
    assert forall|k: int| 0 <= k < cs.len() implies !(#[trigger] cs[k]).contains(':') by {
        if cs[k].contains(':') {
            let i = choose|i: int| 0 <= i < cs[k].len() && cs[k][i] == ':';
            assert(is_clean_name(cs[k]));
            assert(is_reserved_char(cs[k][i]));
        }
    }
    lemma_joined_chars(cs, '\\');
    lemma_joined_chars(cs, ':');
    lemma_pieces_of_joined(cs);
    let p = joined(cs);
    if cs[0].len() > 0 {
        lemma_joined_start(cs);
        assert(p[0] != '/') by {
            assert(!cs[0].contains('/'));
            assert(cs[0][0] == p[0]);
        }
    } else {
        assert(folder.len() == 0) by {
            if folder.len() > 0 {
                assert(cs[0] == folder[0]);
            }
        }
        assert(cs =~= seq![file]);
        assert(p == file);
    }
    assert(slash_only(p));
    let ps = slash_pieces(p);
    assert(ps == cs);
    if is_dot(cs[0]) {
        assert(slash_parts(p)[0].0 == 2);
    } else {
        assert(slash_parts(p) == name_parts(cs));
        lemma_name_parts_all_names(cs);
    }
}

fn join_components(cs: &Vec<String>) -> (r: String)
    requires
        cs.len() >= 1,
    ensures
        r@ == joined(views(cs@)),
{
    let mut v = chars_of(cs[0].as_str());
    let mut i: usize = 1;
    assert(views(cs@).take(1) =~= seq![cs@[0]@]);
    while i < cs.len()
        invariant
            1 <= i <= cs.len(),
            v@ == joined(views(cs@).take(i as int)),
        decreases cs.len() - i,
    {
        let w = chars_of(cs[i].as_str());
        v.push('/');
        push_all(&mut v, &w);
        assert(views(cs@).take(i + 1).drop_last() =~= views(cs@).take(i as int));
        assert(views(cs@).take(i + 1).last() == cs@[i as int]@);
        i += 1;
    }
    assert(views(cs@).take(cs.len() as int) =~= views(cs@));
    string_of(v.as_slice())
}

fn chars_eq_dot(s: &Vec<char>) -> (b: bool)
    ensures
        b == is_dot(s@),
{
    if s.len() == 1 && s[0] == '.' {
        assert(s@ =~= seq!['.']);
        true
    } else {
        false
    }
}

fn chars_eq_dot_dot(s: &Vec<char>) -> (b: bool)
    ensures
        b == is_dot_dot(s@),
{
    if s.len() == 2 && s[0] == '.' && s[1] == '.' {
        assert(s@ =~= seq!['.', '.']);
        true
    } else {
        false
    }
}

/// The components of `folder/file` below the import folder: the folders,
/// then the file name unless it is empty.
pub open spec fn rel_components(folder: Seq<Seq<char>>, file: Seq<char>) -> Seq<Seq<char>> {
    folder + (if file.len() > 0 {
        seq![file]
    } else {
        Seq::empty()
    })
}

/// The views of a list of strings.
pub open spec fn views(v: Seq<String>) -> Seq<Seq<char>> {
    v.map_values(|s: String| s@)
}

/// The path components to create and copy to, relative to the import folder.
pub fn components(dest: &DestPath) -> (r: Vec<String>)
    requires
        safe_relative(dest.folder_view(), dest.file_view()),
    ensures
        views(r@) == rel_components(dest.folder_view(), dest.file_view()),
{
    let mut r = copy_strings(dest.folder());
    let n = dest.file_name();
    let ghost before = r@;
    if !n.as_str().is_empty() {
        r.push(n.clone());
        assert(views(r@) =~= views(before).push(n@));
    }
    assert(views(r@) =~= rel_components(dest.folder_view(), dest.file_view()));
    r
}

/// The stem of an alternative name: that of the final component, or
/// `file` when there is no final file name (no component, or `..`).
pub open spec fn candidate_stem(last: Option<Seq<char>>) -> Seq<char> {
    match last {
        Some(l) => if is_dot_dot(l) {
            seq!['f', 'i', 'l', 'e']
        } else {
            name_stem(l)
        },
        None => seq!['f', 'i', 'l', 'e'],
    }
}

/// The name tried for the `n`-th alternative of a taken destination whose
/// final component is `last`: `{stem}_{n}.{ext}`, or `{stem}_{n}` when the
/// extension is empty or absent; `file` stands for the stem when there is no
/// final file name (no component, or `..`).
pub open spec fn candidate_name(last: Option<Seq<char>>, n: u32) -> Seq<char> {
    let stem = candidate_stem(last);
    let ext = match last {
        Some(l) => match name_extension(l) {
            Some(e) => e,
            None => Seq::empty(),
        },
        None => Seq::empty(),
    };
    if ext.len() == 0 {
        stem + seq!['_'] + decimal(n as nat)
    } else {
        stem + seq!['_'] + decimal(n as nat) + seq!['.'] + ext
    }
}

/// The `n`-th alternative destination: the same parent with
/// [`candidate_name`] as final component.
pub open spec fn candidate(comps: Seq<Seq<char>>, n: u32) -> Seq<Seq<char>> {
    if comps.len() == 0 {
        seq![candidate_name(None, n)]
    } else {
        comps.drop_last().push(candidate_name(Some(comps.last()), n))
    }
}

/// The `n`-th alternative name for a destination that already holds a
/// different file, so that nothing is overwritten.
pub fn unique_candidate(comps: &Vec<String>, n: u32) -> (r: Vec<String>)
    ensures
        views(r@) == candidate(views(comps@), n),
{
    let k = comps.len();
    let (stem, ext): (Vec<char>, Vec<char>) = if k == 0 {
        let f = literal_chars("file");
        proof {
            reveal_strlit("file");
            assert(f@ =~= seq!['f', 'i', 'l', 'e']);
        }
        (f, Vec::new())
    } else {
        let last = chars_of(comps[k - 1].as_str());
        if chars_eq_dot_dot(&last) {
            let f = literal_chars("file");
            proof {
                reveal_strlit("file");
                assert(f@ =~= seq!['f', 'i', 'l', 'e']);
            }
            (f, Vec::new())
        } else {
            let (s, e) = split_file_name(&last);
            match e {
                Some(e) => (s, e),
                None => (s, Vec::new()),
            }
        }
    };
    let mut name: Vec<char> = Vec::new();
    push_all(&mut name, &stem);
    name.push('_');
    let digits = decimal_chars(n as u64);
    push_all(&mut name, &digits);
    if ext.len() > 0 {
        name.push('.');
        push_all(&mut name, &ext);
    }
    let ghost last_opt: Option<Seq<char>> = if k == 0 {
        None
    } else {
        Some(views(comps@).last())
    };
    assert(name@ =~= candidate_name(last_opt, n));
    let mut r: Vec<String> = Vec::new();
    let mut i: usize = 0;
    while i + 1 < k
        invariant
            k == comps.len(),
            0 <= i,
            k > 0 ==> i <= k - 1,
            k == 0 ==> i == 0,
            views(r@) == views(comps@).take(i as int),
        decreases k - i,
    {
        let ghost before = r@;
        let c = comps[i].clone();
        assert(c@ == comps@[i as int]@);
        r.push(c);
        assert(r@ == before.push(c));
        assert(views(r@) =~= views(before).push(c@));
        assert(views(comps@).take(i + 1) =~= views(comps@).take(i as int).push(comps@[i as int]@));
        i += 1;
        assert(views(r@) =~= views(comps@).take(i as int));
    }
    r.push(string_of(name.as_slice()));
    assert(views(r@) =~= candidate(views(comps@), n));
    r
}

proof fn lemma_digit_injective(a: int, b: int)
    requires
        0 <= a < 10,
        0 <= b < 10,
        (a + 48) as char == (b + 48) as char,
    ensures
        a == b,
{
    assert(((a + 48) as char) as u32 == a + 48);
}

/// Different numbers give different decimal texts.
pub proof fn lemma_decimal_injective(a: nat, b: nat)
    ensures
        decimal(a) == decimal(b) ==> a == b,
        decimal(a).len() >= 1,
    decreases a + b,
{
    if a >= 10 && b >= 10 {
        lemma_decimal_injective(a / 10, b / 10);
        if decimal(a) == decimal(b) {
            assert(decimal(a).drop_last() =~= decimal(a / 10));
            assert(decimal(b).drop_last() =~= decimal(b / 10));
            assert(decimal(a).last() == decimal(b).last());
            lemma_digit_injective((a % 10) as int, (b % 10) as int);
            assert(a / 10 == b / 10);
            assert(a == 10 * (a / 10) + a % 10);
            assert(b == 10 * (b / 10) + b % 10);
        }
    } else if a >= 10 {
        lemma_decimal_injective(a / 10, a / 10);
        assert(decimal(a).len() >= 2);
        assert(decimal(b).len() == 1);
    } else if b >= 10 {
        lemma_decimal_injective(b / 10, b / 10);
        lemma_decimal_injective(a, a);
    } else if decimal(a) == decimal(b) {
        assert(decimal(a)[0] == decimal(b)[0]);
        lemma_digit_injective(a as int, b as int);
    }
}

/// Successive probes for a free name never name the same file twice:
/// different numbers give different candidates.
pub proof fn lemma_candidates_distinct(comps: Seq<Seq<char>>, n1: u32, n2: u32)
    requires
        n1 != n2,
    ensures
        candidate(comps, n1) != candidate(comps, n2),
{
    let last: Option<Seq<char>> = if comps.len() == 0 {
        None
    } else {
        Some(comps.last())
    };
    let c1 = candidate_name(last, n1);
    let c2 = candidate_name(last, n2);
    lemma_decimal_injective(n1 as nat, n2 as nat);
    lemma_decimal_injective(n2 as nat, n2 as nat);
    if c1 == c2 {
        let stem = candidate_stem(last);
        let d1 = decimal(n1 as nat);
        let d2 = decimal(n2 as nat);
        let p: int = stem.len() as int + 1;
        if d1.len() == d2.len() {
            assert(c1.subrange(p, p + d1.len() as int) =~= d1);
            assert(c2.subrange(p, p + d2.len() as int) =~= d2);
        } else {
            assert(c1.len() - d1.len() == c2.len() - d2.len());
        }
    }
    assert(candidate(comps, n1).last() == c1);
    assert(candidate(comps, n2).last() == c2);
}

/// An alternative name is never the taken destination itself: its final
/// component is longer than the one it replaces.
pub proof fn lemma_candidate_differs(comps: Seq<Seq<char>>, n: u32)
    ensures
        candidate(comps, n) != comps,
{
    lemma_decimal_injective(n as nat, n as nat);
    if comps.len() > 0 {
        let l = comps.last();
        lemma_last_dot(l);
        let c = candidate_name(Some(l), n);
        assert(c.len() > l.len());
        assert(candidate(comps, n).last() == c);
        assert(candidate(comps, n).len() == comps.len());
    } else {
        assert(candidate(comps, n).len() == 1);
    }
}

/// The highest alternative number tried before giving up.
pub const MAX_CANDIDATE: u32 = 9999;

/// The next alternative number after `n`, or `None` once the limit is reached.
pub fn next_candidate(n: u32) -> (r: Option<u32>)
    ensures
        n < MAX_CANDIDATE ==> r == Some((n + 1) as u32),
        n >= MAX_CANDIDATE ==> r is None,
{
    if n < MAX_CANDIDATE {
        Some(n + 1)
    } else {
        None
    }
}

/// Whether an existing destination holds the same content as the source:
/// the source digest is known (not empty) and equals the destination's.
pub fn same_content(src_hash: &str, dest_hash: &str) -> (b: bool)
    ensures
        b == (src_hash@.len() > 0 && src_hash@ == dest_hash@),
{
    let a = chars_of(src_hash);
    let c = chars_of(dest_hash);
    if a.len() == 0 || a.len() != c.len() {
        return false;
    }
    let mut i: usize = 0;
    while i < a.len()
        invariant
            a.len() == c.len(),
            a@ == src_hash@,
            c@ == dest_hash@,
            0 <= i <= a.len(),
            forall|k: int| 0 <= k < i ==> a@[k] == c@[k],
        decreases a.len() - i,
    {
        if a[i] != c[i] {
            assert(a@[i as int] != c@[i as int]);
            return false;
        }
        i += 1;
    }
    assert(a@ =~= c@);
    true
}


/// Whether the copy's digest matches the source's.
pub fn hashes_match(src_hash: &str, dest_hash: &str) -> (b: bool)
    ensures
        b == (src_hash@ == dest_hash@),
{
    let a = chars_of(src_hash);
    let c = chars_of(dest_hash);
    if a.len() != c.len() {
        return false;
    }
    let mut i: usize = 0;
    while i < a.len()
        invariant
            a.len() == c.len(),
            a@ == src_hash@,
            c@ == dest_hash@,
            0 <= i <= a.len(),
            forall|k: int| 0 <= k < i ==> a@[k] == c@[k],
        decreases a.len() - i,
    {
        if a[i] != c[i] {
            assert(a@[i as int] != c@[i as int]);
            return false;
        }
        i += 1;
    }
    assert(a@ =~= c@);
    true
}

/// The sub-folder of the import folder chosen by the user: none when the
/// name is empty, else the sanitized name.
pub fn import_subfolder(custom_folder: &str) -> (r: Option<String>)
    ensures
        custom_folder@.len() == 0 ==> r is None,
        custom_folder@.len() > 0 ==> (r matches Some(s) && s@ == sanitized(custom_folder@)),
{
    if custom_folder.is_empty() {
        None
    } else {
        Some(sanitize_path(custom_folder))
    }
}

/// Why copying one file stopped.
#[derive(Debug)]
pub enum CopyFailure {
    /// The destination would leave the import folder.
    UnsafeDestination,
    /// All alternative names up to the limit are taken.
    NoFreeName,
    /// The copy's digest differs from the source's.
    ContentMismatch,
}

fn concat(a: &str, b: &str) -> (r: String)
    ensures
        r@ == a@ + b@,
{
    let mut v = chars_of(a);
    let w = chars_of(b);
    push_all(&mut v, &w);
    string_of(v.as_slice())
}

impl CopyFailure {
    /// The message reported for the failure; `dest_display` is the
    /// destination as shown to the user.
    pub fn message(&self, dest_display: &str) -> (r: String)
        ensures
            self is UnsafeDestination ==> r@ == "非法目标路径: "@ + dest_display@,
            self is NoFreeName ==> r@ == "无法生成唯一文件名"@,
            self is ContentMismatch ==> r@ == "校验失败，文件不匹配"@,
    {
        match self {
            CopyFailure::UnsafeDestination => concat("非法目标路径: ", dest_display),
            CopyFailure::NoFreeName => "无法生成唯一文件名".to_owned(),
            CopyFailure::ContentMismatch => "校验失败，文件不匹配".to_owned(),
        }
    }
}

/// The next thing to do while copying one file below the import folder.
/// Paths are components below the import folder.
#[derive(Debug)]
pub enum CopyAction {
    /// Check whether the destination itself exists; report to [`after_target_check`].
    CheckTarget(Vec<String>),
    /// Hash the source and the existing destination; report to [`after_compare`].
    Compare(Vec<String>),
    /// Check whether alternative `n` exists; report to [`after_candidate_check`].
    CheckCandidate(u32, Vec<String>),
    /// Create the parents, copy the source to this path and hash both;
    /// report to [`after_copy`].
    CopyTo(Vec<String>),
    /// The destination already holds the same content; the digest is given.
    Skip(Vec<String>, String),
    /// The source was copied to this path and verified; the digest is given.
    Done(Vec<String>, String),
    /// The copy stops with this message.
    Fail(String),
}

fn copy_strings(v: &Vec<String>) -> (r: Vec<String>)
    ensures
        views(r@) == views(v@),
{
    let mut r: Vec<String> = Vec::new();
    let mut i: usize = 0;
    while i < v.len()
        invariant
            0 <= i <= v.len(),
            views(r@) == views(v@).take(i as int),
        decreases v.len() - i,
    {
        let ghost before = r@;
        r.push(v[i].clone());
        assert(views(r@) =~= views(before).push(v@[i as int]@));
        assert(views(v@).take(i + 1) =~= views(v@).take(i as int).push(v@[i as int]@));
        i += 1;
    }
    assert(views(v@).take(v.len() as int) =~= views(v@));
    r
}

/// Starts copying to `dest`, shown to the user as `dest_display`: a
/// destination that would leave the import folder is refused; otherwise its
/// existence is checked first.
pub fn copy_begin(dest: &DestPath, dest_display: &str) -> (r: CopyAction)
    ensures
        !safe_relative(dest.folder_view(), dest.file_view()) ==> (r matches CopyAction::Fail(m) && m@
            == "非法目标路径: "@ + dest_display@),
        safe_relative(dest.folder_view(), dest.file_view()) ==> (r matches CopyAction::CheckTarget(p)
            && views(p@) == rel_components(dest.folder_view(), dest.file_view())),
{
    let folder = dest.folder();
    let mut all = copy_strings(folder);
    let file = dest.file_name();
    let ghost before = all@;
    all.push(file.clone());
    assert(views(all@) =~= views(before).push(file@));
    let text = join_components(&all);
    proof {
        lemma_safe_relative(dest.folder_view(), dest.file_view());
    }
    if !is_safe_relative(text.as_str()) {
        CopyAction::Fail(CopyFailure::UnsafeDestination.message(dest_display))
    } else {
        CopyAction::CheckTarget(components(dest))
    }
}

/// After checking the destination: an existing one is compared with the
/// source; a free one is copied to.
pub fn after_target_check(target: &Vec<String>, exists: bool) -> (r: CopyAction)
    ensures
        exists ==> (r matches CopyAction::Compare(p) && views(p@) == views(target@)),
        !exists ==> (r matches CopyAction::CopyTo(p) && views(p@) == views(target@)),
{
    if exists {
        CopyAction::Compare(copy_strings(target))
    } else {
        CopyAction::CopyTo(copy_strings(target))
    }
}

/// After hashing the source and the existing destination: the same content
/// is skipped (nothing is overwritten and nothing counted); other content
/// sends the copy to the first alternative name.
pub fn after_compare(target: &Vec<String>, src_hash: &str, dest_hash: &str) -> (r: CopyAction)
    ensures
        (src_hash@.len() > 0 && src_hash@ == dest_hash@) ==> (r matches CopyAction::Skip(p, h)
            && views(p@) == views(target@) && h@ == src_hash@),
        !(src_hash@.len() > 0 && src_hash@ == dest_hash@) ==> (r matches CopyAction::CheckCandidate(n, p)
            && n == 1 && views(p@) == candidate(views(target@), 1)),
{
    if same_content(src_hash, dest_hash) {
        CopyAction::Skip(copy_strings(target), src_hash.to_owned())
    } else {
        CopyAction::CheckCandidate(1, unique_candidate(target, 1))
    }
}

/// After checking alternative `n`: a free one is copied to; a taken one
/// moves on to the next number, up to the limit.
pub fn after_candidate_check(target: &Vec<String>, n: u32, exists: bool) -> (r: CopyAction)
    ensures
        !exists ==> (r matches CopyAction::CopyTo(p) && views(p@) == candidate(views(target@), n)),
        exists && n < MAX_CANDIDATE ==> (r matches CopyAction::CheckCandidate(m, p) && m == n + 1
            && views(p@) == candidate(views(target@), m)),
        exists && n >= MAX_CANDIDATE ==> (r matches CopyAction::Fail(msg) && msg@ == "无法生成唯一文件名"@),
{
    if !exists {
        CopyAction::CopyTo(unique_candidate(target, n))
    } else {
        match next_candidate(n) {
            Some(m) => CopyAction::CheckCandidate(m, unique_candidate(target, m)),
            None => CopyAction::Fail(CopyFailure::NoFreeName.message("")),
        }
    }
}

/// After copying to `to` and hashing both sides: the copy is done only when
/// the digests agree.
pub fn after_copy(to: &Vec<String>, src_hash: &str, dest_hash: &str) -> (r: CopyAction)
    ensures
        src_hash@ == dest_hash@ ==> (r matches CopyAction::Done(p, h) && views(p@) == views(to@) && h@
            == src_hash@),
        src_hash@ != dest_hash@ ==> (r matches CopyAction::Fail(m) && m@ == "校验失败，文件不匹配"@),
{
    if hashes_match(src_hash, dest_hash) {
        CopyAction::Done(copy_strings(to), src_hash.to_owned())
    } else {
        CopyAction::Fail(CopyFailure::ContentMismatch.message(""))
    }
}

/// Progress of one file of an import, as streamed to the interface.
#[derive(Debug)]
pub struct ImportProgress {
    pub file_name: String,
    pub status: String,
    pub message: String,
    pub percent: u32,
}

impl ImportProgress {
    /// The file is being checked; `percent` is the share of files started.
    pub fn checking(file_name: String, percent: u32) -> (p: ImportProgress)
        ensures
            p.file_name == file_name,
            p.status@ == "checking"@,
            p.message@ == "检查中..."@,
            p.percent == percent,
    {
        ImportProgress {
            file_name,
            status: "checking".to_owned(),
            message: "检查中...".to_owned(),
            percent,
        }
    }

    /// The file is being copied to `dest_name`.
    pub fn copying(file_name: String, dest_name: &str) -> (p: ImportProgress)
        ensures
            p.file_name == file_name,
            p.status@ == "copying"@,
            p.message@ == "复制中 → "@ + dest_name@,
            p.percent == 0,
    {
        ImportProgress {
            file_name,
            status: "copying".to_owned(),
            message: concat("复制中 → ", dest_name),
            percent: 0,
        }
    }

    /// The file could not be imported; `message` says why.
    pub fn failed(file_name: String, message: String) -> (p: ImportProgress)
        ensures
            p.file_name == file_name,
            p.status@ == "error"@,
            p.message == message,
            p.percent == 0,
    {
        ImportProgress { file_name, status: "error".to_owned(), message, percent: 0 }
    }

    /// The copying task itself failed with `reason`.
    pub fn task_failed(file_name: String, reason: &str) -> (p: ImportProgress)
        ensures
            p.file_name == file_name,
            p.status@ == "error"@,
            p.message@ == "任务失败: "@ + reason@,
            p.percent == 0,
    {
        ImportProgress {
            file_name,
            status: "error".to_owned(),
            message: concat("任务失败: ", reason),
            percent: 0,
        }
    }

    /// The destination already holds the same content; nothing was copied.
    pub fn skipped(file_name: String, dest_display: &str) -> (p: ImportProgress)
        ensures
            p.file_name == file_name,
            p.status@ == "skipped"@,
            p.message@ == "已存在且相同 → "@ + dest_display@,
            p.percent == 0,
    {
        ImportProgress {
            file_name,
            status: "skipped".to_owned(),
            message: concat("已存在且相同 → ", dest_display),
            percent: 0,
        }
    }

    /// The file was copied and verified.
    pub fn done(file_name: String, dest_display: &str) -> (p: ImportProgress)
        ensures
            p.file_name == file_name,
            p.status@ == "done"@,
            p.message@ == "完成 → "@ + dest_display@,
            p.percent == 0,
    {
        ImportProgress {
            file_name,
            status: "done".to_owned(),
            message: concat("完成 → ", dest_display),
            percent: 0,
        }
    }
}

/// How the import of one file ended.
#[derive(Debug, Clone, Copy, PartialEq, Eq, Structural)]
pub enum FileOutcome {
    /// Copied and verified.
    Copied,
    /// The destination already held the same content.
    Skipped,
    /// An error was reported.
    Failed,
}

/// Counts the files imported so far; the next file is numbered one more.
pub struct ImportTally {
    imported: u32,
}

impl ImportTally {
    /// The number of files copied so far.
    pub closed spec fn count(self) -> nat {
        self.imported as nat
    }

    /// A tally of no files.
    pub fn new() -> (t: ImportTally)
        ensures
            t.count() == 0,
    {
        ImportTally { imported: 0 }
    }

    /// The number of files copied so far.
    pub fn imported(&self) -> (n: u32)
        ensures
            n == self.count(),
    {
        self.imported
    }

    /// The `{seq}` counter of the next file: one more than the files copied.
    pub fn next_counter(&self) -> (n: u32)
        requires
            self.count() < u32::MAX,
        ensures
            n == self.count() + 1,
    {
        self.imported + 1
    }

    /// Records how a file ended: only a copied file counts, so skipped and
    /// failed files leave the numbering unchanged.
    pub fn record(&mut self, outcome: FileOutcome)
        requires
            old(self).count() < u32::MAX,
        ensures
            final(self).count() == old(self).count() + if outcome == FileOutcome::Copied {
                1nat
            } else {
                0nat
            },
    {
        if outcome == FileOutcome::Copied {
            self.imported = self.imported + 1;
        }
    }
}

} // verus!
