//! Decisions around thumbnails, previews and full-resolution images: cache
//! file names, resolution thresholds, EXIF orientation correction (including
//! the pixel transposition) and decoding of embedded previews.

use vstd::prelude::*;
use std::collections::hash_map::DefaultHasher;
use std::hash::{Hash, Hasher};
use crate::jpeg::{is_soi, jpeg_start_candidates};
use crate::scanner::{raw_extensions, video_extensions};
use crate::text::{unicode_lowercase, hex_fixed, hex_fixed_chars, decimal, decimal_chars, push_all, string_of, chars_of};

verus! {

/// Long edge (in pixels) that a cached full-resolution image must reach.
pub const FULL_MIN_EDGE: u32 = 1500;

/// Long edge to which full-resolution images are reduced before caching.
pub const FULL_MAX_EDGE: u32 = 5000;

/// Long edge from which an embedded preview can stand in for the full image.
pub const EMBEDDED_FULL_EDGE: u32 = 3000;

/// The long edge of a `w` by `h` image.
pub open spec fn long_edge(w: u32, h: u32) -> u32 {
    if w >= h {
        w
    } else {
        h
    }
}

/// Whether a `w` by `h` image is accepted as full resolution.
pub fn is_full_res(w: u32, h: u32) -> (b: bool)
    ensures
        b == (long_edge(w, h) >= FULL_MIN_EDGE),
{
    (if w >= h {
        w
    } else {
        h
    }) >= FULL_MIN_EDGE
}

/// Whether a `w` by `h` image must be reduced to fit `max_edge`.
pub fn needs_resize(w: u32, h: u32, max_edge: u32) -> (b: bool)
    ensures
        b == (long_edge(w, h) > max_edge),
{
    (if w >= h {
        w
    } else {
        h
    }) > max_edge
}

/// Whether an embedded preview is large enough to serve as the full image.
pub fn embedded_preview_is_full(w: u32, h: u32) -> (b: bool)
    ensures
        b == (long_edge(w, h) >= EMBEDDED_FULL_EDGE),
{
    (if w >= h {
        w
    } else {
        h
    }) >= EMBEDDED_FULL_EDGE
}

/// Feeds a string to the hasher with std's `Hash for str`.
///
/// Trusted: nothing is claimed of the hasher's state afterwards; std does
/// not document which bytes `Hash for str` writes.
#[verifier::external_body]
fn hash_str(h: &mut DefaultHasher, s: &str) {
    s.hash(h)
}

/// Feeds an integer to the hasher with std's `Hash for u64`.
///
/// Trusted: nothing is claimed of the hasher's state afterwards; the bytes
/// written follow the machine's byte order.
#[verifier::external_body]
fn hash_u64(h: &mut DefaultHasher, v: u64) {
    v.hash(h)
}

/// The cache key of a source file: a hash of its path and modification time
/// with std's `DefaultHasher`. Nothing is stated of the value: std does not
/// promise the hasher's algorithm across releases, and the bytes hashed for
/// the time follow the machine's byte order.
pub fn cache_hash(file_path: &str, mtime_secs: u64) -> (h: u64) {
    let mut hasher = DefaultHasher::new();
    hash_str(&mut hasher, file_path);
    hash_u64(&mut hasher, mtime_secs);
    hasher.finish()
}

/// `{hash:016x}` followed by `suffix`.
pub open spec fn cache_name(hash: u64, suffix: Seq<char>) -> Seq<char> {
    hex_fixed(hash as nat, 16) + suffix
}

fn cache_name_with(hash: u64, suffix: &Vec<char>) -> (r: String)
    ensures
        r@ == cache_name(hash, suffix@),
{
    let mut v = hex_fixed_chars(hash, 16);
    push_all(&mut v, suffix);
    string_of(v.as_slice())
}

/// Name of a cached thumbnail: `{hash:016x}_{max_size}.jpg`.
pub fn thumbnail_cache_name(hash: u64, max_size: u32) -> (r: String)
    ensures
        r@ == cache_name(hash, seq!['_'] + decimal(max_size as nat) + seq!['.', 'j', 'p', 'g']),
{
    let mut s: Vec<char> = Vec::new();
    s.push('_');
    let d = decimal_chars(max_size as u64);
    push_all(&mut s, &d);
    s.push('.');
    s.push('j');
    s.push('p');
    s.push('g');
    assert(s@ =~= seq!['_'] + decimal(max_size as nat) + seq!['.', 'j', 'p', 'g']);
    cache_name_with(hash, &s)
}

/// Name of a cached preview: `{hash:016x}_prev.jpg`.
pub fn preview_cache_name(hash: u64) -> (r: String)
    ensures
        r@ == cache_name(hash, seq!['_', 'p', 'r', 'e', 'v', '.', 'j', 'p', 'g']),
{
    let s = chars_of("_prev.jpg");
    proof {
        reveal_strlit("_prev.jpg");
        assert(s@ =~= seq!['_', 'p', 'r', 'e', 'v', '.', 'j', 'p', 'g']);
    }
    cache_name_with(hash, &s)
}

/// Name of a cached full-resolution image: `{hash:016x}_full.jpg`.
pub fn full_cache_name(hash: u64) -> (r: String)
    ensures
        r@ == cache_name(hash, seq!['_', 'f', 'u', 'l', 'l', '.', 'j', 'p', 'g']),
{
    let s = chars_of("_full.jpg");
    proof {
        reveal_strlit("_full.jpg");
        assert(s@ =~= seq!['_', 'f', 'u', 'l', 'l', '.', 'j', 'p', 'g']);
    }
    cache_name_with(hash, &s)
}

/// The flips that undo an EXIF orientation, as `rawler`'s
/// `Orientation::to_flips` gives them: (transpose, horizontal flip,
/// vertical flip), the flips to be applied before the transposition.
/// Values other than 1 to 8 mean no change.
pub open spec fn orientation_flips(o: u16) -> (bool, bool, bool) {
    if o == 2 {
        (false, true, false)
    } else if o == 3 {
        (false, true, true)
    } else if o == 4 {
        (false, false, true)
    } else if o == 5 {
        (true, false, false)
    } else if o == 6 {
        (true, false, true)
    } else if o == 7 {
        (true, true, true)
    } else if o == 8 {
        (true, true, false)
    } else {
        (false, false, false)
    }
}

/// `rawler::decoders::Orientation::from_u16(o).to_flips()`.
///
/// Trusted: the table of `to_flips` for the orientation that `from_u16`
/// maps `o` to, as in rawler's source.
#[verifier::external_body]
fn rawler_flips(o: u16) -> (r: (bool, bool, bool))
    ensures
        r == orientation_flips(o),
{
    rawler::decoders::Orientation::from_u16(o).to_flips()
}

/// The corrections for a photo's EXIF orientation: none without one.
pub fn exif_flips(orientation: Option<u16>) -> (r: (bool, bool, bool))
    ensures
        r == match orientation {
            Some(o) => orientation_flips(o),
            None => (false, false, false),
        },
{
    match orientation {
        Some(o) => rawler_flips(o),
        None => (false, false, false),
    }
}

/// Whether an embedded preview must be re-encoded upright rather than
/// stored as it is: it has an orientation other than 1.
pub fn preview_needs_reorient(orientation: Option<u16>) -> (b: bool)
    ensures
        b == !(orientation is None || orientation == Some(1u16)),
{
    match orientation {
        None => false,
        Some(o) => o != 1,
    }
}

/// The transposition of an RGB image `w` pixels wide and `h` high: the
/// result is `h` wide and `w` high, and its pixel `(x', y')` is the
/// source's pixel `(y', x')`.
pub open spec fn transposed(d: Seq<u8>, w: int, h: int) -> Seq<u8> {
    Seq::new(
        (3 * w * h) as nat,
        |o: int|
            {
                let p = o / 3;
                let c = o % 3;
                d[((p % h) * w + p / h) * 3 + c]
            },
    )
}

proof fn lemma_index(r: int, col: int, c: int, h: int)
    requires
        0 <= col < h,
        0 <= c < 3,
        0 <= r,
    ensures
        ((r * h + col) * 3 + c) / 3 == r * h + col,
        ((r * h + col) * 3 + c) % 3 == c,
        (r * h + col) / h == r,
        (r * h + col) % h == col,
{
    vstd::arithmetic::div_mod::lemma_fundamental_div_mod_converse((r * h + col) * 3 + c, 3, r * h + col, c);
    vstd::arithmetic::div_mod::lemma_fundamental_div_mod_converse(r * h + col, h, r, col);
}

proof fn lemma_bound(r: int, col: int, c: int, w: int, h: int)
    requires
        0 <= r < w,
        0 <= col < h,
        0 <= c < 3,
    ensures
        0 <= (col * w + r) * 3 + c < 3 * w * h,
        0 <= (r * h + col) * 3 + c < 3 * w * h,
{
    assert((col * w + r) * 3 + c < 3 * w * h) by (nonlinear_arith)
        requires
            0 <= r < w,
            0 <= col < h,
            0 <= c < 3,
    ;
    assert((r * h + col) * 3 + c < 3 * w * h) by (nonlinear_arith)
        requires
            0 <= r < w,
            0 <= col < h,
            0 <= c < 3,
    ;
    assert(0 <= (col * w + r) * 3 + c) by (nonlinear_arith)
        requires
            0 <= r,
            0 <= col,
            0 <= c,
            0 <= w,
    ;
    assert(0 <= (r * h + col) * 3 + c) by (nonlinear_arith)
        requires
            0 <= r,
            0 <= col,
            0 <= c,
            0 <= h,
    ;
}

/// Transposes an RGB pixel buffer (`w` by `h`, three bytes per pixel, rows
/// in order): the step that follows the flips for orientations 5 to 8.
pub fn transpose_rgb(data: &Vec<u8>, w: u32, h: u32) -> (r: Vec<u8>)
    requires
        data@.len() == 3 * (w as int) * (h as int),
    ensures
        r@ == transposed(data@, w as int, h as int),
{
    let wu = w as usize;
    let hu = h as usize;
    let ghost total = 3 * (w as int) * (h as int);
    let mut out: Vec<u8> = Vec::new();
    let mut x: usize = 0;
    while x < wu
        invariant
            wu == w,
            hu == h,
            data@.len() == total,
            total == 3 * (w as int) * (h as int),
            0 <= x <= wu,
            out@.len() == (x as int) * (hu as int) * 3,
            forall|o: int| 0 <= o < out@.len() ==> #[trigger] out@[o] == transposed(data@, w as int, h as int)[o],
        decreases wu - x,
    {
        let mut y: usize = 0;
        while y < hu
            invariant
                wu == w,
                hu == h,
                data@.len() == total,
                total == 3 * (w as int) * (h as int),
                0 <= x < wu,
                0 <= y <= hu,
                out@.len() == ((x as int) * (hu as int) + y) * 3,
                forall|o: int| 0 <= o < out@.len() ==> #[trigger] out@[o] == transposed(data@, w as int, h as int)[o],
            decreases hu - y,
        {
            let mut c: usize = 0;
            while c < 3
                invariant
                    wu == w,
                    hu == h,
                    data@.len() == total,
                    total == 3 * (w as int) * (h as int),
                    0 <= x < wu,
                    0 <= y < hu,
                    0 <= c <= 3,
                    out@.len() == ((x as int) * (hu as int) + y) * 3 + c,
                    forall|o: int| 0 <= o < out@.len() ==> #[trigger] out@[o] == transposed(data@, w as int, h as int)[o],
                decreases 3 - c,
            {
                proof {
                    lemma_bound(x as int, y as int, c as int, w as int, h as int);
                    lemma_index(x as int, y as int, c as int, h as int);
                }
                assert(0 <= (y as int) * (wu as int)) by (nonlinear_arith)
                    requires
                        0 <= y,
                        0 <= wu,
                ;
                assert(((y as int) * (wu as int) + x) * 3 + c < data@.len());
                assert(data@.len() == data.len());
                let src = (y * wu + x) * 3 + c;
                let ghost o = out@.len() as int;
                out.push(data[src]);
                assert(out@[o] == transposed(data@, w as int, h as int)[o]);
                c += 1;
            }
            proof {
                assert(((x as int) * (hu as int) + y) * 3 + 3 == ((x as int) * (hu as int) + (y + 1)) * 3);
            }
            y += 1;
        }
        proof {
            assert(((x as int) * (hu as int) + hu) * 3 == ((x + 1) as int) * (hu as int) * 3) by (nonlinear_arith);
        }
        x += 1;
    }
    proof {
        assert((wu as int) * (hu as int) * 3 == 3 * (w as int) * (h as int)) by (nonlinear_arith)
            requires
                wu == w,
                hu == h,
        ;
    }
    assert(out@ =~= transposed(data@, w as int, h as int));
    out
}

/// Transposing twice gives back the original pixels.
pub proof fn lemma_transpose_involution(d: Seq<u8>, w: int, h: int)
    requires
        w > 0,
        h > 0,
        d.len() == 3 * w * h,
    ensures
        transposed(transposed(d, w, h), h, w) == d,
{
    let t = transposed(d, w, h);
    let tt = transposed(t, h, w);
    assert(3 * h * w == 3 * w * h) by (nonlinear_arith);
    let m = w * h;
    assert(3 * w * h == 3 * m) by (nonlinear_arith)
        requires
            m == w * h,
    ;
    assert forall|o: int| 0 <= o < d.len() implies #[trigger] tt[o] == d[o] by {
        let p = o / 3;
        let c = o % 3;
        vstd::arithmetic::div_mod::lemma_fundamental_div_mod(o, 3);
        vstd::arithmetic::div_mod::lemma_mod_pos_bound(o, 3);
        assert(0 <= p < m);
        let r = p / w;
        let col = p % w;
        vstd::arithmetic::div_mod::lemma_fundamental_div_mod(p, w);
        vstd::arithmetic::div_mod::lemma_mod_pos_bound(p, w);
        vstd::arithmetic::div_mod::lemma_div_pos_is_pos(p, w);
        assert(m == h * w) by (nonlinear_arith)
            requires
                m == w * h,
        ;
        vstd::arithmetic::div_mod::lemma_div_by_multiple_is_strongly_ordered(p, m, h, w);
        vstd::arithmetic::div_mod::lemma_div_by_multiple(h, w);
        assert(0 <= r < h);
        assert(p == r * w + col) by (nonlinear_arith)
            requires
                p == w * (p / w) + (p % w),
                r == p / w,
                col == p % w,
        ;
        lemma_index(col, r, c, h);
        lemma_bound(col, r, c, w, h);
        let o2 = (col * h + r) * 3 + c;
        assert(tt[o] == t[o2]);
        assert(t[o2] == d[(r * w + col) * 3 + c]);
    }
    assert(tt =~= d);
}

/// A decoded picture: width, height and pixels, row by row, four bytes per
/// pixel (red, green, blue, alpha).
pub struct RgbaPicture {
    pub width: u32,
    pub height: u32,
    pub pixels: Vec<u8>,
}

/// A decoded picture: width, height and pixels, row by row, three bytes
/// per pixel (red, green, blue), possibly followed by further bytes.
pub struct RgbPicture {
    pub width: u32,
    pub height: u32,
    pub pixels: Vec<u8>,
}

/// What a picture holds, as plain values.
pub open spec fn rgba_view(p: Option<RgbaPicture>) -> Option<(u32, u32, Seq<u8>)> {
    match p {
        Some(x) => Some((x.width, x.height, x.pixels@)),
        None => None,
    }
}

/// A name for what `image::load_from_memory` decodes from the given bytes
/// (guessing the format from them), converted to 8-bit RGBA with
/// `DynamicImage::to_rgba8`: width, height and pixels; `None` when the bytes
/// do not decode.
pub uninterp spec fn decoded_rgba(bytes: Seq<u8>) -> Option<(u32, u32, Seq<u8>)>;

/// Decodes bytes with `image::load_from_memory` and converts the picture to
/// 8-bit RGBA.
///
/// Trusted: the picture is [`decoded_rgba`] of the bytes; as image's source
/// shows, the converted buffer holds exactly four bytes per pixel.
#[verifier::external_body]
fn decode_image(bytes: &[u8]) -> (r: Option<RgbaPicture>)
    ensures
        rgba_view(r) == decoded_rgba(bytes@),
        r matches Some(p) ==> p.pixels@.len() == 4 * (p.width as int) * (p.height as int),
{
    let rgba = image::load_from_memory(bytes).ok()?.to_rgba8();
    Some(RgbaPicture { width: rgba.width(), height: rgba.height(), pixels: rgba.into_raw() })
}

/// Decodes an image file's bytes, guessing the format from them.
pub fn decode_picture(bytes: &[u8]) -> (r: Option<RgbaPicture>)
    ensures
        rgba_view(r) == decoded_rgba(bytes@),
        r matches Some(p) ==> p.pixels@.len() == 4 * (p.width as int) * (p.height as int),
{
    decode_image(bytes)
}

/// Decodes an embedded preview from a RAW file's bytes: from each position
/// of an `FF D8 FF` sequence, last first, the rest of the file is offered
/// to the decoder, and the first picture decoded is returned; so the
/// picture is the one decoded from the last such position that decodes.
pub fn extract_raw_preview(data: &[u8]) -> (r: Option<RgbaPicture>)
    ensures
        r is Some <==> exists|i: int| is_soi(data@, i) && decoded_rgba(#[trigger] data@.skip(i)) is Some,
        r is Some ==> exists|i: int|
            is_soi(data@, i) && rgba_view(r) == decoded_rgba(#[trigger] data@.skip(i)) && forall|j: int|
                i < j && is_soi(data@, j) ==> decoded_rgba(#[trigger] data@.skip(j)) is None,
        r matches Some(p) ==> p.pixels@.len() == 4 * (p.width as int) * (p.height as int),
{
    let n = data.len();
    let cands = jpeg_start_candidates(data);
    let mut k: usize = cands.len();
    while k > 0
        invariant
            0 <= k <= cands.len(),
            forall|t: int| 0 <= t < cands.len() ==> is_soi(data@, #[trigger] cands@[t] as int),
            forall|i: int| is_soi(data@, i) ==> cands@.contains(i as usize),
            forall|a: int, b: int| 0 <= a < b < cands.len() ==> #[trigger] cands@[a] < #[trigger] cands@[b],
            forall|t: int|
                k <= t < cands.len() ==> decoded_rgba(data@.skip(#[trigger] cands@[t] as int)) is None,
        decreases k,
    {
        k -= 1;
        let start = cands[k];
        assert(is_soi(data@, start as int));
        let rest = &data[start..data.len()];
        assert(rest@ =~= data@.skip(start as int));
        match decode_image(rest) {
            Some(img) => {
                proof {
                    let si = start as int;
                    assert forall|j: int| si < j && is_soi(data@, j) implies decoded_rgba(
                        #[trigger] data@.skip(j),
                    ) is None by {
                        assert(cands@.contains(j as usize));
                        let t = choose|t: int| 0 <= t < cands.len() && cands@[t] == j as usize;
                        if t <= k {
                            if t < k {
                                assert(cands@[t] < cands@[k as int]);
                            }
                            assert(false);
                        }
                        assert(cands@[t] as int == j);
                    }
                    assert(rgba_view(Some(img)) == decoded_rgba(data@.skip(si)));
                }
                return Some(img);
            },
            None => {},
        }
    }
    assert forall|i: int| is_soi(data@, i) implies decoded_rgba(#[trigger] data@.skip(i)) is None by {
        assert(cands@.contains(i as usize));
        let t = choose|t: int| 0 <= t < cands.len() && cands@[t] == i as usize;
        assert(decoded_rgba(data@.skip(cands@[t] as int)) is None);
        assert(cands@[t] as int == i);
    }
    None
}

/// A name for what `zune_jpeg::JpegDecoder::decode` returns for the given
/// bytes with the default options: the decoded pixels, or `None` on error.
pub uninterp spec fn zune_decoded(bytes: Seq<u8>) -> Option<Seq<u8>>;

/// A name for what `JpegDecoder::info` gives after a successful decode of
/// the given bytes: the width and height.
pub uninterp spec fn zune_info(bytes: Seq<u8>) -> Option<(u16, u16)>;

/// Decodes JPEG bytes with zune-jpeg and reads the image information.
///
/// Trusted: the pixels are [`zune_decoded`] of the bytes and, after a
/// successful decode, the size is [`zune_info`] of them; the error's text
/// is not described. The decoder sizes its output with an `unwrap` that
/// cannot fail where `usize` has 64 bits.
#[verifier::external_body]
fn zune_decode(data: &[u8]) -> (r: (Result<Vec<u8>, String>, Option<(u16, u16)>))
    ensures
        r.0 is Ok == zune_decoded(data@) is Some,
        r.0 matches Ok(p) ==> zune_decoded(data@) == Some(p@),
        r.0 is Ok ==> r.1 == zune_info(data@),
{
    let mut decoder = zune_jpeg::JpegDecoder::new(data);
    let pixels = decoder.decode().map_err(|e| format!("{:?}", e));
    let info = decoder.info().map(|i| (i.width, i.height));
    (pixels, info)
}

/// Decodes a JPEG file's bytes with the fast decoder into an RGB picture of
/// the size the decoder reports; an error names the decoder's failure, a
/// missing size, or pixels too few for the size.
pub fn decode_jpeg_fast(data: &[u8]) -> (r: Result<RgbPicture, String>)
    ensures
        zune_decoded(data@) is None ==> (r matches Err(m) && m@.take(13) == "JPEG decode: "@),
        zune_decoded(data@) is Some && zune_info(data@) is None ==> (r matches Err(m) && m@
            == "No JPEG info"@),
        zune_decoded(data@) matches Some(p) ==> (zune_info(data@) matches Some((w, h)) ==> if p.len()
            >= 3 * (w as int) * (h as int) {
            r matches Ok(pic) && pic.width == w && pic.height == h && pic.pixels@ == p
        } else {
            r matches Err(m) && m@ == "Bad JPEG dimensions"@
        }),
{
    let (pixels, info) = zune_decode(data);
    match pixels {
        Err(e) => {
            let mut v = chars_of("JPEG decode: ");
            proof {
                reveal_strlit("JPEG decode: ");
            }
            let ghost prefix = v@;
            let ev = chars_of(e.as_str());
            push_all(&mut v, &ev);
            assert(v@.take(13) =~= prefix);
            Err(string_of(v.as_slice()))
        },
        Ok(p) => match info {
            None => Err("No JPEG info".to_string()),
            Some((w, h)) => {
                let wide = w as u64;
                let high = h as u64;
                assert(wide * high * 3 <= 0xFFFF * 0xFFFF * 3) by (nonlinear_arith)
                    requires
                        wide <= 0xFFFF,
                        high <= 0xFFFF,
                ;
                assert(wide * high * 3 == 3 * (w as int) * (h as int)) by (nonlinear_arith)
                    requires
                        wide == w,
                        high == h,
                ;
                assert(p@.len() == p.len());
                if (p.len() as u64) >= wide * high * 3 {
                    Ok(RgbPicture { width: w as u32, height: h as u32, pixels: p })
                } else {
                    Err("Bad JPEG dimensions".to_string())
                }
            },
        },
    }
}

/// How a thumbnail is made when the system thumbnailer gave none.
#[derive(Clone, Copy, Debug, PartialEq, Eq, Structural)]
pub enum ThumbnailSource {
    /// A frame taken from the video.
    VideoFrame,
    /// The embedded preview of a RAW file (full decode as fallback).
    RawPreview,
    /// A fast JPEG decode.
    Jpeg,
    /// A general image decode.
    Image,
}

/// The thumbnail source for a file whose extension is `ext`.
pub open spec fn thumbnail_source_of(ext: Seq<char>) -> ThumbnailSource {
    let e = unicode_lowercase(ext);
    if video_extensions().contains(e) {
        ThumbnailSource::VideoFrame
    } else if raw_extensions().contains(e) {
        ThumbnailSource::RawPreview
    } else if e == "jpg"@ || e == "jpeg"@ {
        ThumbnailSource::Jpeg
    } else {
        ThumbnailSource::Image
    }
}

/// Chooses how to make a thumbnail from the file's extension (compared in
/// lowercase): videos by a frame, RAW files by their embedded preview,
/// JPEGs by the fast decoder, anything else by the general decoder.
pub fn thumbnail_source(ext: &str) -> (r: ThumbnailSource)
    ensures
        r == thumbnail_source_of(ext@),
{
    if crate::scanner::is_video_extension(ext) {
        ThumbnailSource::VideoFrame
    } else if crate::scanner::is_raw_extension(ext) {
        ThumbnailSource::RawPreview
    } else {
        let lower = crate::text::to_lowercase(ext);
        let l = chars_of(lower.as_str());
        let jpg = chars_of("jpg");
        let jpeg = chars_of("jpeg");
        if same(&l, &jpg) || same(&l, &jpeg) {
            ThumbnailSource::Jpeg
        } else {
            ThumbnailSource::Image
        }
    }
}

fn same(a: &Vec<char>, b: &Vec<char>) -> (r: bool)
    ensures
        r == (a@ == b@),
{
    if a.len() != b.len() {
        return false;
    }
    let mut i: usize = 0;
    while i < a.len()
        invariant
            a.len() == b.len(),
            0 <= i <= a.len(),
            forall|k: int| 0 <= k < i ==> a@[k] == b@[k],
        decreases a.len() - i,
    {
        if a[i] != b[i] {
            assert(a@[i as int] != b@[i as int]);
            return false;
        }
        i += 1;
    }
    assert(a@ =~= b@);
    true
}

/// One way of producing the full-resolution image of a RAW file.
#[derive(Clone, Copy, Debug, PartialEq, Eq, Structural)]
pub enum FullDecodeStep {
    /// Store the largest embedded JPEG when its long edge reaches 3000 pixels.
    EmbeddedPreview,
    /// Develop with rawler, then with the DNG decoder, keeping a
    /// full-resolution result.
    DevelopThenDng,
    /// Decode with the system's codec.
    SystemCodec,
    /// Decode with rawler; a low-resolution result is an error.
    FinalDevelop,
}

/// The order in which full-resolution decoders are tried: DNG files are
/// developed first; other RAW files first offer their embedded preview;
/// then the system codec where there is one; rawler last.
pub open spec fn full_decode_order(is_dng: bool, has_system_codec: bool) -> Seq<FullDecodeStep> {
    seq![if is_dng {
        FullDecodeStep::DevelopThenDng
    } else {
        FullDecodeStep::EmbeddedPreview
    }] + (if has_system_codec {
        seq![FullDecodeStep::SystemCodec]
    } else {
        Seq::empty()
    }) + seq![FullDecodeStep::FinalDevelop]
}

/// The decoders to try, in order, for the full-resolution image.
pub fn full_decode_plan(is_dng: bool, has_system_codec: bool) -> (r: Vec<FullDecodeStep>)
    ensures
        r@ == full_decode_order(is_dng, has_system_codec),
{
    let mut r: Vec<FullDecodeStep> = Vec::new();
    r.push(
        if is_dng {
            FullDecodeStep::DevelopThenDng
        } else {
            FullDecodeStep::EmbeddedPreview
        },
    );
    if has_system_codec {
        r.push(FullDecodeStep::SystemCodec);
    }
    r.push(FullDecodeStep::FinalDevelop);
    assert(r@ =~= full_decode_order(is_dng, has_system_codec));
    r
}

/// The state of the cached full-resolution image of a RAW file.
#[derive(Clone, Copy, Debug, PartialEq, Eq, Structural)]
pub enum FullCache {
    /// There is no cache file.
    Missing,
    /// The cache file reaches full resolution.
    FullRes,
    /// The cache file is below full resolution.
    LowRes,
}

/// How the last decoder step ended.
#[derive(Debug)]
pub enum StepOutcome {
    /// The full-resolution image was stored in the cache.
    Succeeded,
    /// The decode gave an image below full resolution.
    LowResolution,
    /// The step failed with this message.
    Error(String),
}

/// The next thing to do for a full-image request.
#[derive(Debug)]
pub enum FullImageAction {
    /// Show the file itself (it is not a RAW file).
    ReturnSource,
    /// Show the cache file.
    ReturnCache,
    /// Delete the low-resolution cache file, then report to [`full_image_after_removal`].
    RemoveCache,
    /// Wait for the single decode permit, then report to [`full_image_after_permit`].
    AcquirePermit,
    /// Run this decoder step, then report to [`full_image_after_step`].
    Run(FullDecodeStep),
    /// Give up with this message.
    Fail(String),
}

/// A full-image request in progress: the decoders to try, the index of the
/// next one, whether the decode permit is held, and whether the file is a
/// DNG.
pub struct FullImageRequest {
    plan: Vec<FullDecodeStep>,
    next: usize,
    permit: bool,
    is_dng: bool,
}

impl FullImageRequest {
    #[verifier::type_invariant]
    spec fn in_plan(self) -> bool {
        self.next <= self.plan@.len()
    }

    /// The decoders to try, in order.
    pub closed spec fn plan_view(self) -> Seq<FullDecodeStep> {
        self.plan@
    }

    /// The index of the next decoder to try.
    pub closed spec fn next_index(self) -> int {
        self.next as int
    }

    /// Whether the decode permit is held.
    pub closed spec fn holds_permit(self) -> bool {
        self.permit
    }

    /// Whether the file is a DNG.
    pub closed spec fn for_dng(self) -> bool {
        self.is_dng
    }
}

/// What moving on to the next decoder gives, from request `q` (before)
/// to `r` (after): the embedded preview needs no permit; any other decoder
/// needs the permit, which is asked for unless the request has been
/// superseded by a newer one.
pub open spec fn moves_on(q: FullImageRequest, superseded: bool, r: (FullImageRequest, FullImageAction)) -> bool {
    let n = q.next_index();
    let plan = q.plan_view();
    &&& r.0.plan_view() == plan
    &&& r.0.for_dng() == q.for_dng()
    &&& r.0.holds_permit() == q.holds_permit()
    &&& n >= plan.len() ==> (r.1 matches FullImageAction::Fail(m) && m@ == "No decoder available"@)
    &&& n < plan.len() && plan[n] != FullDecodeStep::EmbeddedPreview && !q.holds_permit() && superseded
        ==> (r.1 matches FullImageAction::Fail(m) && m@ == "superseded"@)
    &&& n < plan.len() && plan[n] != FullDecodeStep::EmbeddedPreview && !q.holds_permit() && !superseded
        ==> (r.1 is AcquirePermit && r.0.next_index() == n)
    &&& n < plan.len() && (plan[n] == FullDecodeStep::EmbeddedPreview || q.holds_permit()) ==> (r.1
        == FullImageAction::Run(plan[n]) && r.0.next_index() == n + 1)
}

fn text_of(s: &str) -> (r: String)
    ensures
        r@ == s@,
{
    s.to_owned()
}

fn move_on(q: FullImageRequest, superseded: bool) -> (r: (FullImageRequest, FullImageAction))
    ensures
        moves_on(q, superseded, r),
{
    proof {
        use_type_invariant(&q);
    }
    if q.next >= q.plan.len() {
        return (q, FullImageAction::Fail(text_of("No decoder available")));
    }
    let step = q.plan[q.next];
    if step != FullDecodeStep::EmbeddedPreview && !q.permit {
        if superseded {
            (q, FullImageAction::Fail(text_of("superseded")))
        } else {
            (q, FullImageAction::AcquirePermit)
        }
    } else {
        let n = q.next + 1;
        (FullImageRequest { plan: q.plan, next: n, permit: q.permit, is_dng: q.is_dng }, FullImageAction::Run(step))
    }
}

/// The low-resolution message of the last decoder.
pub open spec fn low_res_message(is_dng: bool) -> Seq<char> {
    if is_dng {
        "DNG full decode returned low resolution"@
    } else {
        "RAW full decode returned low resolution"@
    }
}

/// Starts a request for the full-resolution image of the file at
/// `file_path`: a missing file is an error; a file that is not RAW is shown
/// as it is; a full-resolution cache is reused and a low-resolution one is
/// removed first; otherwise the decoders are tried in the order of
/// [`full_decode_order`].
pub fn full_image_start(
    file_path: &str,
    exists: bool,
    is_raw: bool,
    is_dng: bool,
    has_system_codec: bool,
    cache: FullCache,
    superseded: bool,
) -> (r: (FullImageRequest, FullImageAction))
    ensures
        r.0.plan_view() == full_decode_order(is_dng, has_system_codec),
        r.0.for_dng() == is_dng,
        !exists ==> (r.1 matches FullImageAction::Fail(m) && m@ == "File not found: "@ + file_path@),
        exists && !is_raw ==> r.1 is ReturnSource,
        exists && is_raw && cache == FullCache::FullRes ==> r.1 is ReturnCache,
        exists && is_raw && cache == FullCache::LowRes ==> (r.1 is RemoveCache && r.0.next_index() == 0
            && !r.0.holds_permit()),
        exists && is_raw && cache == FullCache::Missing ==> exists|q: FullImageRequest|
            q.plan_view() == full_decode_order(is_dng, has_system_codec) && q.next_index() == 0
                && !q.holds_permit() && q.for_dng() == is_dng && #[trigger] moves_on(q, superseded, r),
{
    let q = FullImageRequest { plan: full_decode_plan(is_dng, has_system_codec), next: 0, permit: false, is_dng };
    if !exists {
        let mut v = chars_of("File not found: ");
        let p = chars_of(file_path);
        push_all(&mut v, &p);
        return (q, FullImageAction::Fail(string_of(v.as_slice())));
    }
    if !is_raw {
        return (q, FullImageAction::ReturnSource);
    }
    match cache {
        FullCache::FullRes => (q, FullImageAction::ReturnCache),
        FullCache::LowRes => (q, FullImageAction::RemoveCache),
        FullCache::Missing => move_on(q, superseded),
    }
}

/// After removing a low-resolution cache file: the decoders are tried.
pub fn full_image_after_removal(req: FullImageRequest, superseded: bool) -> (r: (
    FullImageRequest,
    FullImageAction,
))
    ensures
        moves_on(req, superseded, r),
{
    move_on(req, superseded)
}

/// After the decode permit was granted: a request superseded meanwhile
/// gives up; otherwise the next decoder runs with the permit held.
pub fn full_image_after_permit(req: FullImageRequest, superseded: bool) -> (r: (
    FullImageRequest,
    FullImageAction,
))
    ensures
        r.0.plan_view() == req.plan_view(),
        r.0.for_dng() == req.for_dng(),
        superseded ==> (r.1 matches FullImageAction::Fail(m) && m@ == "superseded"@),
        !superseded ==> r.0.holds_permit(),
        !superseded && req.next_index() < req.plan_view().len() ==> (r.1 == FullImageAction::Run(
            req.plan_view()[req.next_index()],
        ) && r.0.next_index() == req.next_index() + 1),
        !superseded && req.next_index() >= req.plan_view().len() ==> (r.1 matches FullImageAction::Fail(m)
            && m@ == "No decoder available"@),
{
    proof {
        use_type_invariant(&req);
    }
    if superseded {
        return (req, FullImageAction::Fail(text_of("superseded")));
    }
    let q = FullImageRequest { plan: req.plan, next: req.next, permit: true, is_dng: req.is_dng };
    move_on(q, false)
}

/// After a decoder step: success shows the cache; a failure of the last
/// decoder is the request's error (its low-resolution message, or the
/// step's own); any other failure moves on to the next decoder.
pub fn full_image_after_step(req: FullImageRequest, superseded: bool, outcome: StepOutcome) -> (r: (
    FullImageRequest,
    FullImageAction,
))
    ensures
        outcome is Succeeded ==> r.1 is ReturnCache,
        !(outcome is Succeeded) && req.next_index() > 0 && req.plan_view()[req.next_index() - 1]
            == FullDecodeStep::FinalDevelop ==> match outcome {
            StepOutcome::LowResolution => r.1 matches FullImageAction::Fail(m) && m@ == low_res_message(
                req.for_dng(),
            ),
            StepOutcome::Error(e) => r.1 matches FullImageAction::Fail(m) && m@ == e@,
            StepOutcome::Succeeded => true,
        },
        !(outcome is Succeeded) && !(req.next_index() > 0 && req.plan_view()[req.next_index() - 1]
            == FullDecodeStep::FinalDevelop) ==> moves_on(req, superseded, r),
{
    proof {
        use_type_invariant(&req);
    }
    match outcome {
        StepOutcome::Succeeded => (req, FullImageAction::ReturnCache),
        StepOutcome::LowResolution => {
            if req.next > 0 && req.plan[req.next - 1] == FullDecodeStep::FinalDevelop {
                let m = if req.is_dng {
                    text_of("DNG full decode returned low resolution")
                } else {
                    text_of("RAW full decode returned low resolution")
                };
                (req, FullImageAction::Fail(m))
            } else {
                move_on(req, superseded)
            }
        },
        StepOutcome::Error(e) => {
            if req.next > 0 && req.plan[req.next - 1] == FullDecodeStep::FinalDevelop {
                (req, FullImageAction::Fail(e))
            } else {
                move_on(req, superseded)
            }
        },
    }
}


/// `px` with the first and third byte of each complete 4-byte pixel
/// exchanged (BGRA to RGBA); trailing bytes that do not fill a pixel stay.
pub open spec fn swapped_red_blue(px: Seq<u8>) -> Seq<u8> {
    Seq::new(
        px.len(),
        |i: int|
            if i < px.len() - px.len() % 4 && i % 4 == 0 {
                px[i + 2]
            } else if i < px.len() - px.len() % 4 && i % 4 == 2 {
                px[i - 2]
            } else {
                px[i]
            },
    )
}

/// Swapping red and blue twice gives back the original pixels.
pub proof fn lemma_swap_involution(px: Seq<u8>)
    ensures
        swapped_red_blue(swapped_red_blue(px)) == px,
{
    let once = swapped_red_blue(px);
    let twice = swapped_red_blue(once);
    assert forall|i: int| 0 <= i < px.len() implies #[trigger] twice[i] == px[i] by {
        let full = px.len() - px.len() % 4;
        if i < full && i % 4 == 0 {
            assert(i + 2 < full);
            assert((i + 2) % 4 == 2);
        } else if i < full && i % 4 == 2 {
            assert(i - 2 >= 0);
            assert((i - 2) % 4 == 0);
        }
    }
    assert(twice =~= px);
}

/// Converts BGRA pixels, as Windows hands them out, to RGBA in place.
pub fn bgra_to_rgba(px: &mut Vec<u8>)
    ensures
        final(px)@ == swapped_red_blue(old(px)@),
{
    let ghost orig = px@;
    let n = px.len();
    let full = n - n % 4;
    let mut i: usize = 0;
    while i < full
        invariant
            n == px.len(),
            n == orig.len(),
            full == n - n % 4,
            i % 4 == 0,
            i <= full,
            forall|k: int| 0 <= k < i ==> #[trigger] px@[k] == swapped_red_blue(orig)[k],
            forall|k: int| i <= k < n ==> #[trigger] px@[k] == orig[k],
        decreases full - i,
    {
        let b = px[i];
        let r = px[i + 2];
        px.set(i, r);
        px.set(i + 2, b);
        i += 4;
    }
    assert(px@ =~= swapped_red_blue(orig));
}

/// Largest width or height accepted from the DNG decoder.
pub const DNG_MAX_DIM: i32 = 20000;

/// Largest RGB buffer accepted from the DNG decoder, in bytes.
pub const DNG_MAX_BUFFER: usize = 536870912;

/// Size in bytes of the RGB image that the DNG decoder reports as `w` by
/// `h`, when it can be accepted: both sides positive and at most 20000,
/// and `w * h * 3` at most 512 MiB.
pub fn dng_buffer_len(w: i32, h: i32) -> (r: Option<usize>)
    ensures
        r matches Some(n) ==> n == 3 * (w as int) * (h as int),
        r is Some <==> (0 < w <= DNG_MAX_DIM && 0 < h <= DNG_MAX_DIM && 3 * (w as int) * (h as int)
            <= DNG_MAX_BUFFER),
{
    if w <= 0 || h <= 0 || w > DNG_MAX_DIM || h > DNG_MAX_DIM {
        return None;
    }
    let wu = w as u64;
    let hu = h as u64;
    assert(wu * hu * 3 <= 20000 * 20000 * 3) by (nonlinear_arith)
        requires
            wu <= 20000,
            hu <= 20000,
    ;
    let len = wu * hu * 3;
    assert(3 * (w as int) * (h as int) == (wu as int) * (hu as int) * 3) by (nonlinear_arith)
        requires
            wu == w,
            hu == h,
    ;
    if len > DNG_MAX_BUFFER as u64 {
        return None;
    }
    Some(len as usize)
}

} // verus!
