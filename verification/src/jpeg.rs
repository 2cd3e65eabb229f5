//! Byte-level JPEG scanning: frame dimensions from the SOF segment, and the
//! largest JPEG preview embedded in a RAW file.

use vstd::prelude::*;
use vstd::slice::slice_to_vec;

verus! {

/// Big-endian 16-bit value of two bytes.
pub open spec fn be16(hi: u8, lo: u8) -> nat {
    (hi as nat) * 256 + (lo as nat)
}

/// Walks the marker segments of `d` from position `i`: a byte other than
/// `0xFF` is skipped; an SOF0 or SOF2 marker with its height and width in
/// range yields `(width, height)`; any other segment is skipped by its
/// length field, and a length below 2 ends the walk.
pub open spec fn sof_scan(d: Seq<u8>, i: int) -> Option<(u32, u32)>
    decreases (if i < d.len() {
        d.len() - i
    } else {
        0
    }),
{
    if i < 0 || i + 4 >= d.len() {
        None
    } else if d[i] != 0xFF {
        sof_scan(d, i + 1)
    } else if (d[i + 1] == 0xC0 || d[i + 1] == 0xC2) && i + 9 < d.len() {
        Some((be16(d[i + 7], d[i + 8]) as u32, be16(d[i + 5], d[i + 6]) as u32))
    } else if be16(d[i + 2], d[i + 3]) < 2 {
        None
    } else {
        sof_scan(d, i + 2 + be16(d[i + 2], d[i + 3]))
    }
}

/// The `(width, height)` that a JPEG stream declares, found by walking its
/// segments after the SOI marker.
pub open spec fn jpeg_dims(d: Seq<u8>) -> Option<(u32, u32)> {
    sof_scan(d, 2)
}

proof fn lemma_scan_reads_from(d: Seq<u8>, e: Seq<u8>, i: int)
    requires
        d.len() == e.len(),
        forall|k: int| i <= k < d.len() ==> d[k] == e[k],
    ensures
        sof_scan(d, i) == sof_scan(e, i),
    decreases (if i < d.len() {
        d.len() - i
    } else {
        0
    }),
{
    if i < 0 || i + 4 >= d.len() {
    } else if d[i] != 0xFF {
        lemma_scan_reads_from(d, e, i + 1);
    } else if (d[i + 1] == 0xC0 || d[i + 1] == 0xC2) && i + 9 < d.len() {
    } else if be16(d[i + 2], d[i + 3]) < 2 {
    } else {
        lemma_scan_reads_from(d, e, i + 2 + be16(d[i + 2], d[i + 3]));
    }
}

/// A marker segment other than a frame header (SOF0/SOF2) is skipped whole
/// by its length field `L`: the dimensions found from the marker at `i` are
/// those found from `i + 2 + L`, and no byte of its payload is ever read,
/// so changing the payload (bytes `i + 4 .. i + 2 + L`) changes nothing.
pub proof fn lemma_segment_skipped_whole(d: Seq<u8>, e: Seq<u8>, i: int)
    requires
        0 <= i,
        i + 4 < d.len(),
        d[i] == 0xFF,
        !((d[i + 1] == 0xC0 || d[i + 1] == 0xC2) && i + 9 < d.len()),
        be16(d[i + 2], d[i + 3]) >= 2,
        e.len() == d.len(),
        forall|k: int| 0 <= k < d.len() && !(i + 4 <= k < i + 2 + be16(d[i + 2], d[i + 3])) ==> e[k] == d[k],
    ensures
        sof_scan(d, i) == sof_scan(d, i + 2 + be16(d[i + 2], d[i + 3])),
        sof_scan(e, i) == sof_scan(d, i),
{
    let l = be16(d[i + 2], d[i + 3]);
    assert(e[i] == d[i] && e[i + 1] == d[i + 1] && e[i + 2] == d[i + 2] && e[i + 3] == d[i + 3]);
    lemma_scan_reads_from(d, e, i + 2 + l);
}

/// In particular the dimensions of a JPEG stream whose first segment after
/// SOI is not a frame header do not depend on that segment's payload.
pub proof fn lemma_dims_skip_first_segment(d: Seq<u8>, e: Seq<u8>)
    requires
        6 < d.len(),
        d[2] == 0xFF,
        !((d[3] == 0xC0 || d[3] == 0xC2) && 11 < d.len()),
        be16(d[4], d[5]) >= 2,
        e.len() == d.len(),
        forall|k: int| 0 <= k < d.len() && !(6 <= k < 4 + be16(d[4], d[5])) ==> e[k] == d[k],
    ensures
        jpeg_dims(d) == sof_scan(d, 4 + be16(d[4], d[5]) as int),
        jpeg_dims(e) == jpeg_dims(d),
{
    lemma_segment_skipped_whole(d, e, 2);
}

fn read_be16(hi: u8, lo: u8) -> (v: usize)
    ensures
        v == be16(hi, lo),
        v <= 0xFFFF,
{
    (hi as usize) * 256 + (lo as usize)
}

/// Parses width and height from the SOF0/SOF2 segment of a JPEG stream.
pub fn jpeg_dimensions(data: &[u8]) -> (r: Option<(u32, u32)>)
    requires
        data@.len() <= isize::MAX,
    ensures
        r == jpeg_dims(data@),
{
    let n = data.len();
    let mut i: usize = 2;
    while n > 4 && i < n - 4
        invariant
            n == data@.len(),
            n <= isize::MAX,
            i <= n + 0x10001,
            jpeg_dims(data@) == sof_scan(data@, i as int),
        decreases n + 0x10001 - i,
    {
        if data[i] != 0xFF {
            i += 1;
        } else {
            let marker = data[i + 1];
            if (marker == 0xC0 || marker == 0xC2) && i + 9 < n {
                let h = read_be16(data[i + 5], data[i + 6]) as u32;
                let w = read_be16(data[i + 7], data[i + 8]) as u32;
                return Some((w, h));
            }
            let len = read_be16(data[i + 2], data[i + 3]);
            if len < 2 {
                return None;
            }
            i = i + 2 + len;
        }
    }
    None
}

/// An SOI marker followed by the first byte of the next marker (`FF D8 FF`)
/// starts at `i`, with at least one more byte after it.
pub open spec fn is_soi(d: Seq<u8>, i: int) -> bool {
    0 <= i && i + 3 < d.len() && d[i] == 0xFF && d[i + 1] == 0xD8 && d[i + 2] == 0xFF
}

/// An EOI marker (`FF D9`) starts at `j`.
pub open spec fn is_eoi(d: Seq<u8>, j: int) -> bool {
    0 <= j && j + 1 < d.len() && d[j] == 0xFF && d[j + 1] == 0xD9
}

/// The first EOI marker at or after `j`.
pub open spec fn first_eoi(d: Seq<u8>, j: int) -> Option<int>
    decreases d.len() - j,
{
    if j < 0 || j + 1 >= d.len() {
        None
    } else if is_eoi(d, j) {
        Some(j)
    } else {
        first_eoi(d, j + 1)
    }
}

pub proof fn lemma_first_eoi(d: Seq<u8>, j: int)
    ensures
        first_eoi(d, j) matches Some(k) ==> j <= k && is_eoi(d, k),
    decreases d.len() - j,
{
    if j >= 0 && j + 1 < d.len() && !is_eoi(d, j) {
        lemma_first_eoi(d, j + 1);
    }
}

proof fn lemma_first_eoi_at(d: Seq<u8>, a: int, j: int)
    requires
        0 <= a <= j,
        forall|m: int| a <= m < j ==> !#[trigger] is_eoi(d, m),
        j + 1 < d.len() ==> is_eoi(d, j),
    ensures
        first_eoi(d, a) == (if j + 1 < d.len() {
            Some(j)
        } else {
            None::<int>
        }),
    decreases j - a,
{
    if a < j {
        assert(!is_eoi(d, a));
        lemma_first_eoi_at(d, a + 1, j);
    }
}

/// A candidate preview: width, height, and the byte range `start..end`.
pub type Candidate = (u32, u32, int, int);

/// Whether a `w` by `h` preview replaces `best`: it does when there is no
/// best yet or its area is strictly larger.
pub open spec fn larger_than(w: u32, h: u32, best: Option<Candidate>) -> bool {
    match best {
        None => true,
        Some((bw, bh, _, _)) => (w as int) * (h as int) > (bw as int) * (bh as int),
    }
}

/// Scans `d` from `i` for embedded JPEG streams: at each `FF D8 FF` for which
/// an `FF D9` follows, the stream runs to the end of the first such `FF D9`;
/// streams whose dimensions parse compete on area (the first of equal areas
/// wins) and the scan resumes after the stream. Other positions are skipped
/// one byte at a time.
pub open spec fn preview_scan(d: Seq<u8>, i: int, best: Option<Candidate>) -> Option<Candidate>
    decreases d.len() - i,
{
    if i < 0 || i + 3 >= d.len() {
        best
    } else if is_soi(d, i) && first_eoi(d, i + 2) is Some {
        let end = first_eoi(d, i + 2)->0 + 2;
        proof {
            lemma_first_eoi(d, i + 2);
        }
        let next = match jpeg_dims(d.subrange(i, end)) {
            Some((w, h)) => if larger_than(w, h, best) {
                Some((w, h, i, end))
            } else {
                best
            },
            None => best,
        };
        preview_scan(d, end, next)
    } else {
        preview_scan(d, i + 1, best)
    }
}

/// The largest embedded JPEG of `d`, with its width and height.
pub open spec fn largest_preview(d: Seq<u8>) -> Option<(u32, u32, Seq<u8>)> {
    match preview_scan(d, 0, None) {
        Some((w, h, s, e)) => Some((w, h, d.subrange(s, e))),
        None => None,
    }
}

/// What every candidate that the scan keeps satisfies: it is a complete
/// JPEG stream inside `d` whose declared dimensions are `(w, h)`.
pub open spec fn is_preview_stream(d: Seq<u8>, c: Candidate) -> bool {
    let (w, h, s, e) = c;
    &&& 0 <= s
    &&& s + 4 <= e <= d.len()
    &&& is_soi(d, s)
    &&& is_eoi(d, e - 2)
    &&& jpeg_dims(d.subrange(s, e)) == Some((w, h))
}

proof fn lemma_preview_scan_streams(d: Seq<u8>, i: int, best: Option<Candidate>)
    requires
        best matches Some(c) ==> is_preview_stream(d, c),
    ensures
        preview_scan(d, i, best) matches Some(c) ==> is_preview_stream(d, c),
    decreases d.len() - i,
{
    if i < 0 || i + 3 >= d.len() {
    } else if is_soi(d, i) && first_eoi(d, i + 2) is Some {
        lemma_first_eoi(d, i + 2);
        let end = first_eoi(d, i + 2)->0 + 2;
        let next = match jpeg_dims(d.subrange(i, end)) {
            Some((w, h)) => if larger_than(w, h, best) {
                Some((w, h, i, end))
            } else {
                best
            },
            None => best,
        };
        lemma_preview_scan_streams(d, end, next);
    } else {
        lemma_preview_scan_streams(d, i + 1, best);
    }
}

/// The complete JPEG streams with readable dimensions that the scan meets
/// from `i`, in order.
pub open spec fn scanned_streams(d: Seq<u8>, i: int) -> Seq<Candidate>
    decreases d.len() - i,
{
    if i < 0 || i + 3 >= d.len() {
        Seq::empty()
    } else if is_soi(d, i) && first_eoi(d, i + 2) is Some {
        let end = first_eoi(d, i + 2)->0 + 2;
        proof {
            lemma_first_eoi(d, i + 2);
        }
        (match jpeg_dims(d.subrange(i, end)) {
            Some((w, h)) => seq![(w, h, i, end)],
            None => Seq::empty(),
        }) + scanned_streams(d, end)
    } else {
        scanned_streams(d, i + 1)
    }
}

/// The area of a candidate.
pub open spec fn cand_area(c: Candidate) -> int {
    (c.0 as int) * (c.1 as int)
}

/// `c` is the first of the candidates in `l` with the largest area.
pub open spec fn first_largest(l: Seq<Candidate>, c: Candidate) -> bool {
    &&& exists|k: int|
        0 <= k < l.len() && l[k] == c && forall|m: int| 0 <= m < k ==> cand_area(#[trigger] l[m]) < cand_area(c)
    &&& forall|m: int| 0 <= m < l.len() ==> cand_area(#[trigger] l[m]) <= cand_area(c)
}

/// The optional candidate as a list.
pub open spec fn opt_list(best: Option<Candidate>) -> Seq<Candidate> {
    match best {
        Some(c) => seq![c],
        None => Seq::empty(),
    }
}

proof fn lemma_scan_first_largest(d: Seq<u8>, i: int, best: Option<Candidate>)
    ensures
        preview_scan(d, i, best) is None <==> opt_list(best) + scanned_streams(d, i) == Seq::<Candidate>::empty(),
        preview_scan(d, i, best) matches Some(c) ==> first_largest(opt_list(best) + scanned_streams(d, i), c),
    decreases d.len() - i,
{
    let l = opt_list(best) + scanned_streams(d, i);
    if i < 0 || i + 3 >= d.len() {
        assert(l =~= opt_list(best));
        if let Some(c) = best {
            assert(l[0] == c);
        }
    } else if is_soi(d, i) && first_eoi(d, i + 2) is Some {
        lemma_first_eoi(d, i + 2);
        let end = first_eoi(d, i + 2)->0 + 2;
        let rest = scanned_streams(d, end);
        match jpeg_dims(d.subrange(i, end)) {
            Some((w, h)) => {
                let x: Candidate = (w, h, i, end);
                assert(scanned_streams(d, i) =~= seq![x] + rest);
                let next = if larger_than(w, h, best) {
                    Some(x)
                } else {
                    best
                };
                lemma_scan_first_largest(d, end, next);
                let l2 = opt_list(next) + rest;
                assert(l2.len() > 0);
                let c = preview_scan(d, end, next)->0;
                assert(preview_scan(d, i, best) == preview_scan(d, end, next));
                let k2 = choose|k: int|
                    0 <= k < l2.len() && l2[k] == c && forall|m: int|
                        0 <= m < k ==> cand_area(#[trigger] l2[m]) < cand_area(c);
                if larger_than(w, h, best) {
                    let o = opt_list(best).len() as int;
                    assert(l =~= opt_list(best) + l2);
                    assert(l2[0] == x);
                    assert(cand_area(x) <= cand_area(c));
                    assert(l[k2 + o] == c);
                    assert forall|m: int| 0 <= m < k2 + o implies cand_area(#[trigger] l[m]) < cand_area(c) by {
                        if m < o {
                            assert(l[m] == best->0);
                        } else {
                            assert(l[m] == l2[m - o]);
                        }
                    }
                    assert forall|m: int| 0 <= m < l.len() implies cand_area(#[trigger] l[m]) <= cand_area(c) by {
                        if m < o {
                            assert(l[m] == best->0);
                        } else {
                            assert(l[m] == l2[m - o]);
                        }
                    }
                } else {
                    let b = best->0;
                    assert(l2 =~= seq![b] + rest);
                    assert(l =~= seq![b, x] + rest);
                    assert(cand_area(x) <= cand_area(b));
                    assert(cand_area(b) <= cand_area(c)) by {
                        assert(l2[0] == b);
                    }
                    let k = if k2 == 0 {
                        0
                    } else {
                        k2 + 1
                    };
                    assert(l[k] == c) by {
                        if k2 > 0 {
                            assert(l[k2 + 1] == l2[k2]);
                        }
                    }
                    assert forall|m: int| 0 <= m < k implies cand_area(#[trigger] l[m]) < cand_area(c) by {
                        assert(cand_area(l2[0]) < cand_area(c));
                        if m >= 2 {
                            assert(l[m] == l2[m - 1]);
                        }
                    }
                    assert forall|m: int| 0 <= m < l.len() implies cand_area(#[trigger] l[m]) <= cand_area(c) by {
                        if m >= 2 {
                            assert(l[m] == l2[m - 1]);
                        }
                    }
                }
            },
            None => {
                assert(scanned_streams(d, i) =~= rest);
                lemma_scan_first_largest(d, end, best);
            },
        }
    } else {
        lemma_scan_first_largest(d, i + 1, best);
    }
}

/// The preview chosen from a RAW file is the first of the complete JPEG
/// streams the scan meets with the largest area (width times height), and
/// there is none exactly when the scan meets no such stream.
pub proof fn lemma_largest_preview_is_first_largest(d: Seq<u8>)
    ensures
        largest_preview(d) is None <==> scanned_streams(d, 0).len() == 0,
        preview_scan(d, 0, None) matches Some(c) ==> first_largest(scanned_streams(d, 0), c),
{
    lemma_scan_first_largest(d, 0, None);
    assert(opt_list(None) + scanned_streams(d, 0) =~= scanned_streams(d, 0));
}

fn area(w: u32, h: u32) -> (a: u64)
    ensures
        a == (w as int) * (h as int),
{
    assert((w as int) * (h as int) <= 0xFFFF_FFFFint * 0xFFFF_FFFFint) by (nonlinear_arith)
        requires
            w <= 0xFFFF_FFFFint,
            h <= 0xFFFF_FFFFint,
    ;
    assert(0 <= (w as int) * (h as int)) by (nonlinear_arith);
    (w as u64) * (h as u64)
}

/// Finds the embedded JPEG with the largest area (`width * height`) in a
/// RAW file's bytes, and returns its dimensions and bytes.
pub fn extract_largest_preview_full(data: &[u8]) -> (r: Option<(u32, u32, Vec<u8>)>)
    requires
        data@.len() <= isize::MAX,
    ensures
        match r {
            Some((w, h, v)) => largest_preview(data@) == Some((w, h, v@)),
            None => largest_preview(data@) is None,
        },
        r matches Some((w, h, v)) ==> {
            &&& v@.len() >= 4
            &&& v@[0] == 0xFF && v@[1] == 0xD8 && v@[2] == 0xFF
            &&& v@[v@.len() - 2] == 0xFF && v@[v@.len() - 1] == 0xD9
            &&& jpeg_dims(v@) == Some((w, h))
        },
{
    let ghost d = data@;
    let n = data.len();
    let mut best: Option<(u32, u32, usize, usize)> = None;
    let mut i: usize = 0;
    while n > 3 && i < n - 3
        invariant
            n == d.len(),
            d == data@,
            n <= isize::MAX,
            i <= n,
            best matches Some((bw, bh, s, e)) ==> is_preview_stream(d, (bw, bh, s as int, e as int)),
            preview_scan(d, 0, None) == preview_scan(
                d,
                i as int,
                match best {
                    Some((bw, bh, s, e)) => Some((bw, bh, s as int, e as int)),
                    None => None,
                },
            ),
        decreases n - i,
    {
        let ghost sbest: Option<Candidate> = match best {
            Some((bw, bh, s, e)) => Some((bw, bh, s as int, e as int)),
            None => None,
        };
        if data[i] == 0xFF && data[i + 1] == 0xD8 && data[i + 2] == 0xFF {
            let mut j: usize = i + 2;
            while j + 1 < n && !(data[j] == 0xFF && data[j + 1] == 0xD9)
                invariant
                    n == d.len(),
                    d == data@,
                    n <= isize::MAX,
                    i + 2 <= j <= n,
                    forall|m: int| i + 2 <= m < j ==> !#[trigger] is_eoi(d, m),
                decreases n - j,
            {
                j += 1;
            }
            proof {
                lemma_first_eoi_at(d, i + 2, j as int);
            }
            if j + 1 < n {
                let end = j + 2;
                let dims = jpeg_dimensions(&data[i..end]);
                assert(data@.subrange(i as int, end as int) == d.subrange(i as int, end as int));
                match dims {
                    Some((w, h)) => {
                        let larger = match best {
                            None => true,
                            Some((bw, bh, _, _)) => area(w, h) > area(bw, bh),
                        };
                        if larger {
                            best = Some((w, h, i, end));
                        }
                    },
                    None => {},
                }
                i = end;
            } else {
                i += 1;
            }
        } else {
            i += 1;
        }
    }
    match best {
        Some((w, h, s, e)) => {
            let v = slice_to_vec(&data[s..e]);
            assert(v@ == d.subrange(s as int, e as int));
            Some((w, h, v))
        },
        None => None,
    }
}

/// Preview bytes for quick display: the largest embedded JPEG, provided its
/// long edge is at least 600 pixels.
pub fn extract_largest_preview_bytes(data: &[u8]) -> (r: Option<Vec<u8>>)
    requires
        data@.len() <= isize::MAX,
    ensures
        match largest_preview(data@) {
            Some((w, h, b)) => if w >= 600 || h >= 600 {
                r matches Some(v) && v@ == b
            } else {
                r is None
            },
            None => r is None,
        },
{
    match extract_largest_preview_full(data) {
        Some((w, h, bytes)) => {
            if w < 600 && h < 600 {
                None
            } else {
                Some(bytes)
            }
        },
        None => None,
    }
}

/// Positions of every `FF D8 FF` sequence with at least one byte after it, in
/// increasing order: where decoding an embedded JPEG can be attempted.
pub fn jpeg_start_candidates(data: &[u8]) -> (r: Vec<usize>)
    ensures
        forall|k: int| 0 <= k < r.len() ==> is_soi(data@, #[trigger] r@[k] as int),
        forall|k: int, l: int| 0 <= k < l < r.len() ==> #[trigger] r@[k] < #[trigger] r@[l],
        forall|i: int| is_soi(data@, i) ==> r@.contains(i as usize),
{
    let n = data.len();
    let mut r: Vec<usize> = Vec::new();
    let mut i: usize = 0;
    while n > 3 && i < n - 3
        invariant
            n == data@.len(),
            i <= n,
            forall|k: int| 0 <= k < r.len() ==> is_soi(data@, #[trigger] r@[k] as int),
            forall|k: int| 0 <= k < r.len() ==> #[trigger] r@[k] < i,
            forall|k: int, l: int| 0 <= k < l < r.len() ==> #[trigger] r@[k] < #[trigger] r@[l],
            forall|m: int| 0 <= m < i && is_soi(data@, m) ==> r@.contains(m as usize),
        decreases n - i,
    {
        let ghost old_r = r@;
        if data[i] == 0xFF && data[i + 1] == 0xD8 && data[i + 2] == 0xFF {
            r.push(i);
            assert(r@[r.len() - 1] == i);
        }
        proof {
            assert forall|m: int| 0 <= m < i + 1 && is_soi(data@, m) implies r@.contains(m as usize) by {
                if m == i {
                    assert(r@[r.len() - 1] == i);
                } else {
                    assert(old_r.contains(m as usize));
                    let k = choose|k: int| 0 <= k < old_r.len() && old_r[k] == m as usize;
                    assert(r@[k] == old_r[k]);
                }
            }
        }
        i += 1;
    }
    r
}

} // verus!
