//! Photo analysis on integer data: Laplacian statistics for blur detection,
//! histogram-based exposure checks, and burst/duplicate grouping.

use vstd::prelude::*;

verus! {

/// Absolute value of an integer.
pub open spec fn abs(v: int) -> int {
    if v < 0 {
        -v
    } else {
        v
    }
}

/// The absolute 4-neighbour Laplacian response at index `idx` of a
/// row-major gray image of width `w`.
pub open spec fn laplacian_at(g: Seq<u8>, w: int, idx: int) -> int {
    abs(4 * (g[idx] as int) - (g[idx - w] as int) - (g[idx + w] as int) - (g[idx - 1] as int) - (
    g[idx + 1] as int))
}

/// Sum of the responses at columns `1..x` of row `y`.
pub open spec fn laplacian_row(g: Seq<u8>, w: int, y: int, x: int) -> int
    decreases x,
{
    if x <= 1 {
        0
    } else {
        laplacian_row(g, w, y, x - 1) + laplacian_at(g, w, y * w + x - 1)
    }
}

/// Sum of the responses over the interior pixels of rows `1..y`.
pub open spec fn laplacian_total(g: Seq<u8>, w: int, y: int) -> int
    decreases y,
{
    if y <= 1 {
        0
    } else {
        laplacian_total(g, w, y - 1) + laplacian_row(g, w, y - 1, w - 1)
    }
}

/// Integer part of the blur measure: the number of interior pixels (those
/// with a full 3x3 neighbourhood) and the sum of their absolute Laplacian
/// responses. `None` when the image is smaller than 3x3, where the measure
/// is not defined and the score is 0.
pub fn laplacian_sums(gray: &[u8], w: u32, h: u32) -> (r: Option<(u64, u128)>)
    requires
        w >= 3 && h >= 3 ==> (w as int) * (h as int) <= gray@.len() + 1,
        gray@.len() <= isize::MAX,
    ensures
        w < 3 || h < 3 ==> r is None,
        w >= 3 && h >= 3 ==> r == Some(
            (
                ((w - 2) as int * (h - 2) as int) as u64,
                laplacian_total(gray@, w as int, h as int - 1) as u128,
            ),
        ),
{
    if w < 3 || h < 3 {
        return None;
    }
    let wu = w as usize;
    let hu = h as usize;
    proof {
        assert((hu as int - 1) * (wu as int) + (wu as int - 1) == (wu as int) * (hu as int) - 1)
            by (nonlinear_arith);
    }
    let mut sum: u128 = 0;
    let mut count: u64 = 0;
    let mut y: usize = 1;
    while y < hu - 1
        invariant
            3 <= wu,
            3 <= hu,
            wu == w,
            hu == h,
            (wu as int) * (hu as int) <= gray@.len() + 1,
            gray@.len() <= isize::MAX,
            1 <= y <= hu - 1,
            count == (y - 1) * (wu - 2),
            sum == laplacian_total(gray@, wu as int, y as int),
            0 <= sum <= 1020 * count,
        decreases hu - y,
    {
        let mut x: usize = 1;
        let ghost base = sum;
        proof {
            assert((y as int + 1) * (wu as int) <= (wu as int) * (hu as int) - (wu as int))
                by (nonlinear_arith)
                requires
                    y + 1 <= hu - 1,
                    wu >= 0,
            ;
        }
        while x < wu - 1
            invariant
                3 <= wu,
                3 <= hu,
                1 <= y < hu - 1,
                (y as int + 1) * (wu as int) <= (wu as int) * (hu as int) - (wu as int),
                (wu as int) * (hu as int) <= gray@.len() + 1,
                gray@.len() <= isize::MAX,
                1 <= x <= wu - 1,
                base == laplacian_total(gray@, wu as int, y as int),
                count == (y - 1) * (wu - 2) + (x - 1),
                sum == base + laplacian_row(gray@, wu as int, y as int, x as int),
                0 <= sum <= 1020 * count,
            decreases wu - x,
        {
            proof {
                assert((y as int) * (wu as int) + (wu as int) == (y as int + 1) * (wu as int))
                    by (nonlinear_arith);
                assert((y as int) * (wu as int) >= wu) by (nonlinear_arith)
                    requires
                        y >= 1,
                        wu >= 0,
                ;
            }
            let idx = y * wu + x;
            assert((y as int - 1) * (wu as int - 2) + (x as int - 1) <= idx) by (nonlinear_arith)
                requires
                    idx == (y as int) * (wu as int) + x,
                    y >= 1,
                    wu >= 3,
                    x >= 1,
            ;
            let c = gray[idx] as i64;
            let v = 4 * c - (gray[idx - wu] as i64) - (gray[idx + wu] as i64) - (gray[idx - 1] as i64)
                - (gray[idx + 1] as i64);
            let a: u64 = if v < 0 {
                (-v) as u64
            } else {
                v as u64
            };
            assert(a == laplacian_at(gray@, wu as int, (y as int) * (wu as int) + (x + 1) - 1));
            sum = sum + a as u128;
            count = count + 1;
            x += 1;
        }
        proof {
            assert(count == (y as int) * (wu as int - 2)) by (nonlinear_arith)
                requires
                    count == (y - 1) * (wu - 2) + (wu - 2),
            ;
        }
        y += 1;
    }
    proof {
        assert(count == ((w - 2) as int * (h - 2) as int)) by (nonlinear_arith)
            requires
                count == (hu - 2) * (wu - 2),
                hu == h,
                wu == w,
        ;
    }
    Some((count, sum))
}

/// Number of pixels of `g` above `t`.
pub open spec fn count_above(g: Seq<u8>, t: u8) -> nat
    decreases g.len(),
{
    if g.len() == 0 {
        0
    } else {
        count_above(g.drop_last(), t) + if g.last() > t {
            1nat
        } else {
            0nat
        }
    }
}

/// Number of pixels of `g` below `t`.
pub open spec fn count_below(g: Seq<u8>, t: u8) -> nat
    decreases g.len(),
{
    if g.len() == 0 {
        0
    } else {
        count_below(g.drop_last(), t) + if g.last() < t {
            1nat
        } else {
            0nat
        }
    }
}

/// Exposure check on a gray histogram: overexposed when more than 15% of the
/// `w * h` pixels are above 250, underexposed when more than 30% are below 5.
/// Returns `(overexposed, underexposed)`.
///
/// The fractions are compared exactly; for image areas that fit in 32 bits
/// this decides as the comparison of the `f64` quotients with `0.15` and
/// `0.30` does.
pub fn exposure_check(gray: &[u8], w: u32, h: u32) -> (r: (bool, bool))
    requires
        (w as int) * (h as int) <= u32::MAX,
    ensures
        r.0 == (20 * count_above(gray@, 250) > 3 * ((w as int) * (h as int))),
        r.1 == (10 * count_below(gray@, 5) > 3 * ((w as int) * (h as int))),
{
    let total = (w as u64) * (h as u64);
    let mut highlights: u64 = 0;
    let mut shadows: u64 = 0;
    let mut i: usize = 0;
    while i < gray.len()
        invariant
            0 <= i <= gray.len(),
            highlights == count_above(gray@.take(i as int), 250),
            shadows == count_below(gray@.take(i as int), 5),
            highlights <= i,
            shadows <= i,
        decreases gray.len() - i,
    {
        assert(gray@.take(i + 1).drop_last() =~= gray@.take(i as int));
        if gray[i] > 250 {
            highlights += 1;
        }
        if gray[i] < 5 {
            shadows += 1;
        }
        i += 1;
    }
    assert(gray@.take(gray.len() as int) =~= gray@);
    let over = (highlights as u128) * 20 > (total as u128) * 3;
    let under = (shadows as u128) * 10 > (total as u128) * 3;
    (over, under)
}

/// Width of the file-size buckets in which duplicates are searched.
pub const SIZE_BUCKET: u64 = 16384;

/// Files `i` and `j` are compared when their size buckets are equal or adjacent.
pub open spec fn near_in_size(si: u64, sj: u64) -> bool {
    let a = si / SIZE_BUCKET;
    let b = sj / SIZE_BUCKET;
    a <= b + 1 && b <= a + 1
}

/// `sets` lists, for each file `i`, the later files `j > i` in the same or an
/// adjacent size bucket, in increasing order.
pub open spec fn is_compare_sets(sizes: Seq<u64>, sets: Seq<Seq<usize>>) -> bool {
    &&& sets.len() == sizes.len()
    &&& forall|i: int, t: int|
        0 <= i < sets.len() && 0 <= t < sets[i].len() ==> i < #[trigger] sets[i][t] < sizes.len()
            && near_in_size(sizes[i], sizes[sets[i][t] as int])
    &&& forall|i: int, t: int, u: int|
        0 <= i < sets.len() && 0 <= t < u < sets[i].len() ==> #[trigger] sets[i][t] < #[trigger] sets[i][u]
    &&& forall|i: int, j: int|
        0 <= i < j < sizes.len() && near_in_size(sizes[i], sizes[j]) ==> #[trigger] sets[i].contains(
            j as usize,
        )
}

/// The files among the first `i` whose size falls in bucket `key`, in
/// increasing order.
pub open spec fn bucket_list(sizes: Seq<u64>, key: u64, i: int) -> Seq<usize>
    decreases i,
{
    if i <= 0 {
        Seq::empty()
    } else {
        bucket_list(sizes, key, i - 1) + if sizes[i - 1] / SIZE_BUCKET == key {
            seq![(i - 1) as usize]
        } else {
            Seq::empty()
        }
    }
}

/// The bucket map holds, for each bucket, the files among the first `i`
/// whose size falls in it; a bucket with none is absent.
pub open spec fn holds_buckets(m: Map<u64, Vec<usize>>, sizes: Seq<u64>, i: int) -> bool {
    forall|key: u64|
        #[trigger] bucket_list(sizes, key, i) == if m.contains_key(key) {
            m[key]@
        } else {
            Seq::<usize>::empty()
        }
}

/// Whether a list of file numbers is strictly increasing.
pub open spec fn increasing(s: Seq<usize>) -> bool {
    forall|t: int, u: int| 0 <= t < u < s.len() ==> #[trigger] s[t] < #[trigger] s[u]
}

proof fn lemma_bucket_list(sizes: Seq<u64>, key: u64, i: int)
    requires
        0 <= i <= sizes.len(),
        sizes.len() <= usize::MAX,
    ensures
        increasing(bucket_list(sizes, key, i)),
        forall|x: usize|
            #[trigger] bucket_list(sizes, key, i).contains(x) <==> (x < i && sizes[x as int] / SIZE_BUCKET
                == key),
        forall|t: int| 0 <= t < bucket_list(sizes, key, i).len() ==> #[trigger] bucket_list(sizes, key, i)[t] < i,
    decreases i,
{
    if i > 0 {
        lemma_bucket_list(sizes, key, i - 1);
        let prev = bucket_list(sizes, key, i - 1);
        let cur = bucket_list(sizes, key, i);
        if sizes[i - 1] / SIZE_BUCKET == key {
            assert(cur == prev.push((i - 1) as usize));
            assert forall|x: usize| #[trigger] cur.contains(x) <==> (x < i && sizes[x as int] / SIZE_BUCKET == key) by {
                if cur.contains(x) && x != (i - 1) as usize {
                    let t = choose|t: int| 0 <= t < cur.len() && cur[t] == x;
                    assert(cur[prev.len() as int] == (i - 1) as usize);
                    assert(t < prev.len());
                    assert(prev[t] == x);
                    assert(prev.contains(x));
                }
                if x < i && sizes[x as int] / SIZE_BUCKET == key && x != (i - 1) as usize {
                    assert(prev.contains(x));
                    let t = choose|t: int| 0 <= t < prev.len() && prev[t] == x;
                    assert(cur[t] == x);
                }
                if x == (i - 1) as usize {
                    assert(cur[cur.len() - 1] == x);
                }
            }
        } else {
            assert(cur =~= prev);
            assert forall|x: usize| #[trigger] cur.contains(x) <==> (x < i && sizes[x as int] / SIZE_BUCKET == key) by {
                if x == (i - 1) as usize && cur.contains(x) {
                    let t = choose|t: int| 0 <= t < cur.len() && cur[t] == x;
                    assert(prev[t] < i - 1);
                }
            }
        }
    }
}

/// The number ordering that the bucket map relies on holds for sizes.
pub open spec fn size_keys_ordered() -> bool {
    vstd::laws_cmp::obeys_cmp::<u64>()
}

proof fn lemma_size_keys_ordered()
    ensures
        size_keys_ordered(),
{
    broadcast use vstd::laws_cmp::group_laws_cmp;
}

/// The members of two increasing lists that are greater than `lo`, merged
/// into one increasing list without repeats.
fn merge_after(a: &Vec<usize>, b: &Vec<usize>, lo: usize) -> (r: Vec<usize>)
    requires
        increasing(a@),
        increasing(b@),
    ensures
        increasing(r@),
        forall|x: usize| #[trigger] r@.contains(x) <==> (lo < x && (a@.contains(x) || b@.contains(x))),
{
    let mut r: Vec<usize> = Vec::new();
    let mut p: usize = 0;
    let mut q: usize = 0;
    while p < a.len() || q < b.len()
        invariant
            p <= a.len(),
            q <= b.len(),
            increasing(a@),
            increasing(b@),
            increasing(r@),
            forall|x: usize|
                #[trigger] r@.contains(x) <==> (lo < x && (a@.take(p as int).contains(x) || b@.take(
                    q as int,
                ).contains(x))),
            forall|t: int| 0 <= t < r.len() && p < a.len() ==> #[trigger] r@[t] < a@[p as int],
            forall|t: int| 0 <= t < r.len() && q < b.len() ==> #[trigger] r@[t] < b@[q as int],
        decreases a.len() - p + b.len() - q,
    {
        let ghost r0 = r@;
        let ghost p0 = p as int;
        let ghost q0 = q as int;
        let x: usize;
        if q >= b.len() || (p < a.len() && a[p] < b[q]) {
            x = a[p];
            p += 1;
        } else if p >= a.len() || b[q] < a[p] {
            x = b[q];
            q += 1;
        } else {
            x = a[p];
            p += 1;
            q += 1;
        }
        assert(if p as int > p0 {
            x == a@[p0] && p as int == p0 + 1
        } else {
            q as int == q0 + 1 && x == b@[q0]
        });
        if lo < x {
            r.push(x);
        }
        assert(r@.len() > r0.len() ==> lo < x && r@ == r0.push(x));
        assert(r@.len() == r0.len() ==> r@ == r0);
        proof {
            assert(a@.take(p as int) =~= if p as int == p0 { a@.take(p0) } else { a@.take(p0).push(a@[p0]) });
            assert(b@.take(q as int) =~= if q as int == q0 { b@.take(q0) } else { b@.take(q0).push(b@[q0]) });
            assert forall|t: int| 0 <= t < r.len() && p < a.len() implies #[trigger] r@[t] < a@[p as int] by {
                if t < r0.len() {
                    assert(r@[t] == r0[t]);
                    if p as int > p0 {
                        assert(a@[p0] < a@[p as int]);
                    }
                } else {
                    if p as int > p0 {
                        assert(a@[p0] < a@[p as int]);
                    }
                }
            }
            assert forall|t: int| 0 <= t < r.len() && q < b.len() implies #[trigger] r@[t] < b@[q as int] by {
                if t < r0.len() {
                    assert(r@[t] == r0[t]);
                    if q as int > q0 {
                        assert(b@[q0] < b@[q as int]);
                    }
                } else {
                    if q as int > q0 {
                        assert(b@[q0] < b@[q as int]);
                    }
                }
            }
            assert forall|t: int, u: int| 0 <= t < u < r.len() implies #[trigger] r@[t] < #[trigger] r@[u] by {
                if u >= r0.len() {
                    assert(r@[t] == r0[t]);
                } else {
                    assert(r@[t] == r0[t]);
                    assert(r@[u] == r0[u]);
                }
            }
            assert forall|y: usize| #[trigger] r@.contains(y) <==> (lo < y && (a@.take(p as int).contains(y)
                || b@.take(q as int).contains(y))) by {
                if r@.contains(y) && !r0.contains(y) {
                    let t = choose|t: int| 0 <= t < r@.len() && r@[t] == y;
                    if t < r0.len() {
                        assert(r0[t] == y);
                    }
                    assert(y == x);
                    if p as int > p0 {
                        assert(a@.take(p as int)[p0] == a@[p0]);
                    } else {
                        assert(b@.take(q as int)[q0] == b@[q0]);
                    }
                }
                if r0.contains(y) {
                    let t = choose|t: int| 0 <= t < r0.len() && r0[t] == y;
                    assert(r@[t] == y);
                }
                if lo < x && y == x {
                    assert(r@[r@.len() - 1] == x);
                }
                if a@.take(p as int).contains(y) && !a@.take(p0).contains(y) {
                    let t = choose|t: int| 0 <= t < p as int && a@.take(p as int)[t] == y;
                    if t < p0 {
                        assert(a@.take(p0)[t] == y);
                    }
                }
                if b@.take(q as int).contains(y) && !b@.take(q0).contains(y) {
                    let t = choose|t: int| 0 <= t < q as int && b@.take(q as int)[t] == y;
                    if t < q0 {
                        assert(b@.take(q0)[t] == y);
                    }
                }
                if a@.take(p0).contains(y) {
                    let t = choose|t: int| 0 <= t < p0 && a@.take(p0)[t] == y;
                    assert(a@.take(p as int)[t] == y);
                }
                if b@.take(q0).contains(y) {
                    let t = choose|t: int| 0 <= t < q0 && b@.take(q0)[t] == y;
                    assert(b@.take(q as int)[t] == y);
                }
            }
        }
    }
    assert(a@.take(a.len() as int) =~= a@);
    assert(b@.take(b.len() as int) =~= b@);
    r
}

/// For each file, the later files whose sizes fall in the same or an
/// adjacent 16 KiB bucket: the only pairs that duplicate detection compares.
/// The files are first filed by bucket in a `BTreeMap`; each set merges the
/// three neighbouring buckets.
pub fn compare_sets(sizes: &Vec<u64>) -> (r: Vec<Vec<usize>>)
    ensures
        is_compare_sets(sizes@, r@.map_values(|s: Vec<usize>| s@)),
{
    broadcast use vstd::std_specs::btree::group_btree_axioms;

    proof {
        lemma_size_keys_ordered();
    }
    let n = sizes.len();
    let mut buckets: std::collections::BTreeMap<u64, Vec<usize>> = std::collections::BTreeMap::new();
    let mut i: usize = 0;
    assert(holds_buckets(buckets@, sizes@, 0));
    while i < n
        invariant
            n == sizes.len(),
            0 <= i <= n,
            size_keys_ordered(),
            holds_buckets(buckets@, sizes@, i as int),
        decreases n - i,
    {
        let key = sizes[i] / SIZE_BUCKET;
        let ghost before = buckets@;
        let mut v = match buckets.remove(&key) {
            Some(v) => v,
            None => Vec::new(),
        };
        assert(v@ == bucket_list(sizes@, key, i as int));
        v.push(i);
        buckets.insert(key, v);
        proof {
            assert forall|k2: u64| #[trigger] bucket_list(sizes@, k2, i + 1) == if buckets@.contains_key(k2) {
                buckets@[k2]@
            } else {
                Seq::<usize>::empty()
            } by {
                assert(bucket_list(sizes@, k2, i as int) == if before.contains_key(k2) {
                    before[k2]@
                } else {
                    Seq::<usize>::empty()
                });
                if k2 != key {
                    assert(bucket_list(sizes@, k2, i + 1) =~= bucket_list(sizes@, k2, i as int));
                }
            }
        }
        i += 1;
    }
    let empty: Vec<usize> = Vec::new();
    let mut r: Vec<Vec<usize>> = Vec::new();
    let mut i: usize = 0;
    while i < n
        invariant
            n == sizes.len(),
            0 <= i <= n,
            size_keys_ordered(),
            holds_buckets(buckets@, sizes@, n as int),
            empty@.len() == 0,
            r.len() == i,
            forall|a: int, t: int|
                0 <= a < i && 0 <= t < r@[a]@.len() ==> a < #[trigger] r@[a]@[t] < n && near_in_size(
                    sizes@[a],
                    sizes@[r@[a]@[t] as int],
                ),
            forall|a: int, t: int, u: int|
                0 <= a < i && 0 <= t < u < r@[a]@.len() ==> #[trigger] r@[a]@[t]
                    < #[trigger] r@[a]@[u],
            forall|a: int, j: int|
                0 <= a < i && a < j < n && near_in_size(sizes@[a], sizes@[j]) ==> #[trigger] r@[
                    a
                ]@.contains(j as usize),
        decreases n - i,
    {
        let k = sizes[i] / SIZE_BUCKET;
        let below: &Vec<usize> = if k > 0 {
            match buckets.get(&(k - 1)) {
                Some(v) => v,
                None => &empty,
            }
        } else {
            &empty
        };
        let same: &Vec<usize> = match buckets.get(&k) {
            Some(v) => v,
            None => &empty,
        };
        let above: &Vec<usize> = match buckets.get(&(k + 1)) {
            Some(v) => v,
            None => &empty,
        };
        proof {
            lemma_bucket_list(sizes@, k, n as int);
            lemma_bucket_list(sizes@, (k + 1) as u64, n as int);
            assert(same@ == bucket_list(sizes@, k, n as int));
            assert(above@ == bucket_list(sizes@, (k + 1) as u64, n as int));
            if k > 0 {
                lemma_bucket_list(sizes@, (k - 1) as u64, n as int);
                assert(below@ == bucket_list(sizes@, (k - 1) as u64, n as int));
            } else {
                assert(below@ =~= Seq::<usize>::empty());
            }
        }
        let first = merge_after(below, same, i);
        let set = merge_after(&first, above, i);
        proof {
            assert forall|x: usize| #[trigger] set@.contains(x) <==> (i < x && x < n && near_in_size(
                sizes@[i as int],
                sizes@[x as int],
            )) by {
                if i < x && x < n {
                    let bx = sizes@[x as int] / SIZE_BUCKET;
                    if near_in_size(sizes@[i as int], sizes@[x as int]) {
                        if bx == k {
                            assert(same@.contains(x));
                        } else if bx == k + 1 {
                            assert(above@.contains(x));
                        } else {
                            assert(below@.contains(x));
                        }
                    }
                }
                if set@.contains(x) {
                    if below@.contains(x) && k > 0 {
                        assert(bucket_list(sizes@, (k - 1) as u64, n as int).contains(x));
                    }
                    if below@.contains(x) && k == 0 {
                        assert(false);
                    }
                }
            }
            assert forall|t: int| 0 <= t < set@.len() implies i < #[trigger] set@[t] < n && near_in_size(
                sizes@[i as int],
                sizes@[set@[t] as int],
            ) by {
                assert(set@.contains(set@[t]));
            }
        }
        let ghost prev = r@;
        r.push(set);
        proof {
            assert forall|a: int, m: int|
                0 <= a < i + 1 && a < m < n && near_in_size(sizes@[a], sizes@[m]) implies #[trigger] r@[
                a
            ]@.contains(m as usize) by {
                if a < i {
                    assert(r@[a] == prev[a]);
                } else {
                    assert(r@[a]@.contains(m as usize));
                }
            }
            assert forall|a: int, t: int|
                0 <= a < i + 1 && 0 <= t < r@[a]@.len() implies a < #[trigger] r@[a]@[t] < n && near_in_size(
                sizes@[a],
                sizes@[r@[a]@[t] as int],
            ) by {
                if a < i {
                    assert(r@[a] == prev[a]);
                }
            }
            assert forall|a: int, t: int, u: int|
                0 <= a < i + 1 && 0 <= t < u < r@[a]@.len() implies #[trigger] r@[a]@[t]
                < #[trigger] r@[a]@[u] by {
                if a < i {
                    assert(r@[a] == prev[a]);
                }
            }
        }
        i += 1;
    }
    let ghost sets = r@.map_values(|s: Vec<usize>| s@);
    assert forall|a: int, t: int|
        0 <= a < sets.len() && 0 <= t < sets[a].len() implies a < #[trigger] sets[a][t] < sizes@.len()
        && near_in_size(sizes@[a], sizes@[sets[a][t] as int]) by {
        assert(sets[a] == r@[a]@);
    }
    assert forall|a: int, t: int, u: int|
        0 <= a < sets.len() && 0 <= t < u < sets[a].len() implies #[trigger] sets[a][t]
        < #[trigger] sets[a][u] by {
        assert(sets[a] == r@[a]@);
    }
    assert forall|a: int, j: int|
        0 <= a < j < sizes@.len() && near_in_size(sizes@[a], sizes@[j]) implies #[trigger] sets[a].contains(
        j as usize,
    ) by {
        assert(sets[a] == r@[a]@);
    }
    r
}


/// The shape of the compare sets that grouping works on: row `i` lists
/// later files `j` with `i < j < n`, in increasing order.
pub open spec fn is_forward_sets(sets: Seq<Seq<usize>>) -> bool {
    &&& forall|i: int, t: int|
        0 <= i < sets.len() && 0 <= t < sets[i].len() ==> i < #[trigger] sets[i][t] < sets.len()
    &&& forall|i: int, t: int, u: int|
        0 <= i < sets.len() && 0 <= t < u < sets[i].len() ==> #[trigger] sets[i][t] < #[trigger] sets[i][u]
}

/// `similar` has a verdict for each entry of the compare sets.
pub open spec fn is_verdict_table(sets: Seq<Seq<usize>>, similar: Seq<Seq<bool>>) -> bool {
    &&& similar.len() == sets.len()
    &&& forall|i: int| 0 <= i < sets.len() ==> #[trigger] similar[i].len() == sets[i].len()
}

/// Extends `group` with the files of row `cs` from position `t` on that are
/// still free and judged similar, marking them taken.
pub open spec fn absorb(
    cs: Seq<usize>,
    sim: Seq<bool>,
    t: int,
    group: Seq<usize>,
    assigned: Seq<bool>,
) -> (Seq<usize>, Seq<bool>)
    decreases cs.len() - t,
{
    if t < 0 || t >= cs.len() {
        (group, assigned)
    } else if !assigned[cs[t] as int] && sim[t] {
        absorb(cs, sim, t + 1, group.push(cs[t]), assigned.update(cs[t] as int, true))
    } else {
        absorb(cs, sim, t + 1, group, assigned)
    }
}

/// The greedy grouping after the first `i` files: each file not yet taken
/// leads a group of the later free files similar to it; a group is kept (and
/// its leader taken) when it has a second member.
pub open spec fn grouping(sets: Seq<Seq<usize>>, similar: Seq<Seq<bool>>, i: int) -> (
    Seq<Seq<usize>>,
    Seq<bool>,
)
    decreases i,
{
    if i <= 0 {
        (Seq::empty(), Seq::new(sets.len(), |k: int| false))
    } else {
        let (gs, a) = grouping(sets, similar, i - 1);
        let k = i - 1;
        if a[k] {
            (gs, a)
        } else {
            let (g, a2) = absorb(sets[k], similar[k], 0, seq![k as usize], a);
            if g.len() > 1 {
                (gs.push(g), a2.update(k, true))
            } else {
                (gs, a2)
            }
        }
    }
}

/// File `m` is in row `leader` of the compare sets with a positive verdict.
pub open spec fn judged_similar(
    sets: Seq<Seq<usize>>,
    similar: Seq<Seq<bool>>,
    leader: int,
    m: usize,
) -> bool {
    exists|t: int| 0 <= t < sets[leader].len() && sets[leader][t] == m && similar[leader][t]
}

/// What the groups satisfy: each has a leader and at least one more member,
/// members are listed in increasing order after their leader and each is
/// judged similar to it, and no file is in two places.
pub open spec fn groups_are_valid(
    sets: Seq<Seq<usize>>,
    similar: Seq<Seq<bool>>,
    groups: Seq<Seq<usize>>,
) -> bool {
    &&& forall|g: int| 0 <= g < groups.len() ==> #[trigger] groups[g].len() >= 2
    &&& forall|g: int, k: int|
        0 <= g < groups.len() && 0 <= k < groups[g].len() ==> #[trigger] groups[g][k] < sets.len()
    &&& forall|g: int, k: int, l: int|
        0 <= g < groups.len() && 0 <= k < l < groups[g].len() ==> #[trigger] groups[g][k]
            < #[trigger] groups[g][l]
    &&& forall|g: int, k: int|
        0 <= g < groups.len() && 1 <= k < groups[g].len() ==> judged_similar(
            sets,
            similar,
            groups[g][0] as int,
            #[trigger] groups[g][k],
        )
    &&& forall|g1: int, k1: int, g2: int, k2: int|
        0 <= g1 < groups.len() && 0 <= k1 < groups[g1].len() && 0 <= g2 < groups.len() && 0 <= k2
            < groups[g2].len() && #[trigger] groups[g1][k1] == #[trigger] groups[g2][k2] ==> g1 == g2
            && k1 == k2
}

/// File `m` is a member (leader included) of one of the groups.
pub open spec fn in_some_group(groups: Seq<Seq<usize>>, m: int) -> bool {
    exists|g: int, k: int| 0 <= g < groups.len() && 0 <= k < groups[g].len() && #[trigger] groups[g][k] == m
}

/// `m` occurs in `s`.
pub open spec fn lists(s: Seq<usize>, m: int) -> bool {
    exists|q: int| 0 <= q < s.len() && #[trigger] s[q] as int == m
}

proof fn lemma_absorb(cs: Seq<usize>, sim: Seq<bool>, t: int, group: Seq<usize>, assigned: Seq<bool>)
    requires
        0 <= t <= cs.len(),
        sim.len() == cs.len(),
        forall|u: int| 0 <= u < cs.len() ==> (#[trigger] cs[u]) < assigned.len(),
        forall|u: int, v: int| 0 <= u < v < cs.len() ==> #[trigger] cs[u] < #[trigger] cs[v],
    ensures
        ({
            let (g2, a2) = absorb(cs, sim, t, group, assigned);
            &&& g2.len() >= group.len()
            &&& g2.subrange(0, group.len() as int) == group
            &&& a2.len() == assigned.len()
            &&& forall|m: int| 0 <= m < assigned.len() ==> #[trigger] a2[m] == (assigned[m]
                || lists(g2.subrange(group.len() as int, g2.len() as int), m))
            &&& forall|q: int| group.len() <= q < g2.len() ==> (#[trigger] g2[q] as int) < assigned.len()
            &&& forall|u: int| t <= u < cs.len() && !assigned[cs[u] as int] && sim[u]
                ==> lists(g2.subrange(group.len() as int, g2.len() as int), #[trigger] cs[u] as int)
        }),
    decreases cs.len() - t,
{
    if t < cs.len() {
        let c = cs[t];
        if !assigned[c as int] && sim[t] {
            let group1 = group.push(c);
            let assigned1 = assigned.update(c as int, true);
            lemma_absorb(cs, sim, t + 1, group1, assigned1);
            let (g2, a2) = absorb(cs, sim, t, group, assigned);
            assert((g2, a2) == absorb(cs, sim, t + 1, group1, assigned1));
            let ex = g2.subrange(group.len() as int, g2.len() as int);
            let ex1 = g2.subrange(group1.len() as int, g2.len() as int);
            assert(g2[group.len() as int] == g2.subrange(0, group1.len() as int)[group.len() as int]);
            assert(ex =~= seq![c] + ex1);
            assert(g2.subrange(0, group.len() as int) =~= group1.subrange(0, group.len() as int));
            assert forall|m: int| 0 <= m < assigned.len() implies #[trigger] a2[m] == (assigned[m] || lists(ex, m)) by {
                if lists(ex1, m) {
                    let q = choose|q: int| 0 <= q < ex1.len() && #[trigger] ex1[q] as int == m;
                    assert(ex[q + 1] == ex1[q]);
                }
                if lists(ex, m) && m != c as int {
                    let q = choose|q: int| 0 <= q < ex.len() && #[trigger] ex[q] as int == m;
                    assert(q > 0);
                    assert(ex1[q - 1] == ex[q]);
                }
                if m == c as int {
                    assert(ex[0] == c);
                }
            }
            assert forall|u: int| t <= u < cs.len() && !assigned[cs[u] as int] && sim[u]
                implies lists(ex, #[trigger] cs[u] as int) by {
                if u == t {
                    assert(ex[0] == c);
                } else {
                    assert(cs[t] < cs[u]);
                    assert(!assigned1[cs[u] as int]);
                    let q = choose|q: int| 0 <= q < ex1.len() && #[trigger] ex1[q] as int == cs[u] as int;
                    assert(ex[q + 1] == ex1[q]);
                }
            }
        } else {
            lemma_absorb(cs, sim, t + 1, group, assigned);
        }
    } else {
        let (g2, a2) = absorb(cs, sim, t, group, assigned);
        assert(g2.subrange(group.len() as int, g2.len() as int) =~= Seq::<usize>::empty());
        assert(g2.subrange(0, group.len() as int) =~= group);
    }
}

proof fn lemma_grouping_inv(sets: Seq<Seq<usize>>, similar: Seq<Seq<bool>>, k: int)
    requires
        is_forward_sets(sets),
        is_verdict_table(sets, similar),
        0 <= k <= sets.len(),
    ensures
        grouping(sets, similar, k).1.len() == sets.len(),
        forall|m: int| 0 <= m < sets.len() ==> #[trigger] grouping(sets, similar, k).1[m]
            == in_some_group(grouping(sets, similar, k).0, m),
    decreases k,
{
    let n = sets.len();
    if k > 0 {
        lemma_grouping_inv(sets, similar, k - 1);
        let (gs, a) = grouping(sets, similar, k - 1);
        let idx = k - 1;
        if !a[idx] {
            let cs = sets[idx];
            assert forall|u: int| 0 <= u < cs.len() implies (#[trigger] cs[u]) < a.len() by {
                assert(idx < sets[idx][u] < n);
            }
            assert forall|u: int, v: int| 0 <= u < v < cs.len() implies #[trigger] cs[u] < #[trigger] cs[v] by {
                assert(sets[idx][u] < sets[idx][v]);
            }
            assert(similar[idx].len() == cs.len());
            let g0 = seq![idx as usize];
            lemma_absorb(cs, similar[idx], 0, g0, a);
            let (g, a2) = absorb(cs, similar[idx], 0, g0, a);
            let ex = g.subrange(1, g.len() as int);
            assert(g[0] == g.subrange(0, 1)[0]);
            if g.len() > 1 {
                let gs2 = gs.push(g);
                let a3 = a2.update(idx, true);
                assert(grouping(sets, similar, k) == (gs2, a3));
                assert forall|m: int| 0 <= m < n implies #[trigger] a3[m] == in_some_group(gs2, m) by {
                    if a3[m] {
                        if m == idx {
                            assert(gs2[gs.len() as int][0] as int == m);
                        } else if a[m] {
                            let (g1, q1) = choose|g1: int, q1: int| 0 <= g1 < gs.len() && 0 <= q1 < gs[g1].len()
                                && #[trigger] gs[g1][q1] == m;
                            assert(gs2[g1][q1] == gs[g1][q1]);
                        } else {
                            assert(a2[m]);
                            let q = choose|q: int| 0 <= q < ex.len() && #[trigger] ex[q] as int == m;
                            assert(gs2[gs.len() as int][q + 1] == ex[q]);
                        }
                    }
                    if in_some_group(gs2, m) {
                        let (g1, q1) = choose|g1: int, q1: int| 0 <= g1 < gs2.len() && 0 <= q1 < gs2[g1].len()
                            && #[trigger] gs2[g1][q1] == m;
                        if g1 < gs.len() {
                            assert(gs[g1][q1] == gs2[g1][q1]);
                            assert(in_some_group(gs, m));
                        } else if q1 > 0 {
                            assert(ex[q1 - 1] == g[q1]);
                            assert(lists(ex, m));
                            assert(a2[m]);
                        }
                    }
                }
            } else {
                assert(grouping(sets, similar, k) == (gs, a2));
                assert forall|m: int| 0 <= m < n implies #[trigger] a2[m] == in_some_group(gs, m) by {
                    assert(!lists(ex, m));
                }
            }
        }
    }
}

proof fn lemma_grouping_grows(sets: Seq<Seq<usize>>, similar: Seq<Seq<bool>>, k1: int, k2: int, m: int)
    requires
        0 <= k1 <= k2,
        in_some_group(grouping(sets, similar, k1).0, m),
    ensures
        in_some_group(grouping(sets, similar, k2).0, m),
    decreases k2 - k1,
{
    if k1 < k2 {
        lemma_grouping_grows(sets, similar, k1, k2 - 1, m);
        let gs = grouping(sets, similar, k2 - 1).0;
        let gs2 = grouping(sets, similar, k2).0;
        let (g1, q1) = choose|g1: int, q1: int| 0 <= g1 < gs.len() && 0 <= q1 < gs[g1].len()
            && #[trigger] gs[g1][q1] == m;
        assert(gs2[g1][q1] == gs[g1][q1]);
    }
}

/// No two files judged similar are both left out of the groups: when file
/// `sets[i][t]` of the compare set of file `i` is judged similar to it, at
/// least one of the two ends up in a group. In particular every burst of
/// similar files that are still free forms a group, not only the first.
pub proof fn lemma_similar_files_grouped(sets: Seq<Seq<usize>>, similar: Seq<Seq<bool>>, i: int, t: int)
    requires
        is_forward_sets(sets),
        is_verdict_table(sets, similar),
        0 <= i < sets.len(),
        0 <= t < sets[i].len(),
        similar[i][t],
    ensures
        in_some_group(grouping(sets, similar, sets.len() as int).0, i)
            || in_some_group(grouping(sets, similar, sets.len() as int).0, sets[i][t] as int),
{
    let n = sets.len() as int;
    let j = sets[i][t] as int;
    assert(i < j < n);
    lemma_grouping_inv(sets, similar, i);
    let (gs, a) = grouping(sets, similar, i);
    if a[i] {
        lemma_grouping_grows(sets, similar, i, n, i);
    } else if a[j] {
        lemma_grouping_grows(sets, similar, i, n, j);
    } else {
        let cs = sets[i];
        assert forall|u: int| 0 <= u < cs.len() implies (#[trigger] cs[u]) < a.len() by {
            assert(i < sets[i][u] < n);
        }
        assert forall|u: int, v: int| 0 <= u < v < cs.len() implies #[trigger] cs[u] < #[trigger] cs[v] by {
            assert(sets[i][u] < sets[i][v]);
        }
        assert(similar[i].len() == cs.len());
        let g0 = seq![i as usize];
        lemma_absorb(cs, similar[i], 0, g0, a);
        let (g, a2) = absorb(cs, similar[i], 0, g0, a);
        assert(lists(g.subrange(1, g.len() as int), cs[t] as int));
        assert(g.len() > 1);
        assert(g[0] == g.subrange(0, 1)[0]);
        let gs2 = grouping(sets, similar, i + 1).0;
        assert(gs2 == gs.push(g));
        assert(gs2[gs.len() as int][0] as int == i);
        lemma_grouping_grows(sets, similar, i + 1, n, i);
    }
}

/// Groups burst shots and duplicates: files are taken in order; a file not
/// yet in a group collects the later files of its compare set that are free
/// and judged similar (`similar[i][t]` is the verdict on `sets[i][t]`), and
/// the collection becomes a group when it has at least two files.
pub fn group_duplicates(sets: &Vec<Vec<usize>>, similar: &Vec<Vec<bool>>) -> (groups: Vec<
    Vec<usize>,
>)
    requires
        is_forward_sets(sets@.map_values(|s: Vec<usize>| s@)),
        is_verdict_table(
            sets@.map_values(|s: Vec<usize>| s@),
            similar@.map_values(|s: Vec<bool>| s@),
        ),
    ensures
        groups@.map_values(|g: Vec<usize>| g@) == grouping(
            sets@.map_values(|s: Vec<usize>| s@),
            similar@.map_values(|s: Vec<bool>| s@),
            sets.len() as int,
        ).0,
        groups_are_valid(
            sets@.map_values(|s: Vec<usize>| s@),
            similar@.map_values(|s: Vec<bool>| s@),
            groups@.map_values(|g: Vec<usize>| g@),
        ),
{
    let ghost cs = sets@.map_values(|s: Vec<usize>| s@);
    let ghost sm = similar@.map_values(|s: Vec<bool>| s@);
    let n = sets.len();
    let mut assigned: Vec<bool> = Vec::new();
    let mut z: usize = 0;
    while z < n
        invariant
            0 <= z <= n,
            assigned@ == Seq::new(z as nat, |k: int| false),
        decreases n - z,
    {
        assigned.push(false);
        z += 1;
        assert(assigned@ =~= Seq::new(z as nat, |k: int| false));
    }
    let mut groups: Vec<Vec<usize>> = Vec::new();
    let mut i: usize = 0;
    while i < n
        invariant
            n == sets.len(),
            cs == sets@.map_values(|s: Vec<usize>| s@),
            sm == similar@.map_values(|s: Vec<bool>| s@),
            is_forward_sets(cs),
            is_verdict_table(cs, sm),
            cs.len() == n,
            0 <= i <= n,
            assigned.len() == n,
            groups@.map_values(|g: Vec<usize>| g@) == grouping(cs, sm, i as int).0,
            assigned@ == grouping(cs, sm, i as int).1,
            groups_are_valid(cs, sm, groups@.map_values(|g: Vec<usize>| g@)),
            forall|g: int, k: int|
                0 <= g < groups.len() && 0 <= k < groups@[g]@.len() ==> assigned@[#[trigger] groups@[
                    g
                ]@[k] as int],
        decreases n - i,
    {
        let ghost gv = groups@.map_values(|g: Vec<usize>| g@);
        if !assigned[i] {
            let ghost a0 = assigned@;
            let mut group: Vec<usize> = Vec::new();
            group.push(i);
            let row = &sets[i];
            let verdicts = &similar[i];
            assert(row@ == cs[i as int]);
            assert(verdicts@ == sm[i as int]);
            let mut t: usize = 0;
            while t < row.len()
                invariant
                    n == sets.len(),
                    i < n,
                    row@ == cs[i as int],
                    verdicts@ == sm[i as int],
                    verdicts.len() == row.len(),
                    is_forward_sets(cs),
                    cs.len() == n,
                    assigned.len() == n,
                    0 <= t <= row.len(),
                    absorb(cs[i as int], sm[i as int], 0, seq![i], a0) == absorb(
                        cs[i as int],
                        sm[i as int],
                        t as int,
                        group@,
                        assigned@,
                    ),
                    group.len() >= 1,
                    group@[0] == i,
                    !assigned@[i as int],
                    forall|k: int| 0 <= k < group.len() ==> #[trigger] group@[k] < n,
                    forall|k: int, l: int|
                        0 <= k < l < group.len() ==> #[trigger] group@[k] < #[trigger] group@[l],
                    t < row.len() ==> forall|k: int| 0 <= k < group.len() ==> #[trigger] group@[k]
                        < row@[t as int],
                    forall|k: int|
                        1 <= k < group.len() ==> judged_similar(cs, sm, i as int, #[trigger] group@[k]),
                    forall|k: int| 1 <= k < group.len() ==> !a0[#[trigger] group@[k] as int],
                    forall|k: int| 1 <= k < group.len() ==> assigned@[#[trigger] group@[k] as int],
                    forall|m: int| 0 <= m < n && a0[m] ==> assigned@[m],
                decreases row.len() - t,
            {
                let j = row[t];
                assert(row@[t as int] == cs[i as int][t as int]);
                assert(i < j < n);
                if !assigned[j] && verdicts[t] {
                    let ghost before = group@;
                    group.push(j);
                    assigned.set(j, true);
                    assert(group@ == before.push(j));
                    assert(judged_similar(cs, sm, i as int, j)) by {
                        assert(cs[i as int][t as int] == j && sm[i as int][t as int]);
                    }
                    assert forall|k: int| 1 <= k < group.len() implies judged_similar(
                        cs,
                        sm,
                        i as int,
                        #[trigger] group@[k],
                    ) by {
                        if k < group.len() - 1 {
                            assert(group@[k] == before[k]);
                        }
                    }
                }
                if t + 1 < row.len() {
                    assert(cs[i as int][t as int] < cs[i as int][t + 1]);
                }
                t += 1;
            }
            if group.len() > 1 {
                let ghost a1 = assigned@;
                assigned.set(i, true);
                let ghost old_groups = groups@;
                groups.push(group);
                proof {
                    let nv = groups@.map_values(|g: Vec<usize>| g@);
                    assert(nv =~= gv.push(group@));
                    assert(assigned@ =~= grouping(cs, sm, i + 1).1);
                    let gg = nv;
                    assert forall|g1: int, k1: int, g2: int, k2: int|
                        0 <= g1 < gg.len() && 0 <= k1 < gg[g1].len() && 0 <= g2 < gg.len() && 0 <= k2
                            < gg[g2].len() && #[trigger] gg[g1][k1] == #[trigger] gg[g2][k2] implies g1
                        == g2 && k1 == k2 by {
                        let last = gg.len() - 1;
                        if g1 == last && g2 != last {
                            assert(gg[g2] == old_groups[g2]@);
                            assert(a0[gg[g2][k2] as int]);
                        } else if g2 == last && g1 != last {
                            assert(gg[g1] == old_groups[g1]@);
                            assert(a0[gg[g1][k1] as int]);
                        } else if g1 == last && g2 == last {
                            if k1 < k2 {
                                assert(gg[g1][k1] < gg[g1][k2]);
                            } else if k2 < k1 {
                                assert(gg[g1][k2] < gg[g1][k1]);
                            }
                        } else {
                            assert(gg[g1] == gv[g1] && gg[g2] == gv[g2]);
                        }
                    }
                    assert forall|g: int, k: int|
                        0 <= g < groups.len() && 0 <= k < groups@[g]@.len() implies assigned@[#[trigger] groups@[
                        g
                    ]@[k] as int] by {
                        if g < groups.len() - 1 {
                            assert(groups@[g] == old_groups[g]);
                            assert(a0[old_groups[g]@[k] as int]);
                            assert(gv[g] == old_groups[g]@);
                            assert(gv[g][k] < n);
                            assert(a1[old_groups[g]@[k] as int]);
                        } else {
                            assert(groups@[g]@ == group@);
                            if k > 0 {
                                assert(a1[group@[k] as int]);
                            }
                        }
                    }
                    assert forall|g: int, k: int|
                        0 <= g < gg.len() && 1 <= k < gg[g].len() implies judged_similar(
                        cs,
                        sm,
                        gg[g][0] as int,
                        #[trigger] gg[g][k],
                    ) by {
                        if g < gg.len() - 1 {
                            assert(gg[g] == gv[g]);
                        }
                    }
                    assert(groups_are_valid(cs, sm, gg));
                }
            } else {
                proof {
                    assert forall|g: int, k: int|
                        0 <= g < groups.len() && 0 <= k < groups@[g]@.len() implies assigned@[#[trigger] groups@[
                        g
                    ]@[k] as int] by {
                        assert(a0[groups@[g]@[k] as int]);
                        assert(gv[g] == groups@[g]@);
                        assert(gv[g][k] < n);
                    }
                }
            }
        }
        i += 1;
    }
    groups
}

/// For each of `n` files, the index of the group that holds it.
pub fn group_assignment(n: usize, groups: &Vec<Vec<usize>>) -> (r: Vec<Option<u32>>)
    requires
        groups.len() <= u32::MAX,
        forall|g: int, k: int|
            0 <= g < groups.len() && 0 <= k < groups@[g]@.len() ==> #[trigger] groups@[g]@[k] < n,
        forall|g1: int, k1: int, g2: int, k2: int|
            0 <= g1 < groups.len() && 0 <= k1 < groups@[g1]@.len() && 0 <= g2 < groups.len() && 0
                <= k2 < groups@[g2]@.len() && #[trigger] groups@[g1]@[k1] == #[trigger] groups@[g2]@[k2]
                ==> g1 == g2,
    ensures
        r.len() == n,
        forall|g: int, k: int|
            0 <= g < groups.len() && 0 <= k < groups@[g]@.len() ==> r@[#[trigger] groups@[g]@[k] as int]
                == Some(g as u32),
        forall|m: int|
            0 <= m < n && (forall|g: int| 0 <= g < groups.len() ==> !(#[trigger] groups@[g]@).contains(
                m as usize,
            )) ==> r@[m] is None,
{
    let mut r: Vec<Option<u32>> = Vec::new();
    let mut z: usize = 0;
    while z < n
        invariant
            0 <= z <= n,
            r@ == Seq::new(z as nat, |k: int| None::<u32>),
        decreases n - z,
    {
        r.push(None);
        z += 1;
        assert(r@ =~= Seq::new(z as nat, |k: int| None::<u32>));
    }
    let mut g: usize = 0;
    while g < groups.len()
        invariant
            0 <= g <= groups.len(),
            groups.len() <= u32::MAX,
            r.len() == n,
            forall|a: int, k: int|
                0 <= a < groups.len() && 0 <= k < groups@[a]@.len() ==> #[trigger] groups@[a]@[k] < n,
            forall|g1: int, k1: int, g2: int, k2: int|
                0 <= g1 < groups.len() && 0 <= k1 < groups@[g1]@.len() && 0 <= g2 < groups.len() && 0
                    <= k2 < groups@[g2]@.len() && #[trigger] groups@[g1]@[k1] == #[trigger] groups@[g2]@[k2]
                    ==> g1 == g2,
            forall|a: int, k: int|
                0 <= a < g && 0 <= k < groups@[a]@.len() ==> r@[#[trigger] groups@[a]@[k] as int]
                    == Some(a as u32),
            forall|m: int|
                0 <= m < n && (forall|a: int| 0 <= a < g ==> !(#[trigger] groups@[a]@).contains(
                    m as usize,
                )) ==> r@[m] is None,
        decreases groups.len() - g,
    {
        let members = &groups[g];
        let mut k: usize = 0;
        while k < members.len()
            invariant
                0 <= g < groups.len(),
                groups.len() <= u32::MAX,
                members@ == groups@[g as int]@,
                0 <= k <= members.len(),
                r.len() == n,
                forall|a: int, l: int|
                    0 <= a < groups.len() && 0 <= l < groups@[a]@.len() ==> #[trigger] groups@[a]@[l] < n,
                forall|g1: int, k1: int, g2: int, k2: int|
                    0 <= g1 < groups.len() && 0 <= k1 < groups@[g1]@.len() && 0 <= g2 < groups.len() && 0
                        <= k2 < groups@[g2]@.len() && #[trigger] groups@[g1]@[k1]
                        == #[trigger] groups@[g2]@[k2] ==> g1 == g2,
                forall|a: int, l: int|
                    0 <= a < g && 0 <= l < groups@[a]@.len() ==> r@[#[trigger] groups@[a]@[l] as int]
                        == Some(a as u32),
                forall|l: int| 0 <= l < k ==> r@[#[trigger] members@[l] as int] == Some(g as u32),
                forall|m: int|
                    0 <= m < n && (forall|a: int| 0 <= a < g ==> !(#[trigger] groups@[a]@).contains(
                        m as usize,
                    )) && !members@.take(k as int).contains(m as usize) ==> r@[m] is None,
            decreases members.len() - k,
        {
            let m = members[k];
            assert(m < n);
            r.set(m, Some(g as u32));
            proof {
                assert forall|m2: int|
                    0 <= m2 < n && (forall|a: int| 0 <= a < g ==> !(#[trigger] groups@[a]@).contains(
                        m2 as usize,
                    )) && !members@.take(k + 1).contains(m2 as usize) implies r@[m2] is None by {
                    assert(members@.take(k + 1)[k as int] == m);
                    if members@.take(k as int).contains(m2 as usize) {
                        let q = choose|q: int| 0 <= q < k && members@.take(k as int)[q] == m2 as usize;
                        assert(members@.take(k + 1)[q] == m2 as usize);
                    }
                }
                assert forall|a: int, l: int|
                    0 <= a < g && 0 <= l < groups@[a]@.len() implies r@[#[trigger] groups@[a]@[l] as int]
                    == Some(a as u32) by {
                    if groups@[a]@[l] == m {
                        assert(groups@[a]@[l] == groups@[g as int]@[k as int]);
                    }
                }
            }
            k += 1;
        }
        proof {
            assert(members@.take(members.len() as int) =~= members@);
            assert forall|m: int|
                0 <= m < n && (forall|a: int| 0 <= a < g + 1 ==> !(#[trigger] groups@[a]@).contains(
                    m as usize,
                )) implies r@[m] is None by {
                assert(!groups@[g as int]@.contains(m as usize));
            }
        }
        g += 1;
    }
    r
}

} // verus!
