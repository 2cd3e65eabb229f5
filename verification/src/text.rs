//! Character-level text utilities: conversions between `String` and
//! character vectors, substring replacement, trimming, number formatting
//! and byte-wise ordering of strings.

use vstd::prelude::*;

verus! {

/// Collects the characters of `s` into a vector.
pub fn chars_of(s: &str) -> (v: Vec<char>)
    ensures
        v@ == s@,
{
    let mut v: Vec<char> = Vec::new();
    for c in it: s.chars()
        invariant
            v@ == it.seq().take(it.index() as int),
            it.seq() == s@,
    {
        v.push(c);
    }
    v
}

/// Builds a `String` from a slice of characters.
///
/// Trusted: std's `FromIterator<&char> for String` appends the characters in
/// iteration order, so the string holds exactly the characters of `v`.
#[verifier::external_body]
pub(crate) fn string_of(v: &[char]) -> (s: String)
    ensures
        s@ == v@,
{
    v.iter().collect()
}

/// A name for what std's `str::to_lowercase` returns: the full Unicode
/// lowercase mapping of a string (special casing included).
pub uninterp spec fn unicode_lowercase(s: Seq<char>) -> Seq<char>;

/// Lowercases a string with std's `str::to_lowercase`.
///
/// Trusted: the result is `unicode_lowercase` of the argument; nothing more is
/// claimed, the mapping is the one of std's Unicode tables.
#[verifier::external_body]
pub(crate) fn to_lowercase(s: &str) -> (r: String)
    ensures
        r@ == unicode_lowercase(s@),
{
    s.to_lowercase()
}

/// The `White_Space` property of Unicode, which std's `char::is_whitespace`
/// (and therefore `str::trim`) tests.
pub open spec fn is_white_space(c: char) -> bool {
    let u = c as u32;
    (0x9 <= u && u <= 0xD) || u == 0x20 || u == 0x85 || u == 0xA0 || u == 0x1680 || (0x2000 <= u
        && u <= 0x200A) || u == 0x2028 || u == 0x2029 || u == 0x202F || u == 0x205F || u == 0x3000
}

/// Executable test of [`is_white_space`].
pub fn white_space(c: char) -> (b: bool)
    ensures
        b == is_white_space(c),
{
    let u = c as u32;
    (0x9 <= u && u <= 0xD) || u == 0x20 || u == 0x85 || u == 0xA0 || u == 0x1680 || (0x2000 <= u
        && u <= 0x200A) || u == 0x2028 || u == 0x2029 || u == 0x202F || u == 0x205F || u == 0x3000
}

/// `s` without its leading white space.
pub open spec fn trim_start(s: Seq<char>) -> Seq<char>
    decreases s.len(),
{
    if s.len() > 0 && is_white_space(s[0]) {
        trim_start(s.drop_first())
    } else {
        s
    }
}

/// `s` without its trailing white space.
pub open spec fn trim_end(s: Seq<char>) -> Seq<char>
    decreases s.len(),
{
    if s.len() > 0 && is_white_space(s.last()) {
        trim_end(s.drop_last())
    } else {
        s
    }
}

/// What std's `str::trim` returns: `s` without leading and trailing white space.
pub open spec fn trim(s: Seq<char>) -> Seq<char> {
    trim_end(trim_start(s))
}

proof fn lemma_trim_start_skip(s: Seq<char>, i: int)
    requires
        0 <= i <= s.len(),
        forall|k: int| 0 <= k < i ==> is_white_space(#[trigger] s[k]),
    ensures
        trim_start(s) == trim_start(s.skip(i)),
    decreases i,
{
    if i > 0 {
        assert(s.skip(1) =~= s.drop_first());
        lemma_trim_start_skip(s.drop_first(), i - 1);
        assert(s.drop_first().skip(i - 1) =~= s.skip(i));
    } else {
        assert(s.skip(0) =~= s);
    }
}

proof fn lemma_trim_end_take(s: Seq<char>, j: int)
    requires
        0 <= j <= s.len(),
        forall|k: int| j <= k < s.len() ==> is_white_space(#[trigger] s[k]),
    ensures
        trim_end(s) == trim_end(s.take(j)),
    decreases s.len() - j,
{
    if j < s.len() {
        lemma_trim_end_take(s.drop_last(), j);
        assert(s.drop_last().take(j) =~= s.take(j));
    } else {
        assert(s.take(j) =~= s);
    }
}

/// Removes leading and trailing white space, as std's `str::trim` does.
pub fn trim_chars(s: &Vec<char>) -> (r: Vec<char>)
    ensures
        r@ == trim(s@),
{
    let n = s.len();
    let mut i: usize = 0;
    while i < n && white_space(s[i])
        invariant
            n == s.len(),
            0 <= i <= n,
            forall|k: int| 0 <= k < i ==> is_white_space(#[trigger] s@[k]),
        decreases n - i,
    {
        i += 1;
    }
    proof {
        lemma_trim_start_skip(s@, i as int);
    }
    let ghost t = s@.skip(i as int);
    if i == n {
        assert(t.len() == 0);
        assert(trim_start(t) =~= t);
        return Vec::new();
    }
    assert(!is_white_space(t[0]));
    assert(trim_start(t) == t);
    let mut j: usize = n;
    while j > i && white_space(s[j - 1])
        invariant
            n == s.len(),
            i < n,
            i <= j <= n,
            !is_white_space(s@[i as int]),
            forall|k: int| j <= k < n ==> is_white_space(#[trigger] s@[k]),
        decreases j,
    {
        j -= 1;
    }
    let mut r: Vec<char> = Vec::new();
    let mut k: usize = i;
    while k < j
        invariant
            i <= k <= j <= n,
            n == s.len(),
            r@ == s@.subrange(i as int, k as int),
        decreases j - k,
    {
        r.push(s[k]);
        k += 1;
    }
    proof {
        assert forall|m: int| (j - i) <= m < t.len() implies is_white_space(#[trigger] t[m]) by {
            assert(t[m] == s@[m + i]);
        }
        lemma_trim_end_take(t, j - i);
        let u = t.take(j - i);
        assert(u =~= s@.subrange(i as int, j as int));
        assert(u.len() > 0);
        assert(u.last() == s@[j - 1]);
        assert(trim_end(u) == u);
    }
    r
}

/// What std's `str::replace` returns for a non-empty pattern: every
/// non-overlapping occurrence of `pat`, scanning from the left, replaced by
/// `rep`.
pub open spec fn replace_all(s: Seq<char>, pat: Seq<char>, rep: Seq<char>) -> Seq<char>
    recommends
        pat.len() > 0,
    decreases s.len(),
{
    if s.len() == 0 || pat.len() == 0 {
        s
    } else if pat.len() <= s.len() && s.take(pat.len() as int) == pat {
        rep + replace_all(s.skip(pat.len() as int), pat, rep)
    } else {
        seq![s[0]] + replace_all(s.drop_first(), pat, rep)
    }
}

fn matches_at(s: &Vec<char>, i: usize, pat: &Vec<char>) -> (b: bool)
    requires
        i <= s.len(),
    ensures
        b == (pat.len() <= s.len() - i && s@.skip(i as int).take(pat.len() as int) == pat@),
{
    if pat.len() > s.len() - i {
        return false;
    }
    let mut k: usize = 0;
    while k < pat.len()
        invariant
            pat.len() <= s.len() - i,
            0 <= k <= pat.len(),
            forall|m: int| 0 <= m < k ==> s@[i + m] == pat@[m],
        decreases pat.len() - k,
    {
        if s[i + k] != pat[k] {
            assert(s@.skip(i as int).take(pat.len() as int)[k as int] != pat@[k as int]);
            return false;
        }
        k += 1;
    }
    assert(s@.skip(i as int).take(pat.len() as int) =~= pat@);
    true
}

/// Replaces every non-overlapping occurrence of the non-empty `pat`, scanning
/// from the left, by `rep`.
pub fn replace_chars(s: &Vec<char>, pat: &Vec<char>, rep: &Vec<char>) -> (r: Vec<char>)
    requires
        pat.len() > 0,
    ensures
        r@ == replace_all(s@, pat@, rep@),
{
    let mut out: Vec<char> = Vec::new();
    let mut i: usize = 0;
    assert(s@.skip(0) =~= s@);
    while i < s.len()
        invariant
            0 <= i <= s.len(),
            pat.len() > 0,
            out@ + replace_all(s@.skip(i as int), pat@, rep@) == replace_all(s@, pat@, rep@),
        decreases s.len() - i,
    {
        let ghost rest = s@.skip(i as int);
        if matches_at(s, i, pat) {
            let mut k: usize = 0;
            let ghost before = out@;
            while k < rep.len()
                invariant
                    0 <= k <= rep.len(),
                    out@ == before + rep@.take(k as int),
                decreases rep.len() - k,
            {
                out.push(rep[k]);
                k += 1;
                assert(rep@.take(k as int) =~= rep@.take(k - 1) + seq![rep@[k - 1]]);
            }
            assert(rep@.take(rep.len() as int) =~= rep@);
            assert(rest.skip(pat.len() as int) =~= s@.skip(i + pat.len()));
            assert(replace_all(rest, pat@, rep@) == rep@ + replace_all(
                rest.skip(pat.len() as int),
                pat@,
                rep@,
            ));
            assert(out@ + replace_all(s@.skip(i + pat.len()), pat@, rep@) =~= before + (rep@
                + replace_all(s@.skip(i + pat.len()), pat@, rep@)));
            i += pat.len();
        } else {
            let ghost before = out@;
            out.push(s[i]);
            assert(rest.drop_first() =~= s@.skip(i + 1));
            assert(rest[0] == s@[i as int]);
            assert(out@ + replace_all(s@.skip(i + 1), pat@, rep@) =~= before + (seq![rest[0]]
                + replace_all(rest.drop_first(), pat@, rep@)));
            i += 1;
        }
    }
    assert(s@.skip(s.len() as int).len() == 0);
    assert(out@ + replace_all(s@.skip(i as int), pat@, rep@) =~= out@);
    out
}


/// Appends the characters of `s` to `out`.
pub fn push_all(out: &mut Vec<char>, s: &Vec<char>)
    ensures
        final(out)@ == old(out)@ + s@,
{
    let ghost before = out@;
    let mut k: usize = 0;
    while k < s.len()
        invariant
            0 <= k <= s.len(),
            out@ == before + s@.take(k as int),
        decreases s.len() - k,
    {
        out.push(s[k]);
        k += 1;
        assert(s@.take(k as int) =~= s@.take(k - 1) + seq![s@[k - 1]]);
    }
    assert(s@.take(s.len() as int) =~= s@);
}

/// The lowercase hexadecimal digit of `d` (`d < 16`); its first ten values
/// are also the decimal digits.
pub open spec fn digit_char(d: int) -> char {
    if d < 10 {
        (d + 48) as char
    } else {
        (d + 87) as char
    }
}

fn digit_of(d: u64) -> (c: char)
    requires
        d < 16,
    ensures
        c == digit_char(d as int),
{
    if d < 10 {
        ((d as u8) + 48) as char
    } else {
        ((d as u8) + 87) as char
    }
}

/// The decimal representation of `n`, as `format!("{}", n)` writes it.
pub open spec fn decimal(n: nat) -> Seq<char>
    decreases n,
{
    if n < 10 {
        seq![digit_char(n as int)]
    } else {
        decimal(n / 10).push(digit_char((n % 10) as int))
    }
}

/// Left-pads `s` with `'0'` up to `width` characters, as the `{:0width}`
/// format does for a non-negative number.
pub open spec fn zero_pad(s: Seq<char>, width: nat) -> Seq<char> {
    if s.len() >= width {
        s
    } else {
        Seq::new((width - s.len()) as nat, |i: int| '0') + s
    }
}

/// The last `k` hexadecimal digits of `n`, most significant first; for
/// `k == 16` and a `u64` this is what `format!("{:016x}", n)` writes.
pub open spec fn hex_fixed(n: nat, k: nat) -> Seq<char>
    decreases k,
{
    if k == 0 {
        Seq::empty()
    } else {
        hex_fixed(n / 16, (k - 1) as nat).push(digit_char((n % 16) as int))
    }
}

/// Two lowercase hexadecimal digits per byte, as the `{:x}` format of a
/// byte array writes them.
pub open spec fn hex_bytes(b: Seq<u8>) -> Seq<char>
    decreases b.len(),
{
    if b.len() == 0 {
        Seq::empty()
    } else {
        hex_bytes(b.drop_last()) + seq![
            digit_char((b.last() / 16) as int),
            digit_char((b.last() % 16) as int),
        ]
    }
}

/// Writes `n` in decimal.
pub fn decimal_chars(n: u64) -> (r: Vec<char>)
    ensures
        r@ == decimal(n as nat),
    decreases n,
{
    if n < 10 {
        let mut v: Vec<char> = Vec::new();
        v.push(digit_of(n));
        v
    } else {
        let mut v = decimal_chars(n / 10);
        v.push(digit_of(n % 10));
        v
    }
}

/// Writes `n` in decimal, left-padded with zeros to `width` characters.
pub fn zero_padded(n: u64, width: usize) -> (r: Vec<char>)
    ensures
        r@ == zero_pad(decimal(n as nat), width as nat),
{
    let d = decimal_chars(n);
    if d.len() >= width {
        return d;
    }
    let mut r: Vec<char> = Vec::new();
    let pad = width - d.len();
    let mut k: usize = 0;
    while k < pad
        invariant
            0 <= k <= pad,
            r@ == Seq::new(k as nat, |i: int| '0'),
        decreases pad - k,
    {
        r.push('0');
        k += 1;
        assert(r@ =~= Seq::new(k as nat, |i: int| '0'));
    }
    push_all(&mut r, &d);
    r
}

/// Writes the last `k` hexadecimal digits of `n`.
pub fn hex_fixed_chars(n: u64, k: usize) -> (r: Vec<char>)
    ensures
        r@ == hex_fixed(n as nat, k as nat),
    decreases k,
{
    if k == 0 {
        Vec::new()
    } else {
        let mut v = hex_fixed_chars(n / 16, k - 1);
        v.push(digit_of(n % 16));
        v
    }
}

/// Writes each byte as two lowercase hexadecimal digits.
pub fn hex_of_bytes(b: &[u8]) -> (r: Vec<char>)
    ensures
        r@ == hex_bytes(b@),
{
    let mut r: Vec<char> = Vec::new();
    let mut k: usize = 0;
    while k < b.len()
        invariant
            0 <= k <= b.len(),
            r@ == hex_bytes(b@.take(k as int)),
        decreases b.len() - k,
    {
        let x = b[k];
        r.push(digit_of((x / 16) as u64));
        r.push(digit_of((x % 16) as u64));
        k += 1;
        assert(b@.take(k as int).drop_last() =~= b@.take(k - 1));
    }
    assert(b@.take(b.len() as int) =~= b@);
    r
}

/// Strict lexicographic order of byte strings, which is how std orders
/// `str` and `String` values.
pub open spec fn bytes_lt(a: Seq<u8>, b: Seq<u8>) -> bool
    decreases a.len(),
{
    if a.len() == 0 {
        b.len() > 0
    } else if b.len() == 0 {
        false
    } else if a[0] != b[0] {
        a[0] < b[0]
    } else {
        bytes_lt(a.drop_first(), b.drop_first())
    }
}

/// `bytes_lt` is a strict total order.
pub proof fn lemma_bytes_lt_order(a: Seq<u8>, b: Seq<u8>, c: Seq<u8>)
    ensures
        !bytes_lt(a, a),
        a != b ==> (bytes_lt(a, b) || bytes_lt(b, a)),
        bytes_lt(a, b) ==> !bytes_lt(b, a),
        bytes_lt(a, b) && bytes_lt(b, c) ==> bytes_lt(a, c),
    decreases a.len(),
{
    if a.len() > 0 && b.len() > 0 && c.len() > 0 {
        lemma_bytes_lt_order(a.drop_first(), b.drop_first(), c.drop_first());
        if a != b && a[0] == b[0] {
            assert(a =~= seq![a[0]] + a.drop_first());
            assert(b =~= seq![b[0]] + b.drop_first());
        }
    } else if a.len() > 0 && b.len() > 0 {
        lemma_bytes_lt_order(a.drop_first(), b.drop_first(), b.drop_first());
        if a != b && a[0] == b[0] {
            assert(a =~= seq![a[0]] + a.drop_first());
            assert(b =~= seq![b[0]] + b.drop_first());
        }
    } else if a.len() > 0 {
        lemma_bytes_lt_order(a.drop_first(), a.drop_first(), a.drop_first());
    } else if b.len() == 0 {
        assert(a =~= b);
    }
}

/// Compares two byte strings in lexicographic order.
pub fn bytes_less(a: &[u8], b: &[u8]) -> (r: bool)
    ensures
        r == bytes_lt(a@, b@),
{
    let mut i: usize = 0;
    assert(a@.skip(0) =~= a@ && b@.skip(0) =~= b@);
    while i < a.len() && i < b.len() && a[i] == b[i]
        invariant
            0 <= i <= a.len(),
            i <= b.len(),
            bytes_lt(a@, b@) == bytes_lt(a@.skip(i as int), b@.skip(i as int)),
        decreases a.len() - i,
    {
        assert(a@.skip(i as int).drop_first() =~= a@.skip(i + 1));
        assert(b@.skip(i as int).drop_first() =~= b@.skip(i + 1));
        i += 1;
    }
    if i == a.len() {
        i < b.len()
    } else if i == b.len() {
        false
    } else {
        a[i] < b[i]
    }
}

/// Index `x` comes before index `y` in a stable sort by `keys`: its key is
/// smaller, or the keys are equal and `x` came first.
pub open spec fn sorts_before(keys: Seq<Seq<u8>>, x: int, y: int) -> bool {
    bytes_lt(keys[x], keys[y]) || (keys[x] == keys[y] && x < y)
}

/// `perm` lists each index of `keys` once, in the order of a stable sort by key.
pub open spec fn is_stable_order(keys: Seq<Seq<u8>>, perm: Seq<usize>) -> bool {
    &&& perm.len() == keys.len()
    &&& forall|i: int| 0 <= i < perm.len() ==> #[trigger] perm[i] < keys.len()
    &&& forall|i: int, j: int|
        0 <= i < j < perm.len() ==> sorts_before(keys, #[trigger] perm[i] as int, #[trigger] perm[j] as int)
}

/// The indices of `keys` in the order of a stable sort by key (what
/// `sort_by` with byte-wise comparison of the keys produces).
pub fn stable_order(keys: &Vec<Vec<u8>>) -> (perm: Vec<usize>)
    ensures
        is_stable_order(keys@.map_values(|k: Vec<u8>| k@), perm@),
{
    let ghost ks = keys@.map_values(|k: Vec<u8>| k@);
    let mut perm: Vec<usize> = Vec::new();
    let mut m: usize = 0;
    while m < keys.len()
        invariant
            0 <= m <= keys.len(),
            ks == keys@.map_values(|k: Vec<u8>| k@),
            perm.len() == m,
            forall|i: int| 0 <= i < perm.len() ==> #[trigger] perm@[i] < m,
            forall|i: int, j: int|
                0 <= i < j < perm.len() ==> sorts_before(ks, #[trigger] perm@[i] as int, #[trigger] perm@[j] as int),
        decreases keys.len() - m,
    {
        let mut j: usize = perm.len();
        while j > 0 && bytes_less(keys[m].as_slice(), keys[perm[j - 1]].as_slice())
            invariant
                0 <= j <= perm.len(),
                perm.len() == m,
                m < keys.len(),
                ks == keys@.map_values(|k: Vec<u8>| k@),
                forall|i: int| 0 <= i < perm.len() ==> #[trigger] perm@[i] < m,
                forall|q: int| j <= q < perm.len() ==> bytes_lt(ks[m as int], #[trigger] ks[perm@[q] as int]),
            decreases j,
        {
            j -= 1;
        }
        let ghost old_perm = perm@;
        proof {
            assert forall|q: int| 0 <= q < j implies sorts_before(ks, #[trigger] old_perm[q] as int, m as int) by {
                let x = old_perm[q] as int;
                let y = old_perm[j - 1] as int;
                lemma_bytes_lt_order(ks[m as int], ks[y], ks[x]);
                lemma_bytes_lt_order(ks[x], ks[y], ks[m as int]);
                if q < j - 1 {
                    assert(sorts_before(ks, old_perm[q] as int, old_perm[j - 1] as int));
                }
            }
        }
        perm.insert(j, m);
        proof {
            assert forall|i: int, k: int| 0 <= i < k < perm.len() implies sorts_before(ks, #[trigger] perm@[i] as int, #[trigger] perm@[k] as int) by {
                if i < j && k < j {
                    assert(perm@[i] == old_perm[i] && perm@[k] == old_perm[k]);
                } else if i < j && k == j {
                } else if i < j {
                    assert(perm@[i] == old_perm[i] && perm@[k] == old_perm[k - 1]);
                    assert(sorts_before(ks, old_perm[i] as int, old_perm[k - 1] as int));
                } else if i == j {
                    assert(perm@[k] == old_perm[k - 1]);
                    assert(bytes_lt(ks[m as int], ks[old_perm[k - 1] as int]));
                } else {
                    assert(perm@[i] == old_perm[i - 1] && perm@[k] == old_perm[k - 1]);
                }
            }
        }
        m += 1;
    }
    perm
}

} // verus!
