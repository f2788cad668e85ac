//! Byte-level scanning primitives: substring search, delimiter splitting,
//! suffix tests, and decimal parsing. Log records are handled as raw bytes,
//! so these are the foundation of the classifier.
use vstd::prelude::*;

verus! {

/// `pat` occurs in `hay` starting at index `i`.
pub open spec fn matches_at(hay: Seq<u8>, pat: Seq<u8>, i: int) -> bool {
    0 <= i && i + pat.len() <= hay.len() && hay.subrange(i, i + pat.len() as int) == pat
}

/// `pat` occurs somewhere in `hay`.
pub open spec fn contains_seq(hay: Seq<u8>, pat: Seq<u8>) -> bool {
    exists|i: int| matches_at(hay, pat, i)
}

/// `pat` occurs in `hay` at some index not below `start`.
pub open spec fn contains_from(hay: Seq<u8>, pat: Seq<u8>, start: int) -> bool {
    exists|i: int| start <= i && matches_at(hay, pat, i)
}

/// `i` is the first occurrence of `pat` in `hay`.
pub open spec fn is_first_at(hay: Seq<u8>, pat: Seq<u8>, i: int) -> bool {
    matches_at(hay, pat, i) && forall|j: int| 0 <= j < i ==> !matches_at(hay, pat, j)
}

/// Index of the first occurrence of `pat` in `hay`; meaningful only when
/// `contains_seq(hay, pat)` holds.
pub open spec fn first_ix(hay: Seq<u8>, pat: Seq<u8>) -> int {
    choose|i: int| is_first_at(hay, pat, i)
}

/// `pat` occurs at two distinct places in `hay`.
pub open spec fn occurs_twice(hay: Seq<u8>, pat: Seq<u8>) -> bool {
    exists|i: int, j: int| i < j && matches_at(hay, pat, i) && matches_at(hay, pat, j)
}

/// Among the indices at which `pat` matches, there is a least one.
proof fn lemma_min_match(hay: Seq<u8>, pat: Seq<u8>, i: int)
    requires
        matches_at(hay, pat, i),
    ensures
        is_first_at(hay, pat, first_ix(hay, pat)),
    decreases i,
{
    if forall|j: int| 0 <= j < i ==> !matches_at(hay, pat, j) {
        assert(is_first_at(hay, pat, i));
    } else {
        let j = choose|j: int| 0 <= j < i && matches_at(hay, pat, j);
        lemma_min_match(hay, pat, j);
    }
}

/// A first occurrence is unique, and `first_ix` names it.
pub proof fn lemma_first_ix(hay: Seq<u8>, pat: Seq<u8>, i: int)
    requires
        is_first_at(hay, pat, i),
    ensures
        first_ix(hay, pat) == i,
{
    lemma_min_match(hay, pat, i);
    let m = first_ix(hay, pat);
    if m < i {
        assert(matches_at(hay, pat, m));
    }
    if i < m {
        assert(matches_at(hay, pat, i));
    }
}

/// Occurrences in a suffix of `hay` are occurrences in `hay`, shifted.
pub proof fn lemma_matches_shift(hay: Seq<u8>, pat: Seq<u8>, k: int, j: int)
    requires
        0 <= k <= hay.len(),
        0 <= j,
    ensures
        matches_at(hay.skip(k), pat, j) <==> matches_at(hay, pat, k + j),
{
    if j + pat.len() <= hay.skip(k).len() {
        assert(hay.skip(k).subrange(j, j + pat.len() as int)
            =~= hay.subrange(k + j, k + j + pat.len() as int));
    }
}

/// Whether `pat` occurs in `hay` at exactly the index `i`.
fn eq_at(hay: &[u8], pat: &[u8], i: usize) -> (r: bool)
    requires
        i + pat@.len() <= hay@.len(),
    ensures
        r == matches_at(hay@, pat@, i as int),
{
    let n = hay.len();
    let mut k: usize = 0;
    while k < pat.len()
        invariant
            n == hay@.len(),
            0 <= k <= pat@.len(),
            i + pat@.len() <= hay@.len(),
            forall|t: int| 0 <= t < k ==> hay@[i + t] == pat@[t],
        decreases pat@.len() - k,
    {
        if hay[i + k] != pat[k] {
            proof {
                if matches_at(hay@, pat@, i as int) {
                    assert(hay@.subrange(i as int, i + pat@.len() as int)[k as int]
                        == pat@[k as int]);
                    assert(false);
                }
            }
            return false;
        }
        k = k + 1;
    }
    proof {
        assert(hay@.subrange(i as int, i + pat@.len() as int) =~= pat@);
    }
    true
}

/// Index of the first occurrence of `pat` in `hay`, or `None` when `pat`
/// does not occur.
pub fn find_sub(hay: &[u8], pat: &[u8]) -> (r: Option<usize>)
    ensures
        match r {
            Some(i) => is_first_at(hay@, pat@, i as int) && i as int == first_ix(hay@, pat@),
            None => !contains_seq(hay@, pat@),
        },
{
    if pat.len() == 0 {
        proof {
            assert(hay@.subrange(0, 0) =~= pat@);
            lemma_first_ix(hay@, pat@, 0);
        }
        return Some(0);
    }
    if pat.len() > hay.len() {
        return None;
    }
    let n = hay.len();
    let last = hay.len() - pat.len();
    let mut i: usize = 0;
    while i <= last
        invariant
            n == hay@.len(),
            1 <= pat@.len() <= hay@.len(),
            last == hay@.len() - pat@.len(),
            0 <= i <= last + 1,
            forall|j: int| 0 <= j < i ==> !matches_at(hay@, pat@, j),
        decreases last + 1 - i,
    {
        if eq_at(hay, pat, i) {
            proof {
                lemma_first_ix(hay@, pat@, i as int);
            }
            return Some(i);
        }
        i = i + 1;
    }
    proof {
        assert forall|j: int| !matches_at(hay@, pat@, j) by {
            if i <= j {
                assert(j + pat@.len() > hay@.len());
            }
        }
    }
    None
}

/// Whether `pat` occurs in `hay`.
pub fn contains_sub(hay: &[u8], pat: &[u8]) -> (r: bool)
    ensures
        r == contains_seq(hay@, pat@),
{
    find_sub(hay, pat).is_some()
}

/// Whether `pat` occurs at two distinct places in `hay`.
pub fn contains_twice(hay: &[u8], pat: &[u8]) -> (r: bool)
    ensures
        r == occurs_twice(hay@, pat@),
{
    match find_sub(hay, pat) {
        None => {
            proof {
                if occurs_twice(hay@, pat@) {
                    let (a, b) = choose|a: int, b: int|
                        a < b && matches_at(hay@, pat@, a) && matches_at(hay@, pat@, b);
                    assert(contains_seq(hay@, pat@));
                }
            }
            false
        },
        Some(i) => {
            if i >= hay.len() {
                // Only an empty pattern first matches at the very end, and an
                // empty pattern always also matches at index zero: a second
                // match needs a nonempty haystack.
                proof {
                    if occurs_twice(hay@, pat@) {
                        let (a, b) = choose|a: int, b: int|
                            a < b && matches_at(hay@, pat@, a) && matches_at(hay@, pat@, b);
                        assert(0 <= a < b);
                        assert(b + pat@.len() <= hay@.len());
                        assert(i as int <= a);
                        assert(false);
                    }
                }
                return false;
            }
            let rest = vstd::slice::slice_subrange(hay, i + 1, hay.len());
            let again = contains_sub(rest, pat);
            proof {
                if again {
                    let j = choose|j: int| matches_at(rest@, pat@, j);
                    lemma_matches_shift(hay@, pat@, i + 1, j);
                    assert(matches_at(hay@, pat@, i + 1 + j));
                    assert(occurs_twice(hay@, pat@));
                } else {
                    if occurs_twice(hay@, pat@) {
                        let (a, b) = choose|a: int, b: int|
                            a < b && matches_at(hay@, pat@, a) && matches_at(hay@, pat@, b);
                        assert(i as int <= a);
                        assert(i + 1 <= b);
                        lemma_matches_shift(hay@, pat@, i + 1, b - (i + 1));
                        assert(matches_at(rest@, pat@, b - (i + 1)));
                        assert(false);
                    }
                }
            }
            again
        },
    }
}

/// `pat` occurs at or after `start` exactly when it occurs in the suffix.
pub proof fn lemma_contains_from_skip(hay: Seq<u8>, pat: Seq<u8>, e: int)
    requires
        0 <= e <= hay.len(),
    ensures
        contains_seq(hay.skip(e), pat) <==> contains_from(hay, pat, e),
{
    if contains_seq(hay.skip(e), pat) {
        let j = choose|j: int| matches_at(hay.skip(e), pat, j);
        lemma_matches_shift(hay, pat, e, j);
        assert(matches_at(hay, pat, e + j));
    }
    if contains_from(hay, pat, e) {
        let i = choose|i: int| e <= i && matches_at(hay, pat, i);
        lemma_matches_shift(hay, pat, e, i - e);
        assert(matches_at(hay.skip(e), pat, i - e));
    }
}

/// Whether two byte strings are equal.
pub fn bytes_eq(a: &[u8], b: &[u8]) -> (r: bool)
    ensures
        r == (a@ == b@),
{
    if a.len() != b.len() {
        proof {
            assert(a@ != b@);
        }
        return false;
    }
    let mut k: usize = 0;
    while k < a.len()
        invariant
            a@.len() == b@.len(),
            0 <= k <= a@.len(),
            forall|t: int| 0 <= t < k ==> a@[t] == b@[t],
        decreases a@.len() - k,
    {
        if a[k] != b[k] {
            return false;
        }
        k = k + 1;
    }
    proof {
        assert(a@ =~= b@);
    }
    true
}

/// Copies a byte string into an owned vector.
pub fn to_vec(s: &[u8]) -> (r: Vec<u8>)
    ensures
        r@ == s@,
{
    let mut r: Vec<u8> = Vec::new();
    let mut i: usize = 0;
    while i < s.len()
        invariant
            0 <= i <= s@.len(),
            r@ == s@.take(i as int),
        decreases s@.len() - i,
    {
        r.push(s[i]);
        i = i + 1;
        proof {
            assert(r@ =~= s@.take(i as int));
        }
    }
    proof {
        assert(r@ =~= s@);
    }
    r
}

/// The byte `c` occurs in `s`.
pub open spec fn contains_byte(s: Seq<u8>, c: u8) -> bool {
    exists|i: int| 0 <= i < s.len() && s[i] == c
}

/// `i` is the last occurrence of the byte `c` in `s`.
pub open spec fn is_last_at(s: Seq<u8>, c: u8, i: int) -> bool {
    0 <= i < s.len() && s[i] == c && forall|j: int| i < j < s.len() ==> s[j] != c
}

/// Index of the last occurrence of the byte `c` in `s`; meaningful only when
/// `contains_byte(s, c)` holds.
pub open spec fn last_ix(s: Seq<u8>, c: u8) -> int {
    choose|i: int| is_last_at(s, c, i)
}

/// A last occurrence is unique, and `last_ix` names it.
pub proof fn lemma_last_ix(s: Seq<u8>, c: u8, i: int)
    requires
        is_last_at(s, c, i),
    ensures
        last_ix(s, c) == i,
{
    let m = last_ix(s, c);
    assert(is_last_at(s, c, i));
    if m != i {
        if m < i {
            assert(s[i] == c);
        } else if is_last_at(s, c, m) {
            assert(s[m] == c);
        }
    }
}

/// Index of the last occurrence of the byte `c` in `s`, or `None` when `c`
/// does not occur.
pub fn rfind_byte(s: &[u8], c: u8) -> (r: Option<usize>)
    ensures
        match r {
            Some(i) => is_last_at(s@, c, i as int) && i as int == last_ix(s@, c),
            None => !contains_byte(s@, c),
        },
{
    let mut k: usize = s.len();
    while k > 0
        invariant
            0 <= k <= s@.len(),
            forall|j: int| k <= j < s@.len() ==> s@[j] != c,
        decreases k,
    {
        k = k - 1;
        if s[k] == c {
            proof {
                lemma_last_ix(s@, c, k as int);
            }
            return Some(k);
        }
    }
    None
}

/// The pieces of `s` delimited by `d`: splitting on every occurrence, with
/// one (possibly empty) piece more than there are delimiters.
pub open spec fn split_on(s: Seq<u8>, d: u8) -> Seq<Seq<u8>>
    decreases s.len(),
{
    if s.len() == 0 {
        seq![s]
    } else if s[0] == d {
        seq![Seq::<u8>::empty()] + split_on(s.skip(1), d)
    } else {
        let r = split_on(s.skip(1), d);
        seq![seq![s[0]] + r[0]] + r.skip(1)
    }
}

pub proof fn lemma_split_on_len(s: Seq<u8>, d: u8)
    ensures
        split_on(s, d).len() >= 1,
    decreases s.len(),
{
    if s.len() > 0 {
        lemma_split_on_len(s.skip(1), d);
    }
}

/// A prefix free of the delimiter, a delimiter, then the rest: the split is
/// the prefix followed by the split of the rest.
pub proof fn lemma_split_on_step(p: Seq<u8>, r: Seq<u8>, d: u8)
    requires
        forall|i: int| 0 <= i < p.len() ==> p[i] != d,
    ensures
        split_on(p + seq![d] + r, d) == seq![p] + split_on(r, d),
    decreases p.len(),
{
    lemma_split_on_len(r, d);
    let s = p + seq![d] + r;
    if p.len() == 0 {
        assert(s[0] == d);
        assert(s.skip(1) =~= r);
        assert(p =~= Seq::<u8>::empty());
        assert(split_on(s, d) =~~= seq![p] + split_on(r, d));
    } else {
        assert(s[0] == p[0]);
        assert(s[0] != d);
        assert(s.skip(1) =~= p.skip(1) + seq![d] + r);
        lemma_split_on_step(p.skip(1), r, d);
        let sub = split_on(p.skip(1) + seq![d] + r, d);
        assert(sub == seq![p.skip(1)] + split_on(r, d));
        assert(sub[0] == p.skip(1));
        assert(seq![s[0]] + sub[0] =~= p);
        assert(sub.skip(1) =~= split_on(r, d));
        assert(split_on(s, d) =~~= seq![p] + split_on(r, d));
    }
}

/// A string free of the delimiter splits into itself alone.
pub proof fn lemma_split_on_whole(s: Seq<u8>, d: u8)
    requires
        forall|i: int| 0 <= i < s.len() ==> s[i] != d,
    ensures
        split_on(s, d) == seq![s],
    decreases s.len(),
{
    if s.len() > 0 {
        lemma_split_on_whole(s.skip(1), d);
        assert(seq![s[0]] + s.skip(1) =~= s);
        assert(split_on(s, d) =~~= seq![s]);
    }
}

/// Splits `s` on the delimiter `d` into owned pieces.
pub fn split_bytes(s: &[u8], d: u8) -> (r: Vec<Vec<u8>>)
    ensures
        r@.map_values(|p: Vec<u8>| p@) == split_on(s@, d),
{
    let mut r: Vec<Vec<u8>> = Vec::new();
    let mut cur: Vec<u8> = Vec::new();
    let mut i: usize = 0;
    let ghost mut start: int = 0;
    proof {
        assert(s@.skip(0) =~= s@);
        assert(r@.map_values(|p: Vec<u8>| p@) =~= Seq::<Seq<u8>>::empty());
        assert(r@.map_values(|p: Vec<u8>| p@) + split_on(s@, d) =~~= split_on(s@, d));
    }
    while i < s.len()
        invariant
            0 <= start <= i <= s@.len(),
            cur@ == s@.subrange(start, i as int),
            forall|t: int| start <= t < i ==> s@[t] != d,
            split_on(s@, d) == r@.map_values(|p: Vec<u8>| p@) + split_on(s@.skip(start), d),
        decreases s@.len() - i,
    {
        let c = s[i];
        if c == d {
            proof {
                let tail = s@.skip(start);
                let rest = s@.skip(i + 1);
                assert(tail =~= cur@ + seq![d] + rest);
                lemma_split_on_step(cur@, rest, d);
                assert(r@.map_values(|p: Vec<u8>| p@) + (seq![cur@] + split_on(rest, d))
                    =~~= r@.push(cur).map_values(|p: Vec<u8>| p@) + split_on(rest, d));
            }
            r.push(cur);
            cur = Vec::new();
            i = i + 1;
            proof {
                start = i as int;
                assert(cur@ =~= s@.subrange(start, i as int));
            }
        } else {
            cur.push(c);
            i = i + 1;
            proof {
                assert(cur@ =~= s@.subrange(start, i as int));
            }
        }
    }
    proof {
        lemma_split_on_whole(s@.skip(start), d);
        assert(cur@ =~= s@.skip(start));
        assert(r@.map_values(|p: Vec<u8>| p@) + seq![cur@]
            =~~= r@.push(cur).map_values(|p: Vec<u8>| p@));
    }
    r.push(cur);
    r
}

/// Viewing each piece commutes with appending one.
pub proof fn lemma_views_push(vs: Seq<Vec<u8>>, v: Vec<u8>)
    ensures
        vs.push(v).map_values(|p: Vec<u8>| p@) == vs.map_values(|p: Vec<u8>| p@).push(v@),
{
    assert(vs.push(v).map_values(|p: Vec<u8>| p@) =~= vs.map_values(|p: Vec<u8>| p@).push(v@));
}

/// `s` ends with `suf`.
pub open spec fn ends_with(s: Seq<u8>, suf: Seq<u8>) -> bool {
    s.len() >= suf.len() && s.subrange(s.len() - suf.len(), s.len() as int) == suf
}

/// Whether `s` ends with the suffix `suf`.
pub fn has_suffix(s: &[u8], suf: &[u8]) -> (r: bool)
    ensures
        r == ends_with(s@, suf@),
{
    if suf.len() > s.len() {
        return false;
    }
    let n = s.len();
    let base = s.len() - suf.len();
    let mut k: usize = 0;
    while k < suf.len()
        invariant
            n == s@.len(),
            s@.len() >= suf@.len(),
            base == s@.len() - suf@.len(),
            0 <= k <= suf@.len(),
            forall|t: int| 0 <= t < k ==> s@[base + t] == suf@[t],
        decreases suf@.len() - k,
    {
        if s[base + k] != suf[k] {
            proof {
                if ends_with(s@, suf@) {
                    assert(s@.subrange(base as int, s@.len() as int)[k as int] == suf@[k as int]);
                    assert(false);
                }
            }
            return false;
        }
        k = k + 1;
    }
    proof {
        assert(s@.subrange(base as int, s@.len() as int) =~= suf@);
    }
    true
}

pub open spec fn is_digit(c: u8) -> bool {
    '0' as u8 <= c <= '9' as u8
}

pub open spec fn all_digits(s: Seq<u8>) -> bool {
    forall|i: int| 0 <= i < s.len() ==> is_digit(s[i])
}

/// The number written in decimal by `s`, read left to right; meaningful when
/// `all_digits(s)` holds.
pub open spec fn digits_val(s: Seq<u8>) -> int
    decreases s.len(),
{
    if s.len() == 0 {
        0
    } else {
        digits_val(s.take(s.len() - 1)) * 10 + (s[s.len() - 1] - '0' as u8)
    }
}

proof fn lemma_digits_val_nonneg(s: Seq<u8>)
    requires
        all_digits(s),
    ensures
        digits_val(s) >= 0,
    decreases s.len(),
{
    if s.len() > 0 {
        assert(all_digits(s.take(s.len() - 1)));
        lemma_digits_val_nonneg(s.take(s.len() - 1));
    }
}

/// A digit string never names a smaller number than any of its prefixes.
proof fn lemma_digits_val_monotone(s: Seq<u8>, n: int)
    requires
        all_digits(s),
        0 <= n <= s.len(),
    ensures
        digits_val(s.take(n)) <= digits_val(s),
    decreases s.len() - n,
{
    if n < s.len() {
        assert(all_digits(s.take(n)));
        lemma_digits_val_nonneg(s.take(n));
        lemma_digits_val_monotone(s, n + 1);
        assert(s.take(n + 1).take(n) =~= s.take(n));
        assert(s.take(n + 1)[n] == s[n]);
        assert(digits_val(s.take(n + 1)) == digits_val(s.take(n)) * 10 + (s[n] - '0' as u8));
        assert(digits_val(s.take(n)) <= digits_val(s.take(n)) * 10);
    } else {
        assert(s.take(n) =~= s);
    }
}

pub open spec fn ten_pow(n: nat) -> int
    decreases n,
{
    if n == 0 {
        1
    } else {
        10 * ten_pow((n - 1) as nat)
    }
}

/// A decimal string of `n` digits names a number below the `n`th power of ten.
pub proof fn lemma_digits_val_bound(s: Seq<u8>)
    requires
        all_digits(s),
    ensures
        0 <= digits_val(s) < ten_pow(s.len()),
    decreases s.len(),
{
    if s.len() > 0 {
        assert(all_digits(s.take(s.len() - 1)));
        lemma_digits_val_bound(s.take(s.len() - 1));
        assert(s.take(s.len() - 1).len() == s.len() - 1);
        assert(digits_val(s) <= (ten_pow((s.len() - 1) as nat) - 1) * 10 + 9);
    }
}

/// The size field as counted: the number a pure decimal field names, when it
/// fits the counter; anything else counts as zero.
pub open spec fn size_val(s: Seq<u8>) -> int {
    if s.len() > 0 && all_digits(s) && digits_val(s) <= u64::MAX {
        digits_val(s)
    } else {
        0
    }
}

/// Reads a decimal byte string as a counter value; a field that is empty,
/// holds a non-digit, or names a number too large for the counter reads as
/// zero.
pub fn parse_size(s: &[u8]) -> (r: u64)
    ensures
        r as int == size_val(s@),
{
    if s.len() == 0 {
        return 0;
    }
    let mut v: u64 = 0;
    let mut i: usize = 0;
    while i < s.len()
        invariant
            0 <= i <= s@.len(),
            s@.len() > 0,
            all_digits(s@.take(i as int)),
            v as int == digits_val(s@.take(i as int)),
        decreases s@.len() - i,
    {
        let c = s[i];
        if c < '0' as u8 || c > '9' as u8 {
            return 0;
        }
        let d = (c - '0' as u8) as u64;
        proof {
            assert(all_digits(s@.take(i + 1)));
            assert(s@.take(i + 1).take(i as int) =~= s@.take(i as int));
            assert(s@.take(i + 1)[i as int] == s@[i as int]);
            assert(digits_val(s@.take(i + 1)) == v as int * 10 + d);
        }
        if v > (u64::MAX - d) / 10 {
            proof {
                if all_digits(s@) && digits_val(s@) <= u64::MAX {
                    lemma_digits_val_monotone(s@, i + 1);
                    assert(digits_val(s@.take(i + 1)) <= u64::MAX);
                    assert(v as int * 10 + d > u64::MAX);
                    assert(false);
                }
            }
            return 0;
        }
        v = v * 10 + d;
        i = i + 1;
    }
    proof {
        assert(s@.take(i as int) =~= s@);
    }
    v
}

} // verus!
