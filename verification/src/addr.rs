//! Client addresses. The first field of a record names the client in the
//! usual textual forms: dotted-quad, or hexadecimal groups separated by
//! colons with at most one elision (`::`). A field in neither form counts as
//! the all-zero sentinel address, so that the record is still tallied.
use vstd::prelude::*;

use crate::bytes::{
    all_digits, contains_seq, digits_val, first_ix, find_sub, is_digit, lemma_digits_val_bound,
    lemma_first_ix, split_bytes, split_on, ten_pow,
};

verus! {

/// A client address as stored in the per-period visitor structures.
#[derive(Clone, Copy, PartialEq, Eq, Structural, Debug)]
pub enum IpKey {
    V4(u32),
    V6(u128),
}

/// A dotted-quad part: one to three digits naming a number up to 255.
pub open spec fn dec_octet(p: Seq<u8>) -> bool {
    1 <= p.len() <= 3 && all_digits(p) && digits_val(p) <= 255
}

/// The address a dotted-quad field names, if it is one.
pub open spec fn ipv4_of(s: Seq<u8>) -> Option<u32> {
    let ps = split_on(s, '.' as u8);
    if ps.len() == 4 && dec_octet(ps[0]) && dec_octet(ps[1]) && dec_octet(ps[2]) && dec_octet(
        ps[3],
    ) {
        Some(
            (digits_val(ps[0]) * 0x1000000 + digits_val(ps[1]) * 0x10000 + digits_val(ps[2]) * 0x100
                + digits_val(ps[3])) as u32,
        )
    } else {
        None
    }
}

pub open spec fn is_hex_digit(c: u8) -> bool {
    is_digit(c) || ('a' as u8 <= c <= 'f' as u8) || ('A' as u8 <= c <= 'F' as u8)
}

pub open spec fn hex_digit_val(c: u8) -> int {
    if is_digit(c) {
        c - '0' as u8
    } else if 'a' as u8 <= c <= 'f' as u8 {
        c - 'a' as u8 + 10
    } else {
        c - 'A' as u8 + 10
    }
}

pub open spec fn all_hex(p: Seq<u8>) -> bool {
    forall|i: int| 0 <= i < p.len() ==> is_hex_digit(p[i])
}

/// A group between colons: one to four hexadecimal digits.
pub open spec fn hex_group(p: Seq<u8>) -> bool {
    1 <= p.len() <= 4 && all_hex(p)
}

/// The number a hexadecimal group names.
pub open spec fn hex_val(p: Seq<u8>) -> int
    decreases p.len(),
{
    if p.len() == 0 {
        0
    } else {
        hex_val(p.take(p.len() - 1)) * 16 + hex_digit_val(p[p.len() - 1])
    }
}

pub open spec fn sixteen_pow(n: nat) -> int
    decreases n,
{
    if n == 0 {
        1
    } else {
        16 * sixteen_pow((n - 1) as nat)
    }
}

pub proof fn lemma_hex_val_bound(p: Seq<u8>)
    requires
        all_hex(p),
    ensures
        0 <= hex_val(p) < sixteen_pow(p.len()),
    decreases p.len(),
{
    if p.len() > 0 {
        assert(all_hex(p.take(p.len() - 1)));
        lemma_hex_val_bound(p.take(p.len() - 1));
        assert(hex_digit_val(p[p.len() - 1]) <= 15);
        assert(hex_val(p) <= (sixteen_pow((p.len() - 1) as nat) - 1) * 16 + 15);
    }
}

/// The address named by a sequence of sixteen-bit groups, highest first.
pub open spec fn groups_val(gs: Seq<Seq<u8>>) -> int
    decreases gs.len(),
{
    if gs.len() == 0 {
        0
    } else {
        groups_val(gs.take(gs.len() - 1)) * 0x10000 + hex_val(gs.last())
    }
}

pub open spec fn all_hex_groups(gs: Seq<Seq<u8>>) -> bool {
    forall|i: int| 0 <= i < gs.len() ==> hex_group(gs[i])
}

pub open spec fn group_pow(n: nat) -> int
    decreases n,
{
    if n == 0 {
        1
    } else {
        0x10000 * group_pow((n - 1) as nat)
    }
}

pub proof fn lemma_groups_val_bound(gs: Seq<Seq<u8>>)
    requires
        all_hex_groups(gs),
    ensures
        0 <= groups_val(gs) < group_pow(gs.len()),
    decreases gs.len(),
{
    if gs.len() > 0 {
        assert(all_hex_groups(gs.take(gs.len() - 1)));
        lemma_groups_val_bound(gs.take(gs.len() - 1));
        let lst = gs.last();
        assert(hex_group(lst));
        lemma_hex_val_bound(lst);
        assert(sixteen_pow(0) == 1);
        assert(sixteen_pow(1) == 16);
        assert(sixteen_pow(2) == 256);
        assert(sixteen_pow(3) == 4096);
        assert(sixteen_pow(4) == 0x10000);
        assert(lst.len() == 1 || lst.len() == 2 || lst.len() == 3 || lst.len() == 4);
        assert(hex_val(lst) < 0x10000);
        assert(groups_val(gs) <= (group_pow((gs.len() - 1) as nat) - 1) * 0x10000 + 0xFFFF);
    }
}

/// The single-digit group written for each elided zero group.
pub open spec fn zero_group() -> Seq<u8> {
    seq!['0' as u8]
}

pub open spec fn double_colon() -> Seq<u8> {
    seq![':' as u8, ':' as u8]
}

/// The colon-separated parts of `s`, none when `s` is empty.
pub open spec fn colon_parts(s: Seq<u8>) -> Seq<Seq<u8>> {
    if s.len() == 0 {
        Seq::<Seq<u8>>::empty()
    } else {
        split_on(s, ':' as u8)
    }
}

/// The eight sixteen-bit groups `s` writes, with one optional elision
/// filled in with zero groups; `None` when the shape is not an address.
pub open spec fn padded_groups(s: Seq<u8>) -> Option<Seq<Seq<u8>>> {
    if contains_seq(s, double_colon()) {
        let i = first_ix(s, double_colon());
        let lp = colon_parts(s.take(i));
        let rp = colon_parts(s.skip(i + 2));
        if !contains_seq(s.skip(i + 2), double_colon()) && lp.len() + rp.len() <= 7 {
            Some(lp + Seq::new((8 - lp.len() - rp.len()) as nat, |k: int| zero_group()) + rp)
        } else {
            None
        }
    } else {
        let ps = split_on(s, ':' as u8);
        if ps.len() == 8 {
            Some(ps)
        } else {
            None
        }
    }
}

/// The address a colon-grouped field names, if it is one.
pub open spec fn ipv6_of(s: Seq<u8>) -> Option<u128> {
    match padded_groups(s) {
        Some(gs) => if all_hex_groups(gs) {
            Some(groups_val(gs) as u128)
        } else {
            None
        },
        None => None,
    }
}

/// The address key a client field stands for: either textual address form,
/// and the all-zero sentinel for anything else.
pub open spec fn addr_of(s: Seq<u8>) -> IpKey {
    match ipv4_of(s) {
        Some(v) => IpKey::V4(v),
        None => match ipv6_of(s) {
            Some(w) => IpKey::V6(w),
            None => IpKey::V4(0),
        },
    }
}

/// Reads a dotted-quad part.
fn parse_octet(p: &[u8]) -> (r: Option<u8>)
    ensures
        match r {
            Some(v) => dec_octet(p@) && v as int == digits_val(p@),
            None => !dec_octet(p@),
        },
{
    if p.len() == 0 || p.len() > 3 {
        return None;
    }
    let mut v: u16 = 0;
    let mut i: usize = 0;
    while i < p.len()
        invariant
            0 <= i <= p@.len() <= 3,
            all_digits(p@.take(i as int)),
            v as int == digits_val(p@.take(i as int)),
            v <= 999,
        decreases p@.len() - i,
    {
        let c = p[i];
        if c < '0' as u8 || c > '9' as u8 {
            return None;
        }
        proof {
            assert(p@.take(i + 1).take(i as int) =~= p@.take(i as int));
            assert(p@.take(i + 1)[i as int] == p@[i as int]);
            lemma_digits_val_bound(p@.take(i as int));
            assert(ten_pow(0) == 1);
            assert(ten_pow(1) == 10);
            assert(ten_pow(2) == 100);
            assert(v < 100);
        }
        v = v * 10 + (c - '0' as u8) as u16;
        i = i + 1;
    }
    proof {
        assert(p@.take(i as int) =~= p@);
    }
    if v > 255 {
        return None;
    }
    Some(v as u8)
}

/// Reads a hexadecimal group.
fn parse_group(p: &[u8]) -> (r: Option<u16>)
    ensures
        match r {
            Some(v) => hex_group(p@) && v as int == hex_val(p@),
            None => !hex_group(p@),
        },
{
    if p.len() == 0 || p.len() > 4 {
        return None;
    }
    let mut v: u16 = 0;
    let mut i: usize = 0;
    while i < p.len()
        invariant
            0 <= i <= p@.len() <= 4,
            all_hex(p@.take(i as int)),
            v as int == hex_val(p@.take(i as int)),
            v <= 0xFFFF,
        decreases p@.len() - i,
    {
        let c = p[i];
        let d: u16;
        if '0' as u8 <= c && c <= '9' as u8 {
            d = (c - '0' as u8) as u16;
        } else if 'a' as u8 <= c && c <= 'f' as u8 {
            d = (c - 'a' as u8) as u16 + 10;
        } else if 'A' as u8 <= c && c <= 'F' as u8 {
            d = (c - 'A' as u8) as u16 + 10;
        } else {
            return None;
        }
        proof {
            assert(p@.take(i + 1).take(i as int) =~= p@.take(i as int));
            assert(p@.take(i + 1)[i as int] == p@[i as int]);
            lemma_hex_val_bound(p@.take(i as int));
            assert(sixteen_pow(0) == 1);
            assert(sixteen_pow(1) == 16);
            assert(sixteen_pow(2) == 256);
            assert(sixteen_pow(3) == 4096);
            assert(v < 4096);
            assert(d == hex_digit_val(p@[i as int]));
        }
        v = v * 16 + d;
        i = i + 1;
    }
    proof {
        assert(p@.take(i as int) =~= p@);
    }
    Some(v)
}

/// Reads a dotted-quad client field.
pub fn parse_ipv4(s: &[u8]) -> (r: Option<u32>)
    ensures
        r == ipv4_of(s@),
{
    let parts = split_bytes(s, '.' as u8);
    let ghost ps = split_on(s@, '.' as u8);
    proof {
        assert(forall|k: int|
            0 <= k < parts@.len() ==> parts@.map_values(|p: Vec<u8>| p@)[k] == parts@[k]@);
    }
    if parts.len() != 4 {
        return None;
    }
    let a = parse_octet(parts[0].as_slice());
    let b = parse_octet(parts[1].as_slice());
    let c = parse_octet(parts[2].as_slice());
    let d = parse_octet(parts[3].as_slice());
    match (a, b, c, d) {
        (Some(a), Some(b), Some(c), Some(d)) => {
            let v: u32 = (a as u32) * 0x1000000 + (b as u32) * 0x10000 + (c as u32) * 0x100
                + (d as u32);
            Some(v)
        },
        _ => None,
    }
}

/// Reads a colon-grouped client field.
pub fn parse_ipv6(s: &[u8]) -> (r: Option<u128>)
    ensures
        r == ipv6_of(s@),
{
    let dc: [u8; 2] = [':' as u8, ':' as u8];
    proof {
        assert(dc@ =~= double_colon());
    }
    let n = s.len();
    let groups: Vec<Vec<u8>>;
    let ghost padded: Seq<Seq<u8>>;
    match find_sub(s, &dc) {
        Some(i) => {
            proof {
                lemma_first_ix(s@, double_colon(), i as int);
                assert(i + 2 <= n);
            }
            let left = vstd::slice::slice_subrange(s, 0, i);
            let right = vstd::slice::slice_subrange(s, i + 2, s.len());
            if find_sub(right, &dc).is_some() {
                return None;
            }
            let lp: Vec<Vec<u8>> = if left.len() == 0 {
                Vec::new()
            } else {
                split_bytes(left, ':' as u8)
            };
            let rp: Vec<Vec<u8>> = if right.len() == 0 {
                Vec::new()
            } else {
                split_bytes(right, ':' as u8)
            };
            proof {
                assert(lp@.map_values(|p: Vec<u8>| p@) == colon_parts(s@.take(i as int)));
                assert(rp@.map_values(|p: Vec<u8>| p@) == colon_parts(s@.skip(i + 2)));
            }
            if lp.len() > 7 || rp.len() > 7 - lp.len() {
                return None;
            }
            let fill = 8 - lp.len() - rp.len();
            let mut gs: Vec<Vec<u8>> = lp;
            let mut k: usize = 0;
            let ghost lcount = gs@.len();
            while k < fill
                invariant
                    0 <= k <= fill,
                    gs@.len() == lcount + k,
                    gs@.map_values(|p: Vec<u8>| p@) == colon_parts(s@.take(i as int)) + Seq::new(
                        k as nat,
                        |t: int| zero_group(),
                    ),
                decreases fill - k,
            {
                let mut z: Vec<u8> = Vec::new();
                z.push('0' as u8);
                proof {
                    assert(z@ =~= zero_group());
                    crate::bytes::lemma_views_push(gs@, z);
                    assert(gs@.map_values(|p: Vec<u8>| p@).push(z@)
                        =~~= colon_parts(s@.take(i as int)) + Seq::new(
                        (k + 1) as nat,
                        |t: int| zero_group(),
                    ));
                }
                gs.push(z);
                k = k + 1;
            }
            let mut t: usize = 0;
            let ghost mid = gs@;
            while t < rp.len()
                invariant
                    0 <= t <= rp@.len(),
                    gs@.len() == mid.len() + t,
                    gs@.map_values(|p: Vec<u8>| p@) == mid.map_values(|p: Vec<u8>| p@)
                        + rp@.map_values(|p: Vec<u8>| p@).take(t as int),
                decreases rp@.len() - t,
            {
                let mut piece: Vec<u8> = Vec::new();
                let src = &rp[t];
                let mut w: usize = 0;
                while w < src.len()
                    invariant
                        0 <= w <= src@.len(),
                        piece@ == src@.take(w as int),
                    decreases src@.len() - w,
                {
                    let ch = src[w];
                    piece.push(ch);
                    w = w + 1;
                    proof {
                        assert(piece@ =~= src@.take(w as int));
                    }
                }
                proof {
                    assert(piece@ =~= src@);
                    crate::bytes::lemma_views_push(gs@, piece);
                    assert(piece@ == rp@.map_values(|p: Vec<u8>| p@)[t as int]);
                    assert(gs@.map_values(|p: Vec<u8>| p@).push(piece@)
                        =~~= mid.map_values(|p: Vec<u8>| p@)
                        + rp@.map_values(|p: Vec<u8>| p@).take(t + 1));
                }
                gs.push(piece);
                t = t + 1;
            }
            proof {
                assert(rp@.map_values(|p: Vec<u8>| p@).take(rp@.len() as int)
                    =~= rp@.map_values(|p: Vec<u8>| p@));
                padded = padded_groups(s@).unwrap();
                assert(gs@.map_values(|p: Vec<u8>| p@) =~~= padded);
            }
            groups = gs;
        },
        None => {
            let parts = split_bytes(s, ':' as u8);
            if parts.len() != 8 {
                return None;
            }
            proof {
                padded = padded_groups(s@).unwrap();
                assert(parts@.map_values(|p: Vec<u8>| p@) =~~= padded);
            }
            groups = parts;
        },
    }
    proof {
        assert(groups@.len() == 8);
        assert(forall|k: int|
            0 <= k < groups@.len() ==> groups@.map_values(|p: Vec<u8>| p@)[k] == groups@[k]@);
    }
    let mut acc: u128 = 0;
    let mut k: usize = 0;
    while k < 8
        invariant
            0 <= k <= 8,
            groups@.len() == 8,
            groups@.map_values(|p: Vec<u8>| p@) == padded,
            padded_groups(s@) == Some(padded),
            all_hex_groups(padded.take(k as int)),
            acc as int == groups_val(padded.take(k as int)),
        decreases 8 - k,
    {
        let gv = parse_group(groups[k].as_slice());
        match gv {
            Some(v) => {
                proof {
                    assert(padded.take(k + 1).take(k as int) =~= padded.take(k as int));
                    assert(padded.take(k + 1).last() == padded[k as int]);
                    assert(all_hex_groups(padded.take(k + 1)));
                    lemma_groups_val_bound(padded.take(k as int));
                    assert(group_pow(0) == 1);
                    assert(group_pow(1) == 0x10000);
                    assert(group_pow(2) == 0x100000000);
                    assert(group_pow(3) == 0x1000000000000);
                    assert(group_pow(4) == 0x10000000000000000);
                    assert(group_pow(5) == 0x100000000000000000000);
                    assert(group_pow(6) == 0x1000000000000000000000000);
                    assert(group_pow(7) == 0x10000000000000000000000000000);
                    assert(acc < 0x10000000000000000000000000000);
                }
                acc = acc * 0x10000 + (v as u128);
            },
            None => {
                proof {
                    assert(!hex_group(padded[k as int]));
                }
                return None;
            },
        }
        k = k + 1;
    }
    proof {
        assert(padded.take(8) =~= padded);
        assert(all_hex_groups(padded));
    }
    Some(acc)
}

/// The address key of a client field; fields in neither textual address form
/// name the all-zero sentinel.
pub fn parse_addr(s: &[u8]) -> (r: IpKey)
    ensures
        r == addr_of(s@),
{
    match parse_ipv4(s) {
        Some(v) => IpKey::V4(v),
        None => match parse_ipv6(s) {
            Some(w) => IpKey::V6(w),
            None => IpKey::V4(0),
        },
    }
}

} // verus!
