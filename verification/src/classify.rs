//! The per-record classifier: a pure function from one log line, as raw
//! bytes, to the facts the aggregation store tallies. A record is first held
//! against the pre-filter (image requests and corrupt concatenated entries
//! are dropped), then its timestamp must yield a year and month; everything
//! else about the record degrades gracefully into an absent or default fact.
use vstd::prelude::*;

use crate::addr::{addr_of, parse_addr, IpKey};
use crate::bytes::{
    all_digits, bytes_eq, contains_byte, contains_from, contains_seq, contains_sub,
    contains_twice, digits_val, ends_with, find_sub, first_ix, has_suffix,
    lemma_contains_from_skip, lemma_digits_val_bound, occurs_twice,
    last_ix, rfind_byte, size_val, split_bytes, split_on, parse_size, ten_pow, to_vec,
};

verus! {

/// An operating-system family a request path or client name is attributed to.
#[derive(Clone, Copy, PartialEq, Eq, Structural, Debug)]
pub enum OsFamily {
    Sles,
    Rhel,
    OpenEuler,
}

/// The kind of artifact a request path asks for, read off its suffix.
#[derive(Clone, Copy, PartialEq, Eq, Structural, Debug)]
pub enum AssetKind {
    Tar,
    Rpm,
    RepoMeta,
}

/// The byte string `png`.
pub open spec fn pat_png() -> Seq<u8> {
    seq!['p' as u8, 'n' as u8, 'g' as u8]
}

/// The byte string `gif`.
pub open spec fn pat_gif() -> Seq<u8> {
    seq!['g' as u8, 'i' as u8, 'f' as u8]
}

/// The byte string `GET`.
pub open spec fn pat_get() -> Seq<u8> {
    seq!['G' as u8, 'E' as u8, 'T' as u8]
}

/// The byte string `/ohpc-1.3/`.
pub open spec fn pat_track_old() -> Seq<u8> {
    seq!['/' as u8, 'o' as u8, 'h' as u8, 'p' as u8, 'c' as u8, '-' as u8, '1' as u8, '.' as u8, '3' as u8, '/' as u8]
}

/// The byte string `/OpenHPC/`.
pub open spec fn pat_root() -> Seq<u8> {
    seq!['/' as u8, 'O' as u8, 'p' as u8, 'e' as u8, 'n' as u8, 'H' as u8, 'P' as u8, 'C' as u8, '/' as u8]
}

/// The byte string `CentOS_7`.
pub open spec fn pat_centos_seven() -> Seq<u8> {
    seq!['C' as u8, 'e' as u8, 'n' as u8, 't' as u8, 'O' as u8, 'S' as u8, '_' as u8, '7' as u8]
}

/// The byte string `SLE_12`.
pub open spec fn pat_sle_twelve() -> Seq<u8> {
    seq!['S' as u8, 'L' as u8, 'E' as u8, '_' as u8, '1' as u8, '2' as u8]
}

/// The byte string `Leap_15`.
pub open spec fn pat_leap() -> Seq<u8> {
    seq!['L' as u8, 'e' as u8, 'a' as u8, 'p' as u8, '_' as u8, '1' as u8, '5' as u8]
}

/// The byte string `CentOS_8`.
pub open spec fn pat_centos_eight() -> Seq<u8> {
    seq!['C' as u8, 'e' as u8, 'n' as u8, 't' as u8, 'O' as u8, 'S' as u8, '_' as u8, '8' as u8]
}

/// The byte string `EL_8`.
pub open spec fn pat_el_eight() -> Seq<u8> {
    seq!['E' as u8, 'L' as u8, '_' as u8, '8' as u8]
}

/// The byte string `EL_9`.
pub open spec fn pat_el_nine() -> Seq<u8> {
    seq!['E' as u8, 'L' as u8, '_' as u8, '9' as u8]
}

/// The byte string `openEuler_22.03`.
pub open spec fn pat_openeuler() -> Seq<u8> {
    seq!['o' as u8, 'p' as u8, 'e' as u8, 'n' as u8, 'E' as u8, 'u' as u8, 'l' as u8, 'e' as u8, 'r' as u8, '_' as u8, '2' as u8, '2' as u8, '.' as u8, '0' as u8, '3' as u8]
}

/// The byte string `.rpm`.
pub open spec fn pat_rpm() -> Seq<u8> {
    seq!['.' as u8, 'r' as u8, 'p' as u8, 'm' as u8]
}

/// The byte string `.tar`.
pub open spec fn pat_tar() -> Seq<u8> {
    seq!['.' as u8, 't' as u8, 'a' as u8, 'r' as u8]
}

/// The byte string `/repomd.xml`.
pub open spec fn pat_repomd() -> Seq<u8> {
    seq!['/' as u8, 'r' as u8, 'e' as u8, 'p' as u8, 'o' as u8, 'm' as u8, 'd' as u8, '.' as u8, 'x' as u8, 'm' as u8, 'l' as u8]
}

/// The byte string `"libdnf`.
pub open spec fn pat_libdnf() -> Seq<u8> {
    seq!['"' as u8, 'l' as u8, 'i' as u8, 'b' as u8, 'd' as u8, 'n' as u8, 'f' as u8]
}

/// The byte string `Red Hat Enterprise Linux Server`.
pub open spec fn pat_alias_rhel_server() -> Seq<u8> {
    seq!['R' as u8, 'e' as u8, 'd' as u8, ' ' as u8, 'H' as u8, 'a' as u8, 't' as u8, ' ' as u8, 'E' as u8, 'n' as u8, 't' as u8, 'e' as u8, 'r' as u8, 'p' as u8, 'r' as u8, 'i' as u8, 's' as u8, 'e' as u8, ' ' as u8, 'L' as u8, 'i' as u8, 'n' as u8, 'u' as u8, 'x' as u8, ' ' as u8, 'S' as u8, 'e' as u8, 'r' as u8, 'v' as u8, 'e' as u8, 'r' as u8]
}

/// The byte string `Red Hat Enterprise Linux`.
pub open spec fn pat_canon_rhel() -> Seq<u8> {
    seq!['R' as u8, 'e' as u8, 'd' as u8, ' ' as u8, 'H' as u8, 'a' as u8, 't' as u8, ' ' as u8, 'E' as u8, 'n' as u8, 't' as u8, 'e' as u8, 'r' as u8, 'p' as u8, 'r' as u8, 'i' as u8, 's' as u8, 'e' as u8, ' ' as u8, 'L' as u8, 'i' as u8, 'n' as u8, 'u' as u8, 'x' as u8]
}

/// The byte string `CentOS AutoSD`.
pub open spec fn pat_alias_autosd() -> Seq<u8> {
    seq!['C' as u8, 'e' as u8, 'n' as u8, 't' as u8, 'O' as u8, 'S' as u8, ' ' as u8, 'A' as u8, 'u' as u8, 't' as u8, 'o' as u8, 'S' as u8, 'D' as u8]
}

/// The byte string `CentOS release 8`.
pub open spec fn pat_alias_release_eight() -> Seq<u8> {
    seq!['C' as u8, 'e' as u8, 'n' as u8, 't' as u8, 'O' as u8, 'S' as u8, ' ' as u8, 'r' as u8, 'e' as u8, 'l' as u8, 'e' as u8, 'a' as u8, 's' as u8, 'e' as u8, ' ' as u8, '8' as u8]
}

/// The byte string `CentOS Linux`.
pub open spec fn pat_canon_centos() -> Seq<u8> {
    seq!['C' as u8, 'e' as u8, 'n' as u8, 't' as u8, 'O' as u8, 'S' as u8, ' ' as u8, 'L' as u8, 'i' as u8, 'n' as u8, 'u' as u8, 'x' as u8]
}

/// The byte string `RockyLinux`.
pub open spec fn pat_alias_rocky() -> Seq<u8> {
    seq!['R' as u8, 'o' as u8, 'c' as u8, 'k' as u8, 'y' as u8, 'L' as u8, 'i' as u8, 'n' as u8, 'u' as u8, 'x' as u8]
}

/// The byte string `Rocky Linux`.
pub open spec fn pat_canon_rocky() -> Seq<u8> {
    seq!['R' as u8, 'o' as u8, 'c' as u8, 'k' as u8, 'y' as u8, ' ' as u8, 'L' as u8, 'i' as u8, 'n' as u8, 'u' as u8, 'x' as u8]
}

fn b_png() -> (r: [u8; 3])
    ensures
        r@ == pat_png(),
{
    let a: [u8; 3] = ['p' as u8, 'n' as u8, 'g' as u8];
    proof {
        assert(a@ =~= pat_png());
    }
    a
}

fn b_gif() -> (r: [u8; 3])
    ensures
        r@ == pat_gif(),
{
    let a: [u8; 3] = ['g' as u8, 'i' as u8, 'f' as u8];
    proof {
        assert(a@ =~= pat_gif());
    }
    a
}

fn b_get() -> (r: [u8; 3])
    ensures
        r@ == pat_get(),
{
    let a: [u8; 3] = ['G' as u8, 'E' as u8, 'T' as u8];
    proof {
        assert(a@ =~= pat_get());
    }
    a
}

fn b_track_old() -> (r: [u8; 10])
    ensures
        r@ == pat_track_old(),
{
    let a: [u8; 10] = ['/' as u8, 'o' as u8, 'h' as u8, 'p' as u8, 'c' as u8, '-' as u8, '1' as u8, '.' as u8, '3' as u8, '/' as u8];
    proof {
        assert(a@ =~= pat_track_old());
    }
    a
}

fn b_root() -> (r: [u8; 9])
    ensures
        r@ == pat_root(),
{
    let a: [u8; 9] = ['/' as u8, 'O' as u8, 'p' as u8, 'e' as u8, 'n' as u8, 'H' as u8, 'P' as u8, 'C' as u8, '/' as u8];
    proof {
        assert(a@ =~= pat_root());
    }
    a
}

fn b_centos_seven() -> (r: [u8; 8])
    ensures
        r@ == pat_centos_seven(),
{
    let a: [u8; 8] = ['C' as u8, 'e' as u8, 'n' as u8, 't' as u8, 'O' as u8, 'S' as u8, '_' as u8, '7' as u8];
    proof {
        assert(a@ =~= pat_centos_seven());
    }
    a
}

fn b_sle_twelve() -> (r: [u8; 6])
    ensures
        r@ == pat_sle_twelve(),
{
    let a: [u8; 6] = ['S' as u8, 'L' as u8, 'E' as u8, '_' as u8, '1' as u8, '2' as u8];
    proof {
        assert(a@ =~= pat_sle_twelve());
    }
    a
}

fn b_leap() -> (r: [u8; 7])
    ensures
        r@ == pat_leap(),
{
    let a: [u8; 7] = ['L' as u8, 'e' as u8, 'a' as u8, 'p' as u8, '_' as u8, '1' as u8, '5' as u8];
    proof {
        assert(a@ =~= pat_leap());
    }
    a
}

fn b_centos_eight() -> (r: [u8; 8])
    ensures
        r@ == pat_centos_eight(),
{
    let a: [u8; 8] = ['C' as u8, 'e' as u8, 'n' as u8, 't' as u8, 'O' as u8, 'S' as u8, '_' as u8, '8' as u8];
    proof {
        assert(a@ =~= pat_centos_eight());
    }
    a
}

fn b_el_eight() -> (r: [u8; 4])
    ensures
        r@ == pat_el_eight(),
{
    let a: [u8; 4] = ['E' as u8, 'L' as u8, '_' as u8, '8' as u8];
    proof {
        assert(a@ =~= pat_el_eight());
    }
    a
}

fn b_el_nine() -> (r: [u8; 4])
    ensures
        r@ == pat_el_nine(),
{
    let a: [u8; 4] = ['E' as u8, 'L' as u8, '_' as u8, '9' as u8];
    proof {
        assert(a@ =~= pat_el_nine());
    }
    a
}

fn b_openeuler() -> (r: [u8; 15])
    ensures
        r@ == pat_openeuler(),
{
    let a: [u8; 15] = ['o' as u8, 'p' as u8, 'e' as u8, 'n' as u8, 'E' as u8, 'u' as u8, 'l' as u8, 'e' as u8, 'r' as u8, '_' as u8, '2' as u8, '2' as u8, '.' as u8, '0' as u8, '3' as u8];
    proof {
        assert(a@ =~= pat_openeuler());
    }
    a
}

fn b_rpm() -> (r: [u8; 4])
    ensures
        r@ == pat_rpm(),
{
    let a: [u8; 4] = ['.' as u8, 'r' as u8, 'p' as u8, 'm' as u8];
    proof {
        assert(a@ =~= pat_rpm());
    }
    a
}

fn b_tar() -> (r: [u8; 4])
    ensures
        r@ == pat_tar(),
{
    let a: [u8; 4] = ['.' as u8, 't' as u8, 'a' as u8, 'r' as u8];
    proof {
        assert(a@ =~= pat_tar());
    }
    a
}

fn b_repomd() -> (r: [u8; 11])
    ensures
        r@ == pat_repomd(),
{
    let a: [u8; 11] = ['/' as u8, 'r' as u8, 'e' as u8, 'p' as u8, 'o' as u8, 'm' as u8, 'd' as u8, '.' as u8, 'x' as u8, 'm' as u8, 'l' as u8];
    proof {
        assert(a@ =~= pat_repomd());
    }
    a
}

fn b_libdnf() -> (r: [u8; 7])
    ensures
        r@ == pat_libdnf(),
{
    let a: [u8; 7] = ['"' as u8, 'l' as u8, 'i' as u8, 'b' as u8, 'd' as u8, 'n' as u8, 'f' as u8];
    proof {
        assert(a@ =~= pat_libdnf());
    }
    a
}

fn b_alias_rhel_server() -> (r: [u8; 31])
    ensures
        r@ == pat_alias_rhel_server(),
{
    let a: [u8; 31] = ['R' as u8, 'e' as u8, 'd' as u8, ' ' as u8, 'H' as u8, 'a' as u8, 't' as u8, ' ' as u8, 'E' as u8, 'n' as u8, 't' as u8, 'e' as u8, 'r' as u8, 'p' as u8, 'r' as u8, 'i' as u8, 's' as u8, 'e' as u8, ' ' as u8, 'L' as u8, 'i' as u8, 'n' as u8, 'u' as u8, 'x' as u8, ' ' as u8, 'S' as u8, 'e' as u8, 'r' as u8, 'v' as u8, 'e' as u8, 'r' as u8];
    proof {
        assert(a@ =~= pat_alias_rhel_server());
    }
    a
}

fn b_canon_rhel() -> (r: [u8; 24])
    ensures
        r@ == pat_canon_rhel(),
{
    let a: [u8; 24] = ['R' as u8, 'e' as u8, 'd' as u8, ' ' as u8, 'H' as u8, 'a' as u8, 't' as u8, ' ' as u8, 'E' as u8, 'n' as u8, 't' as u8, 'e' as u8, 'r' as u8, 'p' as u8, 'r' as u8, 'i' as u8, 's' as u8, 'e' as u8, ' ' as u8, 'L' as u8, 'i' as u8, 'n' as u8, 'u' as u8, 'x' as u8];
    proof {
        assert(a@ =~= pat_canon_rhel());
    }
    a
}

fn b_alias_autosd() -> (r: [u8; 13])
    ensures
        r@ == pat_alias_autosd(),
{
    let a: [u8; 13] = ['C' as u8, 'e' as u8, 'n' as u8, 't' as u8, 'O' as u8, 'S' as u8, ' ' as u8, 'A' as u8, 'u' as u8, 't' as u8, 'o' as u8, 'S' as u8, 'D' as u8];
    proof {
        assert(a@ =~= pat_alias_autosd());
    }
    a
}

fn b_alias_release_eight() -> (r: [u8; 16])
    ensures
        r@ == pat_alias_release_eight(),
{
    let a: [u8; 16] = ['C' as u8, 'e' as u8, 'n' as u8, 't' as u8, 'O' as u8, 'S' as u8, ' ' as u8, 'r' as u8, 'e' as u8, 'l' as u8, 'e' as u8, 'a' as u8, 's' as u8, 'e' as u8, ' ' as u8, '8' as u8];
    proof {
        assert(a@ =~= pat_alias_release_eight());
    }
    a
}

fn b_canon_centos() -> (r: [u8; 12])
    ensures
        r@ == pat_canon_centos(),
{
    let a: [u8; 12] = ['C' as u8, 'e' as u8, 'n' as u8, 't' as u8, 'O' as u8, 'S' as u8, ' ' as u8, 'L' as u8, 'i' as u8, 'n' as u8, 'u' as u8, 'x' as u8];
    proof {
        assert(a@ =~= pat_canon_centos());
    }
    a
}

fn b_alias_rocky() -> (r: [u8; 10])
    ensures
        r@ == pat_alias_rocky(),
{
    let a: [u8; 10] = ['R' as u8, 'o' as u8, 'c' as u8, 'k' as u8, 'y' as u8, 'L' as u8, 'i' as u8, 'n' as u8, 'u' as u8, 'x' as u8];
    proof {
        assert(a@ =~= pat_alias_rocky());
    }
    a
}

fn b_canon_rocky() -> (r: [u8; 11])
    ensures
        r@ == pat_canon_rocky(),
{
    let a: [u8; 11] = ['R' as u8, 'o' as u8, 'c' as u8, 'k' as u8, 'y' as u8, ' ' as u8, 'L' as u8, 'i' as u8, 'n' as u8, 'u' as u8, 'x' as u8];
    proof {
        assert(a@ =~= pat_canon_rocky());
    }
    a
}

/// The number of the month a three-letter timestamp abbreviation names,
/// or zero for anything else.
pub open spec fn month_num(m: Seq<u8>) -> int {
    if m == seq!['J' as u8, 'a' as u8, 'n' as u8] {
        1
    } else if m == seq!['F' as u8, 'e' as u8, 'b' as u8] {
        2
    } else if m == seq!['M' as u8, 'a' as u8, 'r' as u8] {
        3
    } else if m == seq!['A' as u8, 'p' as u8, 'r' as u8] {
        4
    } else if m == seq!['M' as u8, 'a' as u8, 'y' as u8] {
        5
    } else if m == seq!['J' as u8, 'u' as u8, 'n' as u8] {
        6
    } else if m == seq!['J' as u8, 'u' as u8, 'l' as u8] {
        7
    } else if m == seq!['A' as u8, 'u' as u8, 'g' as u8] {
        8
    } else if m == seq!['S' as u8, 'e' as u8, 'p' as u8] {
        9
    } else if m == seq!['O' as u8, 'c' as u8, 't' as u8] {
        10
    } else if m == seq!['N' as u8, 'o' as u8, 'v' as u8] {
        11
    } else if m == seq!['D' as u8, 'e' as u8, 'c' as u8] {
        12
    } else {
        0
    }
}

/// Reads a three-letter month abbreviation as its number, zero when it is
/// not one.
pub fn month_lookup(m: &[u8]) -> (r: u8)
    ensures
        r as int == month_num(m@),
{
    let m0: [u8; 3] = ['J' as u8, 'a' as u8, 'n' as u8];
    proof { assert(m0@ =~= seq!['J' as u8, 'a' as u8, 'n' as u8]); }
    if bytes_eq(m, &m0) {
        return 1;
    }
    let m1: [u8; 3] = ['F' as u8, 'e' as u8, 'b' as u8];
    proof { assert(m1@ =~= seq!['F' as u8, 'e' as u8, 'b' as u8]); }
    if bytes_eq(m, &m1) {
        return 2;
    }
    let m2: [u8; 3] = ['M' as u8, 'a' as u8, 'r' as u8];
    proof { assert(m2@ =~= seq!['M' as u8, 'a' as u8, 'r' as u8]); }
    if bytes_eq(m, &m2) {
        return 3;
    }
    let m3: [u8; 3] = ['A' as u8, 'p' as u8, 'r' as u8];
    proof { assert(m3@ =~= seq!['A' as u8, 'p' as u8, 'r' as u8]); }
    if bytes_eq(m, &m3) {
        return 4;
    }
    let m4: [u8; 3] = ['M' as u8, 'a' as u8, 'y' as u8];
    proof { assert(m4@ =~= seq!['M' as u8, 'a' as u8, 'y' as u8]); }
    if bytes_eq(m, &m4) {
        return 5;
    }
    let m5: [u8; 3] = ['J' as u8, 'u' as u8, 'n' as u8];
    proof { assert(m5@ =~= seq!['J' as u8, 'u' as u8, 'n' as u8]); }
    if bytes_eq(m, &m5) {
        return 6;
    }
    let m6: [u8; 3] = ['J' as u8, 'u' as u8, 'l' as u8];
    proof { assert(m6@ =~= seq!['J' as u8, 'u' as u8, 'l' as u8]); }
    if bytes_eq(m, &m6) {
        return 7;
    }
    let m7: [u8; 3] = ['A' as u8, 'u' as u8, 'g' as u8];
    proof { assert(m7@ =~= seq!['A' as u8, 'u' as u8, 'g' as u8]); }
    if bytes_eq(m, &m7) {
        return 8;
    }
    let m8: [u8; 3] = ['S' as u8, 'e' as u8, 'p' as u8];
    proof { assert(m8@ =~= seq!['S' as u8, 'e' as u8, 'p' as u8]); }
    if bytes_eq(m, &m8) {
        return 9;
    }
    let m9: [u8; 3] = ['O' as u8, 'c' as u8, 't' as u8];
    proof { assert(m9@ =~= seq!['O' as u8, 'c' as u8, 't' as u8]); }
    if bytes_eq(m, &m9) {
        return 10;
    }
    let m10: [u8; 3] = ['N' as u8, 'o' as u8, 'v' as u8];
    proof { assert(m10@ =~= seq!['N' as u8, 'o' as u8, 'v' as u8]); }
    if bytes_eq(m, &m10) {
        return 11;
    }
    let m11: [u8; 3] = ['D' as u8, 'e' as u8, 'c' as u8];
    proof { assert(m11@ =~= seq!['D' as u8, 'e' as u8, 'c' as u8]); }
    if bytes_eq(m, &m11) {
        return 12;
    }
    0
}

/// A record is dropped before classification when it asks for an image or
/// looks like two entries run together.
pub open spec fn prefilter_rejects(line: Seq<u8>) -> bool {
    contains_seq(line, pat_png()) || contains_seq(line, pat_gif()) || occurs_twice(
        line,
        pat_get(),
    )
}

/// The year the bracketed timestamp field names, at its fixed offset; `None`
/// when the field is too short or not numeric there.
pub open spec fn year_of(ts: Seq<u8>) -> Option<int> {
    if ts.len() >= 12 && all_digits(ts.subrange(8, 12)) {
        Some(digits_val(ts.subrange(8, 12)))
    } else {
        None
    }
}

/// The month the bracketed timestamp field names at its fixed offset, zero
/// when it is not a known abbreviation.
pub open spec fn month_of(ts: Seq<u8>) -> int {
    if ts.len() >= 7 {
        month_num(ts.subrange(4, 7))
    } else {
        0
    }
}

/// The record asks inside the oldest release track's path.
pub open spec fn has_track_old(line: Seq<u8>) -> bool {
    contains_seq(line, pat_track_old())
}

/// Which family the remainder after the oldest track's marker names, if any:
/// the enterprise marker takes precedence over the SUSE one.
pub open spec fn track_old_distro(line: Seq<u8>) -> Option<OsFamily> {
    let e = first_ix(line, pat_track_old()) + pat_track_old().len();
    if contains_from(line, pat_centos_seven(), e) {
        Some(OsFamily::Rhel)
    } else if contains_from(line, pat_sle_twelve(), e) {
        Some(OsFamily::Sles)
    } else {
        None
    }
}

/// Where the generic repository root marker first ends.
pub open spec fn root_end(line: Seq<u8>) -> int {
    first_ix(line, pat_root()) + pat_root().len()
}

/// The two bytes after the first repository root marker select the second
/// release track.
pub open spec fn has_track_two(line: Seq<u8>) -> bool {
    contains_seq(line, pat_root()) && root_end(line) + 2 <= line.len() && line[root_end(line)]
        == '2' as u8 && line[root_end(line) + 1] == '/' as u8
}

/// The two bytes after the first repository root marker select the third
/// release track.
pub open spec fn has_track_three(line: Seq<u8>) -> bool {
    contains_seq(line, pat_root()) && root_end(line) + 2 <= line.len() && line[root_end(line)]
        == '3' as u8 && line[root_end(line) + 1] == '/' as u8
}

/// The family the remainder after the second track's selector names: SUSE
/// first, then either enterprise marker.
pub open spec fn track_two_distro(line: Seq<u8>) -> Option<OsFamily> {
    let e = root_end(line) + 2;
    if contains_from(line, pat_leap(), e) {
        Some(OsFamily::Sles)
    } else if contains_from(line, pat_centos_eight(), e) {
        Some(OsFamily::Rhel)
    } else if contains_from(line, pat_el_eight(), e) {
        Some(OsFamily::Rhel)
    } else {
        None
    }
}

/// The family the remainder after the third track's selector names: SUSE,
/// then enterprise, then openEuler, first match wins.
pub open spec fn track_three_distro(line: Seq<u8>) -> Option<OsFamily> {
    let e = root_end(line) + 2;
    if contains_from(line, pat_leap(), e) {
        Some(OsFamily::Sles)
    } else if contains_from(line, pat_el_nine(), e) {
        Some(OsFamily::Rhel)
    } else if contains_from(line, pat_openeuler(), e) {
        Some(OsFamily::OpenEuler)
    } else {
        None
    }
}

/// The artifact kind the request-path field asks for, by its suffix; the
/// three suffixes exclude one another.
pub open spec fn asset_of(path: Seq<u8>) -> Option<AssetKind> {
    if ends_with(path, pat_rpm()) {
        Some(AssetKind::Rpm)
    } else if ends_with(path, pat_tar()) {
        Some(AssetKind::Tar)
    } else if ends_with(path, pat_repomd()) {
        Some(AssetKind::RepoMeta)
    } else {
        None
    }
}

/// The fields joined back with single spaces.
pub open spec fn join_sp(parts: Seq<Seq<u8>>) -> Seq<u8>
    decreases parts.len(),
{
    if parts.len() == 0 {
        Seq::<u8>::empty()
    } else if parts.len() == 1 {
        parts[0]
    } else {
        parts[0] + seq![' ' as u8] + join_sp(parts.skip(1))
    }
}

/// Joining one more field appends a space and the field.
pub proof fn lemma_join_sp_snoc(parts: Seq<Seq<u8>>, x: Seq<u8>)
    requires
        parts.len() >= 1,
    ensures
        join_sp(parts.push(x)) == join_sp(parts) + seq![' ' as u8] + x,
    decreases parts.len(),
{
    if parts.len() == 1 {
        assert(parts.push(x).skip(1) =~~= seq![x]);
        assert(join_sp(seq![x]) == x);
        assert(join_sp(parts.push(x)) == parts.push(x)[0] + seq![' ' as u8] + join_sp(
            parts.push(x).skip(1),
        ));
        assert(join_sp(parts.push(x)) =~= join_sp(parts) + seq![' ' as u8] + x);
    } else {
        assert(parts.push(x).skip(1) =~~= parts.skip(1).push(x));
        lemma_join_sp_snoc(parts.skip(1), x);
        assert(join_sp(parts.push(x)) == parts.push(x)[0] + seq![' ' as u8] + join_sp(
            parts.push(x).skip(1),
        ));
        assert(join_sp(parts) == parts[0] + seq![' ' as u8] + join_sp(parts.skip(1)));
        assert(join_sp(parts.push(x)) =~= join_sp(parts) + seq![' ' as u8] + x);
    }
}

/// The part of `s` before its first semicolon, or all of it.
pub open spec fn before_semi(s: Seq<u8>) -> Seq<u8> {
    if contains_seq(s, seq![';' as u8]) {
        s.take(first_ix(s, seq![';' as u8]))
    } else {
        s
    }
}

/// Known alias names for a client's operating system are folded to one
/// canonical name; anything else passes through unmapped.
pub open spec fn canon_alias(name: Seq<u8>) -> Seq<u8> {
    if name == pat_alias_rhel_server() {
        pat_canon_rhel()
    } else if name == pat_alias_autosd() {
        pat_canon_centos()
    } else if name == pat_alias_release_eight() {
        pat_canon_centos()
    } else if name == pat_alias_rocky() {
        pat_canon_rocky()
    } else {
        name
    }
}

/// The canonical client-tool name a record's user-agent fields carry: the
/// fields after the client-tool marker are joined, cut at the first
/// semicolon, cut again at the last space, stripped of one leading quote
/// byte, and canonicalized; a segment with no space, or nothing left after
/// the stripped byte, names no client.
pub open spec fn tool_of_fields(fs: Seq<Seq<u8>>) -> Option<Seq<u8>> {
    if fs.len() >= 12 && fs[11] == pat_libdnf() {
        let seg = before_semi(join_sp(fs.skip(12)));
        if contains_byte(seg, ' ' as u8) {
            let t = seg.take(last_ix(seg, ' ' as u8));
            if t.len() >= 2 {
                Some(canon_alias(t.skip(1)))
            } else {
                None
            }
        } else {
            None
        }
    } else {
        None
    }
}

/// Everything the store tallies about one record.
pub struct RecView {
    pub year: int,
    pub month: int,
    pub t1: bool,
    pub t2: bool,
    pub t3: bool,
    pub d1: Option<OsFamily>,
    pub d2: Option<OsFamily>,
    pub d3: Option<OsFamily>,
    pub asset: Option<AssetKind>,
    pub tool: Option<Seq<u8>>,
    pub size: int,
    pub addr: IpKey,
}

/// The facts of one record, as classified. A record yields facts exactly
/// when it passes the pre-filter, has at least the timestamp field, and that
/// field names a year and month.
pub open spec fn record_facts(line: Seq<u8>) -> Option<RecView> {
    if prefilter_rejects(line) {
        None
    } else {
        let fs = split_on(line, ' ' as u8);
        if fs.len() < 4 {
            None
        } else {
            match year_of(fs[3]) {
                None => None,
                Some(y) => {
                    if month_of(fs[3]) == 0 {
                        None
                    } else {
                        Some(
                            RecView {
                                year: y,
                                month: month_of(fs[3]),
                                t1: has_track_old(line),
                                t2: has_track_two(line),
                                t3: has_track_three(line),
                                d1: if has_track_old(line) {
                                    track_old_distro(line)
                                } else {
                                    None
                                },
                                d2: if has_track_two(line) {
                                    track_two_distro(line)
                                } else {
                                    None
                                },
                                d3: if has_track_three(line) {
                                    track_three_distro(line)
                                } else {
                                    None
                                },
                                asset: if fs.len() >= 7 {
                                    asset_of(fs[6])
                                } else {
                                    None
                                },
                                tool: tool_of_fields(fs),
                                size: if fs.len() >= 10 {
                                    size_val(fs[9])
                                } else {
                                    0
                                },
                                addr: addr_of(fs[0]),
                            },
                        )
                    }
                },
            }
        }
    }
}

/// The executable form of the classified facts of one record.
pub struct RecFacts {
    pub year: i64,
    pub month: u8,
    pub t1: bool,
    pub t2: bool,
    pub t3: bool,
    pub d1: Option<OsFamily>,
    pub d2: Option<OsFamily>,
    pub d3: Option<OsFamily>,
    pub asset: Option<AssetKind>,
    pub tool: Option<Vec<u8>>,
    pub size: u64,
    pub addr: IpKey,
}

impl View for RecFacts {
    type V = RecView;

    open spec fn view(&self) -> RecView {
        RecView {
            year: self.year as int,
            month: self.month as int,
            t1: self.t1,
            t2: self.t2,
            t3: self.t3,
            d1: self.d1,
            d2: self.d2,
            d3: self.d3,
            asset: self.asset,
            tool: match self.tool {
                Some(v) => Some(v@),
                None => None,
            },
            size: self.size as int,
            addr: self.addr,
        }
    }
}

/// Reads exactly four bytes as a four-digit decimal number.
fn parse_four_digits(d: &[u8]) -> (r: Option<u16>)
    requires
        d@.len() == 4,
    ensures
        match r {
            Some(v) => all_digits(d@) && v as int == digits_val(d@),
            None => !all_digits(d@),
        },
{
    let mut v: u16 = 0;
    let mut i: usize = 0;
    while i < 4
        invariant
            d@.len() == 4,
            0 <= i <= 4,
            all_digits(d@.take(i as int)),
            v as int == digits_val(d@.take(i as int)),
        decreases 4 - i,
    {
        let c = d[i];
        if c < '0' as u8 || c > '9' as u8 {
            return None;
        }
        proof {
            assert(d@.take(i + 1).take(i as int) =~= d@.take(i as int));
            assert(d@.take(i + 1)[i as int] == d@[i as int]);
            lemma_digits_val_bound(d@.take(i as int));
            assert(ten_pow(0) == 1);
            assert(ten_pow(1) == 10);
            assert(ten_pow(2) == 100);
            assert(ten_pow(3) == 1000);
            assert(v < 1000);
        }
        v = v * 10 + (c - '0' as u8) as u16;
        i = i + 1;
    }
    proof {
        assert(d@.take(i as int) =~= d@);
    }
    Some(v)
}

/// Maps a client-tool name through the alias table.
pub fn canon_tool(name: &[u8]) -> (r: Vec<u8>)
    ensures
        r@ == canon_alias(name@),
{
    let a1 = b_alias_rhel_server();
    if bytes_eq(name, &a1) {
        let c = b_canon_rhel();
        return to_vec(&c);
    }
    let a2 = b_alias_autosd();
    if bytes_eq(name, &a2) {
        let c = b_canon_centos();
        return to_vec(&c);
    }
    let a3 = b_alias_release_eight();
    if bytes_eq(name, &a3) {
        let c = b_canon_centos();
        return to_vec(&c);
    }
    let a4 = b_alias_rocky();
    if bytes_eq(name, &a4) {
        let c = b_canon_rocky();
        return to_vec(&c);
    }
    to_vec(name)
}

/// Classifies one record. Yields its facts exactly when the record passes
/// the pre-filter and its timestamp field names a year and month; every
/// other shortcoming of the record only defaults the fact it concerns.
pub fn classify_line(line: &[u8]) -> (r: Option<RecFacts>)
    ensures
        match r {
            Some(f) => record_facts(line@) == Some(f@),
            None => record_facts(line@) is None,
        },
{
    let n = line.len();
    let png = b_png();
    if contains_sub(line, &png) {
        return None;
    }
    let gif = b_gif();
    if contains_sub(line, &gif) {
        return None;
    }
    let get = b_get();
    if contains_twice(line, &get) {
        return None;
    }
    proof {
        assert(!prefilter_rejects(line@));
    }
    let fields = split_bytes(line, ' ' as u8);
    let ghost fs = split_on(line@, ' ' as u8);
    proof {
        assert(fields@.map_values(|p: Vec<u8>| p@) == fs);
        assert(forall|k: int|
            0 <= k < fields@.len() ==> fields@.map_values(|p: Vec<u8>| p@)[k] == fields@[k]@);
    }
    if fields.len() < 4 {
        return None;
    }
    let ts = &fields[3];
    proof {
        assert(ts@ == fs[3]);
    }
    if ts.len() < 12 {
        return None;
    }
    let yd = vstd::slice::slice_subrange(ts.as_slice(), 8, 12);
    let year_num: u16;
    match parse_four_digits(yd) {
        Some(v) => {
            year_num = v;
        },
        None => {
            return None;
        },
    }
    let md = vstd::slice::slice_subrange(ts.as_slice(), 4, 7);
    let month_n = month_lookup(md);
    if month_n == 0 {
        return None;
    }
    proof {
        assert(year_of(fs[3]) == Some(year_num as int));
        assert(month_of(fs[3]) == month_n as int);
    }
    // Oldest release track and its distribution.
    let t_old = b_track_old();
    let mut t1 = false;
    let mut d1: Option<OsFamily> = None;
    match find_sub(line, &t_old) {
        Some(p) => {
            t1 = true;
            proof {
                assert(p + pat_track_old().len() <= n);
            }
            let rest = vstd::slice::slice_subrange(line, p + 10, line.len());
            let c7 = b_centos_seven();
            let s12 = b_sle_twelve();
            if contains_sub(rest, &c7) {
                d1 = Some(OsFamily::Rhel);
            } else if contains_sub(rest, &s12) {
                d1 = Some(OsFamily::Sles);
            }
            proof {
                lemma_contains_from_skip(line@, pat_centos_seven(), p + 10);
                lemma_contains_from_skip(line@, pat_sle_twelve(), p + 10);
                assert(first_ix(line@, pat_track_old()) + pat_track_old().len() == p + 10);
                assert(d1 == track_old_distro(line@));
            }
        },
        None => {
            proof {
                assert(!has_track_old(line@));
            }
        },
    }
    // Second and third release tracks under the generic root marker.
    let rootp = b_root();
    let mut t2 = false;
    let mut d2: Option<OsFamily> = None;
    let mut t3 = false;
    let mut d3: Option<OsFamily> = None;
    match find_sub(line, &rootp) {
        Some(p) => {
            proof {
                assert(p + pat_root().len() <= n);
                assert(root_end(line@) == p + 9);
            }
            let e = p + 9;
            if n - e >= 2 {
                let c0 = line[e];
                let c1 = line[e + 1];
                if c0 == '2' as u8 && c1 == '/' as u8 {
                    t2 = true;
                    let rest = vstd::slice::slice_subrange(line, e + 2, line.len());
                    let leap = b_leap();
                    let c8 = b_centos_eight();
                    let e8 = b_el_eight();
                    if contains_sub(rest, &leap) {
                        d2 = Some(OsFamily::Sles);
                    } else if contains_sub(rest, &c8) {
                        d2 = Some(OsFamily::Rhel);
                    } else if contains_sub(rest, &e8) {
                        d2 = Some(OsFamily::Rhel);
                    }
                    proof {
                        lemma_contains_from_skip(line@, pat_leap(), e + 2);
                        lemma_contains_from_skip(line@, pat_centos_eight(), e + 2);
                        lemma_contains_from_skip(line@, pat_el_eight(), e + 2);
                        assert(d2 == track_two_distro(line@));
                    }
                } else if c0 == '3' as u8 && c1 == '/' as u8 {
                    t3 = true;
                    let rest = vstd::slice::slice_subrange(line, e + 2, line.len());
                    let leap = b_leap();
                    let e9 = b_el_nine();
                    let oe = b_openeuler();
                    if contains_sub(rest, &leap) {
                        d3 = Some(OsFamily::Sles);
                    } else if contains_sub(rest, &e9) {
                        d3 = Some(OsFamily::Rhel);
                    } else if contains_sub(rest, &oe) {
                        d3 = Some(OsFamily::OpenEuler);
                    }
                    proof {
                        lemma_contains_from_skip(line@, pat_leap(), e + 2);
                        lemma_contains_from_skip(line@, pat_el_nine(), e + 2);
                        lemma_contains_from_skip(line@, pat_openeuler(), e + 2);
                        assert(d3 == track_three_distro(line@));
                    }
                }
            }
            proof {
                assert(t2 == has_track_two(line@));
                assert(t3 == has_track_three(line@));
            }
        },
        None => {
            proof {
                assert(!has_track_two(line@));
                assert(!has_track_three(line@));
            }
        },
    }
    // Artifact kind from the request-path field.
    let mut asset: Option<AssetKind> = None;
    if fields.len() >= 7 {
        let path = &fields[6];
        proof {
            assert(path@ == fs[6]);
        }
        let sr = b_rpm();
        let st = b_tar();
        let sm = b_repomd();
        if has_suffix(path.as_slice(), &sr) {
            asset = Some(AssetKind::Rpm);
        } else if has_suffix(path.as_slice(), &st) {
            asset = Some(AssetKind::Tar);
        } else if has_suffix(path.as_slice(), &sm) {
            asset = Some(AssetKind::RepoMeta);
        }
    }
    // Client tool from the user-agent fields.
    let mut tool: Option<Vec<u8>> = None;
    let lib = b_libdnf();
    let mut tool_marker = false;
    if fields.len() >= 12 {
        let f11 = &fields[11];
        proof {
            assert(f11@ == fs[11]);
        }
        if bytes_eq(f11.as_slice(), &lib) {
            tool_marker = true;
        }
    }
    if tool_marker {
        let ghost ps = fs.skip(12);
        let mut joined: Vec<u8> = Vec::new();
        let mut t: usize = 12;
        proof {
            assert(ps.take(0) =~~= Seq::<Seq<u8>>::empty());
        }
        while t < fields.len()
            invariant
                12 <= t <= fields@.len(),
                fields@.map_values(|p: Vec<u8>| p@) == fs,
                ps == fs.skip(12),
                fs.len() == fields@.len(),
                joined@ == join_sp(ps.take(t - 12)),
            decreases fields@.len() - t,
        {
            let ghost k = t - 12;
            if t > 12 {
                joined.push(' ' as u8);
            }
            let src = &fields[t];
            proof {
                assert(src@ == fs[t as int]);
                assert(fs[t as int] == ps[k as int]);
            }
            let ghost base = joined@;
            let mut w: usize = 0;
            while w < src.len()
                invariant
                    0 <= w <= src@.len(),
                    joined@ == base + src@.take(w as int),
                decreases src@.len() - w,
            {
                joined.push(src[w]);
                w = w + 1;
                proof {
                    assert(joined@ =~= base + src@.take(w as int));
                }
            }
            proof {
                assert(joined@ =~= base + src@);
                assert(ps.take(k + 1) =~~= ps.take(k as int).push(ps[k as int]));
                if k == 0 {
                    assert(join_sp(ps.take(1)) == ps.take(1)[0]);
                    assert(joined@ =~= join_sp(ps.take(k + 1)));
                } else {
                    lemma_join_sp_snoc(ps.take(k as int), ps[k as int]);
                    assert(joined@ =~= join_sp(ps.take(k as int)) + seq![' ' as u8]
                        + ps[k as int]);
                }
            }
            t = t + 1;
        }
        proof {
            assert(ps.take(ps.len() as int) =~~= ps);
            assert(joined@ == join_sp(fs.skip(12)));
        }
        let semi: [u8; 1] = [';' as u8];
        proof {
            assert(semi@ =~= seq![';' as u8]);
        }
        let seg_end = match find_sub(joined.as_slice(), &semi) {
            Some(i) => i,
            None => joined.len(),
        };
        proof {
            assert(seg_end <= joined@.len());
            if contains_seq(joined@, seq![';' as u8]) {
                assert(seg_end == first_ix(joined@, seq![';' as u8]));
            } else {
                assert(joined@.take(seg_end as int) =~= joined@);
            }
            assert(joined@.take(seg_end as int) == before_semi(joined@));
        }
        let seg = vstd::slice::slice_subrange(joined.as_slice(), 0, seg_end);
        proof {
            assert(seg@ == before_semi(joined@));
        }
        match rfind_byte(seg, ' ' as u8) {
            Some(sp) => {
                if sp >= 2 {
                    let tname = vstd::slice::slice_subrange(seg, 1, sp);
                    proof {
                        assert(tname@ =~= seg@.take(sp as int).skip(1));
                        assert(seg@.take(sp as int).len() == sp as int);
                    }
                    let canon = canon_tool(tname);
                    tool = Some(canon);
                } else {
                    proof {
                        assert(seg@.take(sp as int).len() < 2);
                    }
                }
            },
            None => {
            },
        }
    }
    proof {
        assert(match tool {
            Some(v) => tool_of_fields(fs) == Some(v@),
            None => tool_of_fields(fs) is None,
        });
    }
    // Response size and client address.
    let mut size: u64 = 0;
    if fields.len() >= 10 {
        let f9 = &fields[9];
        proof {
            assert(f9@ == fs[9]);
        }
        size = parse_size(f9.as_slice());
    }
    let f0 = &fields[0];
    proof {
        assert(f0@ == fs[0]);
    }
    let addr = parse_addr(f0.as_slice());
    let f = RecFacts {
        year: year_num as i64,
        month: month_n,
        t1,
        t2,
        t3,
        d1,
        d2,
        d3,
        asset,
        tool,
        size,
        addr,
    };
    proof {
        assert(record_facts(line@) == Some(f@));
    }
    Some(f)
}

} // verus!
