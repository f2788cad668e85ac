//! The mathematical model of the aggregation store: what one classified
//! record does to every table. The executable store proves that it performs
//! exactly this fold, so order-independence and deduplication arguments are
//! made here, over maps and sets.
use vstd::prelude::*;

use crate::addr::IpKey;
use crate::classify::{record_facts, AssetKind, OsFamily, RecView};

verus! {

/// One year's tallies: per-track and overall request counts, their
/// unique-visitor counterparts, bytes transferred, and the addresses seen.
pub struct YearView {
    pub t1: int,
    pub t2: int,
    pub t3: int,
    pub overall: int,
    pub u1: int,
    pub u2: int,
    pub u3: int,
    pub uo: int,
    pub bytes: int,
    pub ipv4: Set<u32>,
    pub ipv6: Set<u128>,
}

/// One month's tallies: as for a year, but the addresses seen carry a hit
/// count each, for later country attribution.
pub struct MonthView {
    pub t1: int,
    pub t2: int,
    pub t3: int,
    pub overall: int,
    pub u1: int,
    pub u2: int,
    pub u3: int,
    pub uo: int,
    pub bytes: int,
    pub hits4: Map<u32, int>,
    pub hits6: Map<u128, int>,
}

/// One year's per-distribution tallies for one track.
pub struct DistroView {
    pub sles: int,
    pub rhel: int,
    pub openeuler: int,
}

/// One year's artifact-kind tallies.
pub struct AssetView {
    pub tar: int,
    pub rpm: int,
    pub repomd: int,
}

/// The whole store: every table keyed by its period (and name, for client
/// tools and countries), plus the count of records tallied so far.
pub struct StatsView {
    pub years: Map<int, YearView>,
    pub months: Map<(int, int), MonthView>,
    pub d1: Map<int, DistroView>,
    pub d2: Map<int, DistroView>,
    pub d3: Map<int, DistroView>,
    pub tools: Map<(int, Seq<u8>), int>,
    pub assets: Map<int, AssetView>,
    pub countries: Map<(int, int, Seq<u8>), int>,
    pub total: int,
}

/// An executable counter table seen with mathematical values.
pub open spec fn counts_view<K>(m: Map<K, u64>) -> Map<K, int> {
    m.map_values(|v: u64| v as int)
}

pub open spec fn empty_year() -> YearView {
    YearView {
        t1: 0,
        t2: 0,
        t3: 0,
        overall: 0,
        u1: 0,
        u2: 0,
        u3: 0,
        uo: 0,
        bytes: 0,
        ipv4: Set::<u32>::empty(),
        ipv6: Set::<u128>::empty(),
    }
}

pub open spec fn empty_month() -> MonthView {
    MonthView {
        t1: 0,
        t2: 0,
        t3: 0,
        overall: 0,
        u1: 0,
        u2: 0,
        u3: 0,
        uo: 0,
        bytes: 0,
        hits4: Map::<u32, int>::empty(),
        hits6: Map::<u128, int>::empty(),
    }
}

pub open spec fn empty_distro() -> DistroView {
    DistroView { sles: 0, rhel: 0, openeuler: 0 }
}

pub open spec fn empty_asset() -> AssetView {
    AssetView { tar: 0, rpm: 0, repomd: 0 }
}

/// The store before any record: every table empty.
pub open spec fn empty_stats() -> StatsView {
    StatsView {
        years: Map::<int, YearView>::empty(),
        months: Map::<(int, int), MonthView>::empty(),
        d1: Map::<int, DistroView>::empty(),
        d2: Map::<int, DistroView>::empty(),
        d3: Map::<int, DistroView>::empty(),
        tools: Map::<(int, Seq<u8>), int>::empty(),
        assets: Map::<int, AssetView>::empty(),
        countries: Map::<(int, int, Seq<u8>), int>::empty(),
        total: 0,
    }
}

/// The year has seen this address.
pub open spec fn year_seen(y: YearView, a: IpKey) -> bool {
    match a {
        IpKey::V4(v) => y.ipv4.contains(v),
        IpKey::V6(w) => y.ipv6.contains(w),
    }
}

/// One record folded into its year's tallies: every matching scalar counts
/// up by one, bytes grow by the record's size, and the unique counters count
/// up exactly when the address is new to the year.
pub open spec fn year_with(y: YearView, f: RecView) -> YearView {
    let fresh = !year_seen(y, f.addr);
    YearView {
        t1: y.t1 + if f.t1 { 1int } else { 0int },
        t2: y.t2 + if f.t2 { 1int } else { 0int },
        t3: y.t3 + if f.t3 { 1int } else { 0int },
        overall: y.overall + 1,
        u1: y.u1 + if fresh && f.t1 { 1int } else { 0int },
        u2: y.u2 + if fresh && f.t2 { 1int } else { 0int },
        u3: y.u3 + if fresh && f.t3 { 1int } else { 0int },
        uo: y.uo + if fresh { 1int } else { 0int },
        bytes: y.bytes + f.size,
        ipv4: match f.addr {
            IpKey::V4(v) => y.ipv4.insert(v),
            IpKey::V6(_) => y.ipv4,
        },
        ipv6: match f.addr {
            IpKey::V6(w) => y.ipv6.insert(w),
            IpKey::V4(_) => y.ipv6,
        },
    }
}

/// The month has seen this address.
pub open spec fn month_seen(m: MonthView, a: IpKey) -> bool {
    match a {
        IpKey::V4(v) => m.hits4.contains_key(v),
        IpKey::V6(w) => m.hits6.contains_key(w),
    }
}

/// One record folded into its month's tallies: as for a year, except that
/// the address's own hit count also counts up by one.
pub open spec fn month_with(m: MonthView, f: RecView) -> MonthView {
    let fresh = !month_seen(m, f.addr);
    MonthView {
        t1: m.t1 + if f.t1 { 1int } else { 0int },
        t2: m.t2 + if f.t2 { 1int } else { 0int },
        t3: m.t3 + if f.t3 { 1int } else { 0int },
        overall: m.overall + 1,
        u1: m.u1 + if fresh && f.t1 { 1int } else { 0int },
        u2: m.u2 + if fresh && f.t2 { 1int } else { 0int },
        u3: m.u3 + if fresh && f.t3 { 1int } else { 0int },
        uo: m.uo + if fresh { 1int } else { 0int },
        bytes: m.bytes + f.size,
        hits4: match f.addr {
            IpKey::V4(v) => m.hits4.insert(
                v,
                if m.hits4.contains_key(v) {
                    m.hits4[v] + 1
                } else {
                    1int
                },
            ),
            IpKey::V6(_) => m.hits4,
        },
        hits6: match f.addr {
            IpKey::V6(w) => m.hits6.insert(
                w,
                if m.hits6.contains_key(w) {
                    m.hits6[w] + 1
                } else {
                    1int
                },
            ),
            IpKey::V4(_) => m.hits6,
        },
    }
}

/// One family attribution folded into a distribution row; a record whose
/// track matched but named no family leaves the row's counts alone.
pub open spec fn distro_with(d: DistroView, fam: Option<OsFamily>) -> DistroView {
    match fam {
        Some(OsFamily::Sles) => DistroView { sles: d.sles + 1, rhel: d.rhel, openeuler: d.openeuler },
        Some(OsFamily::Rhel) => DistroView { sles: d.sles, rhel: d.rhel + 1, openeuler: d.openeuler },
        Some(OsFamily::OpenEuler) => DistroView {
            sles: d.sles,
            rhel: d.rhel,
            openeuler: d.openeuler + 1,
        },
        None => d,
    }
}

/// One artifact kind folded into a year's asset row.
pub open spec fn asset_with(a: AssetView, k: AssetKind) -> AssetView {
    match k {
        AssetKind::Tar => AssetView { tar: a.tar + 1, rpm: a.rpm, repomd: a.repomd },
        AssetKind::Rpm => AssetView { tar: a.tar, rpm: a.rpm + 1, repomd: a.repomd },
        AssetKind::RepoMeta => AssetView { tar: a.tar, rpm: a.rpm, repomd: a.repomd + 1 },
    }
}

/// A year's tallies, or the zero row for a year not yet seen.
pub open spec fn year_at(m: Map<int, YearView>, y: int) -> YearView {
    if m.contains_key(y) {
        m[y]
    } else {
        empty_year()
    }
}

pub open spec fn month_at(m: Map<(int, int), MonthView>, k: (int, int)) -> MonthView {
    if m.contains_key(k) {
        m[k]
    } else {
        empty_month()
    }
}

pub open spec fn distro_at(m: Map<int, DistroView>, y: int) -> DistroView {
    if m.contains_key(y) {
        m[y]
    } else {
        empty_distro()
    }
}

pub open spec fn asset_at(m: Map<int, AssetView>, y: int) -> AssetView {
    if m.contains_key(y) {
        m[y]
    } else {
        empty_asset()
    }
}

pub open spec fn count_at<K>(m: Map<K, int>, k: K) -> int {
    if m.contains_key(k) {
        m[k]
    } else {
        0
    }
}

/// One classified record folded into the whole store. A lazily created row
/// starts from the zero row, so creation and update are one operation. The
/// per-track distribution rows exist for any record on their track, except
/// the third track's, whose row is created only once a family matched; the
/// client-tool and asset rows exist only when that fact is present.
pub open spec fn apply_rec(s: StatsView, f: RecView) -> StatsView {
    StatsView {
        years: s.years.insert(f.year, year_with(year_at(s.years, f.year), f)),
        months: s.months.insert(
            (f.year, f.month),
            month_with(month_at(s.months, (f.year, f.month)), f),
        ),
        d1: if f.t1 {
            s.d1.insert(f.year, distro_with(distro_at(s.d1, f.year), f.d1))
        } else {
            s.d1
        },
        d2: if f.t2 {
            s.d2.insert(f.year, distro_with(distro_at(s.d2, f.year), f.d2))
        } else {
            s.d2
        },
        d3: if f.t3 && f.d3 is Some {
            s.d3.insert(f.year, distro_with(distro_at(s.d3, f.year), f.d3))
        } else {
            s.d3
        },
        tools: match f.tool {
            Some(name) => s.tools.insert(
                (f.year, name),
                count_at(s.tools, (f.year, name)) + 1,
            ),
            None => s.tools,
        },
        assets: match f.asset {
            Some(k) => s.assets.insert(f.year, asset_with(asset_at(s.assets, f.year), k)),
            None => s.assets,
        },
        countries: s.countries,
        total: s.total + 1,
    }
}

/// One raw record folded into the store: a record that classifies to no
/// facts leaves every table untouched.
pub open spec fn apply_line(s: StatsView, line: Seq<u8>) -> StatsView {
    match record_facts(line) {
        Some(f) => apply_rec(s, f),
        None => s,
    }
}

/// A sequence of raw records folded into the store, in order.
pub open spec fn apply_lines(s: StatsView, lines: Seq<Seq<u8>>) -> StatsView
    decreases lines.len(),
{
    if lines.len() == 0 {
        s
    } else {
        apply_lines(apply_line(s, lines[0]), lines.skip(1))
    }
}

pub proof fn lemma_apply_lines_snoc(s: StatsView, lines: Seq<Seq<u8>>, l: Seq<u8>)
    ensures
        apply_lines(s, lines.push(l)) == apply_line(apply_lines(s, lines), l),
    decreases lines.len(),
{
    if lines.len() == 0 {
        assert(lines.push(l)[0] == l);
        assert(lines.push(l).skip(1) =~~= Seq::<Seq<u8>>::empty());
        assert(apply_lines(apply_line(s, l), Seq::<Seq<u8>>::empty()) == apply_line(s, l));
        assert(apply_lines(s, lines) == s);
    } else {
        assert(lines.push(l)[0] == lines[0]);
        assert(lines.push(l).skip(1) =~~= lines.skip(1).push(l));
        assert(apply_lines(s, lines.push(l)) == apply_lines(
            apply_line(s, lines[0]),
            lines.skip(1).push(l),
        ));
        lemma_apply_lines_snoc(apply_line(s, lines[0]), lines.skip(1), l);
        assert(apply_lines(s, lines) == apply_lines(apply_line(s, lines[0]), lines.skip(1)));
    }
}

/// One record raises the record count by at most one.
pub proof fn lemma_apply_lines_total(s: StatsView, lines: Seq<Seq<u8>>)
    ensures
        s.total <= apply_lines(s, lines).total <= s.total + lines.len(),
    decreases lines.len(),
{
    if lines.len() > 0 {
        lemma_apply_lines_total(apply_line(s, lines[0]), lines.skip(1));
    }
}

pub proof fn lemma_apply_lines_one(s: StatsView, l: Seq<u8>)
    ensures
        apply_lines(s, seq![l]) == apply_line(s, l),
{
    assert(seq![l].skip(1) =~~= Seq::<Seq<u8>>::empty());
    assert(apply_lines(apply_line(s, l), Seq::<Seq<u8>>::empty()) == apply_line(s, l));
}

/// Folding a concatenation is folding the parts in turn.
pub proof fn lemma_apply_lines_concat(s: StatsView, a: Seq<Seq<u8>>, b: Seq<Seq<u8>>)
    ensures
        apply_lines(s, a + b) == apply_lines(apply_lines(s, a), b),
    decreases a.len(),
{
    if a.len() == 0 {
        assert(a + b =~~= b);
    } else {
        assert((a + b)[0] == a[0]);
        assert((a + b).skip(1) =~~= a.skip(1) + b);
        lemma_apply_lines_concat(apply_line(s, a[0]), a.skip(1), b);
    }
}

} // verus!
