//! The laws of the engine: what holds of every input and every run. Each is
//! proved against the model the executable store is verified to implement.
use vstd::prelude::*;

use crate::bytes::contains_seq;
use crate::addr::IpKey;
use crate::classify::{pat_root, pat_track_old, record_facts, AssetKind, OsFamily, RecView};
use crate::model::{
    apply_line, apply_lines, asset_at, count_at, distro_at, empty_stats, month_at,
    month_seen, year_at, year_seen, StatsView,
};
use crate::store::{
    lemma_months_map_entry, lemma_years_map_entry, month_entry_wf, year_entry_wf, Stats,
};

verus! {

/// Every record that passes the pre-filter and whose timestamp names a year
/// and month counts exactly once toward that year's overall tally, and
/// toward each track's tally exactly when it matched that track; every other
/// year's row is untouched.
pub proof fn lemma_record_counts_once(s: StatsView, line: Seq<u8>, f: RecView)
    requires
        record_facts(line) == Some(f),
    ensures
        apply_line(s, line).years.contains_key(f.year),
        apply_line(s, line).years[f.year].overall == year_at(s.years, f.year).overall + 1,
        apply_line(s, line).years[f.year].t1 == year_at(s.years, f.year).t1 + (if f.t1 {
            1int
        } else {
            0int
        }),
        apply_line(s, line).years[f.year].t2 == year_at(s.years, f.year).t2 + (if f.t2 {
            1int
        } else {
            0int
        }),
        apply_line(s, line).years[f.year].t3 == year_at(s.years, f.year).t3 + (if f.t3 {
            1int
        } else {
            0int
        }),
        forall|y: int|
            y != f.year ==> apply_line(s, line).years.contains_key(y) == s.years.contains_key(y),
        forall|y: int|
            y != f.year && s.years.contains_key(y) ==> apply_line(s, line).years[y] == s.years[y],
{
}

/// At most one release track matches a record, provided the record does not
/// name both the oldest track's path segment and the generic repository
/// root. (A record naming both paths at once — no real path convention does
/// — would count toward the oldest track and one of the newer ones.)
pub proof fn lemma_at_most_one_track(line: Seq<u8>, f: RecView)
    requires
        record_facts(line) == Some(f),
        !(contains_seq(line, pat_track_old()) && contains_seq(line, pat_root())),
    ensures
        (if f.t1 {
            1int
        } else {
            0int
        }) + (if f.t2 {
            1int
        } else {
            0int
        }) + (if f.t3 {
            1int
        } else {
            0int
        }) <= 1,
{
}

/// In every well-formed store, for every year on record, the unique-visitor
/// counts never exceed their request counts — overall and per track — and
/// the overall unique count is exactly the number of distinct addresses seen
/// that year. The store's operations keep every store well-formed.
pub proof fn lemma_unique_bounds(s: &Stats, y: int)
    requires
        s.wf(),
        s@.years.contains_key(y),
    ensures
        s@.years[y].uo <= s@.years[y].overall,
        s@.years[y].u1 <= s@.years[y].t1,
        s@.years[y].u2 <= s@.years[y].t2,
        s@.years[y].u3 <= s@.years[y].t3,
        s@.years[y].uo == s@.years[y].ipv4.len() + s@.years[y].ipv6.len(),
{
    lemma_years_map_entry(s.years@, y);
    let i = choose|i: int|
        0 <= i < s.years@.len() && #[trigger] s.years@[i]@ == s@.years[y] && s.years@[i].year as int
            == y;
    assert(year_entry_wf(s.years@[i], s.total as int));
}

/// The monthly rows obey the same bounds, with distinct addresses counted by
/// the domain of the per-address hit maps.
pub proof fn lemma_unique_bounds_monthly(s: &Stats, y: int, m: int)
    requires
        s.wf(),
        s@.months.contains_key((y, m)),
    ensures
        s@.months[(y, m)].uo <= s@.months[(y, m)].overall,
        s@.months[(y, m)].u1 <= s@.months[(y, m)].t1,
        s@.months[(y, m)].u2 <= s@.months[(y, m)].t2,
        s@.months[(y, m)].u3 <= s@.months[(y, m)].t3,
{
    lemma_months_map_entry(s.months@, (y, m));
    let i = choose|i: int|
        0 <= i < s.months@.len() && #[trigger] s.months@[i]@ == s@.months[(y, m)]
            && s.months@[i].year as int == y && s.months@[i].month as int == m;
    assert(month_entry_wf(s.months@[i], s.total as int));
}


// --- counting what a record sequence contributes ---

/// The sum of `g` over every record of `lines` that classifies to facts.
pub open spec fn facts_sum(lines: Seq<Seq<u8>>, g: spec_fn(RecView) -> int) -> int
    decreases lines.len(),
{
    if lines.len() == 0 {
        0
    } else {
        (match record_facts(lines[0]) {
            Some(f) => g(f),
            None => 0int,
        }) + facts_sum(lines.skip(1), g)
    }
}

/// Whether any record of `lines` classifies to facts satisfying `p`.
pub open spec fn facts_any(lines: Seq<Seq<u8>>, p: spec_fn(RecView) -> bool) -> bool
    decreases lines.len(),
{
    if lines.len() == 0 {
        false
    } else {
        (match record_facts(lines[0]) {
            Some(f) => p(f),
            None => false,
        }) || facts_any(lines.skip(1), p)
    }
}

pub open spec fn sel_one() -> spec_fn(RecView) -> int {
    |f: RecView| 1int
}

pub open spec fn pre_year(y: int) -> spec_fn(RecView) -> bool {
    |f: RecView| f.year == y
}

pub open spec fn sel_overall(y: int) -> spec_fn(RecView) -> int {
    |f: RecView| if f.year == y { 1int } else { 0int }
}

pub open spec fn sel_t1(y: int) -> spec_fn(RecView) -> int {
    |f: RecView| if f.year == y && f.t1 { 1int } else { 0int }
}

pub open spec fn sel_t2(y: int) -> spec_fn(RecView) -> int {
    |f: RecView| if f.year == y && f.t2 { 1int } else { 0int }
}

pub open spec fn sel_t3(y: int) -> spec_fn(RecView) -> int {
    |f: RecView| if f.year == y && f.t3 { 1int } else { 0int }
}

pub open spec fn sel_bytes(y: int) -> spec_fn(RecView) -> int {
    |f: RecView| if f.year == y { f.size } else { 0int }
}

pub open spec fn pre_month(y: int, m: int) -> spec_fn(RecView) -> bool {
    |f: RecView| f.year == y && f.month == m
}

pub open spec fn sel_m_overall(y: int, m: int) -> spec_fn(RecView) -> int {
    |f: RecView| if f.year == y && f.month == m { 1int } else { 0int }
}

pub open spec fn sel_m_t1(y: int, m: int) -> spec_fn(RecView) -> int {
    |f: RecView| if f.year == y && f.month == m && f.t1 { 1int } else { 0int }
}

pub open spec fn sel_m_t2(y: int, m: int) -> spec_fn(RecView) -> int {
    |f: RecView| if f.year == y && f.month == m && f.t2 { 1int } else { 0int }
}

pub open spec fn sel_m_t3(y: int, m: int) -> spec_fn(RecView) -> int {
    |f: RecView| if f.year == y && f.month == m && f.t3 { 1int } else { 0int }
}

pub open spec fn sel_m_bytes(y: int, m: int) -> spec_fn(RecView) -> int {
    |f: RecView| if f.year == y && f.month == m { f.size } else { 0int }
}

pub open spec fn pre_hit4(y: int, m: int, a: u32) -> spec_fn(RecView) -> bool {
    |f: RecView| f.year == y && f.month == m && f.addr == IpKey::V4(a)
}

pub open spec fn sel_hit4(y: int, m: int, a: u32) -> spec_fn(RecView) -> int {
    |f: RecView| if f.year == y && f.month == m && f.addr == IpKey::V4(a) { 1int } else { 0int }
}

pub open spec fn pre_hit6(y: int, m: int, w: u128) -> spec_fn(RecView) -> bool {
    |f: RecView| f.year == y && f.month == m && f.addr == IpKey::V6(w)
}

pub open spec fn sel_hit6(y: int, m: int, w: u128) -> spec_fn(RecView) -> int {
    |f: RecView| if f.year == y && f.month == m && f.addr == IpKey::V6(w) { 1int } else { 0int }
}

pub open spec fn pre_d1(y: int) -> spec_fn(RecView) -> bool {
    |f: RecView| f.t1 && f.year == y
}

pub open spec fn sel_d1(y: int, fam: OsFamily) -> spec_fn(RecView) -> int {
    |f: RecView| if f.t1 && f.year == y && f.d1 == Some(fam) { 1int } else { 0int }
}

pub open spec fn pre_d2(y: int) -> spec_fn(RecView) -> bool {
    |f: RecView| f.t2 && f.year == y
}

pub open spec fn sel_d2(y: int, fam: OsFamily) -> spec_fn(RecView) -> int {
    |f: RecView| if f.t2 && f.year == y && f.d2 == Some(fam) { 1int } else { 0int }
}

pub open spec fn pre_d3(y: int) -> spec_fn(RecView) -> bool {
    |f: RecView| f.t3 && f.d3 is Some && f.year == y
}

pub open spec fn sel_d3(y: int, fam: OsFamily) -> spec_fn(RecView) -> int {
    |f: RecView| if f.t3 && f.year == y && f.d3 == Some(fam) { 1int } else { 0int }
}

pub open spec fn pre_tool(y: int, name: Seq<u8>) -> spec_fn(RecView) -> bool {
    |f: RecView| f.year == y && f.tool == Some(name)
}

pub open spec fn sel_tool(y: int, name: Seq<u8>) -> spec_fn(RecView) -> int {
    |f: RecView| if f.year == y && f.tool == Some(name) { 1int } else { 0int }
}

pub open spec fn pre_asset(y: int) -> spec_fn(RecView) -> bool {
    |f: RecView| f.year == y && f.asset is Some
}

pub open spec fn sel_asset(y: int, k: AssetKind) -> spec_fn(RecView) -> int {
    |f: RecView| if f.year == y && f.asset == Some(k) { 1int } else { 0int }
}

/// Every scalar counter of every table grows by exactly the contribution of
/// the records folded in, whatever the store already held: the fixed keys
/// `y`, `m`, `a4`, `a6` and `name` stand for any year, month, address and
/// client-tool name.
proof fn lemma_scalar_additive(
    s: StatsView,
    lines: Seq<Seq<u8>>,
    y: int,
    m: int,
    a4: u32,
    a6: u128,
    name: Seq<u8>,
)
    ensures
        ({
            let r = apply_lines(s, lines);
            &&& r.years.contains_key(y) == (s.years.contains_key(y) || facts_any(
                lines,
                pre_year(y),
            ))
            &&& year_at(r.years, y).overall == year_at(s.years, y).overall + facts_sum(
                lines,
                sel_overall(y),
            )
            &&& year_at(r.years, y).t1 == year_at(s.years, y).t1 + facts_sum(lines, sel_t1(y))
            &&& year_at(r.years, y).t2 == year_at(s.years, y).t2 + facts_sum(lines, sel_t2(y))
            &&& year_at(r.years, y).t3 == year_at(s.years, y).t3 + facts_sum(lines, sel_t3(y))
            &&& year_at(r.years, y).bytes == year_at(s.years, y).bytes + facts_sum(
                lines,
                sel_bytes(y),
            )
            &&& r.months.contains_key((y, m)) == (s.months.contains_key((y, m)) || facts_any(
                lines,
                pre_month(y, m),
            ))
            &&& month_at(r.months, (y, m)).overall == month_at(s.months, (y, m)).overall
                + facts_sum(lines, sel_m_overall(y, m))
            &&& month_at(r.months, (y, m)).t1 == month_at(s.months, (y, m)).t1 + facts_sum(
                lines,
                sel_m_t1(y, m),
            )
            &&& month_at(r.months, (y, m)).t2 == month_at(s.months, (y, m)).t2 + facts_sum(
                lines,
                sel_m_t2(y, m),
            )
            &&& month_at(r.months, (y, m)).t3 == month_at(s.months, (y, m)).t3 + facts_sum(
                lines,
                sel_m_t3(y, m),
            )
            &&& month_at(r.months, (y, m)).bytes == month_at(s.months, (y, m)).bytes + facts_sum(
                lines,
                sel_m_bytes(y, m),
            )
            &&& month_at(r.months, (y, m)).hits4.contains_key(a4) == (month_at(
                s.months,
                (y, m),
            ).hits4.contains_key(a4) || facts_any(lines, pre_hit4(y, m, a4)))
            &&& count_at(month_at(r.months, (y, m)).hits4, a4) == count_at(
                month_at(s.months, (y, m)).hits4,
                a4,
            ) + facts_sum(lines, sel_hit4(y, m, a4))
            &&& month_at(r.months, (y, m)).hits6.contains_key(a6) == (month_at(
                s.months,
                (y, m),
            ).hits6.contains_key(a6) || facts_any(lines, pre_hit6(y, m, a6)))
            &&& count_at(month_at(r.months, (y, m)).hits6, a6) == count_at(
                month_at(s.months, (y, m)).hits6,
                a6,
            ) + facts_sum(lines, sel_hit6(y, m, a6))
            &&& r.d1.contains_key(y) == (s.d1.contains_key(y) || facts_any(lines, pre_d1(y)))
            &&& distro_at(r.d1, y).sles == distro_at(s.d1, y).sles + facts_sum(
                lines,
                sel_d1(y, OsFamily::Sles),
            )
            &&& distro_at(r.d1, y).rhel == distro_at(s.d1, y).rhel + facts_sum(
                lines,
                sel_d1(y, OsFamily::Rhel),
            )
            &&& distro_at(r.d1, y).openeuler == distro_at(s.d1, y).openeuler + facts_sum(
                lines,
                sel_d1(y, OsFamily::OpenEuler),
            )
            &&& r.d2.contains_key(y) == (s.d2.contains_key(y) || facts_any(lines, pre_d2(y)))
            &&& distro_at(r.d2, y).sles == distro_at(s.d2, y).sles + facts_sum(
                lines,
                sel_d2(y, OsFamily::Sles),
            )
            &&& distro_at(r.d2, y).rhel == distro_at(s.d2, y).rhel + facts_sum(
                lines,
                sel_d2(y, OsFamily::Rhel),
            )
            &&& distro_at(r.d2, y).openeuler == distro_at(s.d2, y).openeuler + facts_sum(
                lines,
                sel_d2(y, OsFamily::OpenEuler),
            )
            &&& r.d3.contains_key(y) == (s.d3.contains_key(y) || facts_any(lines, pre_d3(y)))
            &&& distro_at(r.d3, y).sles == distro_at(s.d3, y).sles + facts_sum(
                lines,
                sel_d3(y, OsFamily::Sles),
            )
            &&& distro_at(r.d3, y).rhel == distro_at(s.d3, y).rhel + facts_sum(
                lines,
                sel_d3(y, OsFamily::Rhel),
            )
            &&& distro_at(r.d3, y).openeuler == distro_at(s.d3, y).openeuler + facts_sum(
                lines,
                sel_d3(y, OsFamily::OpenEuler),
            )
            &&& r.tools.contains_key((y, name)) == (s.tools.contains_key((y, name)) || facts_any(
                lines,
                pre_tool(y, name),
            ))
            &&& count_at(r.tools, (y, name)) == count_at(s.tools, (y, name)) + facts_sum(
                lines,
                sel_tool(y, name),
            )
            &&& r.assets.contains_key(y) == (s.assets.contains_key(y) || facts_any(
                lines,
                pre_asset(y),
            ))
            &&& asset_at(r.assets, y).tar == asset_at(s.assets, y).tar + facts_sum(
                lines,
                sel_asset(y, AssetKind::Tar),
            )
            &&& asset_at(r.assets, y).rpm == asset_at(s.assets, y).rpm + facts_sum(
                lines,
                sel_asset(y, AssetKind::Rpm),
            )
            &&& asset_at(r.assets, y).repomd == asset_at(s.assets, y).repomd + facts_sum(
                lines,
                sel_asset(y, AssetKind::RepoMeta),
            )
            &&& r.total == s.total + facts_sum(lines, sel_one())
            &&& r.countries == s.countries
        }),
    decreases lines.len(),
{
    if lines.len() > 0 {
        let s1 = apply_line(s, lines[0]);
        lemma_scalar_additive(s1, lines.skip(1), y, m, a4, a6, name);
    }
}


// --- saturation: a store that has already seen every address of the input ---

/// The store has seen, in the matching period, the address of every record
/// of `lines` that classifies to facts.
pub open spec fn saturated(s: StatsView, lines: Seq<Seq<u8>>) -> bool {
    forall|j: int|
        0 <= j < lines.len() ==> match record_facts(#[trigger] lines[j]) {
            Some(f) => s.years.contains_key(f.year) && year_seen(s.years[f.year], f.addr)
                && s.months.contains_key((f.year, f.month)) && month_seen(
                s.months[(f.year, f.month)],
                f.addr,
            ),
            None => true,
        }
}

/// Ingestion only grows what has been seen: every period key stays on
/// record and every address stays seen.
proof fn lemma_seen_monotone(s: StatsView, lines: Seq<Seq<u8>>)
    ensures
        ({
            let r = apply_lines(s, lines);
            &&& forall|y: int| #[trigger] s.years.contains_key(y) ==> r.years.contains_key(y)
            &&& forall|y: int, a: IpKey|
                s.years.contains_key(y) && #[trigger] year_seen(s.years[y], a)
                    ==> r.years.contains_key(y) && year_seen(r.years[y], a)
            &&& forall|k: (int, int)| #[trigger] s.months.contains_key(k) ==> r.months.contains_key(
                k,
            )
            &&& forall|k: (int, int), a: IpKey|
                s.months.contains_key(k) && #[trigger] month_seen(s.months[k], a)
                    ==> r.months.contains_key(k) && month_seen(r.months[k], a)
        }),
    decreases lines.len(),
{
    if lines.len() > 0 {
        let s1 = apply_line(s, lines[0]);
        lemma_seen_monotone(s1, lines.skip(1));
        let r = apply_lines(s, lines);
        assert(r == apply_lines(s1, lines.skip(1)));
        assert forall|y: int| #[trigger] s.years.contains_key(y) implies r.years.contains_key(
            y,
        ) by {
            assert(s1.years.contains_key(y));
        }
        assert forall|k: (int, int)| #[trigger] s.months.contains_key(k) implies
            r.months.contains_key(k) by {
            assert(s1.months.contains_key(k));
        }
        assert forall|y: int, a: IpKey|
            s.years.contains_key(y) && #[trigger] year_seen(s.years[y], a) implies
            r.years.contains_key(y) && year_seen(r.years[y], a) by {
            match record_facts(lines[0]) {
                Some(f) => {
                    if f.year == y {
                        assert(s1.years[y] == crate::model::year_with(year_at(s.years, y), f));
                    }
                },
                None => {},
            }
            assert(s1.years.contains_key(y) && year_seen(s1.years[y], a));
        }
        assert forall|k: (int, int), a: IpKey|
            s.months.contains_key(k) && #[trigger] month_seen(s.months[k], a) implies
            r.months.contains_key(k) && month_seen(r.months[k], a) by {
            match record_facts(lines[0]) {
                Some(f) => {
                    if (f.year, f.month) == k {
                        assert(s1.months[k] == crate::model::month_with(
                            month_at(s.months, k),
                            f,
                        ));
                    }
                },
                None => {},
            }
            assert(s1.months.contains_key(k) && month_seen(s1.months[k], a));
        }
    }
}

/// After one pass over `lines` the store is saturated for `lines`: every
/// record's address has been seen in its period.
proof fn lemma_first_pass_saturates(s: StatsView, lines: Seq<Seq<u8>>)
    ensures
        saturated(apply_lines(s, lines), lines),
    decreases lines.len(),
{
    if lines.len() > 0 {
        let s1 = apply_line(s, lines[0]);
        let r = apply_lines(s, lines);
        lemma_first_pass_saturates(s1, lines.skip(1));
        lemma_seen_monotone(s1, lines.skip(1));
        assert forall|j: int| 0 <= j < lines.len() implies match record_facts(
            #[trigger] lines[j],
        ) {
            Some(f) => r.years.contains_key(f.year) && year_seen(r.years[f.year], f.addr)
                && r.months.contains_key((f.year, f.month)) && month_seen(
                r.months[(f.year, f.month)],
                f.addr,
            ),
            None => true,
        } by {
            if j == 0 {
                match record_facts(lines[0]) {
                    Some(f) => {
                        assert(s1.years.contains_key(f.year));
                        assert(s1.years[f.year] == crate::model::year_with(
                            year_at(s.years, f.year),
                            f,
                        ));
                        assert(year_seen(s1.years[f.year], f.addr));
                        assert(s1.months.contains_key((f.year, f.month)));
                        assert(s1.months[(f.year, f.month)] == crate::model::month_with(
                            month_at(s.months, (f.year, f.month)),
                            f,
                        ));
                        assert(month_seen(s1.months[(f.year, f.month)], f.addr));
                    },
                    None => {},
                }
            } else {
                assert(lines.skip(1)[j - 1] == lines[j]);
                assert(saturated(r, lines.skip(1)));
            }
        }
    }
}

/// Re-ingesting records whose addresses the store has all seen leaves every
/// unique-visitor structure exactly as it was: the period keys, the address
/// sets, the per-address hit domains and all unique counters.
proof fn lemma_saturated_preserves_uniques(s: StatsView, lines: Seq<Seq<u8>>)
    requires
        saturated(s, lines),
    ensures
        ({
            let r = apply_lines(s, lines);
            &&& forall|y: int| #[trigger] r.years.contains_key(y) == s.years.contains_key(y)
            &&& forall|y: int| #[trigger] s.years.contains_key(y) ==> {
                &&& r.years[y].uo == s.years[y].uo
                &&& r.years[y].u1 == s.years[y].u1
                &&& r.years[y].u2 == s.years[y].u2
                &&& r.years[y].u3 == s.years[y].u3
                &&& r.years[y].ipv4 == s.years[y].ipv4
                &&& r.years[y].ipv6 == s.years[y].ipv6
            }
            &&& forall|k: (int, int)| #[trigger] r.months.contains_key(k)
                == s.months.contains_key(k)
            &&& forall|k: (int, int)| #[trigger] s.months.contains_key(k) ==> {
                &&& r.months[k].uo == s.months[k].uo
                &&& r.months[k].u1 == s.months[k].u1
                &&& r.months[k].u2 == s.months[k].u2
                &&& r.months[k].u3 == s.months[k].u3
                &&& r.months[k].hits4.dom() == s.months[k].hits4.dom()
                &&& r.months[k].hits6.dom() == s.months[k].hits6.dom()
            }
        }),
    decreases lines.len(),
{
    if lines.len() > 0 {
        let s1 = apply_line(s, lines[0]);
        match record_facts(lines[0]) {
            Some(f) => {
                assert(s.years.contains_key(f.year));
                assert(s.months.contains_key((f.year, f.month)));
                let oldy = s.years[f.year];
                let newy = crate::model::year_with(oldy, f);
                assert(year_at(s.years, f.year) == oldy);
                assert(!(!year_seen(oldy, f.addr)));
                match f.addr {
                    IpKey::V4(v) => {
                        assert(newy.ipv4 =~= oldy.ipv4);
                    },
                    IpKey::V6(w) => {
                        assert(newy.ipv6 =~= oldy.ipv6);
                    },
                }
                let oldm = s.months[(f.year, f.month)];
                let newm = crate::model::month_with(oldm, f);
                assert(month_at(s.months, (f.year, f.month)) == oldm);
                match f.addr {
                    IpKey::V4(v) => {
                        assert(newm.hits4.dom() =~= oldm.hits4.dom());
                        assert(newm.hits6.dom() =~= oldm.hits6.dom());
                    },
                    IpKey::V6(w) => {
                        assert(newm.hits4.dom() =~= oldm.hits4.dom());
                        assert(newm.hits6.dom() =~= oldm.hits6.dom());
                    },
                }
                // the rest of the input stays saturated: the sets are unchanged
                assert forall|j: int| 0 <= j < lines.skip(1).len() implies match record_facts(
                    #[trigger] lines.skip(1)[j],
                ) {
                    Some(g) => s1.years.contains_key(g.year) && year_seen(
                        s1.years[g.year],
                        g.addr,
                    ) && s1.months.contains_key((g.year, g.month)) && month_seen(
                        s1.months[(g.year, g.month)],
                        g.addr,
                    ),
                    None => true,
                } by {
                    assert(lines.skip(1)[j] == lines[j + 1]);
                    match record_facts(lines[j + 1]) {
                        Some(g) => {
                            assert(s.years.contains_key(g.year));
                            assert(year_seen(s.years[g.year], g.addr));
                            if g.year == f.year {
                                assert(s1.years[g.year] == newy);
                                assert(year_seen(newy, g.addr));
                            }
                            if (g.year, g.month) == (f.year, f.month) {
                                assert(s1.months[(g.year, g.month)] == newm);
                                assert(month_seen(newm, g.addr));
                            }
                        },
                        None => {},
                    }
                }
                assert(saturated(s1, lines.skip(1)));
                lemma_saturated_preserves_uniques(s1, lines.skip(1));
                let r = apply_lines(s, lines);
                assert(r == apply_lines(s1, lines.skip(1)));
                assert(s1.years.contains_key(f.year));
                assert forall|y: int| #[trigger] r.years.contains_key(y)
                    == s.years.contains_key(y) by {
                    assert(r.years.contains_key(y) == s1.years.contains_key(y));
                }
                assert forall|y: int| #[trigger] s.years.contains_key(y) implies {
                    &&& r.years[y].uo == s.years[y].uo
                    &&& r.years[y].u1 == s.years[y].u1
                    &&& r.years[y].u2 == s.years[y].u2
                    &&& r.years[y].u3 == s.years[y].u3
                    &&& r.years[y].ipv4 == s.years[y].ipv4
                    &&& r.years[y].ipv6 == s.years[y].ipv6
                } by {
                    assert(s1.years.contains_key(y));
                    if y == f.year {
                        assert(s1.years[y] == newy);
                    } else {
                        assert(s1.years[y] == s.years[y]);
                    }
                }
                assert forall|k: (int, int)| #[trigger] r.months.contains_key(k)
                    == s.months.contains_key(k) by {
                    assert(r.months.contains_key(k) == s1.months.contains_key(k));
                }
                assert forall|k: (int, int)| #[trigger] s.months.contains_key(k) implies {
                    &&& r.months[k].uo == s.months[k].uo
                    &&& r.months[k].u1 == s.months[k].u1
                    &&& r.months[k].u2 == s.months[k].u2
                    &&& r.months[k].u3 == s.months[k].u3
                    &&& r.months[k].hits4.dom() == s.months[k].hits4.dom()
                    &&& r.months[k].hits6.dom() == s.months[k].hits6.dom()
                } by {
                    assert(s1.months.contains_key(k));
                    if k == (f.year, f.month) {
                        assert(s1.months[k] == newm);
                    } else {
                        assert(s1.months[k] == s.months[k]);
                    }
                }
            },
            None => {
                assert(s1 == s);
                assert forall|j: int| 0 <= j < lines.skip(1).len() implies match record_facts(
                    #[trigger] lines.skip(1)[j],
                ) {
                    Some(g) => s1.years.contains_key(g.year) && year_seen(
                        s1.years[g.year],
                        g.addr,
                    ) && s1.months.contains_key((g.year, g.month)) && month_seen(
                        s1.months[(g.year, g.month)],
                        g.addr,
                    ),
                    None => true,
                } by {
                    assert(lines.skip(1)[j] == lines[j + 1]);
                }
                lemma_saturated_preserves_uniques(s1, lines.skip(1));
                let r = apply_lines(s, lines);
                assert(r == apply_lines(s1, lines.skip(1)));
                assert forall|y: int| #[trigger] r.years.contains_key(y)
                    == s.years.contains_key(y) by {
                    assert(r.years.contains_key(y) == s1.years.contains_key(y));
                }
                assert forall|y: int| #[trigger] s.years.contains_key(y) implies {
                    &&& r.years[y].uo == s.years[y].uo
                    &&& r.years[y].u1 == s.years[y].u1
                    &&& r.years[y].u2 == s.years[y].u2
                    &&& r.years[y].u3 == s.years[y].u3
                    &&& r.years[y].ipv4 == s.years[y].ipv4
                    &&& r.years[y].ipv6 == s.years[y].ipv6
                } by {
                    assert(s1.years.contains_key(y));
                    assert(s1.years[y] == s.years[y]);
                }
                assert forall|k: (int, int)| #[trigger] r.months.contains_key(k)
                    == s.months.contains_key(k) by {
                    assert(r.months.contains_key(k) == s1.months.contains_key(k));
                }
                assert forall|k: (int, int)| #[trigger] s.months.contains_key(k) implies {
                    &&& r.months[k].uo == s.months[k].uo
                    &&& r.months[k].u1 == s.months[k].u1
                    &&& r.months[k].u2 == s.months[k].u2
                    &&& r.months[k].u3 == s.months[k].u3
                    &&& r.months[k].hits4.dom() == s.months[k].hits4.dom()
                    &&& r.months[k].hits6.dom() == s.months[k].hits6.dom()
                } by {
                    assert(s1.months.contains_key(k));
                    assert(s1.months[k] == s.months[k]);
                }
            },
        }
    }
}

/// Ingesting the identical input twice in one run doubles every scalar
/// counter exactly — requests, bytes, per-distribution, client-tool and
/// artifact counts, and each address's per-month hit count — while every
/// unique-visitor count and every address structure stays exactly as after
/// the first pass: deduplication within a period is idempotent.
pub proof fn lemma_reingest_doubles(lines: Seq<Seq<u8>>)
    ensures
        ({
            let once = apply_lines(empty_stats(), lines);
            let twice = apply_lines(once, lines);
            &&& twice.total == 2 * once.total
            &&& forall|y: int| #[trigger] twice.years.contains_key(y) == once.years.contains_key(y)
            &&& forall|y: int| #[trigger] once.years.contains_key(y) ==> {
                &&& twice.years[y].overall == 2 * once.years[y].overall
                &&& twice.years[y].t1 == 2 * once.years[y].t1
                &&& twice.years[y].t2 == 2 * once.years[y].t2
                &&& twice.years[y].t3 == 2 * once.years[y].t3
                &&& twice.years[y].bytes == 2 * once.years[y].bytes
                &&& twice.years[y].uo == once.years[y].uo
                &&& twice.years[y].u1 == once.years[y].u1
                &&& twice.years[y].u2 == once.years[y].u2
                &&& twice.years[y].u3 == once.years[y].u3
                &&& twice.years[y].ipv4 == once.years[y].ipv4
                &&& twice.years[y].ipv6 == once.years[y].ipv6
            }
            &&& forall|k: (int, int)| #[trigger] twice.months.contains_key(k)
                == once.months.contains_key(k)
            &&& forall|k: (int, int)| #[trigger] once.months.contains_key(k) ==> {
                &&& twice.months[k].overall == 2 * once.months[k].overall
                &&& twice.months[k].t1 == 2 * once.months[k].t1
                &&& twice.months[k].t2 == 2 * once.months[k].t2
                &&& twice.months[k].t3 == 2 * once.months[k].t3
                &&& twice.months[k].bytes == 2 * once.months[k].bytes
                &&& twice.months[k].uo == once.months[k].uo
                &&& twice.months[k].u1 == once.months[k].u1
                &&& twice.months[k].u2 == once.months[k].u2
                &&& twice.months[k].u3 == once.months[k].u3
                &&& twice.months[k].hits4.dom() == once.months[k].hits4.dom()
                &&& twice.months[k].hits6.dom() == once.months[k].hits6.dom()
            }
            &&& forall|k: (int, int), a: u32|
                once.months.contains_key(k) && #[trigger] once.months[k].hits4.contains_key(a)
                    ==> count_at(twice.months[k].hits4, a) == 2 * count_at(once.months[k].hits4, a)
            &&& forall|k: (int, int), w: u128|
                once.months.contains_key(k) && #[trigger] once.months[k].hits6.contains_key(w)
                    ==> count_at(twice.months[k].hits6, w) == 2 * count_at(once.months[k].hits6, w)
            &&& forall|y: int| #[trigger] twice.d1.contains_key(y) == once.d1.contains_key(y)
            &&& forall|y: int| #[trigger] once.d1.contains_key(y) ==> {
                &&& twice.d1[y].sles == 2 * once.d1[y].sles
                &&& twice.d1[y].rhel == 2 * once.d1[y].rhel
                &&& twice.d1[y].openeuler == 2 * once.d1[y].openeuler
            }
            &&& forall|y: int| #[trigger] twice.d2.contains_key(y) == once.d2.contains_key(y)
            &&& forall|y: int| #[trigger] once.d2.contains_key(y) ==> {
                &&& twice.d2[y].sles == 2 * once.d2[y].sles
                &&& twice.d2[y].rhel == 2 * once.d2[y].rhel
                &&& twice.d2[y].openeuler == 2 * once.d2[y].openeuler
            }
            &&& forall|y: int| #[trigger] twice.d3.contains_key(y) == once.d3.contains_key(y)
            &&& forall|y: int| #[trigger] once.d3.contains_key(y) ==> {
                &&& twice.d3[y].sles == 2 * once.d3[y].sles
                &&& twice.d3[y].rhel == 2 * once.d3[y].rhel
                &&& twice.d3[y].openeuler == 2 * once.d3[y].openeuler
            }
            &&& forall|t: (int, Seq<u8>)| #[trigger] twice.tools.contains_key(t)
                == once.tools.contains_key(t)
            &&& forall|t: (int, Seq<u8>)| #[trigger] once.tools.contains_key(t)
                ==> count_at(twice.tools, t) == 2 * count_at(once.tools, t)
            &&& forall|y: int| #[trigger] twice.assets.contains_key(y) == once.assets.contains_key(
                y,
            )
            &&& forall|y: int| #[trigger] once.assets.contains_key(y) ==> {
                &&& twice.assets[y].tar == 2 * once.assets[y].tar
                &&& twice.assets[y].rpm == 2 * once.assets[y].rpm
                &&& twice.assets[y].repomd == 2 * once.assets[y].repomd
            }
            &&& twice.countries == once.countries
        }),
{
    let s0 = empty_stats();
    let once = apply_lines(s0, lines);
    let twice = apply_lines(once, lines);
    lemma_first_pass_saturates(s0, lines);
    lemma_saturated_preserves_uniques(once, lines);
    assert forall|y: int| #[trigger] twice.years.contains_key(y) == once.years.contains_key(
        y,
    ) by {
        lemma_scalar_additive(s0, lines, y, 0, 0, 0, Seq::<u8>::empty());
        lemma_scalar_additive(once, lines, y, 0, 0, 0, Seq::<u8>::empty());
    }
    assert forall|y: int| #[trigger] once.years.contains_key(y) implies {
        &&& twice.years[y].overall == 2 * once.years[y].overall
        &&& twice.years[y].t1 == 2 * once.years[y].t1
        &&& twice.years[y].t2 == 2 * once.years[y].t2
        &&& twice.years[y].t3 == 2 * once.years[y].t3
        &&& twice.years[y].bytes == 2 * once.years[y].bytes
        &&& twice.years[y].uo == once.years[y].uo
        &&& twice.years[y].u1 == once.years[y].u1
        &&& twice.years[y].u2 == once.years[y].u2
        &&& twice.years[y].u3 == once.years[y].u3
        &&& twice.years[y].ipv4 == once.years[y].ipv4
        &&& twice.years[y].ipv6 == once.years[y].ipv6
    } by {
        lemma_scalar_additive(s0, lines, y, 0, 0, 0, Seq::<u8>::empty());
        lemma_scalar_additive(once, lines, y, 0, 0, 0, Seq::<u8>::empty());
        assert(twice.years.contains_key(y));
        assert(year_at(once.years, y) == once.years[y]);
        assert(year_at(twice.years, y) == twice.years[y]);
        assert(year_at(s0.years, y) == crate::model::empty_year());
    }
    assert forall|k: (int, int)| #[trigger] twice.months.contains_key(k)
        == once.months.contains_key(k) by {
        lemma_scalar_additive(s0, lines, k.0, k.1, 0, 0, Seq::<u8>::empty());
        lemma_scalar_additive(once, lines, k.0, k.1, 0, 0, Seq::<u8>::empty());
        assert((k.0, k.1) == k);
    }
    assert forall|k: (int, int)| #[trigger] once.months.contains_key(k) implies {
        &&& twice.months[k].overall == 2 * once.months[k].overall
        &&& twice.months[k].t1 == 2 * once.months[k].t1
        &&& twice.months[k].t2 == 2 * once.months[k].t2
        &&& twice.months[k].t3 == 2 * once.months[k].t3
        &&& twice.months[k].bytes == 2 * once.months[k].bytes
        &&& twice.months[k].uo == once.months[k].uo
        &&& twice.months[k].u1 == once.months[k].u1
        &&& twice.months[k].u2 == once.months[k].u2
        &&& twice.months[k].u3 == once.months[k].u3
        &&& twice.months[k].hits4.dom() == once.months[k].hits4.dom()
        &&& twice.months[k].hits6.dom() == once.months[k].hits6.dom()
    } by {
        lemma_scalar_additive(s0, lines, k.0, k.1, 0, 0, Seq::<u8>::empty());
        lemma_scalar_additive(once, lines, k.0, k.1, 0, 0, Seq::<u8>::empty());
        assert((k.0, k.1) == k);
        assert(twice.months.contains_key(k));
        assert(month_at(once.months, k) == once.months[k]);
        assert(month_at(twice.months, k) == twice.months[k]);
        assert(month_at(s0.months, k) == crate::model::empty_month());
    }
    assert forall|k: (int, int), a: u32|
        once.months.contains_key(k) && #[trigger] once.months[k].hits4.contains_key(a) implies
        count_at(twice.months[k].hits4, a) == 2 * count_at(once.months[k].hits4, a) by {
        lemma_scalar_additive(s0, lines, k.0, k.1, a, 0, Seq::<u8>::empty());
        lemma_scalar_additive(once, lines, k.0, k.1, a, 0, Seq::<u8>::empty());
        assert((k.0, k.1) == k);
        assert(month_at(s0.months, k) == crate::model::empty_month());
        assert(count_at(crate::model::empty_month().hits4, a) == 0);
    }
    assert forall|k: (int, int), w: u128|
        once.months.contains_key(k) && #[trigger] once.months[k].hits6.contains_key(w) implies
        count_at(twice.months[k].hits6, w) == 2 * count_at(once.months[k].hits6, w) by {
        lemma_scalar_additive(s0, lines, k.0, k.1, 0, w, Seq::<u8>::empty());
        lemma_scalar_additive(once, lines, k.0, k.1, 0, w, Seq::<u8>::empty());
        assert((k.0, k.1) == k);
        assert(month_at(s0.months, k) == crate::model::empty_month());
        assert(count_at(crate::model::empty_month().hits6, w) == 0);
    }
    assert forall|y: int| #[trigger] twice.d1.contains_key(y)
        == once.d1.contains_key(y) by {
        lemma_scalar_additive(s0, lines, y, 0, 0, 0, Seq::<u8>::empty());
        lemma_scalar_additive(once, lines, y, 0, 0, 0, Seq::<u8>::empty());
    }
    assert forall|y: int| #[trigger] once.d1.contains_key(y) implies {
        &&& twice.d1[y].sles == 2 * once.d1[y].sles
        &&& twice.d1[y].rhel == 2 * once.d1[y].rhel
        &&& twice.d1[y].openeuler == 2 * once.d1[y].openeuler
    } by {
        lemma_scalar_additive(s0, lines, y, 0, 0, 0, Seq::<u8>::empty());
        lemma_scalar_additive(once, lines, y, 0, 0, 0, Seq::<u8>::empty());
        assert(distro_at(s0.d1, y) == crate::model::empty_distro());
        assert(twice.d1.contains_key(y));
        assert(distro_at(once.d1, y) == once.d1[y]);
        assert(distro_at(twice.d1, y) == twice.d1[y]);
    }
    assert forall|y: int| #[trigger] twice.d2.contains_key(y)
        == once.d2.contains_key(y) by {
        lemma_scalar_additive(s0, lines, y, 0, 0, 0, Seq::<u8>::empty());
        lemma_scalar_additive(once, lines, y, 0, 0, 0, Seq::<u8>::empty());
    }
    assert forall|y: int| #[trigger] once.d2.contains_key(y) implies {
        &&& twice.d2[y].sles == 2 * once.d2[y].sles
        &&& twice.d2[y].rhel == 2 * once.d2[y].rhel
        &&& twice.d2[y].openeuler == 2 * once.d2[y].openeuler
    } by {
        lemma_scalar_additive(s0, lines, y, 0, 0, 0, Seq::<u8>::empty());
        lemma_scalar_additive(once, lines, y, 0, 0, 0, Seq::<u8>::empty());
        assert(distro_at(s0.d2, y) == crate::model::empty_distro());
        assert(twice.d2.contains_key(y));
        assert(distro_at(once.d2, y) == once.d2[y]);
        assert(distro_at(twice.d2, y) == twice.d2[y]);
    }
    assert forall|y: int| #[trigger] twice.d3.contains_key(y)
        == once.d3.contains_key(y) by {
        lemma_scalar_additive(s0, lines, y, 0, 0, 0, Seq::<u8>::empty());
        lemma_scalar_additive(once, lines, y, 0, 0, 0, Seq::<u8>::empty());
    }
    assert forall|y: int| #[trigger] once.d3.contains_key(y) implies {
        &&& twice.d3[y].sles == 2 * once.d3[y].sles
        &&& twice.d3[y].rhel == 2 * once.d3[y].rhel
        &&& twice.d3[y].openeuler == 2 * once.d3[y].openeuler
    } by {
        lemma_scalar_additive(s0, lines, y, 0, 0, 0, Seq::<u8>::empty());
        lemma_scalar_additive(once, lines, y, 0, 0, 0, Seq::<u8>::empty());
        assert(distro_at(s0.d3, y) == crate::model::empty_distro());
        assert(twice.d3.contains_key(y));
        assert(distro_at(once.d3, y) == once.d3[y]);
        assert(distro_at(twice.d3, y) == twice.d3[y]);
    }
    assert forall|t: (int, Seq<u8>)| #[trigger] twice.tools.contains_key(t)
        == once.tools.contains_key(t) by {
        lemma_scalar_additive(s0, lines, t.0, 0, 0, 0, t.1);
        lemma_scalar_additive(once, lines, t.0, 0, 0, 0, t.1);
        assert((t.0, t.1) == t);
    }
    assert forall|t: (int, Seq<u8>)| #[trigger] once.tools.contains_key(t) implies count_at(
        twice.tools,
        t,
    ) == 2 * count_at(once.tools, t) by {
        lemma_scalar_additive(s0, lines, t.0, 0, 0, 0, t.1);
        lemma_scalar_additive(once, lines, t.0, 0, 0, 0, t.1);
        assert((t.0, t.1) == t);
        assert(count_at(s0.tools, t) == 0);
    }
    assert forall|y: int| #[trigger] twice.assets.contains_key(y)
        == once.assets.contains_key(y) by {
        lemma_scalar_additive(s0, lines, y, 0, 0, 0, Seq::<u8>::empty());
        lemma_scalar_additive(once, lines, y, 0, 0, 0, Seq::<u8>::empty());
    }
    assert forall|y: int| #[trigger] once.assets.contains_key(y) implies {
        &&& twice.assets[y].tar == 2 * once.assets[y].tar
        &&& twice.assets[y].rpm == 2 * once.assets[y].rpm
        &&& twice.assets[y].repomd == 2 * once.assets[y].repomd
    } by {
        lemma_scalar_additive(s0, lines, y, 0, 0, 0, Seq::<u8>::empty());
        lemma_scalar_additive(once, lines, y, 0, 0, 0, Seq::<u8>::empty());
        assert(asset_at(s0.assets, y) == crate::model::empty_asset());
        assert(twice.assets.contains_key(y));
        assert(asset_at(once.assets, y) == once.assets[y]);
        assert(asset_at(twice.assets, y) == twice.assets[y]);
    }
    lemma_scalar_additive(s0, lines, 0, 0, 0, 0, Seq::<u8>::empty());
    lemma_scalar_additive(once, lines, 0, 0, 0, 0, Seq::<u8>::empty());
}

} // verus!
