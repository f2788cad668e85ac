//! The executable aggregation store. Each table is a small vector of rows
//! keyed by period (years and months stay few), while the high-cardinality
//! structures — the addresses seen — are hash sets and hash maps with
//! near-constant lookup. Every operation is proved to perform exactly the
//! fold `apply_rec` of the model.
use vstd::prelude::*;

use std::collections::{HashMap, HashSet};

use crate::addr::IpKey;
use crate::bytes::{bytes_eq, to_vec};
use crate::classify::{AssetKind, OsFamily, RecFacts};
use crate::model::{
    apply_rec, asset_at, asset_with, count_at, counts_view, distro_at, distro_with, empty_asset,
    empty_distro, empty_month, empty_stats, empty_year, month_at, month_seen, month_with, year_at, year_seen,
    year_with, AssetView, DistroView, MonthView, StatsView, YearView,
};

verus! {

broadcast use vstd::std_specs::hash::group_hash_axioms, vstd::set::group_set_axioms;

/// One year's row of the overall table.
pub struct YearEntry {
    pub year: i64,
    pub t1: u64,
    pub t2: u64,
    pub t3: u64,
    pub overall: u64,
    pub u1: u64,
    pub u2: u64,
    pub u3: u64,
    pub uo: u64,
    pub bytes: u128,
    pub ipv4: HashSet<u32>,
    pub ipv6: HashSet<u128>,
}

impl View for YearEntry {
    type V = YearView;

    open spec fn view(&self) -> YearView {
        YearView {
            t1: self.t1 as int,
            t2: self.t2 as int,
            t3: self.t3 as int,
            overall: self.overall as int,
            u1: self.u1 as int,
            u2: self.u2 as int,
            u3: self.u3 as int,
            uo: self.uo as int,
            bytes: self.bytes as int,
            ipv4: self.ipv4@,
            ipv6: self.ipv6@,
        }
    }
}

/// One month's row of the monthly table.
pub struct MonthEntry {
    pub year: i64,
    pub month: u8,
    pub t1: u64,
    pub t2: u64,
    pub t3: u64,
    pub overall: u64,
    pub u1: u64,
    pub u2: u64,
    pub u3: u64,
    pub uo: u64,
    pub bytes: u128,
    pub hits4: HashMap<u32, u64>,
    pub hits6: HashMap<u128, u64>,
}

impl View for MonthEntry {
    type V = MonthView;

    open spec fn view(&self) -> MonthView {
        MonthView {
            t1: self.t1 as int,
            t2: self.t2 as int,
            t3: self.t3 as int,
            overall: self.overall as int,
            u1: self.u1 as int,
            u2: self.u2 as int,
            u3: self.u3 as int,
            uo: self.uo as int,
            bytes: self.bytes as int,
            hits4: counts_view(self.hits4@),
            hits6: counts_view(self.hits6@),
        }
    }
}

/// One year's row of a per-track distribution table.
pub struct DistroEntry {
    pub year: i64,
    pub sles: u64,
    pub rhel: u64,
    pub openeuler: u64,
}

impl View for DistroEntry {
    type V = DistroView;

    open spec fn view(&self) -> DistroView {
        DistroView {
            sles: self.sles as int,
            rhel: self.rhel as int,
            openeuler: self.openeuler as int,
        }
    }
}

/// One year's row of the artifact-kind table.
pub struct AssetEntry {
    pub year: i64,
    pub tar: u64,
    pub rpm: u64,
    pub repomd: u64,
}

impl View for AssetEntry {
    type V = AssetView;

    open spec fn view(&self) -> AssetView {
        AssetView { tar: self.tar as int, rpm: self.rpm as int, repomd: self.repomd as int }
    }
}

/// One row of the client-tool table, keyed by year and canonical name.
pub struct ToolEntry {
    pub year: i64,
    pub name: Vec<u8>,
    pub count: u64,
}

/// One row of the country table, keyed by year, month and country code.
pub struct CountryEntry {
    pub year: i64,
    pub month: u8,
    pub country: Vec<u8>,
    pub count: u64,
}

// --- the map each table stands for ---

pub open spec fn years_map(s: Seq<YearEntry>) -> Map<int, YearView>
    decreases s.len(),
{
    if s.len() == 0 {
        Map::<int, YearView>::empty()
    } else {
        years_map(s.drop_last()).insert(s.last().year as int, s.last()@)
    }
}

pub open spec fn years_distinct(s: Seq<YearEntry>) -> bool {
    forall|i: int, j: int| 0 <= i < j < s.len() ==> s[i].year != s[j].year
}

pub open spec fn months_map(s: Seq<MonthEntry>) -> Map<(int, int), MonthView>
    decreases s.len(),
{
    if s.len() == 0 {
        Map::<(int, int), MonthView>::empty()
    } else {
        months_map(s.drop_last()).insert(
            (s.last().year as int, s.last().month as int),
            s.last()@,
        )
    }
}

pub open spec fn months_distinct(s: Seq<MonthEntry>) -> bool {
    forall|i: int, j: int|
        0 <= i < j < s.len() ==> !(s[i].year == s[j].year && s[i].month == s[j].month)
}

pub open spec fn distros_map(s: Seq<DistroEntry>) -> Map<int, DistroView>
    decreases s.len(),
{
    if s.len() == 0 {
        Map::<int, DistroView>::empty()
    } else {
        distros_map(s.drop_last()).insert(s.last().year as int, s.last()@)
    }
}

pub open spec fn distros_distinct(s: Seq<DistroEntry>) -> bool {
    forall|i: int, j: int| 0 <= i < j < s.len() ==> s[i].year != s[j].year
}

pub open spec fn assets_map(s: Seq<AssetEntry>) -> Map<int, AssetView>
    decreases s.len(),
{
    if s.len() == 0 {
        Map::<int, AssetView>::empty()
    } else {
        assets_map(s.drop_last()).insert(s.last().year as int, s.last()@)
    }
}

pub open spec fn assets_distinct(s: Seq<AssetEntry>) -> bool {
    forall|i: int, j: int| 0 <= i < j < s.len() ==> s[i].year != s[j].year
}

pub open spec fn tools_map(s: Seq<ToolEntry>) -> Map<(int, Seq<u8>), int>
    decreases s.len(),
{
    if s.len() == 0 {
        Map::<(int, Seq<u8>), int>::empty()
    } else {
        tools_map(s.drop_last()).insert(
            (s.last().year as int, s.last().name@),
            s.last().count as int,
        )
    }
}

pub open spec fn tools_distinct(s: Seq<ToolEntry>) -> bool {
    forall|i: int, j: int|
        0 <= i < j < s.len() ==> !(s[i].year == s[j].year && s[i].name@ == s[j].name@)
}

pub open spec fn countries_map(s: Seq<CountryEntry>) -> Map<(int, int, Seq<u8>), int>
    decreases s.len(),
{
    if s.len() == 0 {
        Map::<(int, int, Seq<u8>), int>::empty()
    } else {
        countries_map(s.drop_last()).insert(
            (s.last().year as int, s.last().month as int, s.last().country@),
            s.last().count as int,
        )
    }
}

pub open spec fn countries_distinct(s: Seq<CountryEntry>) -> bool {
    forall|i: int, j: int|
        0 <= i < j < s.len() ==> !(s[i].year == s[j].year && s[i].month == s[j].month
            && s[i].country@ == s[j].country@)
}

// --- per-row well-formedness ---

/// The bound every byte counter respects relative to its request counter.
pub open spec fn size_ceiling() -> int {
    u64::MAX as int
}

pub open spec fn year_entry_wf(e: YearEntry, total: int) -> bool {
    &&& e.uo as int == e.ipv4@.len() + e.ipv6@.len()
    &&& e.ipv4@.finite()
    &&& e.ipv6@.finite()
    &&& e.u1 <= e.t1
    &&& e.u2 <= e.t2
    &&& e.u3 <= e.t3
    &&& e.u1 <= e.uo
    &&& e.u2 <= e.uo
    &&& e.u3 <= e.uo
    &&& e.uo <= e.overall
    &&& e.t1 as int <= total
    &&& e.t2 as int <= total
    &&& e.t3 as int <= total
    &&& e.overall as int <= total
    &&& e.bytes as int <= e.overall as int * size_ceiling()
}

pub open spec fn month_entry_wf(e: MonthEntry, total: int) -> bool {
    &&& e.uo as int == e.hits4@.dom().len() + e.hits6@.dom().len()
    &&& e.hits4@.dom().finite()
    &&& e.hits6@.dom().finite()
    &&& forall|k: u32| e.hits4@.contains_key(k) ==> 1 <= #[trigger] e.hits4@[k] as int <= total
    &&& forall|k: u128| e.hits6@.contains_key(k) ==> 1 <= #[trigger] e.hits6@[k] as int <= total
    &&& e.u1 <= e.t1
    &&& e.u2 <= e.t2
    &&& e.u3 <= e.t3
    &&& e.u1 <= e.uo
    &&& e.u2 <= e.uo
    &&& e.u3 <= e.uo
    &&& e.uo <= e.overall
    &&& e.t1 as int <= total
    &&& e.t2 as int <= total
    &&& e.t3 as int <= total
    &&& e.overall as int <= total
    &&& e.bytes as int <= e.overall as int * size_ceiling()
}

pub open spec fn distro_entry_wf(e: DistroEntry, total: int) -> bool {
    e.sles as int <= total && e.rhel as int <= total && e.openeuler as int <= total
}

pub open spec fn asset_entry_wf(e: AssetEntry, total: int) -> bool {
    e.tar as int <= total && e.rpm as int <= total && e.repomd as int <= total
}

pub open spec fn tool_entry_wf(e: ToolEntry, total: int) -> bool {
    1 <= e.count as int <= total
}

// --- table lemmas: what a scan, an update and an append do to the map ---

proof fn lemma_years_map_no_key(s: Seq<YearEntry>, y: int)
    requires
        forall|i: int| 0 <= i < s.len() ==> s[i].year as int != y,
    ensures
        !years_map(s).contains_key(y),
    decreases s.len(),
{
    if s.len() > 0 {
        lemma_years_map_no_key(s.drop_last(), y);
    }
}

proof fn lemma_years_map_get(s: Seq<YearEntry>, i: int)
    requires
        years_distinct(s),
        0 <= i < s.len(),
    ensures
        years_map(s).contains_key(s[i].year as int),
        years_map(s)[s[i].year as int] == s[i]@,
    decreases s.len(),
{
    if i < s.len() - 1 {
        assert(years_distinct(s.drop_last()));
        lemma_years_map_get(s.drop_last(), i);
        assert(s.drop_last()[i] == s[i]);
        assert(s[s.len() - 1].year != s[i].year);
    }
}

proof fn lemma_years_map_update(s: Seq<YearEntry>, i: int, e: YearEntry)
    requires
        years_distinct(s),
        0 <= i < s.len(),
        e.year == s[i].year,
    ensures
        years_map(s.update(i, e)) == years_map(s).insert(e.year as int, e@),
        years_distinct(s.update(i, e)),
    decreases s.len(),
{
    let su = s.update(i, e);
    assert(forall|k: int| 0 <= k < su.len() ==> su[k].year == s[k].year);
    if i == s.len() - 1 {
        assert(su.drop_last() =~= s.drop_last());
        assert(su.last() == e);
        assert(years_map(s).insert(e.year as int, e@) =~= years_map(s.drop_last()).insert(
            e.year as int,
            e@,
        ));
    } else {
        assert(su.drop_last() =~= s.drop_last().update(i, e));
        assert(su.last() == s.last());
        assert(years_distinct(s.drop_last()));
        assert(s.drop_last()[i] == s[i]);
        lemma_years_map_update(s.drop_last(), i, e);
        assert(s.last().year as int != e.year as int);
        assert(years_map(su) =~= years_map(s).insert(e.year as int, e@));
    }
}

proof fn lemma_years_map_push(s: Seq<YearEntry>, e: YearEntry)
    requires
        years_distinct(s),
        forall|i: int| 0 <= i < s.len() ==> s[i].year != e.year,
    ensures
        years_map(s.push(e)) == years_map(s).insert(e.year as int, e@),
        years_distinct(s.push(e)),
{
    assert(s.push(e).drop_last() =~= s);
    assert(s.push(e).last() == e);
}

proof fn lemma_months_map_no_key(s: Seq<MonthEntry>, k: (int, int))
    requires
        forall|i: int| 0 <= i < s.len() ==> !(s[i].year as int == k.0 && s[i].month as int == k.1),
    ensures
        !months_map(s).contains_key(k),
    decreases s.len(),
{
    if s.len() > 0 {
        lemma_months_map_no_key(s.drop_last(), k);
    }
}

proof fn lemma_months_map_get(s: Seq<MonthEntry>, i: int)
    requires
        months_distinct(s),
        0 <= i < s.len(),
    ensures
        months_map(s).contains_key((s[i].year as int, s[i].month as int)),
        months_map(s)[(s[i].year as int, s[i].month as int)] == s[i]@,
    decreases s.len(),
{
    if i < s.len() - 1 {
        assert(months_distinct(s.drop_last()));
        lemma_months_map_get(s.drop_last(), i);
        assert(s.drop_last()[i] == s[i]);
        assert(!(s[s.len() - 1].year == s[i].year && s[s.len() - 1].month == s[i].month));
    }
}

proof fn lemma_months_map_update(s: Seq<MonthEntry>, i: int, e: MonthEntry)
    requires
        months_distinct(s),
        0 <= i < s.len(),
        e.year == s[i].year,
        e.month == s[i].month,
    ensures
        months_map(s.update(i, e)) == months_map(s).insert((e.year as int, e.month as int), e@),
        months_distinct(s.update(i, e)),
    decreases s.len(),
{
    let su = s.update(i, e);
    assert(forall|k: int|
        0 <= k < su.len() ==> su[k].year == s[k].year && su[k].month == s[k].month);
    if i == s.len() - 1 {
        assert(su.drop_last() =~= s.drop_last());
        assert(su.last() == e);
        assert(months_map(s).insert((e.year as int, e.month as int), e@) =~= months_map(
            s.drop_last(),
        ).insert((e.year as int, e.month as int), e@));
    } else {
        assert(su.drop_last() =~= s.drop_last().update(i, e));
        assert(su.last() == s.last());
        assert(months_distinct(s.drop_last()));
        assert(s.drop_last()[i] == s[i]);
        lemma_months_map_update(s.drop_last(), i, e);
        assert(!(s.last().year == e.year && s.last().month == e.month));
        assert(months_map(su) =~= months_map(s).insert((e.year as int, e.month as int), e@));
    }
}

proof fn lemma_months_map_push(s: Seq<MonthEntry>, e: MonthEntry)
    requires
        months_distinct(s),
        forall|i: int| 0 <= i < s.len() ==> !(s[i].year == e.year && s[i].month == e.month),
    ensures
        months_map(s.push(e)) == months_map(s).insert((e.year as int, e.month as int), e@),
        months_distinct(s.push(e)),
{
    assert(s.push(e).drop_last() =~= s);
    assert(s.push(e).last() == e);
}

proof fn lemma_distros_map_no_key(s: Seq<DistroEntry>, y: int)
    requires
        forall|i: int| 0 <= i < s.len() ==> s[i].year as int != y,
    ensures
        !distros_map(s).contains_key(y),
    decreases s.len(),
{
    if s.len() > 0 {
        lemma_distros_map_no_key(s.drop_last(), y);
    }
}

proof fn lemma_distros_map_get(s: Seq<DistroEntry>, i: int)
    requires
        distros_distinct(s),
        0 <= i < s.len(),
    ensures
        distros_map(s).contains_key(s[i].year as int),
        distros_map(s)[s[i].year as int] == s[i]@,
    decreases s.len(),
{
    if i < s.len() - 1 {
        assert(distros_distinct(s.drop_last()));
        lemma_distros_map_get(s.drop_last(), i);
        assert(s.drop_last()[i] == s[i]);
        assert(s[s.len() - 1].year != s[i].year);
    }
}

proof fn lemma_distros_map_update(s: Seq<DistroEntry>, i: int, e: DistroEntry)
    requires
        distros_distinct(s),
        0 <= i < s.len(),
        e.year == s[i].year,
    ensures
        distros_map(s.update(i, e)) == distros_map(s).insert(e.year as int, e@),
        distros_distinct(s.update(i, e)),
    decreases s.len(),
{
    let su = s.update(i, e);
    assert(forall|k: int| 0 <= k < su.len() ==> su[k].year == s[k].year);
    if i == s.len() - 1 {
        assert(su.drop_last() =~= s.drop_last());
        assert(su.last() == e);
        assert(distros_map(s).insert(e.year as int, e@) =~= distros_map(s.drop_last()).insert(
            e.year as int,
            e@,
        ));
    } else {
        assert(su.drop_last() =~= s.drop_last().update(i, e));
        assert(su.last() == s.last());
        assert(distros_distinct(s.drop_last()));
        assert(s.drop_last()[i] == s[i]);
        lemma_distros_map_update(s.drop_last(), i, e);
        assert(s.last().year as int != e.year as int);
        assert(distros_map(su) =~= distros_map(s).insert(e.year as int, e@));
    }
}

proof fn lemma_distros_map_push(s: Seq<DistroEntry>, e: DistroEntry)
    requires
        distros_distinct(s),
        forall|i: int| 0 <= i < s.len() ==> s[i].year != e.year,
    ensures
        distros_map(s.push(e)) == distros_map(s).insert(e.year as int, e@),
        distros_distinct(s.push(e)),
{
    assert(s.push(e).drop_last() =~= s);
    assert(s.push(e).last() == e);
}

proof fn lemma_assets_map_no_key(s: Seq<AssetEntry>, y: int)
    requires
        forall|i: int| 0 <= i < s.len() ==> s[i].year as int != y,
    ensures
        !assets_map(s).contains_key(y),
    decreases s.len(),
{
    if s.len() > 0 {
        lemma_assets_map_no_key(s.drop_last(), y);
    }
}

proof fn lemma_assets_map_get(s: Seq<AssetEntry>, i: int)
    requires
        assets_distinct(s),
        0 <= i < s.len(),
    ensures
        assets_map(s).contains_key(s[i].year as int),
        assets_map(s)[s[i].year as int] == s[i]@,
    decreases s.len(),
{
    if i < s.len() - 1 {
        assert(assets_distinct(s.drop_last()));
        lemma_assets_map_get(s.drop_last(), i);
        assert(s.drop_last()[i] == s[i]);
        assert(s[s.len() - 1].year != s[i].year);
    }
}

proof fn lemma_assets_map_update(s: Seq<AssetEntry>, i: int, e: AssetEntry)
    requires
        assets_distinct(s),
        0 <= i < s.len(),
        e.year == s[i].year,
    ensures
        assets_map(s.update(i, e)) == assets_map(s).insert(e.year as int, e@),
        assets_distinct(s.update(i, e)),
    decreases s.len(),
{
    let su = s.update(i, e);
    assert(forall|k: int| 0 <= k < su.len() ==> su[k].year == s[k].year);
    if i == s.len() - 1 {
        assert(su.drop_last() =~= s.drop_last());
        assert(su.last() == e);
        assert(assets_map(s).insert(e.year as int, e@) =~= assets_map(s.drop_last()).insert(
            e.year as int,
            e@,
        ));
    } else {
        assert(su.drop_last() =~= s.drop_last().update(i, e));
        assert(su.last() == s.last());
        assert(assets_distinct(s.drop_last()));
        assert(s.drop_last()[i] == s[i]);
        lemma_assets_map_update(s.drop_last(), i, e);
        assert(s.last().year as int != e.year as int);
        assert(assets_map(su) =~= assets_map(s).insert(e.year as int, e@));
    }
}

proof fn lemma_assets_map_push(s: Seq<AssetEntry>, e: AssetEntry)
    requires
        assets_distinct(s),
        forall|i: int| 0 <= i < s.len() ==> s[i].year != e.year,
    ensures
        assets_map(s.push(e)) == assets_map(s).insert(e.year as int, e@),
        assets_distinct(s.push(e)),
{
    assert(s.push(e).drop_last() =~= s);
    assert(s.push(e).last() == e);
}

proof fn lemma_tools_map_no_key(s: Seq<ToolEntry>, k: (int, Seq<u8>))
    requires
        forall|i: int| 0 <= i < s.len() ==> !(s[i].year as int == k.0 && s[i].name@ == k.1),
    ensures
        !tools_map(s).contains_key(k),
    decreases s.len(),
{
    if s.len() > 0 {
        lemma_tools_map_no_key(s.drop_last(), k);
    }
}

proof fn lemma_tools_map_get(s: Seq<ToolEntry>, i: int)
    requires
        tools_distinct(s),
        0 <= i < s.len(),
    ensures
        tools_map(s).contains_key((s[i].year as int, s[i].name@)),
        tools_map(s)[(s[i].year as int, s[i].name@)] == s[i].count as int,
    decreases s.len(),
{
    if i < s.len() - 1 {
        assert(tools_distinct(s.drop_last()));
        lemma_tools_map_get(s.drop_last(), i);
        assert(s.drop_last()[i] == s[i]);
        assert(!(s[s.len() - 1].year == s[i].year && s[s.len() - 1].name@ == s[i].name@));
    }
}

proof fn lemma_tools_map_update(s: Seq<ToolEntry>, i: int, e: ToolEntry)
    requires
        tools_distinct(s),
        0 <= i < s.len(),
        e.year == s[i].year,
        e.name@ == s[i].name@,
    ensures
        tools_map(s.update(i, e)) == tools_map(s).insert((e.year as int, e.name@), e.count as int),
        tools_distinct(s.update(i, e)),
    decreases s.len(),
{
    let su = s.update(i, e);
    assert(forall|k: int|
        0 <= k < su.len() ==> su[k].year == s[k].year && su[k].name@ == s[k].name@);
    if i == s.len() - 1 {
        assert(su.drop_last() =~= s.drop_last());
        assert(su.last() == e);
        assert(tools_map(s).insert((e.year as int, e.name@), e.count as int) =~= tools_map(
            s.drop_last(),
        ).insert((e.year as int, e.name@), e.count as int));
    } else {
        assert(su.drop_last() =~= s.drop_last().update(i, e));
        assert(su.last() == s.last());
        assert(tools_distinct(s.drop_last()));
        assert(s.drop_last()[i] == s[i]);
        lemma_tools_map_update(s.drop_last(), i, e);
        assert(!(s.last().year == e.year && s.last().name@ == e.name@));
        assert(tools_map(su) =~= tools_map(s).insert((e.year as int, e.name@), e.count as int));
    }
}

proof fn lemma_tools_map_push(s: Seq<ToolEntry>, e: ToolEntry)
    requires
        tools_distinct(s),
        forall|i: int| 0 <= i < s.len() ==> !(s[i].year == e.year && s[i].name@ == e.name@),
    ensures
        tools_map(s.push(e)) == tools_map(s).insert((e.year as int, e.name@), e.count as int),
        tools_distinct(s.push(e)),
{
    assert(s.push(e).drop_last() =~= s);
    assert(s.push(e).last() == e);
}

proof fn lemma_countries_map_no_key(s: Seq<CountryEntry>, k: (int, int, Seq<u8>))
    requires
        forall|i: int|
            0 <= i < s.len() ==> !(s[i].year as int == k.0 && s[i].month as int == k.1
                && s[i].country@ == k.2),
    ensures
        !countries_map(s).contains_key(k),
    decreases s.len(),
{
    if s.len() > 0 {
        lemma_countries_map_no_key(s.drop_last(), k);
    }
}

proof fn lemma_countries_map_get(s: Seq<CountryEntry>, i: int)
    requires
        countries_distinct(s),
        0 <= i < s.len(),
    ensures
        countries_map(s).contains_key((s[i].year as int, s[i].month as int, s[i].country@)),
        countries_map(s)[(s[i].year as int, s[i].month as int, s[i].country@)] == s[i].count as int,
    decreases s.len(),
{
    if i < s.len() - 1 {
        assert(countries_distinct(s.drop_last()));
        lemma_countries_map_get(s.drop_last(), i);
        assert(s.drop_last()[i] == s[i]);
        assert(!(s[s.len() - 1].year == s[i].year && s[s.len() - 1].month == s[i].month && s[s.len()
            - 1].country@ == s[i].country@));
    }
}

proof fn lemma_countries_map_update(s: Seq<CountryEntry>, i: int, e: CountryEntry)
    requires
        countries_distinct(s),
        0 <= i < s.len(),
        e.year == s[i].year,
        e.month == s[i].month,
        e.country@ == s[i].country@,
    ensures
        countries_map(s.update(i, e)) == countries_map(s).insert(
            (e.year as int, e.month as int, e.country@),
            e.count as int,
        ),
        countries_distinct(s.update(i, e)),
    decreases s.len(),
{
    let su = s.update(i, e);
    assert(forall|k: int|
        0 <= k < su.len() ==> su[k].year == s[k].year && su[k].month == s[k].month && su[k].country@
            == s[k].country@);
    if i == s.len() - 1 {
        assert(su.drop_last() =~= s.drop_last());
        assert(su.last() == e);
        assert(countries_map(s).insert((e.year as int, e.month as int, e.country@), e.count as int)
            =~= countries_map(s.drop_last()).insert(
            (e.year as int, e.month as int, e.country@),
            e.count as int,
        ));
    } else {
        assert(su.drop_last() =~= s.drop_last().update(i, e));
        assert(su.last() == s.last());
        assert(countries_distinct(s.drop_last()));
        assert(s.drop_last()[i] == s[i]);
        lemma_countries_map_update(s.drop_last(), i, e);
        assert(!(s.last().year == e.year && s.last().month == e.month && s.last().country@
            == e.country@));
        assert(countries_map(su) =~= countries_map(s).insert(
            (e.year as int, e.month as int, e.country@),
            e.count as int,
        ));
    }
}

proof fn lemma_countries_map_push(s: Seq<CountryEntry>, e: CountryEntry)
    requires
        countries_distinct(s),
        forall|i: int|
            0 <= i < s.len() ==> !(s[i].year == e.year && s[i].month == e.month && s[i].country@
                == e.country@),
    ensures
        countries_map(s.push(e)) == countries_map(s).insert(
            (e.year as int, e.month as int, e.country@),
            e.count as int,
        ),
        countries_distinct(s.push(e)),
{
    assert(s.push(e).drop_last() =~= s);
    assert(s.push(e).last() == e);
}

/// Every year in the table's map comes from some row of the table.
pub proof fn lemma_years_map_entry(s: Seq<YearEntry>, y: int)
    requires
        years_map(s).contains_key(y),
    ensures
        exists|i: int|
            0 <= i < s.len() && #[trigger] s[i]@ == years_map(s)[y] && s[i].year as int == y,
    decreases s.len(),
{
    if s.len() > 0 {
        if s.last().year as int == y {
            assert(s[s.len() - 1]@ == years_map(s)[y] && s[s.len() - 1].year as int == y);
        } else {
            lemma_years_map_entry(s.drop_last(), y);
            let i = choose|i: int|
                0 <= i < s.drop_last().len() && #[trigger] s.drop_last()[i]@ == years_map(
                    s.drop_last(),
                )[y] && s.drop_last()[i].year as int == y;
            assert(s[i]@ == years_map(s)[y] && s[i].year as int == y);
        }
    }
}

/// Every month in the table's map comes from some row of the table.
pub proof fn lemma_months_map_entry(s: Seq<MonthEntry>, k: (int, int))
    requires
        months_map(s).contains_key(k),
    ensures
        exists|i: int|
            0 <= i < s.len() && #[trigger] s[i]@ == months_map(s)[k] && s[i].year as int == k.0
                && s[i].month as int == k.1,
    decreases s.len(),
{
    if s.len() > 0 {
        if s.last().year as int == k.0 && s.last().month as int == k.1 {
            assert(s[s.len() - 1]@ == months_map(s)[k] && s[s.len() - 1].year as int == k.0 && s[
                s.len() - 1
            ].month as int == k.1);
        } else {
            lemma_months_map_entry(s.drop_last(), k);
            let i = choose|i: int|
                0 <= i < s.drop_last().len() && #[trigger] s.drop_last()[i]@ == months_map(
                    s.drop_last(),
                )[k] && s.drop_last()[i].year as int == k.0 && s.drop_last()[i].month as int == k.1;
            assert(s[i]@ == months_map(s)[k] && s[i].year as int == k.0 && s[i].month as int
                == k.1);
        }
    }
}

/// A counter table's mathematical view inserts like the table itself.
proof fn lemma_counts_view_insert<K>(m: Map<K, u64>, k: K, v: u64)
    ensures
        counts_view(m.insert(k, v)) == counts_view(m).insert(k, v as int),
        counts_view(m).dom() == m.dom(),
        forall|q: K| m.contains_key(q) ==> counts_view(m)[q] == #[trigger] m[q] as int,
{
    assert(counts_view(m.insert(k, v)) =~= counts_view(m).insert(k, v as int));
    assert(counts_view(m).dom() =~= m.dom());
}


// --- scans ---

fn find_year_ix(v: &Vec<YearEntry>, y: i64) -> (r: Option<usize>)
    ensures
        match r {
            Some(i) => 0 <= i < v@.len() && v@[i as int].year == y,
            None => forall|i: int| 0 <= i < v@.len() ==> v@[i].year != y,
        },
{
    let mut i: usize = 0;
    while i < v.len()
        invariant
            0 <= i <= v@.len(),
            forall|j: int| 0 <= j < i ==> v@[j].year != y,
        decreases v@.len() - i,
    {
        if v[i].year == y {
            return Some(i);
        }
        i = i + 1;
    }
    None
}

fn find_month_ix(v: &Vec<MonthEntry>, y: i64, m: u8) -> (r: Option<usize>)
    ensures
        match r {
            Some(i) => 0 <= i < v@.len() && v@[i as int].year == y && v@[i as int].month == m,
            None => forall|i: int| 0 <= i < v@.len() ==> !(v@[i].year == y && v@[i].month == m),
        },
{
    let mut i: usize = 0;
    while i < v.len()
        invariant
            0 <= i <= v@.len(),
            forall|j: int| 0 <= j < i ==> !(v@[j].year == y && v@[j].month == m),
        decreases v@.len() - i,
    {
        if v[i].year == y && v[i].month == m {
            return Some(i);
        }
        i = i + 1;
    }
    None
}

fn find_distro_ix(v: &Vec<DistroEntry>, y: i64) -> (r: Option<usize>)
    ensures
        match r {
            Some(i) => 0 <= i < v@.len() && v@[i as int].year == y,
            None => forall|i: int| 0 <= i < v@.len() ==> v@[i].year != y,
        },
{
    let mut i: usize = 0;
    while i < v.len()
        invariant
            0 <= i <= v@.len(),
            forall|j: int| 0 <= j < i ==> v@[j].year != y,
        decreases v@.len() - i,
    {
        if v[i].year == y {
            return Some(i);
        }
        i = i + 1;
    }
    None
}

fn find_asset_ix(v: &Vec<AssetEntry>, y: i64) -> (r: Option<usize>)
    ensures
        match r {
            Some(i) => 0 <= i < v@.len() && v@[i as int].year == y,
            None => forall|i: int| 0 <= i < v@.len() ==> v@[i].year != y,
        },
{
    let mut i: usize = 0;
    while i < v.len()
        invariant
            0 <= i <= v@.len(),
            forall|j: int| 0 <= j < i ==> v@[j].year != y,
        decreases v@.len() - i,
    {
        if v[i].year == y {
            return Some(i);
        }
        i = i + 1;
    }
    None
}

fn find_tool_ix(v: &Vec<ToolEntry>, y: i64, name: &[u8]) -> (r: Option<usize>)
    ensures
        match r {
            Some(i) => 0 <= i < v@.len() && v@[i as int].year == y && v@[i as int].name@ == name@,
            None => forall|i: int| 0 <= i < v@.len() ==> !(v@[i].year == y && v@[i].name@ == name@),
        },
{
    let mut i: usize = 0;
    while i < v.len()
        invariant
            0 <= i <= v@.len(),
            forall|j: int| 0 <= j < i ==> !(v@[j].year == y && v@[j].name@ == name@),
        decreases v@.len() - i,
    {
        if v[i].year == y {
            let same = bytes_eq(v[i].name.as_slice(), name);
            if same {
                return Some(i);
            }
        }
        i = i + 1;
    }
    None
}

fn find_country_ix(v: &Vec<CountryEntry>, y: i64, m: u8, c: &[u8]) -> (r: Option<usize>)
    ensures
        match r {
            Some(i) => 0 <= i < v@.len() && v@[i as int].year == y && v@[i as int].month == m
                && v@[i as int].country@ == c@,
            None => forall|i: int|
                0 <= i < v@.len() ==> !(v@[i].year == y && v@[i].month == m && v@[i].country@
                    == c@),
        },
{
    let mut i: usize = 0;
    while i < v.len()
        invariant
            0 <= i <= v@.len(),
            forall|j: int| 0 <= j < i ==> !(v@[j].year == y && v@[j].month == m && v@[j].country@
                == c@),
        decreases v@.len() - i,
    {
        if v[i].year == y && v[i].month == m {
            let same = bytes_eq(v[i].country.as_slice(), c);
            if same {
                return Some(i);
            }
        }
        i = i + 1;
    }
    None
}

// --- per-table application ---

fn year_table_apply(tab: &mut Vec<YearEntry>, f: &RecFacts, Ghost(total): Ghost<int>)
    requires
        years_distinct(old(tab)@),
        forall|i: int| 0 <= i < old(tab)@.len() ==> year_entry_wf(#[trigger] old(tab)@[i], total),
        0 <= total < u64::MAX as int,
    ensures
        years_map(final(tab)@) == years_map(old(tab)@).insert(
            f.year as int,
            year_with(year_at(years_map(old(tab)@), f.year as int), f@),
        ),
        years_distinct(final(tab)@),
        forall|i: int| 0 <= i < final(tab)@.len() ==> year_entry_wf(
            #[trigger] final(tab)@[i],
            total + 1,
        ),
{
    let ghost orig = tab@;
    match find_year_ix(tab, f.year) {
        Some(i) => {
            proof {
                lemma_years_map_get(orig, i as int);
            }
            let ghost olde = tab@[i as int];
            proof {
                assert(year_entry_wf(olde, total));
                vstd::arithmetic::mul::lemma_mul_inequality(
                    olde.overall as int,
                    u64::MAX as int - 1,
                    size_ceiling(),
                );
                assert((u64::MAX as int - 1) * size_ceiling() + (u64::MAX as int) < (u128::MAX as int));
            }
            let e = &mut tab[i];
            let fresh: bool;
            match f.addr {
                IpKey::V4(a) => {
                    fresh = e.ipv4.insert(a);
                },
                IpKey::V6(w) => {
                    fresh = e.ipv6.insert(w);
                },
            }
            e.overall = e.overall + 1;
            e.bytes = e.bytes + (f.size as u128);
            if f.t1 {
                e.t1 = e.t1 + 1;
            }
            if f.t2 {
                e.t2 = e.t2 + 1;
            }
            if f.t3 {
                e.t3 = e.t3 + 1;
            }
            if fresh {
                e.uo = e.uo + 1;
                if f.t1 {
                    e.u1 = e.u1 + 1;
                }
                if f.t2 {
                    e.u2 = e.u2 + 1;
                }
                if f.t3 {
                    e.u3 = e.u3 + 1;
                }
            }
            proof {
                let newe = tab@[i as int];
                assert(tab@ == orig.update(i as int, newe));
                assert(fresh == !year_seen(olde@, f@.addr));
                assert(newe@ == year_with(olde@, f@));
                lemma_years_map_update(orig, i as int, newe);
                assert(year_at(years_map(orig), f.year as int) == olde@);
                assert(newe.bytes as int <= newe.overall as int * size_ceiling());
                assert(year_entry_wf(newe, total + 1));
                assert forall|k: int|
                    0 <= k < tab@.len() implies year_entry_wf(#[trigger] tab@[k], total + 1) by {
                    if k != i as int {
                        assert(tab@[k] == orig[k]);
                        assert(year_entry_wf(orig[k], total));
                    }
                }
            }
        },
        None => {
            proof {
                lemma_years_map_no_key(orig, f.year as int);
            }
            let mut s4: HashSet<u32> = HashSet::new();
            let mut s6: HashSet<u128> = HashSet::new();
            match f.addr {
                IpKey::V4(a) => {
                    s4.insert(a);
                },
                IpKey::V6(w) => {
                    s6.insert(w);
                },
            }
            let e = YearEntry {
                year: f.year,
                t1: if f.t1 { 1 } else { 0 },
                t2: if f.t2 { 1 } else { 0 },
                t3: if f.t3 { 1 } else { 0 },
                overall: 1,
                u1: if f.t1 { 1 } else { 0 },
                u2: if f.t2 { 1 } else { 0 },
                u3: if f.t3 { 1 } else { 0 },
                uo: 1,
                bytes: f.size as u128,
                ipv4: s4,
                ipv6: s6,
            };
            proof {
                assert(!year_seen(empty_year(), f@.addr));
                assert(e@ == year_with(empty_year(), f@));
                assert(year_at(years_map(orig), f.year as int) == empty_year());
                lemma_years_map_push(orig, e);
                assert(e.bytes as int <= 1 * size_ceiling());
                assert(year_entry_wf(e, total + 1));
            }
            tab.push(e);
            proof {
                assert forall|k: int|
                    0 <= k < tab@.len() implies year_entry_wf(#[trigger] tab@[k], total + 1) by {
                    if k < orig.len() {
                        assert(tab@[k] == orig[k]);
                        assert(year_entry_wf(orig[k], total));
                    }
                }
            }
        },
    }
}

fn month_table_apply(tab: &mut Vec<MonthEntry>, f: &RecFacts, Ghost(total): Ghost<int>)
    requires
        months_distinct(old(tab)@),
        forall|i: int| 0 <= i < old(tab)@.len() ==> month_entry_wf(#[trigger] old(tab)@[i], total),
        0 <= total < u64::MAX as int,
    ensures
        months_map(final(tab)@) == months_map(old(tab)@).insert(
            (f.year as int, f.month as int),
            month_with(month_at(months_map(old(tab)@), (f.year as int, f.month as int)), f@),
        ),
        months_distinct(final(tab)@),
        forall|i: int| 0 <= i < final(tab)@.len() ==> month_entry_wf(
            #[trigger] final(tab)@[i],
            total + 1,
        ),
{
    let ghost orig = tab@;
    match find_month_ix(tab, f.year, f.month) {
        Some(i) => {
            proof {
                lemma_months_map_get(orig, i as int);
            }
            let ghost olde = tab@[i as int];
            proof {
                assert(month_entry_wf(olde, total));
                vstd::arithmetic::mul::lemma_mul_inequality(
                    olde.overall as int,
                    u64::MAX as int - 1,
                    size_ceiling(),
                );
                assert((u64::MAX as int - 1) * size_ceiling() + (u64::MAX as int) < (u128::MAX as int));
            }
            let e = &mut tab[i];
            let fresh: bool;
            match f.addr {
                IpKey::V4(a) => {
                    if e.hits4.contains_key(&a) {
                        fresh = false;
                        let c: u64 = *e.hits4.get(&a).unwrap();
                        e.hits4.insert(a, c + 1);
                    } else {
                        fresh = true;
                        e.hits4.insert(a, 1);
                    }
                },
                IpKey::V6(w) => {
                    if e.hits6.contains_key(&w) {
                        fresh = false;
                        let c: u64 = *e.hits6.get(&w).unwrap();
                        e.hits6.insert(w, c + 1);
                    } else {
                        fresh = true;
                        e.hits6.insert(w, 1);
                    }
                },
            }
            e.overall = e.overall + 1;
            e.bytes = e.bytes + (f.size as u128);
            if f.t1 {
                e.t1 = e.t1 + 1;
            }
            if f.t2 {
                e.t2 = e.t2 + 1;
            }
            if f.t3 {
                e.t3 = e.t3 + 1;
            }
            if fresh {
                e.uo = e.uo + 1;
                if f.t1 {
                    e.u1 = e.u1 + 1;
                }
                if f.t2 {
                    e.u2 = e.u2 + 1;
                }
                if f.t3 {
                    e.u3 = e.u3 + 1;
                }
            }
            proof {
                let newe = tab@[i as int];
                assert(tab@ == orig.update(i as int, newe));
                assert(fresh == !month_seen(olde@, f@.addr));
                match f@.addr {
                    IpKey::V4(a) => {
                        lemma_counts_view_insert(
                            olde.hits4@,
                            a,
                            if olde.hits4@.contains_key(a) {
                                (olde.hits4@[a] + 1) as u64
                            } else {
                                1u64
                            },
                        );
                        assert(newe@.hits4 =~= olde@.hits4.insert(
                            a,
                            if olde@.hits4.contains_key(a) {
                                olde@.hits4[a] + 1
                            } else {
                                1int
                            },
                        ));
                        assert(newe.hits4@.dom() =~= olde.hits4@.dom().insert(a));
                    },
                    IpKey::V6(w) => {
                        lemma_counts_view_insert(
                            olde.hits6@,
                            w,
                            if olde.hits6@.contains_key(w) {
                                (olde.hits6@[w] + 1) as u64
                            } else {
                                1u64
                            },
                        );
                        assert(newe@.hits6 =~= olde@.hits6.insert(
                            w,
                            if olde@.hits6.contains_key(w) {
                                olde@.hits6[w] + 1
                            } else {
                                1int
                            },
                        ));
                        assert(newe.hits6@.dom() =~= olde.hits6@.dom().insert(w));
                    },
                }
                assert(newe@ == month_with(olde@, f@));
                lemma_months_map_update(orig, i as int, newe);
                assert(month_at(months_map(orig), (f.year as int, f.month as int)) == olde@);
                assert(newe.bytes as int <= newe.overall as int * size_ceiling());
                assert(month_entry_wf(newe, total + 1));
                assert forall|k: int|
                    0 <= k < tab@.len() implies month_entry_wf(#[trigger] tab@[k], total + 1) by {
                    if k != i as int {
                        assert(tab@[k] == orig[k]);
                        assert(month_entry_wf(orig[k], total));
                    }
                }
            }
        },
        None => {
            proof {
                lemma_months_map_no_key(orig, (f.year as int, f.month as int));
            }
            let mut h4: HashMap<u32, u64> = HashMap::new();
            let mut h6: HashMap<u128, u64> = HashMap::new();
            match f.addr {
                IpKey::V4(a) => {
                    h4.insert(a, 1);
                },
                IpKey::V6(w) => {
                    h6.insert(w, 1);
                },
            }
            let e = MonthEntry {
                year: f.year,
                month: f.month,
                t1: if f.t1 { 1 } else { 0 },
                t2: if f.t2 { 1 } else { 0 },
                t3: if f.t3 { 1 } else { 0 },
                overall: 1,
                u1: if f.t1 { 1 } else { 0 },
                u2: if f.t2 { 1 } else { 0 },
                u3: if f.t3 { 1 } else { 0 },
                uo: 1,
                bytes: f.size as u128,
                hits4: h4,
                hits6: h6,
            };
            proof {
                assert(!month_seen(empty_month(), f@.addr));
                match f@.addr {
                    IpKey::V4(a) => {
                        lemma_counts_view_insert(Map::<u32, u64>::empty(), a, 1u64);
                        assert(counts_view(Map::<u32, u64>::empty()) =~= Map::<u32, int>::empty());
                        assert(counts_view(Map::<u128, u64>::empty())
                            =~= Map::<u128, int>::empty());
                        assert(e.hits4@.dom() =~= Set::<u32>::empty().insert(a));
                        assert(e.hits6@.dom() =~= Set::<u128>::empty());
                    },
                    IpKey::V6(w) => {
                        lemma_counts_view_insert(Map::<u128, u64>::empty(), w, 1u64);
                        assert(counts_view(Map::<u32, u64>::empty()) =~= Map::<u32, int>::empty());
                        assert(counts_view(Map::<u128, u64>::empty())
                            =~= Map::<u128, int>::empty());
                        assert(e.hits6@.dom() =~= Set::<u128>::empty().insert(w));
                        assert(e.hits4@.dom() =~= Set::<u32>::empty());
                    },
                }
                assert(e@ == month_with(empty_month(), f@));
                assert(month_at(months_map(orig), (f.year as int, f.month as int))
                    == empty_month());
                lemma_months_map_push(orig, e);
                assert(e.bytes as int <= 1 * size_ceiling());
                assert(month_entry_wf(e, total + 1));
            }
            tab.push(e);
            proof {
                assert forall|k: int|
                    0 <= k < tab@.len() implies month_entry_wf(#[trigger] tab@[k], total + 1) by {
                    if k < orig.len() {
                        assert(tab@[k] == orig[k]);
                        assert(month_entry_wf(orig[k], total));
                    }
                }
            }
        },
    }
}

fn distro_table_apply(tab: &mut Vec<DistroEntry>, year: i64, fam: Option<OsFamily>, Ghost(total): Ghost<int>)
    requires
        distros_distinct(old(tab)@),
        forall|i: int| 0 <= i < old(tab)@.len() ==> distro_entry_wf(#[trigger] old(tab)@[i], total),
        0 <= total < u64::MAX as int,
    ensures
        distros_map(final(tab)@) == distros_map(old(tab)@).insert(
            year as int,
            distro_with(distro_at(distros_map(old(tab)@), year as int), fam),
        ),
        distros_distinct(final(tab)@),
        forall|i: int| 0 <= i < final(tab)@.len() ==> distro_entry_wf(
            #[trigger] final(tab)@[i],
            total + 1,
        ),
{
    let ghost orig = tab@;
    match find_distro_ix(tab, year) {
        Some(i) => {
            proof {
                lemma_distros_map_get(orig, i as int);
            }
            let ghost olde = tab@[i as int];
            let e = &mut tab[i];
            match fam {
                Some(OsFamily::Sles) => {
                    e.sles = e.sles + 1;
                },
                Some(OsFamily::Rhel) => {
                    e.rhel = e.rhel + 1;
                },
                Some(OsFamily::OpenEuler) => {
                    e.openeuler = e.openeuler + 1;
                },
                None => {},
            }
            proof {
                let newe = tab@[i as int];
                assert(tab@ == orig.update(i as int, newe));
                assert(newe@ == distro_with(olde@, fam));
                lemma_distros_map_update(orig, i as int, newe);
                assert(distro_at(distros_map(orig), year as int) == olde@);
                assert forall|k: int|
                    0 <= k < tab@.len() implies distro_entry_wf(#[trigger] tab@[k], total + 1) by {
                    if k != i as int {
                        assert(tab@[k] == orig[k]);
                        assert(distro_entry_wf(orig[k], total));
                    } else {
                        assert(distro_entry_wf(olde, total));
                    }
                }
            }
        },
        None => {
            proof {
                lemma_distros_map_no_key(orig, year as int);
            }
            let e = DistroEntry {
                year,
                sles: match fam {
                    Some(OsFamily::Sles) => 1,
                    _ => 0,
                },
                rhel: match fam {
                    Some(OsFamily::Rhel) => 1,
                    _ => 0,
                },
                openeuler: match fam {
                    Some(OsFamily::OpenEuler) => 1,
                    _ => 0,
                },
            };
            proof {
                assert(e@ == distro_with(empty_distro(), fam));
                assert(distro_at(distros_map(orig), year as int) == empty_distro());
                lemma_distros_map_push(orig, e);
            }
            tab.push(e);
            proof {
                assert forall|k: int|
                    0 <= k < tab@.len() implies distro_entry_wf(#[trigger] tab@[k], total + 1) by {
                    if k < orig.len() {
                        assert(tab@[k] == orig[k]);
                        assert(distro_entry_wf(orig[k], total));
                    }
                }
            }
        },
    }
}

fn asset_table_apply(tab: &mut Vec<AssetEntry>, year: i64, kind: AssetKind, Ghost(total): Ghost<int>)
    requires
        assets_distinct(old(tab)@),
        forall|i: int| 0 <= i < old(tab)@.len() ==> asset_entry_wf(#[trigger] old(tab)@[i], total),
        0 <= total < u64::MAX as int,
    ensures
        assets_map(final(tab)@) == assets_map(old(tab)@).insert(
            year as int,
            asset_with(asset_at(assets_map(old(tab)@), year as int), kind),
        ),
        assets_distinct(final(tab)@),
        forall|i: int| 0 <= i < final(tab)@.len() ==> asset_entry_wf(
            #[trigger] final(tab)@[i],
            total + 1,
        ),
{
    let ghost orig = tab@;
    match find_asset_ix(tab, year) {
        Some(i) => {
            proof {
                lemma_assets_map_get(orig, i as int);
            }
            let ghost olde = tab@[i as int];
            let e = &mut tab[i];
            match kind {
                AssetKind::Tar => {
                    e.tar = e.tar + 1;
                },
                AssetKind::Rpm => {
                    e.rpm = e.rpm + 1;
                },
                AssetKind::RepoMeta => {
                    e.repomd = e.repomd + 1;
                },
            }
            proof {
                let newe = tab@[i as int];
                assert(tab@ == orig.update(i as int, newe));
                assert(newe@ == asset_with(olde@, kind));
                lemma_assets_map_update(orig, i as int, newe);
                assert(asset_at(assets_map(orig), year as int) == olde@);
                assert forall|k: int|
                    0 <= k < tab@.len() implies asset_entry_wf(#[trigger] tab@[k], total + 1) by {
                    if k != i as int {
                        assert(tab@[k] == orig[k]);
                        assert(asset_entry_wf(orig[k], total));
                    } else {
                        assert(asset_entry_wf(olde, total));
                    }
                }
            }
        },
        None => {
            proof {
                lemma_assets_map_no_key(orig, year as int);
            }
            let e = AssetEntry {
                year,
                tar: match kind {
                    AssetKind::Tar => 1,
                    _ => 0,
                },
                rpm: match kind {
                    AssetKind::Rpm => 1,
                    _ => 0,
                },
                repomd: match kind {
                    AssetKind::RepoMeta => 1,
                    _ => 0,
                },
            };
            proof {
                assert(e@ == asset_with(empty_asset(), kind));
                assert(asset_at(assets_map(orig), year as int) == empty_asset());
                lemma_assets_map_push(orig, e);
            }
            tab.push(e);
            proof {
                assert forall|k: int|
                    0 <= k < tab@.len() implies asset_entry_wf(#[trigger] tab@[k], total + 1) by {
                    if k < orig.len() {
                        assert(tab@[k] == orig[k]);
                        assert(asset_entry_wf(orig[k], total));
                    }
                }
            }
        },
    }
}

fn tool_table_apply(tab: &mut Vec<ToolEntry>, year: i64, name: &Vec<u8>, Ghost(total): Ghost<int>)
    requires
        tools_distinct(old(tab)@),
        forall|i: int| 0 <= i < old(tab)@.len() ==> tool_entry_wf(#[trigger] old(tab)@[i], total),
        0 <= total < u64::MAX as int,
    ensures
        tools_map(final(tab)@) == tools_map(old(tab)@).insert(
            (year as int, name@),
            count_at(tools_map(old(tab)@), (year as int, name@)) + 1,
        ),
        tools_distinct(final(tab)@),
        forall|i: int| 0 <= i < final(tab)@.len() ==> tool_entry_wf(
            #[trigger] final(tab)@[i],
            total + 1,
        ),
{
    let ghost orig = tab@;
    match find_tool_ix(tab, year, name.as_slice()) {
        Some(i) => {
            proof {
                lemma_tools_map_get(orig, i as int);
            }
            let ghost olde = tab@[i as int];
            let e = &mut tab[i];
            e.count = e.count + 1;
            proof {
                let newe = tab@[i as int];
                assert(tab@ == orig.update(i as int, newe));
                lemma_tools_map_update(orig, i as int, newe);
                assert(count_at(tools_map(orig), (year as int, name@)) == olde.count as int);
                assert forall|k: int|
                    0 <= k < tab@.len() implies tool_entry_wf(#[trigger] tab@[k], total + 1) by {
                    if k != i as int {
                        assert(tab@[k] == orig[k]);
                        assert(tool_entry_wf(orig[k], total));
                    } else {
                        assert(tool_entry_wf(olde, total));
                    }
                }
            }
        },
        None => {
            proof {
                lemma_tools_map_no_key(orig, (year as int, name@));
            }
            let owned = to_vec(name.as_slice());
            let e = ToolEntry { year, name: owned, count: 1 };
            proof {
                assert(count_at(tools_map(orig), (year as int, name@)) == 0);
                lemma_tools_map_push(orig, e);
            }
            tab.push(e);
            proof {
                assert forall|k: int|
                    0 <= k < tab@.len() implies tool_entry_wf(#[trigger] tab@[k], total + 1) by {
                    if k < orig.len() {
                        assert(tab@[k] == orig[k]);
                        assert(tool_entry_wf(orig[k], total));
                    }
                }
            }
        },
    }
}

/// The aggregation store: one run's tables, frozen for export once
/// ingestion is done.
pub struct Stats {
    pub years: Vec<YearEntry>,
    pub months: Vec<MonthEntry>,
    pub d1: Vec<DistroEntry>,
    pub d2: Vec<DistroEntry>,
    pub d3: Vec<DistroEntry>,
    pub tools: Vec<ToolEntry>,
    pub assets: Vec<AssetEntry>,
    pub countries: Vec<CountryEntry>,
    pub total: u64,
}

impl View for Stats {
    type V = StatsView;

    open spec fn view(&self) -> StatsView {
        StatsView {
            years: years_map(self.years@),
            months: months_map(self.months@),
            d1: distros_map(self.d1@),
            d2: distros_map(self.d2@),
            d3: distros_map(self.d3@),
            tools: tools_map(self.tools@),
            assets: assets_map(self.assets@),
            countries: countries_map(self.countries@),
            total: self.total as int,
        }
    }
}

impl Stats {
    /// Every table's rows carry distinct keys and counters bounded by the
    /// number of records tallied; unique counters equal the cardinality of
    /// what they deduplicate.
    pub open spec fn wf(&self) -> bool {
        &&& years_distinct(self.years@)
        &&& months_distinct(self.months@)
        &&& distros_distinct(self.d1@)
        &&& distros_distinct(self.d2@)
        &&& distros_distinct(self.d3@)
        &&& tools_distinct(self.tools@)
        &&& assets_distinct(self.assets@)
        &&& countries_distinct(self.countries@)
        &&& forall|i: int|
            0 <= i < self.years@.len() ==> year_entry_wf(
                #[trigger] self.years@[i],
                self.total as int,
            )
        &&& forall|i: int|
            0 <= i < self.months@.len() ==> month_entry_wf(
                #[trigger] self.months@[i],
                self.total as int,
            )
        &&& forall|i: int|
            0 <= i < self.d1@.len() ==> distro_entry_wf(#[trigger] self.d1@[i], self.total as int)
        &&& forall|i: int|
            0 <= i < self.d2@.len() ==> distro_entry_wf(#[trigger] self.d2@[i], self.total as int)
        &&& forall|i: int|
            0 <= i < self.d3@.len() ==> distro_entry_wf(#[trigger] self.d3@[i], self.total as int)
        &&& forall|i: int|
            0 <= i < self.tools@.len() ==> tool_entry_wf(#[trigger] self.tools@[i], self.total as int)
        &&& forall|i: int|
            0 <= i < self.assets@.len() ==> asset_entry_wf(
                #[trigger] self.assets@[i],
                self.total as int,
            )
    }

    /// A fresh store: every table empty.
    pub fn new() -> (r: Stats)
        ensures
            r.wf(),
            r@ == empty_stats(),
    {
        let r = Stats {
            years: Vec::new(),
            months: Vec::new(),
            d1: Vec::new(),
            d2: Vec::new(),
            d3: Vec::new(),
            tools: Vec::new(),
            assets: Vec::new(),
            countries: Vec::new(),
            total: 0,
        };
        proof {
            assert(r@ =~~= empty_stats());
        }
        r
    }

    /// Folds one classified record into every affected table; the store
    /// performs exactly the model's `apply_rec`.
    pub fn apply(&mut self, f: &RecFacts)
        requires
            old(self).wf(),
            old(self).total < u64::MAX,
        ensures
            final(self).wf(),
            final(self)@ == apply_rec(old(self)@, f@),
            final(self).total == old(self).total + 1,
    {
        let ghost total = self.total as int;
        year_table_apply(&mut self.years, f, Ghost(total));
        month_table_apply(&mut self.months, f, Ghost(total));
        if f.t1 {
            distro_table_apply(&mut self.d1, f.year, f.d1, Ghost(total));
        }
        if f.t2 {
            distro_table_apply(&mut self.d2, f.year, f.d2, Ghost(total));
        }
        if f.t3 && f.d3.is_some() {
            distro_table_apply(&mut self.d3, f.year, f.d3, Ghost(total));
        }
        match &f.tool {
            Some(name) => {
                tool_table_apply(&mut self.tools, f.year, name, Ghost(total));
            },
            None => {},
        }
        match f.asset {
            Some(k) => {
                asset_table_apply(&mut self.assets, f.year, k, Ghost(total));
            },
            None => {},
        }
        self.total = self.total + 1;
        proof {
            assert forall|i: int|
                0 <= i < self.d1@.len() implies distro_entry_wf(
                #[trigger] self.d1@[i],
                total + 1,
            ) by {
                if !f.t1 {
                    assert(distro_entry_wf(old(self).d1@[i], total));
                }
            }
            assert forall|i: int|
                0 <= i < self.d2@.len() implies distro_entry_wf(
                #[trigger] self.d2@[i],
                total + 1,
            ) by {
                if !f.t2 {
                    assert(distro_entry_wf(old(self).d2@[i], total));
                }
            }
            assert forall|i: int|
                0 <= i < self.d3@.len() implies distro_entry_wf(
                #[trigger] self.d3@[i],
                total + 1,
            ) by {
                if !(f.t3 && f.d3 is Some) {
                    assert(distro_entry_wf(old(self).d3@[i], total));
                }
            }
            assert forall|i: int|
                0 <= i < self.tools@.len() implies tool_entry_wf(
                #[trigger] self.tools@[i],
                total + 1,
            ) by {
                if f.tool is None {
                    assert(tool_entry_wf(old(self).tools@[i], total));
                }
            }
            assert forall|i: int|
                0 <= i < self.assets@.len() implies asset_entry_wf(
                #[trigger] self.assets@[i],
                total + 1,
            ) by {
                if f.asset is None {
                    assert(asset_entry_wf(old(self).assets@[i], total));
                }
            }
            assert(self@ =~~= apply_rec(old(self)@, f@));
        }
    }

    /// Folds one country attribution into the country table: the count for
    /// that year, month and country grows by `count`.
    pub fn add_country(&mut self, year: i64, month: u8, country: &Vec<u8>, count: u64)
        requires
            old(self).wf(),
            count_at(old(self)@.countries, (year as int, month as int, country@)) + count
                <= u64::MAX,
        ensures
            final(self).wf(),
            final(self)@ == (StatsView {
                countries: old(self)@.countries.insert(
                    (year as int, month as int, country@),
                    count_at(old(self)@.countries, (year as int, month as int, country@))
                        + count,
                ),
                ..old(self)@
            }),
    {
        let ghost orig = self.countries@;
        match find_country_ix(&self.countries, year, month, country.as_slice()) {
            Some(i) => {
                proof {
                    lemma_countries_map_get(orig, i as int);
                }
                let e = &mut self.countries[i];
                e.count = e.count + count;
                proof {
                    let newe = self.countries@[i as int];
                    assert(self.countries@ == orig.update(i as int, newe));
                    lemma_countries_map_update(orig, i as int, newe);
                    assert(self@ =~~= StatsView {
                        countries: countries_map(orig).insert(
                            (year as int, month as int, country@),
                            count_at(countries_map(orig), (year as int, month as int, country@))
                                + count,
                        ),
                        ..old(self)@
                    });
                }
            },
            None => {
                proof {
                    lemma_countries_map_no_key(orig, (year as int, month as int, country@));
                }
                let owned = to_vec(country.as_slice());
                let e = CountryEntry { year, month, country: owned, count };
                proof {
                    lemma_countries_map_push(orig, e);
                }
                self.countries.push(e);
                proof {
                    assert(self@ =~~= StatsView {
                        countries: countries_map(orig).insert(
                            (year as int, month as int, country@),
                            count_at(countries_map(orig), (year as int, month as int, country@))
                                + count,
                        ),
                        ..old(self)@
                    });
                }
            },
        }
    }

    /// The count already tallied for a country in a month, zero when none.
    pub fn country_count(&self, year: i64, month: u8, country: &Vec<u8>) -> (r: u64)
        requires
            self.wf(),
        ensures
            r as int == count_at(self@.countries, (year as int, month as int, country@)),
    {
        match find_country_ix(&self.countries, year, month, country.as_slice()) {
            Some(i) => {
                proof {
                    lemma_countries_map_get(self.countries@, i as int);
                }
                self.countries[i].count
            },
            None => {
                proof {
                    lemma_countries_map_no_key(
                        self.countries@,
                        (year as int, month as int, country@),
                    );
                }
                0
            },
        }
    }
}

impl Stats {
    /// The row of one year's overall tallies, if that year was seen.
    pub fn year_row(&self, y: i64) -> (r: Option<&YearEntry>)
        requires
            self.wf(),
        ensures
            match r {
                Some(e) => self@.years.contains_key(y as int) && e@ == self@.years[y as int]
                    && e.year == y,
                None => !self@.years.contains_key(y as int),
            },
    {
        match find_year_ix(&self.years, y) {
            Some(i) => {
                proof {
                    lemma_years_map_get(self.years@, i as int);
                }
                Some(&self.years[i])
            },
            None => {
                proof {
                    lemma_years_map_no_key(self.years@, y as int);
                }
                None
            },
        }
    }

    /// The row of one month's tallies, if that month was seen.
    pub fn month_row(&self, y: i64, m: u8) -> (r: Option<&MonthEntry>)
        requires
            self.wf(),
        ensures
            match r {
                Some(e) => self@.months.contains_key((y as int, m as int)) && e@ == self@.months[(
                    y as int,
                    m as int,
                )] && e.year == y && e.month == m,
                None => !self@.months.contains_key((y as int, m as int)),
            },
    {
        match find_month_ix(&self.months, y, m) {
            Some(i) => {
                proof {
                    lemma_months_map_get(self.months@, i as int);
                }
                Some(&self.months[i])
            },
            None => {
                proof {
                    lemma_months_map_no_key(self.months@, (y as int, m as int));
                }
                None
            },
        }
    }

    /// One year's distribution row of the oldest track.
    pub fn distro_row_old(&self, y: i64) -> (r: Option<&DistroEntry>)
        requires
            self.wf(),
        ensures
            match r {
                Some(e) => self@.d1.contains_key(y as int) && e@ == self@.d1[y as int] && e.year
                    == y,
                None => !self@.d1.contains_key(y as int),
            },
    {
        match find_distro_ix(&self.d1, y) {
            Some(i) => {
                proof {
                    lemma_distros_map_get(self.d1@, i as int);
                }
                Some(&self.d1[i])
            },
            None => {
                proof {
                    lemma_distros_map_no_key(self.d1@, y as int);
                }
                None
            },
        }
    }

    /// One year's distribution row of the second track.
    pub fn distro_row_two(&self, y: i64) -> (r: Option<&DistroEntry>)
        requires
            self.wf(),
        ensures
            match r {
                Some(e) => self@.d2.contains_key(y as int) && e@ == self@.d2[y as int] && e.year
                    == y,
                None => !self@.d2.contains_key(y as int),
            },
    {
        match find_distro_ix(&self.d2, y) {
            Some(i) => {
                proof {
                    lemma_distros_map_get(self.d2@, i as int);
                }
                Some(&self.d2[i])
            },
            None => {
                proof {
                    lemma_distros_map_no_key(self.d2@, y as int);
                }
                None
            },
        }
    }

    /// One year's distribution row of the third track.
    pub fn distro_row_three(&self, y: i64) -> (r: Option<&DistroEntry>)
        requires
            self.wf(),
        ensures
            match r {
                Some(e) => self@.d3.contains_key(y as int) && e@ == self@.d3[y as int] && e.year
                    == y,
                None => !self@.d3.contains_key(y as int),
            },
    {
        match find_distro_ix(&self.d3, y) {
            Some(i) => {
                proof {
                    lemma_distros_map_get(self.d3@, i as int);
                }
                Some(&self.d3[i])
            },
            None => {
                proof {
                    lemma_distros_map_no_key(self.d3@, y as int);
                }
                None
            },
        }
    }

    /// One year's artifact-kind row.
    pub fn asset_row(&self, y: i64) -> (r: Option<&AssetEntry>)
        requires
            self.wf(),
        ensures
            match r {
                Some(e) => self@.assets.contains_key(y as int) && e@ == self@.assets[y as int]
                    && e.year == y,
                None => !self@.assets.contains_key(y as int),
            },
    {
        match find_asset_ix(&self.assets, y) {
            Some(i) => {
                proof {
                    lemma_assets_map_get(self.assets@, i as int);
                }
                Some(&self.assets[i])
            },
            None => {
                proof {
                    lemma_assets_map_no_key(self.assets@, y as int);
                }
                None
            },
        }
    }

    /// How often one client tool was seen in one year, zero when never.
    pub fn tool_count(&self, y: i64, name: &Vec<u8>) -> (r: u64)
        requires
            self.wf(),
        ensures
            r as int == count_at(self@.tools, (y as int, name@)),
    {
        match find_tool_ix(&self.tools, y, name.as_slice()) {
            Some(i) => {
                proof {
                    lemma_tools_map_get(self.tools@, i as int);
                }
                self.tools[i].count
            },
            None => {
                proof {
                    lemma_tools_map_no_key(self.tools@, (y as int, name@));
                }
                0
            },
        }
    }
}

} // verus!
