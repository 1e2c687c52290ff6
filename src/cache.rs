//! The derived snapshot that queries read: each crate's aggregate, and the
//! normalized-name index, rebuilt wholesale from the store's views.
use std::collections::HashMap;

use vstd::prelude::*;

use crate::calendar::CalendarDate;
use crate::schema::CrateInfo;

verus! {

broadcast use vstd::std_specs::hash::group_hash_axioms;

/// Days of downloads that count as recent.
pub const RECENT_DAYS: u32 = 30;

/// A crate as queries see it.
#[derive(Debug)]
pub struct CachedCrate {
    pub name: String,
    pub description: String,
    pub keywords: Vec<u64>,
    pub downloads: u64,
    pub recent_downloads: u64,
}

pub struct CachedCrateView {
    pub name: Seq<char>,
    pub description: Seq<char>,
    pub keywords: Seq<u64>,
    pub downloads: u64,
    pub recent_downloads: u64,
}

impl View for CachedCrate {
    type V = CachedCrateView;

    open spec fn view(&self) -> CachedCrateView {
        CachedCrateView {
            name: self.name@,
            description: self.description@,
            keywords: self.keywords@,
            downloads: self.downloads,
            recent_downloads: self.recent_downloads,
        }
    }
}

impl Clone for CachedCrate {
    fn clone(&self) -> (r: Self)
        ensures
            r@ == self@,
    {
        let keywords = self.keywords.clone();
        assert(keywords@ =~= self.keywords@);
        CachedCrate {
            name: self.name.clone(),
            description: self.description.clone(),
            keywords,
            downloads: self.downloads,
            recent_downloads: self.recent_downloads,
        }
    }
}

/// One entry of the store's by-name view: the normalized name, the crate's
/// id, and its summary.
#[derive(Debug)]
pub struct NameEntry {
    pub normalized_name: String,
    pub id: u64,
    pub info: CrateInfo,
}

/// One group of the store's by-date download view: a crate's downloads on a
/// day.
#[derive(Clone, Copy, Debug)]
pub struct DailyDownloads {
    pub date: CalendarDate,
    pub crate_id: u64,
    pub downloads: u64,
}

/// The downloads of crate `id` on or after `start`, summed, saturating at
/// the largest `u64`.
pub open spec fn recent_sum(rows: Seq<DailyDownloads>, id: u64, start: CalendarDate) -> int
    decreases rows.len(),
{
    if rows.len() == 0 {
        0
    } else {
        let r = rows.last();
        let before = recent_sum(rows.drop_last(), id, start);
        if r.crate_id == id && r.date.0 >= start.0 {
            if before + r.downloads > u64::MAX {
                u64::MAX as int
            } else {
                before + r.downloads
            }
        } else {
            before
        }
    }
}

/// What the snapshot holds for a crate of the by-name view.
pub open spec fn cached_view(info: CrateInfo, recent: int) -> CachedCrateView {
    CachedCrateView {
        name: info.name@,
        description: info.description@,
        keywords: info.keywords@,
        downloads: info.downloads,
        recent_downloads: recent as u64,
    }
}

/// The id-keyed aggregates of a by-name view (a later entry of an id wins).
pub open spec fn crates_map(
    entries: Seq<NameEntry>,
    rows: Seq<DailyDownloads>,
    start: CalendarDate,
) -> Map<u64, CachedCrateView>
    decreases entries.len(),
{
    if entries.len() == 0 {
        Map::empty()
    } else {
        let e = entries.last();
        crates_map(entries.drop_last(), rows, start).insert(
            e.id,
            cached_view(e.info, recent_sum(rows, e.id, start)),
        )
    }
}

/// The snapshot that queries read.
#[derive(Debug)]
pub struct Snapshot {
    pub crates: HashMap<u64, CachedCrate>,
    /// Normalized name and id of every crate, in the view's order.
    pub crates_by_name: Vec<(String, u64)>,
}

impl Snapshot {
    /// An empty snapshot, as before the first refresh.
    pub fn new() -> (r: Snapshot)
        ensures
            r.crates@ == Map::<u64, CachedCrate>::empty(),
            r.crates_by_name@.len() == 0,
    {
        Snapshot { crates: HashMap::new(), crates_by_name: Vec::new() }
    }

    /// The id-keyed aggregates, as views.
    pub open spec fn crates_view(&self) -> Map<u64, CachedCrateView> {
        Map::new(|id: u64| self.crates@.contains_key(id), |id: u64| self.crates@[id]@)
    }
}

/// The first day that counts as recent on `today`.
pub fn recent_downloads_start(today: CalendarDate) -> (r: CalendarDate)
    requires
        today.wf(),
        today.year_spec() <= 9999,
        today.day_number_spec() > RECENT_DAYS,
    ensures
        r.wf(),
        r.day_number_spec() == today.day_number_spec() - RECENT_DAYS,
{
    today.sub(RECENT_DAYS)
}

/// Sums each crate's downloads on or after `start`.
pub fn recent_downloads_by_crate(rows: &Vec<DailyDownloads>, start: CalendarDate) -> (r: HashMap<
    u64,
    u64,
>)
    ensures
        forall|id: u64| #[trigger]
            r@.contains_key(id) ==> r@[id] == recent_sum(rows@, id, start),
        forall|id: u64| !#[trigger] r@.contains_key(id) ==> recent_sum(rows@, id, start) == 0,
{
    let mut sums: HashMap<u64, u64> = HashMap::new();
    let mut i: usize = 0;
    while i < rows.len()
        invariant
            i <= rows@.len(),
            forall|id: u64| #[trigger]
                sums@.contains_key(id) ==> sums@[id] == recent_sum(
                    rows@.subrange(0, i as int),
                    id,
                    start,
                ),
            forall|id: u64|
                !#[trigger] sums@.contains_key(id) ==> recent_sum(
                    rows@.subrange(0, i as int),
                    id,
                    start,
                ) == 0,
        decreases rows@.len() - i,
    {
        let row = rows[i];
        let ghost prefix = rows@.subrange(0, i as int + 1);
        assert(prefix.drop_last() =~= rows@.subrange(0, i as int));
        if row.date.0 >= start.0 {
            let before: u64 = match sums.get(&row.crate_id) {
                Some(v) => *v,
                None => 0,
            };
            sums.insert(row.crate_id, before.saturating_add(row.downloads));
        }
        i = i + 1;
    }
    assert(rows@.subrange(0, i as int) =~= rows@);
    sums
}

/// Rebuilds the snapshot from the by-name view and the by-date download
/// groups: each crate's aggregate with its downloads since `start`, and the
/// name index in the view's order.
pub fn build_snapshot(entries: &Vec<NameEntry>, rows: &Vec<DailyDownloads>, start: CalendarDate) -> (r:
    Snapshot)
    ensures
        r.crates_view() == crates_map(entries@, rows@, start),
        r.crates_by_name@.len() == entries@.len(),
        forall|i: int|
            0 <= i < entries@.len() ==> (#[trigger] r.crates_by_name@[i]).0@ == entries@[i].normalized_name@
                && r.crates_by_name@[i].1 == entries@[i].id,
{
    let recent = recent_downloads_by_crate(rows, start);
    let mut crates: HashMap<u64, CachedCrate> = HashMap::new();
    let mut by_name: Vec<(String, u64)> = Vec::new();
    let mut i: usize = 0;
    while i < entries.len()
        invariant
            i <= entries@.len(),
            Map::new(|id: u64| crates@.contains_key(id), |id: u64| crates@[id]@) == crates_map(
                entries@.subrange(0, i as int),
                rows@,
                start,
            ),
            by_name@.len() == i,
            forall|k: int|
                0 <= k < i ==> (#[trigger] by_name@[k]).0@ == entries@[k].normalized_name@
                    && by_name@[k].1 == entries@[k].id,
            forall|id: u64| #[trigger]
                recent@.contains_key(id) ==> recent@[id] == recent_sum(rows@, id, start),
            forall|id: u64| !#[trigger] recent@.contains_key(id) ==> recent_sum(rows@, id, start) == 0,
        decreases entries@.len() - i,
    {
        let e = &entries[i];
        let recent_downloads: u64 = match recent.get(&e.id) {
            Some(v) => *v,
            None => 0,
        };
        let id = e.id;
        by_name.push((e.normalized_name.clone(), id));
        let ghost before = Map::new(|id: u64| crates@.contains_key(id), |id: u64| crates@[id]@);
        let keywords = e.info.keywords.clone();
        assert(keywords@ =~= e.info.keywords@);
        let cached = CachedCrate {
            name: e.info.name.clone(),
            description: e.info.description.clone(),
            keywords,
            downloads: e.info.downloads,
            recent_downloads,
        };
        crates.insert(id, cached);
        i = i + 1;
        proof {
            let prefix = entries@.subrange(0, i as int);
            assert(prefix.drop_last() =~= entries@.subrange(0, i - 1));
            assert(Map::new(|id: u64| crates@.contains_key(id), |id: u64| crates@[id]@) =~= before.insert(
                id,
                cached_view(e.info, recent_sum(rows@, id, start)),
            ));
        }
    }
    assert(entries@.subrange(0, i as int) =~= entries@);
    let r = Snapshot { crates, crates_by_name: by_name };
    assert(r.crates_view() =~= crates_map(entries@, rows@, start));
    r
}

} // verus!
