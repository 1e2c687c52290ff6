//! Diff import of a registry export: parsed rows are compared with what the
//! store holds, and only the differences become operations.
use std::collections::HashMap;

use vstd::prelude::*;

use crate::calendar::{iso_date, parse_iso_date, CalendarDate};
use crate::schema::{self, CategoryView, CrateView, OwnerId, Record, VersionView};

verus! {

broadcast use vstd::std_specs::hash::group_hash_axioms;

/// A row of `crates.csv`.
#[derive(Debug)]
pub struct Crate {
    pub created_at: String,
    pub description: String,
    pub documentation: String,
    pub downloads: Option<u64>,
    pub homepage: String,
    pub id: u64,
    pub max_upload_size: Option<u64>,
    pub name: String,
    pub readme: String,
    pub repository: String,
    pub updated_at: String,
}

/// A row of `categories.csv`.
#[derive(Debug)]
pub struct Categories {
    pub category: String,
    pub crates_cnt: u64,
    pub created_at: String,
    pub description: String,
    pub id: u64,
    pub path: String,
    pub slug: String,
}

/// A row of `crates_categories.csv`.
#[derive(Clone, Copy, Debug)]
pub struct CrateCategories {
    pub crate_id: u64,
    pub category_id: u64,
}

/// A row of `crates_keywords.csv`.
#[derive(Clone, Copy, Debug)]
pub struct CrateKeywords {
    pub keyword_id: u64,
    pub crate_id: u64,
}

/// A row of `crate_owners.csv`.
#[derive(Debug)]
pub struct CrateOwners {
    pub crate_id: u64,
    pub created_at: String,
    pub created_by: Option<u64>,
    pub owner_id: u64,
    pub owner_kind: u8,
}

/// A row of `keywords.csv`.
#[derive(Debug)]
pub struct Keywords {
    pub crates_cnt: u64,
    pub created_at: String,
    pub id: u64,
    pub keyword: String,
}

/// A row of `version_downloads.csv`.
#[derive(Debug)]
pub struct VersionDownloads {
    pub date: String,
    pub downloads: u64,
    pub version_id: u64,
}

/// A row of `versions.csv`.
#[derive(Debug)]
pub struct Versions {
    pub checksum: String,
    pub crate_id: u64,
    pub crate_size: Option<u64>,
    pub created_at: String,
    pub downloads: u64,
    pub features: String,
    pub id: u64,
    pub license: String,
    pub links: String,
    pub num: String,
    pub published_by: Option<u64>,
    pub updated_at: String,
    pub yanked: Option<char>,
}

/// A row of `users.csv`.
#[derive(Debug)]
pub struct Users {
    pub gh_avatar: String,
    pub gh_id: u64,
    pub gh_login: String,
    pub id: u64,
    pub name: String,
}

/// A row of `teams.csv`.
#[derive(Debug)]
pub struct Teams {
    pub avatar: String,
    pub github_id: u64,
    pub id: u64,
    pub login: String,
    pub name: String,
    pub org_id: u64,
}

/// Why an import cycle stops.
#[derive(Debug, PartialEq, Eq, Structural)]
pub enum ImportError {
    /// An owner row names a kind other than 0 (user) or 1 (team).
    UnexpectedOwnerKind(u8),
    /// A download row's date is not an ISO-8601 calendar date.
    InvalidDate,
    /// A download row names a version that the export does not hold.
    UnknownVersion(u64),
}

/// A change to one keyed record.
#[derive(Debug)]
pub enum Change<R> {
    Insert(u64, R),
    Update(u64, R),
}

impl<R: View> Change<R> {
    /// Whether it inserts, the key, and the new value.
    pub open spec fn spec_view(&self) -> (bool, u64, R::V) {
        match self {
            Change::Insert(id, r) => (true, *id, r@),
            Change::Update(id, r) => (false, *id, r@),
        }
    }
}

/// The records of a keyed collection, as views.
pub open spec fn map_view<R: View>(m: Map<u64, R>) -> Map<u64, R::V> {
    Map::new(|k: u64| m.contains_key(k), |k: u64| m[k]@)
}

/// Keyed rows as views.
pub open spec fn rows_view<R: View>(rows: Seq<(u64, R)>) -> Seq<(u64, R::V)> {
    rows.map_values(|e: (u64, R)| (e.0, e.1@))
}

/// The changes that bring `existing` up to `rows`: an insert for a key it
/// lacks, an update for a key whose record differs, nothing for an equal one.
pub open spec fn diff_spec<V>(rows: Seq<(u64, V)>, existing: Map<u64, V>) -> Seq<(bool, u64, V)>
    decreases rows.len(),
{
    if rows.len() == 0 {
        Seq::empty()
    } else {
        let d = diff_spec(rows.drop_last(), existing);
        let (id, v) = rows.last();
        if !existing.contains_key(id) {
            d.push((true, id, v))
        } else if existing[id] != v {
            d.push((false, id, v))
        } else {
            d
        }
    }
}

/// The collection after a list of changes is applied in order.
pub open spec fn apply_spec<V>(existing: Map<u64, V>, changes: Seq<(bool, u64, V)>) -> Map<u64, V>
    decreases changes.len(),
{
    if changes.len() == 0 {
        existing
    } else {
        let c = changes.last();
        apply_spec(existing, changes.drop_last()).insert(c.1, c.2)
    }
}

pub open spec fn distinct_keys<V>(rows: Seq<(u64, V)>) -> bool {
    forall|i: int, j: int| 0 <= i < j < rows.len() ==> #[trigger] rows[i].0 != #[trigger] rows[j].0
}

proof fn lemma_apply_diff<V>(rows: Seq<(u64, V)>, existing: Map<u64, V>)
    requires
        distinct_keys(rows),
    ensures
        forall|k: int|
            0 <= k < rows.len() ==> apply_spec(existing, diff_spec(rows, existing)).contains_key(
                (#[trigger] rows[k]).0,
            ) && apply_spec(existing, diff_spec(rows, existing))[rows[k].0] == rows[k].1,
    decreases rows.len(),
{
    if rows.len() > 0 {
        let p = rows.drop_last();
        assert(distinct_keys(p));
        lemma_apply_diff(p, existing);
        let (id, v) = rows.last();
        let d = diff_spec(p, existing);
        let a = apply_spec(existing, d);
        let a2 = apply_spec(existing, diff_spec(rows, existing));
        assert forall|k: int| 0 <= k < p.len() implies (#[trigger] p[k]).0 != id by {
            assert(rows[k] == p[k]);
            assert(rows[k].0 != rows[rows.len() - 1].0);
        }
        if !existing.contains_key(id) {
            assert(d.push((true, id, v)).drop_last() =~= d);
            assert(a2 == a.insert(id, v));
        } else if existing[id] != v {
            assert(d.push((false, id, v)).drop_last() =~= d);
            assert(a2 == a.insert(id, v));
        } else {
            assert(a2 == a);
            lemma_apply_diff_other(p, existing, id);
        }
        assert forall|k: int| 0 <= k < rows.len() implies a2.contains_key((#[trigger] rows[k]).0)
            && a2[rows[k].0] == rows[k].1 by {
            if k < rows.len() - 1 {
                assert(rows[k] == p[k]);
            }
        }
    }
}

proof fn lemma_apply_diff_other<V>(rows: Seq<(u64, V)>, existing: Map<u64, V>, x: u64)
    requires
        forall|k: int| 0 <= k < rows.len() ==> (#[trigger] rows[k]).0 != x,
    ensures
        apply_spec(existing, diff_spec(rows, existing)).contains_key(x) == existing.contains_key(x),
        existing.contains_key(x) ==> apply_spec(existing, diff_spec(rows, existing))[x] == existing[x],
    decreases rows.len(),
{
    if rows.len() > 0 {
        let p = rows.drop_last();
        assert forall|k: int| 0 <= k < p.len() implies (#[trigger] p[k]).0 != x by {
            assert(rows[k] == p[k]);
        }
        lemma_apply_diff_other(p, existing, x);
        let (id, v) = rows.last();
        let d = diff_spec(p, existing);
        assert(rows[rows.len() - 1].0 != x);
        if !existing.contains_key(id) {
            assert(d.push((true, id, v)).drop_last() =~= d);
        } else if existing[id] != v {
            assert(d.push((false, id, v)).drop_last() =~= d);
        }
    }
}

/// Importing the same rows twice: once the changes of the first import are
/// applied, the second finds nothing to change.
pub proof fn lemma_diff_idempotent<V>(rows: Seq<(u64, V)>, existing: Map<u64, V>)
    requires
        distinct_keys(rows),
    ensures
        diff_spec(rows, apply_spec(existing, diff_spec(rows, existing))).len() == 0,
{
    lemma_apply_diff(rows, existing);
    lemma_diff_unchanged(rows, rows.len() as int, apply_spec(existing, diff_spec(rows, existing)));
    assert(rows.subrange(0, rows.len() as int) =~= rows);
}

proof fn lemma_diff_unchanged<V>(rows: Seq<(u64, V)>, n: int, m: Map<u64, V>)
    requires
        0 <= n <= rows.len(),
        forall|k: int| 0 <= k < rows.len() ==> m.contains_key((#[trigger] rows[k]).0) && m[rows[k].0] == rows[k].1,
    ensures
        diff_spec(rows.subrange(0, n), m).len() == 0,
    decreases n,
{
    if n > 0 {
        lemma_diff_unchanged(rows, n - 1, m);
        assert(rows.subrange(0, n).drop_last() =~= rows.subrange(0, n - 1));
        assert(rows.subrange(0, n).last() == rows[n - 1]);
        assert(m.contains_key(rows[n - 1].0));
    }
}

/// The changes that bring `existing` up to `rows`, in row order.
pub fn diff_records<R: Record>(rows: Vec<(u64, R)>, existing: &HashMap<u64, R>) -> (r: Vec<Change<R>>)
    ensures
        r@.map_values(|c: Change<R>| c.spec_view()) == diff_spec(rows_view(rows@), map_view(existing@)),
{
    let ghost all = rows@;
    let n = rows.len();
    let mut rows = rows;
    let mut rev: Vec<(u64, R)> = Vec::new();
    while rows.len() > 0
        invariant
            n == all.len(),
            rows@ == all.subrange(0, rows@.len() as int),
            rev@.len() == n - rows@.len(),
            forall|i: int| 0 <= i < rev@.len() ==> #[trigger] rev@[i] == all[n - 1 - i],
        decreases rows@.len(),
    {
        let e = rows.pop().unwrap();
        rev.push(e);
        assert(rows@ =~= all.subrange(0, rows@.len() as int));
    }
    let ghost rv = rows_view(all);
    let ghost ex = map_view(existing@);
    let mut out: Vec<Change<R>> = Vec::new();
    let mut k: usize = 0;
    while rev.len() > 0
        invariant
            n == all.len(),
            rv == rows_view(all),
            ex == map_view(existing@),
            k + rev@.len() == n,
            forall|i: int| 0 <= i < rev@.len() ==> #[trigger] rev@[i] == all[n - 1 - i],
            out@.map_values(|c: Change<R>| c.spec_view()) == diff_spec(rv.subrange(0, k as int), ex),
        decreases rev@.len(),
    {
        let (id, rec) = rev.pop().unwrap();
        assert(all[k as int] == (id, rec));
        let ghost prefix = rv.subrange(0, k as int + 1);
        assert(prefix.drop_last() =~= rv.subrange(0, k as int));
        assert(prefix.last() == (id, rec@));
        let ghost before = out@;
        match existing.get(&id) {
            None => {
                out.push(Change::Insert(id, rec));
                assert(out@.map_values(|c: Change<R>| c.spec_view()) =~= before.map_values(
                    |c: Change<R>| c.spec_view(),
                ).push((true, id, rec@)));
            },
            Some(current) => {
                if !current.same_as(&rec) {
                    out.push(Change::Update(id, rec));
                    assert(out@.map_values(|c: Change<R>| c.spec_view()) =~= before.map_values(
                        |c: Change<R>| c.spec_view(),
                    ).push((false, id, rec@)));
                }
            },
        }
        k = k + 1;
    }
    assert(rv.subrange(0, n as int) =~= rv);
    out
}

/// `(crate, member)` pairs grouped by crate: each crate's distinct members
/// in order of first appearance.
pub open spec fn members_of(pairs: Seq<(u64, u64)>, c: u64) -> Seq<u64>
    decreases pairs.len(),
{
    if pairs.len() == 0 {
        Seq::empty()
    } else {
        let m = members_of(pairs.drop_last(), c);
        let (pc, k) = pairs.last();
        if pc == c && !m.contains(k) {
            m.push(k)
        } else {
            m
        }
    }
}

pub open spec fn has_crate(pairs: Seq<(u64, u64)>, c: u64) -> bool {
    exists|i: int| 0 <= i < pairs.len() && (#[trigger] pairs[i]).0 == c
}

/// Whether `v` holds `x`.
fn holds_id(v: &Vec<u64>, x: u64) -> (r: bool)
    ensures
        r == v@.contains(x),
{
    let mut i: usize = 0;
    while i < v.len()
        invariant
            i <= v@.len(),
            forall|k: int| 0 <= k < i ==> v@[k] != x,
        decreases v@.len() - i,
    {
        if v[i] == x {
            return true;
        }
        i = i + 1;
    }
    false
}

/// Groups `(crate, member)` pairs by crate.
pub fn group_pairs(pairs: &Vec<(u64, u64)>) -> (r: HashMap<u64, Vec<u64>>)
    ensures
        forall|c: u64| #[trigger] r@.contains_key(c) == has_crate(pairs@, c),
        forall|c: u64| #[trigger] r@.contains_key(c) ==> r@[c]@ == members_of(pairs@, c),
{
    let mut groups: HashMap<u64, Vec<u64>> = HashMap::new();
    let mut i: usize = 0;
    while i < pairs.len()
        invariant
            i <= pairs@.len(),
            forall|c: u64| #[trigger] groups@.contains_key(c) == has_crate(pairs@.subrange(0, i as int), c),
            forall|c: u64| #[trigger]
                groups@.contains_key(c) ==> groups@[c]@ == members_of(pairs@.subrange(0, i as int), c),
            forall|c: u64| !#[trigger] groups@.contains_key(c) ==> members_of(pairs@.subrange(0, i as int), c) == Seq::<u64>::empty(),
        decreases pairs@.len() - i,
    {
        let (c, k) = pairs[i];
        let ghost prefix = pairs@.subrange(0, i as int + 1);
        assert(prefix.drop_last() =~= pairs@.subrange(0, i as int));
        let ghost before = groups@;
        let mut members = match groups.remove(&c) {
            Some(m) => m,
            None => Vec::new(),
        };
        if !holds_id(&members, k) {
            members.push(k);
        }
        groups.insert(c, members);
        proof {
            assert(prefix[i as int] == (c, k));
            assert forall|x: u64| #[trigger] groups@.contains_key(x) == has_crate(prefix, x) by {
                if x == c {
                    assert(prefix[i as int].0 == c);
                } else if has_crate(prefix, x) {
                    let j = choose|j: int| 0 <= j < prefix.len() && (#[trigger] prefix[j]).0 == x;
                    assert(pairs@.subrange(0, i as int)[j] == prefix[j]);
                } else if has_crate(pairs@.subrange(0, i as int), x) {
                    let j = choose|j: int| 0 <= j < i && (#[trigger] pairs@.subrange(0, i as int)[j]).0 == x;
                    assert(prefix[j] == pairs@.subrange(0, i as int)[j]);
                }
            }
        }
        i = i + 1;
    }
    assert(pairs@.subrange(0, i as int) =~= pairs@);
    groups
}

/// The keyword ids of each crate.
pub fn load_crate_keywords(rows: &Vec<CrateKeywords>) -> (r: HashMap<u64, Vec<u64>>)
    ensures
        forall|c: u64| #[trigger]
            r@.contains_key(c) == has_crate(rows@.map_values(|x: CrateKeywords| (x.crate_id, x.keyword_id)), c),
        forall|c: u64| #[trigger]
            r@.contains_key(c) ==> r@[c]@ == members_of(rows@.map_values(|x: CrateKeywords| (x.crate_id, x.keyword_id)), c),
{
    let mut pairs: Vec<(u64, u64)> = Vec::new();
    let mut i: usize = 0;
    while i < rows.len()
        invariant
            i <= rows@.len(),
            pairs@ == rows@.subrange(0, i as int).map_values(|x: CrateKeywords| (x.crate_id, x.keyword_id)),
        decreases rows@.len() - i,
    {
        pairs.push((rows[i].crate_id, rows[i].keyword_id));
        i = i + 1;
        assert(pairs@ =~= rows@.subrange(0, i as int).map_values(|x: CrateKeywords| (x.crate_id, x.keyword_id)));
    }
    assert(rows@.subrange(0, i as int) =~= rows@);
    group_pairs(&pairs)
}

/// The category ids of each crate.
pub fn load_crate_categories(rows: &Vec<CrateCategories>) -> (r: HashMap<u64, Vec<u64>>)
    ensures
        forall|c: u64| #[trigger]
            r@.contains_key(c) == has_crate(rows@.map_values(|x: CrateCategories| (x.crate_id, x.category_id)), c),
        forall|c: u64| #[trigger]
            r@.contains_key(c) ==> r@[c]@ == members_of(rows@.map_values(|x: CrateCategories| (x.crate_id, x.category_id)), c),
{
    let mut pairs: Vec<(u64, u64)> = Vec::new();
    let mut i: usize = 0;
    while i < rows.len()
        invariant
            i <= rows@.len(),
            pairs@ == rows@.subrange(0, i as int).map_values(|x: CrateCategories| (x.crate_id, x.category_id)),
        decreases rows@.len() - i,
    {
        pairs.push((rows[i].crate_id, rows[i].category_id));
        i = i + 1;
        assert(pairs@ =~= rows@.subrange(0, i as int).map_values(|x: CrateCategories| (x.crate_id, x.category_id)));
    }
    assert(rows@.subrange(0, i as int) =~= rows@);
    group_pairs(&pairs)
}

/// The owner a row names, if its kind tag is known (0 user, 1 team).
pub open spec fn owner_of(kind: u8, id: u64) -> Option<OwnerId> {
    if kind == 0 {
        Some(OwnerId::User(id))
    } else if kind == 1 {
        Some(OwnerId::Team(id))
    } else {
        None
    }
}

/// A crate's distinct owners in order of first appearance.
pub open spec fn owners_of(rows: Seq<CrateOwners>, c: u64) -> Seq<OwnerId>
    decreases rows.len(),
{
    if rows.len() == 0 {
        Seq::empty()
    } else {
        let m = owners_of(rows.drop_last(), c);
        let r = rows.last();
        match owner_of(r.owner_kind, r.owner_id) {
            Some(o) => if r.crate_id == c && !m.contains(o) {
                m.push(o)
            } else {
                m
            },
            None => m,
        }
    }
}

/// Some owner row names crate `c`.
pub open spec fn has_owner_row(rows: Seq<CrateOwners>, c: u64) -> bool {
    exists|i: int| 0 <= i < rows.len() && (#[trigger] rows[i]).crate_id == c
}

/// The first row with an unknown owner kind, if any.
pub open spec fn first_bad_kind(rows: Seq<CrateOwners>) -> Option<u8>
    decreases rows.len(),
{
    if rows.len() == 0 {
        None
    } else {
        match first_bad_kind(rows.drop_last()) {
            Some(k) => Some(k),
            None => if rows.last().owner_kind > 1 {
                Some(rows.last().owner_kind)
            } else {
                None
            },
        }
    }
}

/// Whether `v` holds `x`.
fn holds_owner(v: &Vec<OwnerId>, x: OwnerId) -> (r: bool)
    ensures
        r == v@.contains(x),
{
    let mut i: usize = 0;
    while i < v.len()
        invariant
            i <= v@.len(),
            forall|k: int| 0 <= k < i ==> v@[k] != x,
        decreases v@.len() - i,
    {
        if v[i] == x {
            return true;
        }
        i = i + 1;
    }
    false
}

/// The owners of each crate; an unknown owner kind stops the import.
pub fn load_crate_owners(rows: &Vec<CrateOwners>) -> (r: Result<HashMap<u64, Vec<OwnerId>>, ImportError>)
    ensures
        first_bad_kind(rows@) matches Some(k) ==> r == Err::<HashMap<u64, Vec<OwnerId>>, ImportError>(
            ImportError::UnexpectedOwnerKind(k),
        ),
        first_bad_kind(rows@) is None ==> (r matches Ok(m) && (forall|c: u64| #[trigger]
            m@.contains_key(c) ==> m@[c]@ == owners_of(rows@, c)) && (forall|c: u64| !#[trigger]
            m@.contains_key(c) ==> owners_of(rows@, c).len() == 0) && (forall|c: u64| #[trigger]
            m@.contains_key(c) == has_owner_row(rows@, c))),
{
    let mut owners: HashMap<u64, Vec<OwnerId>> = HashMap::new();
    let mut i: usize = 0;
    while i < rows.len()
        invariant
            i <= rows@.len(),
            first_bad_kind(rows@.subrange(0, i as int)) is None,
            forall|c: u64| #[trigger]
                owners@.contains_key(c) ==> owners@[c]@ == owners_of(rows@.subrange(0, i as int), c),
            forall|c: u64| !#[trigger] owners@.contains_key(c) ==> owners_of(rows@.subrange(0, i as int), c).len() == 0,
            forall|c: u64| #[trigger] owners@.contains_key(c) == has_owner_row(rows@.subrange(0, i as int), c),
        decreases rows@.len() - i,
    {
        let row = &rows[i];
        let ghost prefix = rows@.subrange(0, i as int + 1);
        assert(prefix.drop_last() =~= rows@.subrange(0, i as int));
        let owner = if row.owner_kind == 0 {
            OwnerId::User(row.owner_id)
        } else if row.owner_kind == 1 {
            OwnerId::Team(row.owner_id)
        } else {
            proof {
                lemma_first_bad_kind_extends(rows@, i as int + 1);
            }
            return Err(ImportError::UnexpectedOwnerKind(row.owner_kind));
        };
        let c = row.crate_id;
        let mut list = match owners.remove(&c) {
            Some(m) => m,
            None => Vec::new(),
        };
        if !holds_owner(&list, owner) {
            list.push(owner);
        }
        owners.insert(c, list);
        proof {
            let pre = rows@.subrange(0, i as int);
            assert(prefix[i as int].crate_id == c);
            assert forall|x: u64| #[trigger] owners@.contains_key(x) == has_owner_row(prefix, x) by {
                if has_owner_row(prefix, x) && x != c {
                    let j = choose|j: int| 0 <= j < prefix.len() && (#[trigger] prefix[j]).crate_id == x;
                    assert(pre[j] == prefix[j]);
                }
                if has_owner_row(pre, x) {
                    let j = choose|j: int| 0 <= j < pre.len() && (#[trigger] pre[j]).crate_id == x;
                    assert(prefix[j] == pre[j]);
                }
            }
        }
        i = i + 1;
    }
    assert(rows@.subrange(0, i as int) =~= rows@);
    Ok(owners)
}

proof fn lemma_first_bad_kind_extends(rows: Seq<CrateOwners>, n: int)
    requires
        0 < n <= rows.len(),
        first_bad_kind(rows.subrange(0, n)) is Some,
    ensures
        first_bad_kind(rows) == first_bad_kind(rows.subrange(0, n)),
    decreases rows.len() - n,
{
    if n < rows.len() {
        assert(rows.subrange(0, n + 1).drop_last() =~= rows.subrange(0, n));
        lemma_first_bad_kind_extends(rows, n + 1);
    } else {
        assert(rows.subrange(0, n) =~= rows);
    }
}

/// A crate's ids in a grouped table, empty where it has none.
pub open spec fn lookup_ids(m: Map<u64, Vec<u64>>, id: u64) -> Seq<u64> {
    if m.contains_key(id) {
        m[id]@
    } else {
        Seq::empty()
    }
}

pub open spec fn lookup_owners(m: Map<u64, Vec<OwnerId>>, id: u64) -> Seq<OwnerId> {
    if m.contains_key(id) {
        m[id]@
    } else {
        Seq::empty()
    }
}

/// The stored form of a `crates.csv` row, with its memberships merged in.
pub open spec fn crate_record(
    row: Crate,
    keywords: Map<u64, Vec<u64>>,
    categories: Map<u64, Vec<u64>>,
    owners: Map<u64, Vec<OwnerId>>,
) -> CrateView {
    CrateView {
        created_at: row.created_at@,
        description: row.description@,
        documentation: row.documentation@,
        downloads: row.downloads,
        homepage: row.homepage@,
        max_upload_size: row.max_upload_size,
        name: row.name@,
        readme: row.readme@,
        repository: row.repository@,
        updated_at: row.updated_at@,
        keywords: lookup_ids(keywords, row.id).to_set(),
        category_ids: lookup_ids(categories, row.id).to_set(),
        owners: lookup_owners(owners, row.id).to_set(),
    }
}

fn ids_for(m: &HashMap<u64, Vec<u64>>, id: u64) -> (r: Vec<u64>)
    ensures
        r@ == lookup_ids(m@, id),
{
    match m.get(&id) {
        Some(v) => {
            let c = v.clone();
            assert(c@ =~= v@);
            c
        },
        None => Vec::new(),
    }
}

fn owners_for(m: &HashMap<u64, Vec<OwnerId>>, id: u64) -> (r: Vec<OwnerId>)
    ensures
        r@ == lookup_owners(m@, id),
{
    match m.get(&id) {
        Some(v) => {
            let c = v.clone();
            assert(c@ =~= v@);
            c
        },
        None => Vec::new(),
    }
}

/// The changes to the crates collection: each row with its keywords,
/// categories and owners, against the stored crates.
pub fn apply_crate_changes(
    rows: &Vec<Crate>,
    keywords: &HashMap<u64, Vec<u64>>,
    categories: &HashMap<u64, Vec<u64>>,
    owners: &HashMap<u64, Vec<OwnerId>>,
    existing: &HashMap<u64, schema::Crate>,
) -> (r: Vec<Change<schema::Crate>>)
    ensures
        r@.map_values(|c: Change<schema::Crate>| c.spec_view()) == diff_spec(
            rows@.map_values(|x: Crate| (x.id, crate_record(x, keywords@, categories@, owners@))),
            map_view(existing@),
        ),
{
    let ghost target = rows@.map_values(|x: Crate| (x.id, crate_record(x, keywords@, categories@, owners@)));
    let mut records: Vec<(u64, schema::Crate)> = Vec::new();
    let mut i: usize = 0;
    while i < rows.len()
        invariant
            i <= rows@.len(),
            target == rows@.map_values(|x: Crate| (x.id, crate_record(x, keywords@, categories@, owners@))),
            rows_view(records@) == target.subrange(0, i as int),
        decreases rows@.len() - i,
    {
        let row = &rows[i];
        let record = schema::Crate {
            created_at: row.created_at.clone(),
            description: row.description.clone(),
            documentation: row.documentation.clone(),
            downloads: row.downloads,
            homepage: row.homepage.clone(),
            max_upload_size: row.max_upload_size,
            name: row.name.clone(),
            readme: row.readme.clone(),
            repository: row.repository.clone(),
            updated_at: row.updated_at.clone(),
            keywords: ids_for(keywords, row.id),
            category_ids: ids_for(categories, row.id),
            owners: owners_for(owners, row.id),
        };
        assert(target[i as int] == (row.id, record@));
        let ghost before = records@;
        records.push((row.id, record));
        assert(rows_view(records@) =~= rows_view(before).push(target[i as int]));
        i = i + 1;
        assert(rows_view(records@) =~= target.subrange(0, i as int));
    }
    assert(target.subrange(0, i as int) =~= target);
    diff_records(records, existing)
}

/// The changes to the keywords collection.
pub fn apply_keyword_changes(rows: &Vec<Keywords>, existing: &HashMap<u64, schema::Keyword>) -> (r: Vec<
    Change<schema::Keyword>,
>)
    ensures
        r@.map_values(|c: Change<schema::Keyword>| c.spec_view()) == diff_spec(
            rows@.map_values(|x: Keywords| (x.id, x.keyword@)),
            map_view(existing@),
        ),
{
    let ghost target = rows@.map_values(|x: Keywords| (x.id, x.keyword@));
    let mut records: Vec<(u64, schema::Keyword)> = Vec::new();
    let mut i: usize = 0;
    while i < rows.len()
        invariant
            i <= rows@.len(),
            target == rows@.map_values(|x: Keywords| (x.id, x.keyword@)),
            rows_view(records@) == target.subrange(0, i as int),
        decreases rows@.len() - i,
    {
        let row = &rows[i];
        let record = schema::Keyword { keyword: row.keyword.clone() };
        assert(target[i as int] == (row.id, record@));
        let ghost before = records@;
        records.push((row.id, record));
        assert(rows_view(records@) =~= rows_view(before).push(target[i as int]));
        i = i + 1;
        assert(rows_view(records@) =~= target.subrange(0, i as int));
    }
    assert(target.subrange(0, i as int) =~= target);
    diff_records(records, existing)
}

/// The stored form of a `categories.csv` row.
pub open spec fn category_record(row: Categories) -> CategoryView {
    CategoryView {
        category: row.category@,
        created_at: row.created_at@,
        description: row.description@,
        path: row.path@,
        slug: row.slug@,
    }
}

/// The changes to the categories collection.
pub fn apply_category_changes(rows: &Vec<Categories>, existing: &HashMap<u64, schema::Category>) -> (r:
    Vec<Change<schema::Category>>)
    ensures
        r@.map_values(|c: Change<schema::Category>| c.spec_view()) == diff_spec(
            rows@.map_values(|x: Categories| (x.id, category_record(x))),
            map_view(existing@),
        ),
{
    let ghost target = rows@.map_values(|x: Categories| (x.id, category_record(x)));
    let mut records: Vec<(u64, schema::Category)> = Vec::new();
    let mut i: usize = 0;
    while i < rows.len()
        invariant
            i <= rows@.len(),
            target == rows@.map_values(|x: Categories| (x.id, category_record(x))),
            rows_view(records@) == target.subrange(0, i as int),
        decreases rows@.len() - i,
    {
        let row = &rows[i];
        let record = schema::Category {
            category: row.category.clone(),
            created_at: row.created_at.clone(),
            description: row.description.clone(),
            path: row.path.clone(),
            slug: row.slug.clone(),
        };
        assert(target[i as int] == (row.id, record@));
        let ghost before = records@;
        records.push((row.id, record));
        assert(rows_view(records@) =~= rows_view(before).push(target[i as int]));
        i = i + 1;
        assert(rows_view(records@) =~= target.subrange(0, i as int));
    }
    assert(target.subrange(0, i as int) =~= target);
    diff_records(records, existing)
}

/// The stored form of a `versions.csv` row; a version is yanked where the
/// export says `t`.
pub open spec fn version_record(row: Versions) -> VersionView {
    VersionView {
        crate_id: row.crate_id,
        checksum: row.checksum@,
        created_at: row.created_at@,
        updated_at: row.updated_at@,
        crate_size: row.crate_size,
        downloads: row.downloads,
        features: row.features@,
        license: row.license@,
        links: row.links@,
        version: row.num@,
        published_by: row.published_by,
        yanked: row.yanked == Some('t'),
    }
}

/// The crate of each version id (a later row wins).
pub open spec fn version_crates(rows: Seq<Versions>) -> Map<u64, u64>
    decreases rows.len(),
{
    if rows.len() == 0 {
        Map::empty()
    } else {
        version_crates(rows.drop_last()).insert(rows.last().id, rows.last().crate_id)
    }
}

/// The changes to the versions collection, and the crate of each version.
pub fn apply_version_changes(rows: &Vec<Versions>, existing: &HashMap<u64, schema::Version>) -> (r: (
    Vec<Change<schema::Version>>,
    HashMap<u64, u64>,
))
    ensures
        r.0@.map_values(|c: Change<schema::Version>| c.spec_view()) == diff_spec(
            rows@.map_values(|x: Versions| (x.id, version_record(x))),
            map_view(existing@),
        ),
        r.1@ == version_crates(rows@),
{
    let ghost target = rows@.map_values(|x: Versions| (x.id, version_record(x)));
    let mut records: Vec<(u64, schema::Version)> = Vec::new();
    let mut crates: HashMap<u64, u64> = HashMap::new();
    let mut i: usize = 0;
    while i < rows.len()
        invariant
            i <= rows@.len(),
            target == rows@.map_values(|x: Versions| (x.id, version_record(x))),
            rows_view(records@) == target.subrange(0, i as int),
            crates@ == version_crates(rows@.subrange(0, i as int)),
        decreases rows@.len() - i,
    {
        let row = &rows[i];
        let ghost prefix = rows@.subrange(0, i as int + 1);
        assert(prefix.drop_last() =~= rows@.subrange(0, i as int));
        crates.insert(row.id, row.crate_id);
        let yanked = match row.yanked {
            Some(c) => c == 't',
            None => false,
        };
        let record = schema::Version {
            crate_id: row.crate_id,
            checksum: row.checksum.clone(),
            created_at: row.created_at.clone(),
            updated_at: row.updated_at.clone(),
            crate_size: row.crate_size,
            downloads: row.downloads,
            features: row.features.clone(),
            license: row.license.clone(),
            links: row.links.clone(),
            version: row.num.clone(),
            published_by: row.published_by,
            yanked,
        };
        assert(target[i as int] == (row.id, record@));
        let ghost before = records@;
        records.push((row.id, record));
        assert(rows_view(records@) =~= rows_view(before).push(target[i as int]));
        i = i + 1;
        assert(rows_view(records@) =~= target.subrange(0, i as int));
    }
    assert(target.subrange(0, i as int) =~= target);
    assert(rows@.subrange(0, i as int) =~= rows@);
    (diff_records(records, existing), crates)
}

/// Days before the last imported download date that are imported again.
pub const REIMPORT_DAYS: u32 = 7;

/// The first download date to import, given the latest date the store
/// holds: none before an import has happened. A stored date too early or
/// invalid for calendar arithmetic is an error.
pub fn reimport_cutoff(last_imported: Option<CalendarDate>) -> (r: Result<Option<CalendarDate>, ImportError>)
    ensures
        last_imported is None ==> r == Ok::<Option<CalendarDate>, ImportError>(None),
        last_imported matches Some(d) ==> {
            if d.wf() && d.year_spec() <= 9999 && d.day_number_spec() > REIMPORT_DAYS {
                r matches Ok(Some(c)) && c.wf() && c.day_number_spec() == d.day_number_spec() - REIMPORT_DAYS
            } else {
                r == Err::<Option<CalendarDate>, ImportError>(ImportError::InvalidDate)
            }
        },
{
    match last_imported {
        Some(d) => match d.checked_sub(REIMPORT_DAYS) {
            Some(c) => Ok(Some(c)),
            None => Err(ImportError::InvalidDate),
        },
        None => Ok(None),
    }
}

/// The download upserts of a `version_downloads.csv`: rows dated before
/// `cutoff` are skipped, the rest overwrite what the store holds. A bad date
/// or a version that the export lacks stops the import at that row, whatever
/// the row's date.
pub open spec fn downloads_spec(
    rows: Seq<VersionDownloads>,
    cutoff: Option<CalendarDate>,
    versions: Map<u64, u64>,
) -> Result<Seq<(schema::VersionDownloadKey, schema::VersionDownloads)>, ImportError>
    decreases rows.len(),
{
    if rows.len() == 0 {
        Ok(Seq::empty())
    } else {
        match downloads_spec(rows.drop_last(), cutoff, versions) {
            Err(e) => Err(e),
            Ok(prev) => {
                let row = rows.last();
                match iso_date(row.date@) {
                    None => Err(ImportError::InvalidDate),
                    Some(date) => if !versions.contains_key(row.version_id) {
                        Err(ImportError::UnknownVersion(row.version_id))
                    } else if cutoff matches Some(c) && date.0 < c.0 {
                        Ok(prev)
                    } else {
                        Ok(
                            prev.push(
                                (
                                    schema::VersionDownloadKey { version_id: row.version_id, date },
                                    schema::VersionDownloads {
                                        crate_id: versions[row.version_id],
                                        downloads: row.downloads,
                                    },
                                ),
                            ),
                        )
                    },
                }
            },
        }
    }
}

/// The download upserts of the export (see `downloads_spec`).
pub fn apply_version_download_changes(
    rows: &Vec<VersionDownloads>,
    cutoff: Option<CalendarDate>,
    version_crates: &HashMap<u64, u64>,
) -> (r: Result<Vec<(schema::VersionDownloadKey, schema::VersionDownloads)>, ImportError>)
    ensures
        match downloads_spec(rows@, cutoff, version_crates@) {
            Ok(ops) => r matches Ok(v) && v@ == ops,
            Err(e) => r == Err::<Vec<(schema::VersionDownloadKey, schema::VersionDownloads)>, ImportError>(e),
        },
{
    let mut out: Vec<(schema::VersionDownloadKey, schema::VersionDownloads)> = Vec::new();
    let mut i: usize = 0;
    while i < rows.len()
        invariant
            i <= rows@.len(),
            downloads_spec(rows@.subrange(0, i as int), cutoff, version_crates@) == Ok::<
                Seq<(schema::VersionDownloadKey, schema::VersionDownloads)>,
                ImportError,
            >(out@),
        decreases rows@.len() - i,
    {
        let row = &rows[i];
        let ghost prefix = rows@.subrange(0, i as int + 1);
        assert(prefix.drop_last() =~= rows@.subrange(0, i as int));
        let date = match parse_iso_date(row.date.as_str()) {
            Some(d) => d,
            None => {
                proof {
                    lemma_downloads_err_extends(rows@, i as int + 1, cutoff, version_crates@);
                }
                return Err(ImportError::InvalidDate);
            },
        };
        let crate_id = match version_crates.get(&row.version_id) {
            Some(c) => *c,
            None => {
                proof {
                    lemma_downloads_err_extends(rows@, i as int + 1, cutoff, version_crates@);
                }
                return Err(ImportError::UnknownVersion(row.version_id));
            },
        };
        let skip = match cutoff {
            Some(c) => date.0 < c.0,
            None => false,
        };
        if !skip {
            out.push(
                (
                    schema::VersionDownloadKey { version_id: row.version_id, date },
                    schema::VersionDownloads { crate_id, downloads: row.downloads },
                ),
            );
        }
        i = i + 1;
    }
    assert(rows@.subrange(0, i as int) =~= rows@);
    Ok(out)
}

proof fn lemma_downloads_err_extends(
    rows: Seq<VersionDownloads>,
    n: int,
    cutoff: Option<CalendarDate>,
    versions: Map<u64, u64>,
)
    requires
        0 < n <= rows.len(),
        downloads_spec(rows.subrange(0, n), cutoff, versions) is Err,
    ensures
        downloads_spec(rows, cutoff, versions) == downloads_spec(rows.subrange(0, n), cutoff, versions),
    decreases rows.len() - n,
{
    if n < rows.len() {
        assert(rows.subrange(0, n + 1).drop_last() =~= rows.subrange(0, n));
        lemma_downloads_err_extends(rows, n + 1, cutoff, versions);
    } else {
        assert(rows.subrange(0, n) =~= rows);
    }
}

/// The tables of an extracted export, parsed.
#[derive(Debug)]
pub struct ExportTables {
    pub crates: Vec<Crate>,
    pub crate_keywords: Vec<CrateKeywords>,
    pub crate_categories: Vec<CrateCategories>,
    pub crate_owners: Vec<CrateOwners>,
    pub keywords: Vec<Keywords>,
    pub categories: Vec<Categories>,
    pub versions: Vec<Versions>,
    pub version_downloads: Vec<VersionDownloads>,
}

/// What the store holds before an import.
#[derive(Debug)]
pub struct StoredRecords {
    pub crates: HashMap<u64, schema::Crate>,
    pub keywords: HashMap<u64, schema::Keyword>,
    pub categories: HashMap<u64, schema::Category>,
    pub versions: HashMap<u64, schema::Version>,
    /// The latest date of the stored download rows.
    pub last_download_date: Option<CalendarDate>,
}

/// The operations of one import, by family, in the order they are applied.
#[derive(Debug)]
pub struct ImportPlan {
    pub crates: Vec<Change<schema::Crate>>,
    pub keywords: Vec<Change<schema::Keyword>>,
    pub categories: Vec<Change<schema::Category>>,
    pub versions: Vec<Change<schema::Version>>,
    pub downloads: Vec<(schema::VersionDownloadKey, schema::VersionDownloads)>,
    /// The export to record as the last one imported.
    pub last_dump_imported: String,
}

/// The keyword pairs of an export.
pub open spec fn keyword_pairs(export: &ExportTables) -> Seq<(u64, u64)> {
    export.crate_keywords@.map_values(|x: CrateKeywords| (x.crate_id, x.keyword_id))
}

/// The category pairs of an export.
pub open spec fn category_pairs(export: &ExportTables) -> Seq<(u64, u64)> {
    export.crate_categories@.map_values(|x: CrateCategories| (x.crate_id, x.category_id))
}

/// The stored form of a `crates.csv` row of `export`, with its keywords,
/// categories and owners.
pub open spec fn export_crate(export: &ExportTables, row: Crate) -> CrateView {
    CrateView {
        created_at: row.created_at@,
        description: row.description@,
        documentation: row.documentation@,
        downloads: row.downloads,
        homepage: row.homepage@,
        max_upload_size: row.max_upload_size,
        name: row.name@,
        readme: row.readme@,
        repository: row.repository@,
        updated_at: row.updated_at@,
        keywords: members_of(keyword_pairs(export), row.id).to_set(),
        category_ids: members_of(category_pairs(export), row.id).to_set(),
        owners: owners_of(export.crate_owners@, row.id).to_set(),
    }
}

/// A stored date from which the reimport cutoff can be computed.
pub open spec fn cutoff_ok(last: Option<CalendarDate>) -> bool {
    last matches Some(d) ==> d.wf() && d.year_spec() <= 9999 && d.day_number_spec() > REIMPORT_DAYS
}

/// The reimport cutoff: the valid date `REIMPORT_DAYS` before `last`.
pub open spec fn cutoff_of(last: Option<CalendarDate>) -> Option<CalendarDate> {
    match last {
        Some(d) => Some(
            choose|c: CalendarDate| c.wf() && c.day_number_spec() == d.day_number_spec() - REIMPORT_DAYS,
        ),
        None => None,
    }
}

proof fn lemma_members_absent(pairs: Seq<(u64, u64)>, c: u64)
    requires
        !has_crate(pairs, c),
    ensures
        members_of(pairs, c).len() == 0,
    decreases pairs.len(),
{
    if pairs.len() > 0 {
        let p = pairs.drop_last();
        assert forall|i: int| 0 <= i < p.len() implies (#[trigger] p[i]).0 != c by {
            assert(pairs[i] == p[i]);
            if p[i].0 == c {
                assert(has_crate(pairs, c));
            }
        }
        assert(pairs[pairs.len() - 1].0 != c);
        lemma_members_absent(p, c);
    }
}

/// A valid date is the only valid date with its day number.
pub proof fn lemma_day_number_unique(a: CalendarDate, b: CalendarDate)
    requires
        a.wf(),
        b.wf(),
        a.day_number_spec() == b.day_number_spec(),
    ensures
        a == b,
{
    if a.year_spec() < b.year_spec() {
        crate::calendar::lemma_day_number_order(a.year_spec(), a.ordinal_spec(), b.year_spec(), b.ordinal_spec());
    } else if a.year_spec() > b.year_spec() {
        crate::calendar::lemma_day_number_order(b.year_spec(), b.ordinal_spec(), a.year_spec(), a.ordinal_spec());
    }
    let x = a.0;
    let y = b.0;
    assert(x == y) by (bit_vector)
        requires
            x >> 9u32 == y >> 9u32,
            x & 0x1FFu32 == y & 0x1FFu32,
    ;
}

/// Diffs an export against the store: the changes of every family, and the
/// download upserts from the reimport cutoff on.
pub fn import_dump(dump_name: String, export: &ExportTables, stored: &StoredRecords) -> (r: Result<
    ImportPlan,
    ImportError,
>)
    ensures
        first_bad_kind(export.crate_owners@) matches Some(k) ==> r == Err::<ImportPlan, ImportError>(
            ImportError::UnexpectedOwnerKind(k),
        ),
        first_bad_kind(export.crate_owners@) is None && !cutoff_ok(stored.last_download_date) ==> r
            == Err::<ImportPlan, ImportError>(ImportError::InvalidDate),
        first_bad_kind(export.crate_owners@) is None && cutoff_ok(stored.last_download_date) ==> match downloads_spec(
            export.version_downloads@,
            cutoff_of(stored.last_download_date),
            version_crates(export.versions@),
        ) {
            Ok(ops) => r matches Ok(plan) && plan.downloads@ == ops,
            Err(e) => r == Err::<ImportPlan, ImportError>(e),
        },
        r matches Ok(plan) ==> {
            &&& plan.crates@.map_values(|c: Change<schema::Crate>| c.spec_view()) == diff_spec(
                export_crate_rows(export),
                map_view(stored.crates@),
            )
            &&& plan.keywords@.map_values(|c: Change<schema::Keyword>| c.spec_view()) == diff_spec(
                export_keyword_rows(export),
                map_view(stored.keywords@),
            )
            &&& plan.categories@.map_values(|c: Change<schema::Category>| c.spec_view()) == diff_spec(
                export_category_rows(export),
                map_view(stored.categories@),
            )
            &&& plan.versions@.map_values(|c: Change<schema::Version>| c.spec_view()) == diff_spec(
                export_version_rows(export),
                map_view(stored.versions@),
            )
            &&& plan.last_dump_imported@ == dump_name@
        },
{
    let keywords = load_crate_keywords(&export.crate_keywords);
    let categories = load_crate_categories(&export.crate_categories);
    let owners = match load_crate_owners(&export.crate_owners) {
        Ok(o) => o,
        Err(e) => return Err(e),
    };
    let crates = apply_crate_changes(&export.crates, &keywords, &categories, &owners, &stored.crates);
    proof {
        assert forall|x: Crate| #[trigger] crate_record(x, keywords@, categories@, owners@) == export_crate(export, x) by {
            if !keywords@.contains_key(x.id) {
                lemma_members_absent(keyword_pairs(export), x.id);
                assert(members_of(keyword_pairs(export), x.id) =~= Seq::<u64>::empty());
            }
            if !categories@.contains_key(x.id) {
                lemma_members_absent(category_pairs(export), x.id);
                assert(members_of(category_pairs(export), x.id) =~= Seq::<u64>::empty());
            }
            if !owners@.contains_key(x.id) {
                assert(owners_of(export.crate_owners@, x.id) =~= Seq::<OwnerId>::empty());
            }
            assert(crate_record(x, keywords@, categories@, owners@) =~= export_crate(export, x));
        }
        assert(export.crates@.map_values(|x: Crate| (x.id, crate_record(x, keywords@, categories@, owners@)))
            =~= export.crates@.map_values(|x: Crate| (x.id, export_crate(export, x))));
    }
    let keyword_changes = apply_keyword_changes(&export.keywords, &stored.keywords);
    let category_changes = apply_category_changes(&export.categories, &stored.categories);
    let (version_changes, version_crates) = apply_version_changes(&export.versions, &stored.versions);
    let cutoff = match reimport_cutoff(stored.last_download_date) {
        Ok(c) => c,
        Err(e) => return Err(e),
    };
    proof {
        if let Some(d) = stored.last_download_date {
            let c = cutoff.unwrap();
            let w = choose|w: CalendarDate| w.wf() && w.day_number_spec() == d.day_number_spec() - REIMPORT_DAYS;
            lemma_day_number_unique(c, w);
        }
        assert(cutoff == cutoff_of(stored.last_download_date));
    }
    let downloads = match apply_version_download_changes(&export.version_downloads, cutoff, &version_crates) {
        Ok(d) => d,
        Err(e) => return Err(e),
    };
    Ok(
        ImportPlan {
            crates,
            keywords: keyword_changes,
            categories: category_changes,
            versions: version_changes,
            downloads,
            last_dump_imported: dump_name,
        },
    )
}

/// The download upserts of an import never reach before the cutoff: rows
/// dated earlier are skipped.
pub proof fn lemma_downloads_within_window(
    rows: Seq<VersionDownloads>,
    cutoff: Option<CalendarDate>,
    versions: Map<u64, u64>,
)
    ensures
        downloads_spec(rows, cutoff, versions) matches Ok(ops) ==> forall|k: int|
            0 <= k < ops.len() ==> (cutoff matches Some(c) ==> (#[trigger] ops[k]).0.date.0 >= c.0),
    decreases rows.len(),
{
    if rows.len() > 0 {
        lemma_downloads_within_window(rows.drop_last(), cutoff, versions);
    }
}

/// The keyed crates of an export, with their memberships.
pub open spec fn export_crate_rows(export: &ExportTables) -> Seq<(u64, CrateView)> {
    export.crates@.map_values(|x: Crate| (x.id, export_crate(export, x)))
}

pub open spec fn export_keyword_rows(export: &ExportTables) -> Seq<(u64, Seq<char>)> {
    export.keywords@.map_values(|x: Keywords| (x.id, x.keyword@))
}

pub open spec fn export_category_rows(export: &ExportTables) -> Seq<(u64, CategoryView)> {
    export.categories@.map_values(|x: Categories| (x.id, category_record(x)))
}

pub open spec fn export_version_rows(export: &ExportTables) -> Seq<(u64, VersionView)> {
    export.versions@.map_values(|x: Versions| (x.id, version_record(x)))
}

/// Importing the same export twice: once the changes that the first import
/// plans (see `import_dump`) are applied to the crates, keywords,
/// categories and versions, the second import plans none. Download rows of
/// the reimport window are upserted on every import, by design.
pub proof fn lemma_import_idempotent(
    export: &ExportTables,
    crates: Map<u64, CrateView>,
    keywords: Map<u64, Seq<char>>,
    categories: Map<u64, CategoryView>,
    versions: Map<u64, VersionView>,
)
    requires
        distinct_keys(export_crate_rows(export)),
        distinct_keys(export_keyword_rows(export)),
        distinct_keys(export_category_rows(export)),
        distinct_keys(export_version_rows(export)),
    ensures
        diff_spec(
            export_crate_rows(export),
            apply_spec(crates, diff_spec(export_crate_rows(export), crates)),
        ).len() == 0,
        diff_spec(
            export_keyword_rows(export),
            apply_spec(keywords, diff_spec(export_keyword_rows(export), keywords)),
        ).len() == 0,
        diff_spec(
            export_category_rows(export),
            apply_spec(categories, diff_spec(export_category_rows(export), categories)),
        ).len() == 0,
        diff_spec(
            export_version_rows(export),
            apply_spec(versions, diff_spec(export_version_rows(export), versions)),
        ).len() == 0,
{
    lemma_diff_idempotent(export_crate_rows(export), crates);
    lemma_diff_idempotent(export_keyword_rows(export), keywords);
    lemma_diff_idempotent(export_category_rows(export), categories);
    lemma_diff_idempotent(export_version_rows(export), versions);
}

} // verus!
