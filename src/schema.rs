//! The records kept in the store, and the values its views emit.
use vstd::prelude::*;

use crate::calendar::CalendarDate;
use crate::text::{ascii_lower, chars_of, same_chars, string_from_chars};

verus! {

/// The singleton record of what was last downloaded and imported.
#[derive(Debug, Default)]
pub struct ImportState {
    /// The export's freshness marker when it was last downloaded.
    pub downloaded_last_modified: Option<String>,
    /// The directory name of the last export imported.
    pub last_dump_imported: Option<String>,
}

/// Who owns a crate: a user or a team, by id.
#[derive(Clone, Copy, Debug, PartialEq, Eq, Structural, Hash)]
pub enum OwnerId {
    User(u64),
    Team(u64),
}

pub open spec fn normalize_char(c: char) -> char {
    if c == '-' {
        '_'
    } else {
        ascii_lower(c)
    }
}

/// A crate name folded for matching: ASCII letters lowercased, `-` as `_`.
pub open spec fn normalized(name: Seq<char>) -> Seq<char> {
    name.map_values(|c: char| normalize_char(c))
}

/// A crate as the store keeps it. The keyword, category and owner lists hold
/// no duplicates and are compared as sets.
#[derive(Debug)]
pub struct Crate {
    pub created_at: String,
    pub description: String,
    pub documentation: String,
    pub downloads: Option<u64>,
    pub homepage: String,
    pub max_upload_size: Option<u64>,
    pub name: String,
    pub readme: String,
    pub repository: String,
    pub updated_at: String,
    pub keywords: Vec<u64>,
    pub category_ids: Vec<u64>,
    pub owners: Vec<OwnerId>,
}

impl Crate {
    /// The name folded for matching.
    pub fn normalized_name(name: &str) -> (r: String)
        ensures
            r@ == normalized(name@),
    {
        let chars = chars_of(name);
        let mut out: Vec<char> = Vec::new();
        let mut i: usize = 0;
        while i < chars.len()
            invariant
                i <= chars@.len(),
                chars@ == name@,
                out@ == normalized(chars@.subrange(0, i as int)),
            decreases chars@.len() - i,
        {
            let ch = chars[i];
            let n = if ch == '-' {
                '_'
            } else if 'A' <= ch && ch <= 'Z' {
                ((ch as u8) + 32) as char
            } else {
                ch
            };
            out.push(n);
            i = i + 1;
            assert(out@ =~= normalized(chars@.subrange(0, i as int)));
        }
        assert(chars@.subrange(0, i as int) =~= chars@);
        string_from_chars(&out)
    }
}

/// What the by-name view of crates emits for each crate.
#[derive(Debug)]
pub struct CrateInfo {
    pub name: String,
    pub downloads: u64,
    pub description: String,
    pub keywords: Vec<u64>,
}

#[derive(Debug)]
pub struct Keyword {
    pub keyword: String,
}

#[derive(Debug)]
pub struct Category {
    pub category: String,
    pub created_at: String,
    pub description: String,
    pub path: String,
    pub slug: String,
}

#[derive(Debug)]
pub struct Version {
    pub crate_id: u64,
    pub checksum: String,
    pub created_at: String,
    pub updated_at: String,
    pub crate_size: Option<u64>,
    pub downloads: u64,
    pub features: String,
    pub license: String,
    pub links: String,
    pub version: String,
    pub published_by: Option<u64>,
    pub yanked: bool,
}

/// The downloads of one version on one day.
#[derive(Clone, Copy, Debug, PartialEq, Eq, Structural)]
pub struct VersionDownloads {
    pub crate_id: u64,
    pub downloads: u64,
}

/// The key of a day's downloads of a version.
#[derive(Clone, Copy, Debug, PartialEq, Eq, Structural, PartialOrd, Ord, Hash)]
pub struct VersionDownloadKey {
    pub version_id: u64,
    pub date: CalendarDate,
}

/// The key of the by-date view of downloads: by day, then crate.
#[derive(Clone, Copy, Debug, PartialEq, Eq, Structural, PartialOrd, Ord, Hash)]
pub struct DateAndCrate {
    pub date: CalendarDate,
    pub crate_id: u64,
}

impl DateAndCrate {
    /// The smallest key on `date`: the range from it on holds every crate's
    /// downloads on that day and after.
    pub fn range_for_after_date(date: CalendarDate) -> (r: DateAndCrate)
        ensures
            r.date == date,
            r.crate_id == 0,
    {
        DateAndCrate { date, crate_id: 0 }
    }
}

/// Whether two strings hold the same text.
pub fn same_text(a: &String, b: &String) -> (r: bool)
    ensures
        r == (a@ == b@),
{
    let x = chars_of(a.as_str());
    let y = chars_of(b.as_str());
    same_chars(&x, &y)
}

/// Whether two id lists hold the same ids.
pub fn same_id_set(a: &Vec<u64>, b: &Vec<u64>) -> (r: bool)
    ensures
        r == (a@.to_set() == b@.to_set()),
{
    let mut i: usize = 0;
    while i < a.len()
        invariant
            i <= a@.len(),
            forall|k: int| 0 <= k < i ==> b@.contains(#[trigger] a@[k]),
        decreases a@.len() - i,
    {
        if !contains_id(b, a[i]) {
            assert(a@.to_set().contains(a@[i as int]));
            assert(!b@.to_set().contains(a@[i as int]));
            return false;
        }
        i = i + 1;
    }
    let mut j: usize = 0;
    while j < b.len()
        invariant
            j <= b@.len(),
            forall|k: int| 0 <= k < a@.len() ==> b@.contains(#[trigger] a@[k]),
            forall|k: int| 0 <= k < j ==> a@.contains(#[trigger] b@[k]),
        decreases b@.len() - j,
    {
        if !contains_id(a, b[j]) {
            assert(b@.to_set().contains(b@[j as int]));
            assert(!a@.to_set().contains(b@[j as int]));
            return false;
        }
        j = j + 1;
    }
    assert(a@.to_set() =~= b@.to_set());
    true
}

fn contains_id(v: &Vec<u64>, x: u64) -> (r: bool)
    ensures
        r == v@.contains(x),
{
    let mut i: usize = 0;
    while i < v.len()
        invariant
            i <= v@.len(),
            forall|k: int| 0 <= k < i ==> v@[k] != x,
        decreases v@.len() - i,
    {
        if v[i] == x {
            return true;
        }
        i = i + 1;
    }
    false
}

/// Whether two owner lists hold the same owners.
pub fn same_owner_set(a: &Vec<OwnerId>, b: &Vec<OwnerId>) -> (r: bool)
    ensures
        r == (a@.to_set() == b@.to_set()),
{
    let mut i: usize = 0;
    while i < a.len()
        invariant
            i <= a@.len(),
            forall|k: int| 0 <= k < i ==> b@.contains(#[trigger] a@[k]),
        decreases a@.len() - i,
    {
        if !contains_owner(b, a[i]) {
            assert(a@.to_set().contains(a@[i as int]));
            assert(!b@.to_set().contains(a@[i as int]));
            return false;
        }
        i = i + 1;
    }
    let mut j: usize = 0;
    while j < b.len()
        invariant
            j <= b@.len(),
            forall|k: int| 0 <= k < a@.len() ==> b@.contains(#[trigger] a@[k]),
            forall|k: int| 0 <= k < j ==> a@.contains(#[trigger] b@[k]),
        decreases b@.len() - j,
    {
        if !contains_owner(a, b[j]) {
            assert(b@.to_set().contains(b@[j as int]));
            assert(!a@.to_set().contains(b@[j as int]));
            return false;
        }
        j = j + 1;
    }
    assert(a@.to_set() =~= b@.to_set());
    true
}

fn contains_owner(v: &Vec<OwnerId>, x: OwnerId) -> (r: bool)
    ensures
        r == v@.contains(x),
{
    let mut i: usize = 0;
    while i < v.len()
        invariant
            i <= v@.len(),
            forall|k: int| 0 <= k < i ==> v@[k] != x,
        decreases v@.len() - i,
    {
        if v[i] == x {
            return true;
        }
        i = i + 1;
    }
    false
}

/// A store record whose value is compared field for field.
pub trait Record: Sized + View {
    /// The record holds the same values as `other`.
    fn same_as(&self, other: &Self) -> (r: bool)
        ensures
            r == (self@ == other@);
}

pub struct CrateView {
    pub created_at: Seq<char>,
    pub description: Seq<char>,
    pub documentation: Seq<char>,
    pub downloads: Option<u64>,
    pub homepage: Seq<char>,
    pub max_upload_size: Option<u64>,
    pub name: Seq<char>,
    pub readme: Seq<char>,
    pub repository: Seq<char>,
    pub updated_at: Seq<char>,
    pub keywords: Set<u64>,
    pub category_ids: Set<u64>,
    pub owners: Set<OwnerId>,
}

impl View for Crate {
    type V = CrateView;

    open spec fn view(&self) -> CrateView {
        CrateView {
            created_at: self.created_at@,
            description: self.description@,
            documentation: self.documentation@,
            downloads: self.downloads,
            homepage: self.homepage@,
            max_upload_size: self.max_upload_size,
            name: self.name@,
            readme: self.readme@,
            repository: self.repository@,
            updated_at: self.updated_at@,
            keywords: self.keywords@.to_set(),
            category_ids: self.category_ids@.to_set(),
            owners: self.owners@.to_set(),
        }
    }
}

impl Record for Crate {
    fn same_as(&self, other: &Self) -> (r: bool) {
        same_text(&self.created_at, &other.created_at) && same_text(&self.description, &other.description)
            && same_text(&self.documentation, &other.documentation) && self.downloads == other.downloads
            && same_text(&self.homepage, &other.homepage) && self.max_upload_size == other.max_upload_size
            && same_text(&self.name, &other.name) && same_text(&self.readme, &other.readme) && same_text(
            &self.repository,
            &other.repository,
        ) && same_text(&self.updated_at, &other.updated_at) && same_id_set(&self.keywords, &other.keywords)
            && same_id_set(&self.category_ids, &other.category_ids) && same_owner_set(&self.owners, &other.owners)
    }
}

impl View for Keyword {
    type V = Seq<char>;

    open spec fn view(&self) -> Seq<char> {
        self.keyword@
    }
}

impl Record for Keyword {
    fn same_as(&self, other: &Self) -> (r: bool) {
        same_text(&self.keyword, &other.keyword)
    }
}

pub struct CategoryView {
    pub category: Seq<char>,
    pub created_at: Seq<char>,
    pub description: Seq<char>,
    pub path: Seq<char>,
    pub slug: Seq<char>,
}

impl View for Category {
    type V = CategoryView;

    open spec fn view(&self) -> CategoryView {
        CategoryView {
            category: self.category@,
            created_at: self.created_at@,
            description: self.description@,
            path: self.path@,
            slug: self.slug@,
        }
    }
}

impl Record for Category {
    fn same_as(&self, other: &Self) -> (r: bool) {
        same_text(&self.category, &other.category) && same_text(&self.created_at, &other.created_at)
            && same_text(&self.description, &other.description) && same_text(&self.path, &other.path)
            && same_text(&self.slug, &other.slug)
    }
}

pub struct VersionView {
    pub crate_id: u64,
    pub checksum: Seq<char>,
    pub created_at: Seq<char>,
    pub updated_at: Seq<char>,
    pub crate_size: Option<u64>,
    pub downloads: u64,
    pub features: Seq<char>,
    pub license: Seq<char>,
    pub links: Seq<char>,
    pub version: Seq<char>,
    pub published_by: Option<u64>,
    pub yanked: bool,
}

impl View for Version {
    type V = VersionView;

    open spec fn view(&self) -> VersionView {
        VersionView {
            crate_id: self.crate_id,
            checksum: self.checksum@,
            created_at: self.created_at@,
            updated_at: self.updated_at@,
            crate_size: self.crate_size,
            downloads: self.downloads,
            features: self.features@,
            license: self.license@,
            links: self.links@,
            version: self.version@,
            published_by: self.published_by,
            yanked: self.yanked,
        }
    }
}

impl Record for Version {
    fn same_as(&self, other: &Self) -> (r: bool) {
        self.crate_id == other.crate_id && same_text(&self.checksum, &other.checksum) && same_text(
            &self.created_at,
            &other.created_at,
        ) && same_text(&self.updated_at, &other.updated_at) && self.crate_size == other.crate_size
            && self.downloads == other.downloads && same_text(&self.features, &other.features)
            && same_text(&self.license, &other.license) && same_text(&self.links, &other.links)
            && same_text(&self.version, &other.version) && self.published_by == other.published_by
            && self.yanked == other.yanked
    }
}

/// The store's view of crates by normalized name.
#[derive(Clone, Copy, Debug)]
pub struct CratesByNormalizedName;

impl CratesByNormalizedName {
    /// The view's version: a change rebuilds the index.
    pub fn version(&self) -> (r: u64)
        ensures
            r == 1,
    {
        1
    }

    /// Emits the crate under its normalized name, with its summary (no
    /// download count read as zero).
    pub fn map(&self, c: &Crate) -> (r: (String, CrateInfo))
        ensures
            r.0@ == normalized(c.name@),
            r.1.name@ == c.name@,
            r.1.description@ == c.description@,
            r.1.keywords@ == c.keywords@,
            r.1.downloads == match c.downloads {
                Some(d) => d,
                None => 0,
            },
    {
        let keywords = c.keywords.clone();
        assert(keywords@ =~= c.keywords@);
        (
            Crate::normalized_name(c.name.as_str()),
            CrateInfo {
                name: c.name.clone(),
                description: c.description.clone(),
                keywords,
                downloads: match c.downloads {
                    Some(d) => d,
                    None => 0,
                },
            },
        )
    }
}

/// The sum of a list of counts, saturating at the largest `u64`.
pub open spec fn count_sum(values: Seq<u64>) -> int
    decreases values.len(),
{
    if values.len() == 0 {
        0
    } else {
        let s = count_sum(values.drop_last()) + values.last();
        if s > u64::MAX {
            u64::MAX as int
        } else {
            s
        }
    }
}

/// Sums counts, saturating at the largest `u64`.
pub fn sum_counts(values: &Vec<u64>) -> (r: u64)
    ensures
        r == count_sum(values@),
{
    let mut total: u64 = 0;
    let mut i: usize = 0;
    while i < values.len()
        invariant
            i <= values@.len(),
            total == count_sum(values@.subrange(0, i as int)),
        decreases values@.len() - i,
    {
        assert(values@.subrange(0, i as int + 1).drop_last() =~= values@.subrange(0, i as int));
        total = total.saturating_add(values[i]);
        i = i + 1;
    }
    assert(values@.subrange(0, i as int) =~= values@);
    total
}

/// The store's view of crates by keyword id, reduced to a count.
#[derive(Clone, Copy, Debug)]
pub struct CratesByKeyword;

impl CratesByKeyword {
    /// Emits one count per keyword of the crate.
    pub fn map(&self, c: &Crate) -> (r: Vec<(u64, u64)>)
        ensures
            r@ == c.keywords@.map_values(|k: u64| (k, 1u64)),
    {
        let mut out: Vec<(u64, u64)> = Vec::new();
        let mut i: usize = 0;
        while i < c.keywords.len()
            invariant
                i <= c.keywords@.len(),
                out@ == c.keywords@.subrange(0, i as int).map_values(|k: u64| (k, 1u64)),
            decreases c.keywords@.len() - i,
        {
            out.push((c.keywords[i], 1));
            i = i + 1;
            assert(out@ =~= c.keywords@.subrange(0, i as int).map_values(|k: u64| (k, 1u64)));
        }
        assert(c.keywords@.subrange(0, i as int) =~= c.keywords@);
        out
    }

    /// The number of crates carrying a keyword.
    pub fn reduce(&self, values: &Vec<u64>) -> (r: u64)
        ensures
            r == count_sum(values@),
    {
        sum_counts(values)
    }
}

/// The store's view of keywords by their text, for prefix search.
#[derive(Clone, Copy, Debug)]
pub struct Keywords;

impl Keywords {
    /// Emits the keyword's text.
    pub fn map(&self, k: &Keyword) -> (r: String)
        ensures
            r@ == k.keyword@,
    {
        k.keyword.clone()
    }
}

/// What the by-crate view of versions emits.
#[derive(Debug)]
pub struct VersionSummary {
    pub version: String,
    pub yanked: bool,
}

/// The store's view of versions by crate.
#[derive(Clone, Copy, Debug)]
pub struct VersionsByCrate;

impl VersionsByCrate {
    /// Emits the version under its crate's id.
    pub fn map(&self, v: &Version) -> (r: (u64, VersionSummary))
        ensures
            r.0 == v.crate_id,
            r.1.version@ == v.version@,
            r.1.yanked == v.yanked,
    {
        (v.crate_id, VersionSummary { version: v.version.clone(), yanked: v.yanked })
    }
}

/// The store's view of downloads by day and crate, reduced to a sum.
#[derive(Clone, Copy, Debug)]
pub struct DownloadsByDate;

impl DownloadsByDate {
    /// The view's version: a change rebuilds the index.
    pub fn version(&self) -> (r: u64)
        ensures
            r == 1,
    {
        1
    }

    /// Emits a day's downloads of a version under its day and crate.
    pub fn map(&self, key: &VersionDownloadKey, value: &VersionDownloads) -> (r: (DateAndCrate, u64))
        ensures
            r.0 == (DateAndCrate { date: key.date, crate_id: value.crate_id }),
            r.1 == value.downloads,
    {
        (DateAndCrate { date: key.date, crate_id: value.crate_id }, value.downloads)
    }

    /// The downloads of a day and crate, summed over its versions.
    pub fn reduce(&self, values: &Vec<u64>) -> (r: u64)
        ensures
            r == count_sum(values@),
    {
        sum_counts(values)
    }
}

} // verus!
