use std::collections::HashMap;

use delve::calendar::{parse_iso_date, CalendarDate};
use delve::dump::{
    import_dump, load_crate_owners, reimport_cutoff, Categories, Change, Crate, CrateCategories,
    CrateKeywords, CrateOwners, ExportTables, ImportError, ImportPlan, Keywords, StoredRecords,
    VersionDownloads, Versions,
};
use delve::cache::{build_snapshot, NameEntry};
use delve::schema::{self, CratesByNormalizedName, OwnerId};

fn crate_row(id: u64, name: &str, downloads: u64) -> Crate {
    Crate {
        created_at: "2020-01-01".to_string(),
        description: format!("{name} description"),
        documentation: String::new(),
        downloads: Some(downloads),
        homepage: String::new(),
        id,
        max_upload_size: None,
        name: name.to_string(),
        readme: String::new(),
        repository: String::new(),
        updated_at: "2020-01-02".to_string(),
    }
}

fn version_row(id: u64, crate_id: u64, num: &str) -> Versions {
    Versions {
        checksum: "abc".to_string(),
        crate_id,
        crate_size: Some(10),
        created_at: "2020".to_string(),
        downloads: 3,
        features: "{}".to_string(),
        id,
        license: "MIT".to_string(),
        links: String::new(),
        num: num.to_string(),
        published_by: None,
        updated_at: "2020".to_string(),
        yanked: Some('f'),
    }
}

fn download_row(version_id: u64, date: &str, downloads: u64) -> VersionDownloads {
    VersionDownloads { date: date.to_string(), downloads, version_id }
}

fn fixture() -> ExportTables {
    ExportTables {
        crates: vec![crate_row(1, "serde", 1000), crate_row(2, "serde_json", 500), crate_row(3, "serde-derive", 10)],
        crate_keywords: vec![
            CrateKeywords { keyword_id: 10, crate_id: 1 },
            CrateKeywords { keyword_id: 11, crate_id: 1 },
            CrateKeywords { keyword_id: 10, crate_id: 1 },
        ],
        crate_categories: vec![CrateCategories { crate_id: 2, category_id: 5 }],
        crate_owners: vec![
            CrateOwners { crate_id: 1, created_at: String::new(), created_by: None, owner_id: 7, owner_kind: 0 },
            CrateOwners { crate_id: 1, created_at: String::new(), created_by: None, owner_id: 8, owner_kind: 1 },
        ],
        keywords: vec![
            Keywords { crates_cnt: 1, created_at: String::new(), id: 10, keyword: "serialization".to_string() },
            Keywords { crates_cnt: 1, created_at: String::new(), id: 11, keyword: "json".to_string() },
        ],
        categories: vec![Categories {
            category: "Encoding".to_string(),
            crates_cnt: 1,
            created_at: String::new(),
            description: String::new(),
            id: 5,
            path: "encoding".to_string(),
            slug: "encoding".to_string(),
        }],
        versions: vec![version_row(100, 1, "1.0.0"), version_row(200, 2, "1.0.1")],
        version_downloads: vec![download_row(100, "2024-01-05", 4), download_row(200, "2024-01-06", 6)],
    }
}

fn empty_store() -> StoredRecords {
    StoredRecords {
        crates: HashMap::new(),
        keywords: HashMap::new(),
        categories: HashMap::new(),
        versions: HashMap::new(),
        last_download_date: None,
    }
}

fn apply<R>(store: &mut HashMap<u64, R>, changes: Vec<Change<R>>) {
    for change in changes {
        match change {
            Change::Insert(id, r) | Change::Update(id, r) => {
                store.insert(id, r);
            }
        }
    }
}

fn apply_plan(store: &mut StoredRecords, plan: ImportPlan) {
    apply(&mut store.crates, plan.crates);
    apply(&mut store.keywords, plan.keywords);
    apply(&mut store.categories, plan.categories);
    apply(&mut store.versions, plan.versions);
    for (key, _) in &plan.downloads {
        if store.last_download_date.map_or(true, |d| d.packed() < key.date.packed()) {
            store.last_download_date = Some(key.date);
        }
    }
}

#[test]
fn first_import_inserts_everything() {
    let plan = import_dump("2024-01-07-020000".to_string(), &fixture(), &empty_store()).unwrap();
    assert_eq!(plan.crates.len(), 3);
    assert!(plan.crates.iter().all(|c| matches!(c, Change::Insert(..))));
    assert_eq!(plan.keywords.len(), 2);
    assert_eq!(plan.categories.len(), 1);
    assert_eq!(plan.versions.len(), 2);
    assert_eq!(plan.downloads.len(), 2);
    assert_eq!(plan.last_dump_imported, "2024-01-07-020000");
    match &plan.crates[0] {
        Change::Insert(1, c) => {
            assert_eq!(c.keywords, vec![10, 11]);
            assert_eq!(c.owners, vec![OwnerId::User(7), OwnerId::Team(8)]);
            assert!(c.category_ids.is_empty());
        }
        other => panic!("unexpected change {other:?}"),
    }
    match &plan.crates[1] {
        Change::Insert(2, c) => assert_eq!(c.category_ids, vec![5]),
        other => panic!("unexpected change {other:?}"),
    }
    let (key, value) = &plan.downloads[1];
    assert_eq!(key.version_id, 200);
    assert_eq!(value.crate_id, 2);
    assert_eq!(value.downloads, 6);
}

#[test]
fn second_import_of_same_export_changes_nothing() {
    let mut store = empty_store();
    let plan = import_dump("a".to_string(), &fixture(), &store).unwrap();
    apply_plan(&mut store, plan);
    let again = import_dump("a".to_string(), &fixture(), &store).unwrap();
    assert!(again.crates.is_empty());
    assert!(again.keywords.is_empty());
    assert!(again.categories.is_empty());
    assert!(again.versions.is_empty());
}

#[test]
fn changed_rows_become_updates() {
    let mut store = empty_store();
    let plan = import_dump("a".to_string(), &fixture(), &store).unwrap();
    apply_plan(&mut store, plan);
    let mut export = fixture();
    export.crates[1].downloads = Some(501);
    export.keywords.push(Keywords { crates_cnt: 0, created_at: String::new(), id: 12, keyword: "new".to_string() });
    let plan = import_dump("b".to_string(), &export, &store).unwrap();
    assert_eq!(plan.crates.len(), 1);
    assert!(matches!(&plan.crates[0], Change::Update(2, c) if c.downloads == Some(501)));
    assert_eq!(plan.keywords.len(), 1);
    assert!(matches!(&plan.keywords[0], Change::Insert(12, k) if k.keyword == "new"));
}

#[test]
fn downloads_before_the_window_are_skipped() {
    let mut store = empty_store();
    store.last_download_date = parse_iso_date("2024-01-10");
    let mut export = fixture();
    export.version_downloads = vec![
        download_row(100, "2024-01-02", 1),
        download_row(100, "2024-01-03", 2),
        download_row(200, "2024-01-09", 3),
        download_row(100, "2024-01-03", 5),
    ];
    let plan = import_dump("b".to_string(), &export, &store).unwrap();
    let kept: Vec<(u64, u16, u64)> =
        plan.downloads.iter().map(|(k, v)| (k.version_id, k.date.ordinal(), v.downloads)).collect();
    assert_eq!(kept, vec![(100, 3, 2), (200, 9, 3), (100, 3, 5)]);
}

#[test]
fn reimport_cutoff_is_seven_days_back() {
    let cutoff = reimport_cutoff(parse_iso_date("2024-01-10")).unwrap().unwrap();
    assert_eq!((cutoff.year(), cutoff.ordinal()), (2024, 3));
    assert_eq!(reimport_cutoff(None), Ok(None));
    assert_eq!(
        reimport_cutoff(Some(CalendarDate::from_year_ordinal(2023, 366))),
        Err(ImportError::InvalidDate)
    );
}

#[test]
fn unknown_version_stops_the_import() {
    let mut export = fixture();
    export.version_downloads.push(download_row(999, "2024-01-06", 1));
    let err = import_dump("a".to_string(), &export, &empty_store()).unwrap_err();
    assert_eq!(err, ImportError::UnknownVersion(999));
}

#[test]
fn bad_download_date_stops_the_import() {
    let mut export = fixture();
    export.version_downloads.push(download_row(100, "2024-02-30", 1));
    let err = import_dump("a".to_string(), &export, &empty_store()).unwrap_err();
    assert_eq!(err, ImportError::InvalidDate);
}

#[test]
fn unknown_owner_kind_stops_the_import() {
    let mut export = fixture();
    export.crate_owners.push(CrateOwners {
        crate_id: 2,
        created_at: String::new(),
        created_by: None,
        owner_id: 1,
        owner_kind: 2,
    });
    let err = import_dump("a".to_string(), &export, &empty_store()).unwrap_err();
    assert_eq!(err, ImportError::UnexpectedOwnerKind(2));
    assert!(load_crate_owners(&export.crate_owners).is_err());
}

#[test]
fn yanked_flag_reads_t() {
    let mut export = fixture();
    export.versions[0].yanked = Some('t');
    let plan = import_dump("a".to_string(), &export, &empty_store()).unwrap();
    let yanked: Vec<bool> = plan
        .versions
        .iter()
        .map(|c| match c {
            Change::Insert(_, v) | Change::Update(_, v) => v.yanked,
        })
        .collect();
    assert_eq!(yanked, vec![true, false]);
    let _: &schema::Version = match &plan.versions[0] {
        Change::Insert(_, v) => v,
        Change::Update(_, v) => v,
    };
}

fn snapshot_text(store: &StoredRecords) -> String {
    let mut entries: Vec<NameEntry> = store
        .crates
        .iter()
        .map(|(id, c)| {
            let (normalized_name, info) = CratesByNormalizedName.map(c);
            NameEntry { normalized_name, id: *id, info }
        })
        .collect();
    entries.sort_by(|a, b| a.normalized_name.cmp(&b.normalized_name));
    let snapshot = build_snapshot(&entries, &Vec::new(), CalendarDate::from_year_ordinal(2024, 1));
    let mut crates: Vec<String> = snapshot.crates.iter().map(|(id, c)| format!("{id}:{c:?}")).collect();
    crates.sort();
    format!("{:?} {:?}", snapshot.crates_by_name, crates)
}

#[test]
fn two_identical_imports_keep_the_snapshot() {
    let mut store = empty_store();
    let first = import_dump("a".to_string(), &fixture(), &store).unwrap();
    apply_plan(&mut store, first);
    let before = snapshot_text(&store);
    let second = import_dump("a".to_string(), &fixture(), &store).unwrap();
    let emitted = second.crates.len() + second.keywords.len() + second.categories.len() + second.versions.len();
    apply_plan(&mut store, second);
    assert_eq!(emitted, 0);
    assert_eq!(snapshot_text(&store), before);
    assert!(before.contains("serde_json"));
}

#[test]
fn unknown_version_before_the_window_is_still_fatal() {
    let mut store = empty_store();
    store.last_download_date = parse_iso_date("2024-01-10");
    let mut export = fixture();
    export.version_downloads = vec![download_row(999, "2023-06-01", 1), download_row(100, "2024-01-09", 2)];
    let err = import_dump("b".to_string(), &export, &store).unwrap_err();
    assert_eq!(err, ImportError::UnknownVersion(999));
}

#[test]
fn reordered_memberships_change_nothing() {
    let mut store = empty_store();
    let plan = import_dump("a".to_string(), &fixture(), &store).unwrap();
    apply_plan(&mut store, plan);
    let mut export = fixture();
    export.crate_keywords.reverse();
    export.crate_owners.reverse();
    let plan = import_dump("b".to_string(), &export, &store).unwrap();
    assert!(plan.crates.is_empty());
}

#[test]
fn owner_map_has_a_key_per_owned_crate() {
    let owners = load_crate_owners(&fixture().crate_owners).unwrap();
    let mut keys: Vec<u64> = owners.keys().copied().collect();
    keys.sort();
    assert_eq!(keys, vec![1]);
    assert_eq!(owners[&1], vec![OwnerId::User(7), OwnerId::Team(8)]);
}
