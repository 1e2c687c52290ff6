use delve::calendar::CalendarDate;
use delve::schema::{
    Crate, CratesByKeyword, CratesByNormalizedName, DateAndCrate, DownloadsByDate, Keyword, Keywords,
    OwnerId, Version, VersionDownloadKey, VersionDownloads, VersionsByCrate,
};

fn sample() -> Crate {
    Crate {
        created_at: String::new(),
        description: "fast".to_string(),
        documentation: String::new(),
        downloads: None,
        homepage: String::new(),
        max_upload_size: None,
        name: "Serde-Json".to_string(),
        readme: String::new(),
        repository: String::new(),
        updated_at: String::new(),
        keywords: vec![4, 9],
        category_ids: vec![],
        owners: vec![OwnerId::User(1)],
    }
}

#[test]
fn by_name_view_emits_normalized_name() {
    let (key, info) = CratesByNormalizedName.map(&sample());
    assert_eq!(key, "serde_json");
    assert_eq!(info.name, "Serde-Json");
    assert_eq!(info.downloads, 0);
    assert_eq!(info.keywords, vec![4, 9]);
    assert_eq!(CratesByNormalizedName.version(), 1);
}

#[test]
fn by_keyword_view_counts_crates() {
    assert_eq!(CratesByKeyword.map(&sample()), vec![(4, 1), (9, 1)]);
    assert_eq!(CratesByKeyword.reduce(&vec![1, 1, 1]), 3);
    assert_eq!(CratesByKeyword.reduce(&vec![u64::MAX, 2]), u64::MAX);
}

#[test]
fn keyword_and_version_views() {
    assert_eq!(Keywords.map(&Keyword { keyword: "json".to_string() }), "json");
    let v = Version {
        crate_id: 3,
        checksum: String::new(),
        created_at: String::new(),
        updated_at: String::new(),
        crate_size: None,
        downloads: 0,
        features: String::new(),
        license: String::new(),
        links: String::new(),
        version: "1.2.3".to_string(),
        published_by: None,
        yanked: true,
    };
    let (crate_id, summary) = VersionsByCrate.map(&v);
    assert_eq!(crate_id, 3);
    assert_eq!(summary.version, "1.2.3");
    assert!(summary.yanked);
}

#[test]
fn by_date_view_sums_downloads() {
    let date = CalendarDate::from_year_ordinal(2024, 5);
    let key = VersionDownloadKey { version_id: 7, date };
    let (k, v) = DownloadsByDate.map(&key, &VersionDownloads { crate_id: 2, downloads: 11 });
    assert_eq!(k, DateAndCrate { date, crate_id: 2 });
    assert_eq!(v, 11);
    assert_eq!(DownloadsByDate.reduce(&vec![11, 4]), 15);
    assert_eq!(DateAndCrate::range_for_after_date(date), DateAndCrate { date, crate_id: 0 });
}
