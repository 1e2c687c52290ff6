use delve::cache::{build_snapshot, CachedCrate, DailyDownloads, NameEntry, Snapshot};
use delve::calendar::CalendarDate;
use delve::ranking::{confidence, insert_ranked, popularity, RESULT_LIMIT};
use delve::schema::{Crate, CrateInfo};
use delve::score::{ScoreWeights, SCALE};
use delve::search::{query, query_words, KeywordHit};

fn entry(id: u64, name: &str, downloads: u64, keywords: Vec<u64>) -> NameEntry {
    NameEntry {
        normalized_name: Crate::normalized_name(name),
        id,
        info: CrateInfo {
            name: name.to_string(),
            downloads,
            description: format!("{name} crate"),
            keywords,
        },
    }
}

fn fixture() -> Snapshot {
    let entries = vec![
        entry(1, "serde", 1000, vec![]),
        entry(2, "serde_json", 500, vec![7]),
        entry(3, "serde-derive", 10, vec![]),
        entry(4, "tokio", 5000, vec![]),
    ];
    build_snapshot(&entries, &Vec::new(), CalendarDate::from_year_ordinal(2024, 1))
}

fn no_hits(words: &[String]) -> Vec<Vec<KeywordHit>> {
    words.iter().map(|_| Vec::new()).collect()
}

#[test]
fn end_to_end_serde_query() {
    let snapshot = fixture();
    let words = query_words("serde");
    let results = query(&words, &snapshot, &no_hits(&words), &Vec::new(), &ScoreWeights::name_and_keyword());
    let ids: Vec<u64> = results.iter().map(|r| r.id).collect();
    assert_eq!(ids, vec![1, 2, 3]);
    assert_eq!(results[0].confidence, SCALE);
    assert_eq!(results[0].result.name, "serde");
    assert_eq!(results[0].result.downloads, 1000);
}

#[test]
fn partial_word_match_is_excluded() {
    let snapshot = fixture();
    let words = query_words("serde xyzzy");
    let results = query(&words, &snapshot, &no_hits(&words), &Vec::new(), &ScoreWeights::name_and_keyword());
    assert!(results.is_empty());
}

#[test]
fn full_text_hit_survives_filter() {
    let snapshot = fixture();
    let words = query_words("serde xyzzy");
    let results = query(&words, &snapshot, &no_hits(&words), &vec![(3, 5)], &ScoreWeights::name_and_keyword());
    let ids: Vec<u64> = results.iter().map(|r| r.id).collect();
    assert_eq!(ids, vec![3]);
    assert_eq!(results[0].confidence, SCALE);
}

#[test]
fn keyword_hits_count_as_matches() {
    let snapshot = fixture();
    let words = query_words("serde fast");
    let hits = vec![
        Vec::new(),
        vec![KeywordHit { keyword: "fast".to_string(), crates: vec![1] }],
    ];
    let results = query(&words, &snapshot, &hits, &Vec::new(), &ScoreWeights::name_and_keyword());
    let ids: Vec<u64> = results.iter().map(|r| r.id).collect();
    assert_eq!(ids, vec![1]);
}

#[test]
fn missing_cached_crate_is_skipped() {
    let snapshot = fixture();
    let words = query_words("zzz");
    let results = query(&words, &snapshot, &no_hits(&words), &vec![(99, 1)], &ScoreWeights::name_and_keyword());
    assert!(results.is_empty());
}

#[test]
fn bounded_list_stays_sorted() {
    let mut results = Vec::new();
    for i in 0..2500u64 {
        let score = ((i * 7919) % 1013) as u128;
        insert_ranked(&mut results, score, i);
        assert!(results.len() <= RESULT_LIMIT);
    }
    assert_eq!(results.len(), RESULT_LIMIT);
    for pair in results.windows(2) {
        assert!(pair[0].0 >= pair[1].0);
    }
    assert_eq!(results[0].0, 1012);
}

#[test]
fn equal_scores_keep_arrival_order() {
    let mut results = Vec::new();
    insert_ranked(&mut results, 5, 1);
    insert_ranked(&mut results, 9, 2);
    insert_ranked(&mut results, 5, 3);
    assert_eq!(results, vec![(9, 2), (5, 1), (5, 3)]);
}

#[test]
fn confidence_and_popularity_values() {
    assert_eq!(confidence(50, 200), 250_000);
    assert_eq!(confidence(200, 200), SCALE);
    assert_eq!(confidence(0, 0), SCALE);
    // recent share 0.5, all-time share 0.25: (0.5 * 4 + 0.25) / 5 = 0.45
    assert_eq!(popularity(5, 10, 25, 100), 450_000);
    assert_eq!(popularity(0, 0, 0, 0), 0);
}

#[test]
fn snapshot_sums_recent_downloads() {
    let entries = vec![entry(1, "serde", 1000, vec![3])];
    let start = CalendarDate::from_year_ordinal(2024, 10);
    let rows = vec![
        DailyDownloads { date: CalendarDate::from_year_ordinal(2024, 9), crate_id: 1, downloads: 100 },
        DailyDownloads { date: CalendarDate::from_year_ordinal(2024, 10), crate_id: 1, downloads: 5 },
        DailyDownloads { date: CalendarDate::from_year_ordinal(2024, 20), crate_id: 1, downloads: 7 },
        DailyDownloads { date: CalendarDate::from_year_ordinal(2024, 20), crate_id: 2, downloads: 9 },
    ];
    let snapshot = build_snapshot(&entries, &rows, start);
    let c: &CachedCrate = snapshot.crates.get(&1).unwrap();
    assert_eq!(c.recent_downloads, 12);
    assert_eq!(c.keywords, vec![3]);
    assert_eq!(snapshot.crates_by_name, vec![("serde".to_string(), 1)]);
    assert!(snapshot.crates.get(&2).is_none());
}

#[test]
fn recent_window_starts_thirty_days_back() {
    let start = delve::cache::recent_downloads_start(CalendarDate::from_year_ordinal(2024, 10));
    assert_eq!((start.year(), start.ordinal()), (2023, 345));
}

#[test]
fn bounded_list_keeps_the_best_scores() {
    let mut results = Vec::new();
    let mut all = Vec::new();
    for i in 0..3000u64 {
        let score = ((i * 104729) % 7919) as u128;
        all.push(score);
        insert_ranked(&mut results, score, i);
    }
    all.sort_by(|a, b| b.cmp(a));
    let kept: Vec<u128> = results.iter().map(|r| r.0).collect();
    assert_eq!(kept, all[..RESULT_LIMIT].to_vec());
}
