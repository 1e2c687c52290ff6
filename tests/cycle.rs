use delve::calendar::CalendarDate;
use delve::committer::{CommitAction, Committer, BATCH_SIZE};
use delve::resolver::{
    choose_dump, latest_dump, parse_folder_date, record_download, record_import, remote_is_newer,
    stale_dumps, stamp_moment, text_less, DumpChoice, FolderStamp,
};
use delve::schema::ImportState;

#[test]
fn batches_commit_and_compact() {
    let mut c = Committer::new();
    let mut commits = 0;
    let mut compactions = 0;
    for _ in 0..(21 * BATCH_SIZE + 5) {
        match c.on_operation() {
            CommitAction::Collect => {}
            CommitAction::Commit { compact } => {
                commits += 1;
                if compact {
                    compactions += 1;
                    assert_eq!(commits, 21);
                }
            }
            CommitAction::Finish { .. } => unreachable!(),
        }
    }
    assert_eq!((commits, compactions), (21, 1));
    assert_eq!(c.on_stream_end(), CommitAction::Finish { commit: true, compact: true });
    assert_eq!(c.applied, 21 * BATCH_SIZE as u64 + 5);
}

#[test]
fn empty_cycle_neither_commits_nor_compacts() {
    let mut c = Committer::new();
    assert_eq!(c.on_stream_end(), CommitAction::Finish { commit: false, compact: false });
}

#[test]
fn parses_folder_names() {
    let s = parse_folder_date("2024-01-10-083015").unwrap();
    assert_eq!((s.date.year(), s.date.ordinal(), s.second), (2024, 10, 8 * 3600 + 30 * 60 + 15));
    assert!(parse_folder_date("2024-01-10-250000").is_none());
    assert!(parse_folder_date("2024-01-10-08301").is_none());
    assert!(parse_folder_date("db-dump.tar.gz").is_none());
    assert!(parse_folder_date("target").is_none());
}

fn stamp(year: u32, ordinal: u16, second: u32) -> FolderStamp {
    FolderStamp { date: CalendarDate::from_year_ordinal(year, ordinal), second }
}

#[test]
fn plans_local_extractions() {
    let old = ("2024-01-01-000000".to_string(), stamp(2024, 1, 0));
    let mid = ("2024-01-05-000000".to_string(), stamp(2024, 5, 0));
    let new = ("2024-01-09-120000".to_string(), stamp(2024, 9, 43200));
    let entries = vec![mid.clone(), new.clone(), old.clone()];
    let now = stamp_moment(&stamp(2024, 10, 0));
    assert_eq!(latest_dump(&entries, now, false), Some(new.0.clone()));
    assert_eq!(stale_dumps(&entries, now, &Some(new.0.clone())), vec![mid.0.clone(), old.0.clone()]);
    let later = stamp_moment(&stamp(2024, 20, 0));
    assert_eq!(latest_dump(&entries, later, false), None);
    assert_eq!(latest_dump(&entries, later, true), Some(new.0.clone()));
    assert_eq!(stale_dumps(&entries, later, &Some(new.0.clone())), vec![mid.0, old.0]);
}

#[test]
fn decides_whether_to_import() {
    let mut state = ImportState::default();
    assert!(remote_is_newer(&state, "Mon, 01 Jan 2024"));
    assert!(matches!(choose_dump(&state, None), DumpChoice::Download));
    assert!(matches!(choose_dump(&state, Some("2024-01-09-120000".to_string())), DumpChoice::Import(n) if n == "2024-01-09-120000"));
    record_download(&mut state, "b".to_string());
    assert!(!remote_is_newer(&state, "a"));
    assert!(remote_is_newer(&state, "c"));
    record_import(&mut state, "2024-01-09-120000".to_string());
    assert!(matches!(choose_dump(&state, Some("2024-01-09-120000".to_string())), DumpChoice::NothingNew));
    assert!(matches!(choose_dump(&state, Some("2024-01-10-120000".to_string())), DumpChoice::Import(_)));
    assert_eq!(state.downloaded_last_modified.as_deref(), Some("b"));
}

#[test]
fn text_order_is_lexicographic() {
    assert!(text_less("2024-01-09", "2024-01-10"));
    assert!(!text_less("b", "a"));
    assert!(text_less("ab", "abc"));
    assert!(!text_less("abc", "abc"));
}

#[test]
fn folder_names_must_be_fixed_width_digits() {
    assert!(parse_folder_date("2024-01-10-+1+2+3").is_none());
    assert!(parse_folder_date("+2024-01-10-083015").is_none());
    assert!(parse_folder_date("2024-1-010-083015").is_none());
    assert!(parse_folder_date("2024-01-10-1é234").is_none());
    assert!(parse_folder_date("2024-01-10-083015x").is_none());
    assert!(parse_folder_date("2024-01-10-083015").is_some());
}
