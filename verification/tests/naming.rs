//! The filename grammar and the import planner: strict parsing, coarse
//! day-granularity skipping, and exactly-once incremental selection.

use vatsim_stats::datafeed::{Datafeed, General};
use vatsim_stats::importer::{
    parse_archive_name, parse_snapshot_name, plan_archives, plan_snapshots, ImportError,
};
use vatsim_stats::storage::FlightStorage;
use vatsim_stats::timefmt::{parse_date8, parse_timestamp14};

fn feed(ts: u64) -> Datafeed {
    Datafeed {
        general: General {
            update: ts.to_string(),
            update_timestamp: ts,
        },
        pilots: vec![],
    }
}

fn names(list: &[&str]) -> Vec<String> {
    list.iter().map(|n| n.to_string()).collect()
}

#[test]
fn timestamp_parsing_is_exact() {
    assert_eq!(parse_timestamp14("20230101120000"), Some(20230101120000));
    assert_eq!(parse_timestamp14("99991231235959"), Some(99991231235959));
}

#[test]
fn timestamp_parsing_is_a_strict_gate() {
    // Wrong length.
    assert_eq!(parse_timestamp14("2023010112000"), None);
    assert_eq!(parse_timestamp14("202301011200000"), None);
    assert_eq!(parse_timestamp14(""), None);
    // Non-digits.
    assert_eq!(parse_timestamp14("2023010112000x"), None);
    // No thirtieth of February, no twenty-fifth hour, no sixty-first minute.
    assert_eq!(parse_timestamp14("20230230120000"), None);
    assert_eq!(parse_timestamp14("20230101240000"), None);
    assert_eq!(parse_timestamp14("20230101126000"), None);
    assert_eq!(parse_timestamp14("20230101120060"), None);
    // Month and day start at one.
    assert_eq!(parse_timestamp14("20230001120000"), None);
    assert_eq!(parse_timestamp14("20231301120000"), None);
    assert_eq!(parse_timestamp14("20230100120000"), None);
}

#[test]
fn leap_years_follow_the_calendar() {
    assert_eq!(parse_date8("20240229"), Some(20240229));
    assert_eq!(parse_date8("20230229"), None);
    assert_eq!(parse_date8("20000229"), Some(20000229));
    assert_eq!(parse_date8("19000229"), None);
    assert_eq!(parse_date8("20230431"), None);
    assert_eq!(parse_date8("20231231"), Some(20231231));
}

#[test]
fn archive_names_drop_their_suffix() {
    assert_eq!(parse_archive_name("20230101.tar.xz"), Some(20230101));
    assert_eq!(parse_archive_name("20230101"), Some(20230101));
    assert_eq!(parse_archive_name("notadate.tar.xz"), None);
    assert_eq!(parse_archive_name("20230101.zip"), None);
}

#[test]
fn snapshot_names_drop_their_suffix() {
    assert_eq!(parse_snapshot_name("20230101120000.json"), Some(20230101120000));
    assert_eq!(parse_snapshot_name("20230101120000"), Some(20230101120000));
    assert_eq!(parse_snapshot_name("readme.json"), None);
}

#[test]
fn archive_planning_skips_whole_days_at_or_before_the_cutoff() {
    // Cutoff is midday on the second: the whole first and second days are
    // already covered at day granularity, the third is not.
    let cutoff = 20230102120000;
    let listing = names(&["20230101.tar.xz", "20230102.tar.xz", "20230103.tar.xz"]);
    let keep = plan_archives(&listing, cutoff).unwrap();
    assert_eq!(keep, names(&["20230103.tar.xz"]));
}

#[test]
fn snapshot_planning_keeps_only_newer_files() {
    let cutoff = 20230101120000;
    let listing = names(&[
        "20230101110000.json",
        "20230101120000.json",
        "20230101120001.json",
        "20230101130000.json",
    ]);
    let keep = plan_snapshots(&listing, cutoff).unwrap();
    assert_eq!(
        keep,
        names(&["20230101120001.json", "20230101130000.json"])
    );
}

#[test]
fn planning_aborts_at_the_first_malformed_name() {
    let listing = names(&["20230101120000.json", "junk.json", "20230101130000.json"]);
    let r = plan_snapshots(&listing, 0);
    assert_eq!(r, Err(ImportError::BadName { index: 1 }));

    let listing = names(&["20230101.tar.xz", "03-01-2023.tar.xz"]);
    let r = plan_archives(&listing, 0);
    assert_eq!(r, Err(ImportError::BadName { index: 1 }));
}

#[test]
fn reimport_of_an_unchanged_source_set_applies_nothing() {
    // First run: both snapshots qualify and are applied.
    let listing = names(&["20230101120000.json", "20230101130000.json"]);
    let mut s = FlightStorage::new();
    let keep = plan_snapshots(&listing, s.last_ts()).unwrap();
    assert_eq!(keep.len(), 2);
    s.append_all(&vec![feed(20230101120000), feed(20230101130000)])
        .unwrap();

    // Second run against the unchanged listing: the planner selects
    // nothing, so the ledger is left exactly as it was.
    let flights_before = s.flight_entries().clone();
    let ts_before = s.last_ts();
    let keep = plan_snapshots(&listing, s.last_ts()).unwrap();
    assert_eq!(keep, Vec::<String>::new());
    assert_eq!(s.last_ts(), ts_before);
    assert_eq!(s.flight_entries(), &flights_before);

    // The archives of those days are skipped at day granularity too.
    let archives = names(&["20230101.tar.xz"]);
    let keep = plan_archives(&archives, s.last_ts()).unwrap();
    assert_eq!(keep, Vec::<String>::new());
}
