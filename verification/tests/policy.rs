//! Fetch, compaction, and query policy: trial budget, mirror rotation,
//! status-resource parsing, durable-path derivation, and the airport
//! window filter.

use vatsim_stats::server::flights_airport;
use vatsim_stats::storage::Flight;
use vatsim_stats::vatdl::{
    archive_name, compact_decision, fetch_action, fetch_step, mirror_for_trial, mirror_urls,
    snapshot_path, split_lines, status_mirrors, trim, validate_timestamp, CompactAction,
    CompactError, FetchAction, FetchProgress, TrialOutcome, FETCH_TIMEOUT_SECS, MAX_TRIALS,
    TRIAL_DELAY_SECS,
};

#[test]
fn empty_mirror_list_yields_no_source_and_zero_trials() {
    assert_eq!(fetch_action(0, 0), FetchAction::NoSource);
}

#[test]
fn single_mirror_is_retried_exactly_three_times() {
    // Three simulated failures: each of the first three decisions is one
    // more trial against the same mirror, the fourth gives up.
    let mirrors = vec!["https://one.example/feed".to_string()];
    let mut failures: usize = 0;
    let mut trials: usize = 0;
    loop {
        match fetch_action(mirrors.len(), failures) {
            FetchAction::Request { mirror } => {
                assert_eq!(mirror, 0);
                assert_eq!(mirror_for_trial(&mirrors, failures), &mirrors[0]);
                trials += 1;
                // The trial fails.
                match fetch_step(failures, &TrialOutcome::DownloadFailed) {
                    FetchProgress::Continue { failures: f } => failures = f,
                    FetchProgress::Concluded => unreachable!(),
                }
            }
            FetchAction::GiveUp => break,
            FetchAction::NoSource => unreachable!(),
        }
    }
    assert_eq!(trials, MAX_TRIALS);
    assert_eq!(trials, 3);
}

#[test]
fn mirrors_rotate_round_robin() {
    let mirrors = vec!["a".to_string(), "b".to_string()];
    assert_eq!(mirror_for_trial(&mirrors, 0).as_str(), "a");
    assert_eq!(mirror_for_trial(&mirrors, 1).as_str(), "b");
    assert_eq!(mirror_for_trial(&mirrors, 2).as_str(), "a");
    assert_eq!(fetch_action(2, 1), FetchAction::Request { mirror: 1 });
}

#[test]
fn durable_write_concludes_the_fetch() {
    // A saved payload stops the mirror rotation even before parsing; a
    // failed save counts like a failed download.
    assert_eq!(fetch_step(0, &TrialOutcome::Saved), FetchProgress::Concluded);
    assert_eq!(
        fetch_step(1, &TrialOutcome::SaveFailed),
        FetchProgress::Continue { failures: 2 }
    );
    assert_eq!(
        fetch_step(2, &TrialOutcome::DownloadFailed),
        FetchProgress::Continue { failures: 3 }
    );
}

#[test]
fn policy_constants_are_as_designed() {
    assert_eq!(TRIAL_DELAY_SECS, 5);
    assert_eq!(FETCH_TIMEOUT_SECS, 20);
    assert_eq!(MAX_TRIALS, 3);
}

#[test]
fn status_lines_yield_mirror_urls() {
    let lines: Vec<String> = vec![
        "url0=https://legacy.example/feed".to_string(),
        "json3=https://one.example/feed ".to_string(),
        "; comment".to_string(),
        "json3=\thttps://two.example/feed\r".to_string(),
        "json3x=https://not-a-mirror.example".to_string(),
    ];
    let urls = mirror_urls(&lines);
    assert_eq!(
        urls,
        vec![
            "https://one.example/feed".to_string(),
            "https://two.example/feed".to_string(),
        ]
    );
}

#[test]
fn texts_split_into_lines_like_the_status_resource() {
    assert_eq!(split_lines(""), Vec::<String>::new());
    assert_eq!(split_lines("a\nb"), vec!["a".to_string(), "b".to_string()]);
    assert_eq!(split_lines("a\r\nb\n"), vec!["a".to_string(), "b".to_string()]);
    assert_eq!(
        split_lines("a\n\nb"),
        vec!["a".to_string(), "".to_string(), "b".to_string()]
    );
    // A carriage return not followed by a line feed stays.
    assert_eq!(split_lines("a\r"), vec!["a\r".to_string()]);
}

#[test]
fn whole_status_resources_yield_their_mirrors() {
    let text = "; comment\r\njson3=https://one.example/feed\r\nurl0=x\njson3= https://two.example/feed";
    assert_eq!(
        status_mirrors(text),
        vec![
            "https://one.example/feed".to_string(),
            "https://two.example/feed".to_string(),
        ]
    );
}

#[test]
fn trimming_removes_blanks_from_both_ends() {
    assert_eq!(trim("  abc\t"), "abc");
    assert_eq!(trim("abc"), "abc");
    assert_eq!(trim(" \r\n "), "");
    assert_eq!(trim(""), "");
}

#[test]
fn timestamps_decompose_into_durable_paths() {
    assert_eq!(
        snapshot_path("20230101120000").as_deref(),
        Some("data/download/20230101/12/20230101120000.json")
    );
    assert_eq!(snapshot_path("2023010112000"), None);
    assert_eq!(snapshot_path("2023010112000x"), None);
    assert!(validate_timestamp("20231231235959"));
    assert!(!validate_timestamp("20231232235959"));
}

#[test]
fn compactor_bundles_only_fully_elapsed_days() {
    let today = 20230102;
    // A day strictly before today, no archive yet: compact it.
    assert_eq!(
        compact_decision("20230101", today, false),
        Ok(CompactAction::Compact)
    );
    // Re-run after the archive exists: refused, nothing touched.
    assert_eq!(
        compact_decision("20230101", today, true),
        Err(CompactError::ArchiveExists)
    );
    // The current day is never compacted mid-accumulation.
    assert_eq!(compact_decision("20230102", today, false), Ok(CompactAction::Skip));
    assert_eq!(compact_decision("20230103", today, false), Ok(CompactAction::Skip));
    // A malformed directory name aborts the run.
    assert_eq!(compact_decision("junk", today, false), Err(CompactError::BadName));
}

#[test]
fn archive_names_round_trip_through_the_importer() {
    let name = archive_name("20230101");
    assert_eq!(name.as_str(), "20230101.tar.xz");
    assert_eq!(
        vatsim_stats::importer::parse_archive_name(&name),
        Some(20230101)
    );
}

fn flight(
    callsign: &str,
    dep: &str,
    arr: &str,
    dep_time: Option<u64>,
    arr_time: Option<u64>,
) -> Flight {
    Flight {
        callsign: callsign.to_string(),
        departure: dep.to_string(),
        arrival: arr.to_string(),
        departure_time: dep_time,
        arrival_time: arr_time,
    }
}

#[test]
fn airport_query_filters_by_code_and_window() {
    let flights = vec![
        flight("AAA1", "EDDM", "EDDF", Some(100), Some(200)),
        flight("AAA2", "EDDM", "EDDF", Some(500), None),
        flight("AAA3", "EDDF", "EDDM", Some(150), Some(250)),
        flight("AAA4", "EDDM", "EDDF", None, None),
    ];
    let r = flights_airport(&flights, "EDDM", 50, 300);
    assert_eq!(r.departures.len(), 1);
    assert_eq!(r.departures[0].callsign, "AAA1");
    assert_eq!(r.arrivals.len(), 1);
    assert_eq!(r.arrivals[0].callsign, "AAA3");
    let r2 = flights_airport(&flights, "EDDF", 0, 1000);
    assert_eq!(r2.departures.len(), 1);
    assert_eq!(r2.departures[0].callsign, "AAA3");
    assert_eq!(r2.arrivals.len(), 1);
    assert_eq!(r2.arrivals[0].callsign, "AAA1");
}
