//! Ledger state-transition behaviour: threshold crossings, velocity-state
//! replacement, ordering, and persistence round-trips.

use vatsim_stats::datafeed::{Datafeed, Flightplan, General, Pilot};
use vatsim_stats::storage::{Flight, FlightStorage, StorageError};

fn pilot(callsign: &str, logon: i64, gs: i64, fp: Option<(&str, &str)>) -> Pilot {
    Pilot {
        cid: 1,
        callsign: callsign.to_string(),
        flight_plan: fp.map(|(d, a)| Flightplan {
            departure: d.to_string(),
            arrival: a.to_string(),
        }),
        logon_time: logon,
        groundspeed: gs,
    }
}

fn feed(ts: u64, pilots: Vec<Pilot>) -> Datafeed {
    Datafeed {
        general: General {
            update: ts.to_string(),
            update_timestamp: ts,
        },
        pilots,
    }
}

fn find<'a>(flights: &'a [Flight], callsign: &str) -> &'a Flight {
    flights
        .iter()
        .find(|f| f.callsign == callsign)
        .expect("flight not found")
}

#[test]
fn takeoff_and_landing_crossings() {
    // Groundspeeds 10, 70, 5 across three snapshots: the below-to-above
    // crossing stamps the departure at T2, the above-to-below crossing the
    // arrival at T3.
    let (t1, t2, t3) = (100, 200, 300);
    let mut s = FlightStorage::new();
    s.append(&feed(t1, vec![pilot("DLH123", 7, 10, Some(("EDDM", "EDDF")))]))
        .unwrap();
    s.append(&feed(t2, vec![pilot("DLH123", 7, 70, Some(("EDDM", "EDDF")))]))
        .unwrap();
    s.append(&feed(t3, vec![pilot("DLH123", 7, 5, Some(("EDDM", "EDDF")))]))
        .unwrap();
    let flights = s.flights();
    assert_eq!(flights.len(), 1);
    let f = find(&flights, "DLH123");
    assert_eq!(f.departure, "EDDM");
    assert_eq!(f.arrival, "EDDF");
    assert_eq!(f.departure_time, Some(t2));
    assert_eq!(f.arrival_time, Some(t3));
    assert_eq!(s.last_ts(), t3);
}

#[test]
fn absence_resets_velocity_state() {
    // Present at T1 (gs 10), absent at T2, present at T3 (gs 70): the
    // absence clears the tracked velocity, so the T1-to-T3 rise is seen as
    // "no prior state" and no departure is inferred.
    let (t1, t2, t3) = (100, 200, 300);
    let mut s = FlightStorage::new();
    s.append(&feed(t1, vec![pilot("BAW42", 9, 10, Some(("EGLL", "EGCC")))]))
        .unwrap();
    s.append(&feed(t2, vec![])).unwrap();
    s.append(&feed(t3, vec![pilot("BAW42", 9, 70, Some(("EGLL", "EGCC")))]))
        .unwrap();
    let flights = s.flights();
    let f = find(&flights, "BAW42");
    assert_eq!(f.departure_time, None);
    assert_eq!(f.arrival_time, None);
}

#[test]
fn out_of_order_append_fails_without_mutation() {
    let mut s = FlightStorage::new();
    s.append(&feed(1000, vec![pilot("UAL1", 3, 10, Some(("KSFO", "KLAX")))]))
        .unwrap();
    let flights_before = s.flight_entries().clone();
    let velocities_before = s.velocity_entries().clone();
    let ts_before = s.last_ts();

    // At the cutoff.
    let r = s.append(&feed(1000, vec![pilot("UAL2", 4, 80, Some(("KLAX", "KSFO")))]));
    assert_eq!(r, Err(StorageError::OutOfOrder));
    // Before the cutoff.
    let r = s.append(&feed(999, vec![pilot("UAL3", 5, 80, Some(("KJFK", "KBOS")))]));
    assert_eq!(r, Err(StorageError::OutOfOrder));

    assert_eq!(s.flight_entries(), &flights_before);
    assert_eq!(s.velocity_entries(), &velocities_before);
    assert_eq!(s.last_ts(), ts_before);
}

#[test]
fn batch_append_matches_individual_appends() {
    let feeds = vec![
        feed(10, vec![pilot("AFR7", 2, 30, Some(("LFPG", "LFBO")))]),
        feed(20, vec![pilot("AFR7", 2, 90, Some(("LFPG", "LFBO")))]),
        feed(30, vec![pilot("AFR7", 2, 20, Some(("LFPG", "LFBO")))]),
    ];
    let mut one_by_one = FlightStorage::new();
    for f in &feeds {
        one_by_one.append(f).unwrap();
    }
    let mut batched = FlightStorage::new();
    batched.append_all(&feeds).unwrap();

    assert_eq!(one_by_one.last_ts(), batched.last_ts());
    assert_eq!(one_by_one.flight_entries(), batched.flight_entries());
    assert_eq!(one_by_one.velocity_entries(), batched.velocity_entries());
}

#[test]
fn batch_append_stops_at_first_out_of_order() {
    let feeds = vec![
        feed(10, vec![pilot("SAS1", 1, 10, Some(("ESSA", "EKCH")))]),
        feed(20, vec![pilot("SAS1", 1, 70, Some(("ESSA", "EKCH")))]),
        feed(20, vec![pilot("SAS1", 1, 80, Some(("ESSA", "EKCH")))]),
        feed(40, vec![pilot("SAS1", 1, 90, Some(("ESSA", "EKCH")))]),
    ];
    let mut s = FlightStorage::new();
    let r = s.append_all(&feeds);
    assert_eq!(r, Err(StorageError::OutOfOrder));
    // The first two snapshots stay applied.
    assert_eq!(s.last_ts(), 20);
    let flights = s.flights();
    assert_eq!(find(&flights, "SAS1").departure_time, Some(20));
}

#[test]
fn first_flight_plan_wins() {
    let mut s = FlightStorage::new();
    s.append(&feed(10, vec![pilot("RYR9", 6, 0, Some(("EIDW", "EGSS")))]))
        .unwrap();
    s.append(&feed(20, vec![pilot("RYR9", 6, 0, Some(("LEMD", "LEBL")))]))
        .unwrap();
    let flights = s.flights();
    let f = find(&flights, "RYR9");
    assert_eq!(f.departure, "EIDW");
    assert_eq!(f.arrival, "EGSS");
}

#[test]
fn same_callsign_new_session_is_a_new_flight() {
    let mut s = FlightStorage::new();
    s.append(&feed(10, vec![pilot("DAL5", 100, 10, Some(("KATL", "KMIA")))]))
        .unwrap();
    // Same callsign, later session-start time: a distinct identity.
    s.append(&feed(20, vec![pilot("DAL5", 200, 70, Some(("KMIA", "KATL")))]))
        .unwrap();
    let flights = s.flights();
    assert_eq!(flights.len(), 2);
    // The reconnect had no tracked velocity, so no crossing was inferred.
    for f in &flights {
        assert_eq!(f.departure_time, None);
    }
}

#[test]
fn pilots_without_flight_plan_are_ignored() {
    let mut s = FlightStorage::new();
    s.append(&feed(10, vec![pilot("N123AB", 4, 10, None)])).unwrap();
    s.append(&feed(20, vec![pilot("N123AB", 4, 70, None)])).unwrap();
    assert_eq!(s.flights().len(), 0);
    assert_eq!(s.velocity_entries().len(), 0);
}

#[test]
fn velocity_state_replaced_wholesale() {
    let mut s = FlightStorage::new();
    s.append(&feed(10, vec![pilot("KLM2", 1, 50, Some(("EHAM", "EBBR")))]))
        .unwrap();
    s.append(&feed(20, vec![pilot("SWR3", 2, 40, Some(("LSZH", "LSGG")))]))
        .unwrap();
    let velocities = s.velocity_entries();
    assert_eq!(velocities.len(), 1);
    assert_eq!(velocities[0].0.callsign, "SWR3");
    assert_eq!(velocities[0].1, 40);
}

#[test]
fn repeated_crossings_keep_the_most_recent_event() {
    let mut s = FlightStorage::new();
    for (ts, gs) in [(10, 10), (20, 70), (30, 5), (40, 80)] {
        s.append(&feed(ts, vec![pilot("EZY8", 5, gs, Some(("EGGD", "EGPH")))]))
            .unwrap();
    }
    let flights = s.flights();
    let f = find(&flights, "EZY8");
    assert_eq!(f.departure_time, Some(40));
    assert_eq!(f.arrival_time, Some(30));
}

#[test]
fn persistence_parts_round_trip() {
    let mut s = FlightStorage::new();
    s.append(&feed(10, vec![pilot("THY4", 8, 70, Some(("LTFM", "EDDB")))]))
        .unwrap();
    let restored = FlightStorage::from_parts(
        s.last_ts(),
        s.flight_entries().clone(),
        s.velocity_entries().clone(),
    )
    .unwrap();
    assert_eq!(restored.last_ts(), s.last_ts());
    assert_eq!(restored.flight_entries(), s.flight_entries());
    assert_eq!(restored.velocity_entries(), s.velocity_entries());
}

#[test]
fn restoring_duplicate_identities_is_refused() {
    let mut s = FlightStorage::new();
    s.append(&feed(10, vec![pilot("VIR6", 3, 10, Some(("EGKK", "KMCO")))]))
        .unwrap();
    let mut entries = s.flight_entries().clone();
    let dup = entries[0].clone();
    entries.push(dup);
    let r = FlightStorage::from_parts(s.last_ts(), entries, s.velocity_entries().clone());
    assert!(matches!(r, Err(StorageError::DuplicateKey)));
}

#[test]
fn error_messages_name_the_fault() {
    assert!(StorageError::OutOfOrder.message().contains("order"));
    assert!(StorageError::DuplicateKey.message().contains("identity"));
}
