//! The query surface's one computation: filter the ledger's flights by
//! airport and time window, split into departures and arrivals.

use vstd::prelude::*;

use crate::storage::{Flight, FlightView};

verus! {

/// The mathematical values of a list of flights.
pub open spec fn flight_views(s: Seq<Flight>) -> Seq<FlightView> {
    s.map_values(|f: Flight| f@)
}

/// The flight departed from `icao` with a departure time inside the
/// inclusive window.
pub open spec fn departure_match(f: FlightView, icao: Seq<char>, since: u64, until: u64) -> bool {
    f.departure == icao && (f.departure_time matches Some(t) && since <= t && t <= until)
}

/// The flight arrived at `icao` with an arrival time inside the inclusive
/// window.
pub open spec fn arrival_match(f: FlightView, icao: Seq<char>, since: u64, until: u64) -> bool {
    f.arrival == icao && (f.arrival_time matches Some(t) && since <= t && t <= until)
}

/// The departures from `icao` inside the window, in input order.
pub open spec fn departures_in(
    flights: Seq<FlightView>,
    icao: Seq<char>,
    since: u64,
    until: u64,
) -> Seq<FlightView>
    decreases flights.len(),
{
    if flights.len() == 0 {
        Seq::empty()
    } else {
        let rest = departures_in(flights.drop_last(), icao, since, until);
        if departure_match(flights.last(), icao, since, until) {
            rest.push(flights.last())
        } else {
            rest
        }
    }
}

/// The arrivals at `icao` inside the window, in input order.
pub open spec fn arrivals_in(
    flights: Seq<FlightView>,
    icao: Seq<char>,
    since: u64,
    until: u64,
) -> Seq<FlightView>
    decreases flights.len(),
{
    if flights.len() == 0 {
        Seq::empty()
    } else {
        let rest = arrivals_in(flights.drop_last(), icao, since, until);
        if arrival_match(flights.last(), icao, since, until) {
            rest.push(flights.last())
        } else {
            rest
        }
    }
}

/// The answer to one airport query.
pub struct AirportFlights {
    pub departures: Vec<Flight>,
    pub arrivals: Vec<Flight>,
}

/// Whether two strings hold the same characters.
fn str_equal(a: &str, b: &str) -> (r: bool)
    ensures
        r == (a@ == b@),
{
    let n = a.unicode_len();
    if n != b.unicode_len() {
        return false;
    }
    let mut i: usize = 0;
    while i < n
        invariant
            n == a@.len(),
            n == b@.len(),
            i <= n,
            forall|j: int| 0 <= j < i ==> a@[j] == b@[j],
        decreases n - i,
    {
        if a.get_char(i) != b.get_char(i) {
            return false;
        }
        i += 1;
    }
    proof {
        assert(a@ =~= b@);
    }
    true
}

/// A copy of a flight view with the same mathematical value.
fn flight_dup(f: &Flight) -> (r: Flight)
    ensures
        r@ == f@,
{
    let r = Flight {
        callsign: f.callsign.clone(),
        departure: f.departure.clone(),
        arrival: f.arrival.clone(),
        departure_time: f.departure_time,
        arrival_time: f.arrival_time,
    };
    proof {
        assert(r@ =~= f@);
    }
    r
}

/// Filter a list of flights down to the departures from and arrivals at
/// one airport inside an inclusive time window, keeping input order.
pub fn flights_airport(flights: &Vec<Flight>, icao: &str, since: u64, until: u64) -> (r:
    AirportFlights)
    ensures
        flight_views(r.departures@) == departures_in(flight_views(flights@), icao@, since, until),
        flight_views(r.arrivals@) == arrivals_in(flight_views(flights@), icao@, since, until),
{
    let ghost vs = flight_views(flights@);
    let n = flights.len();
    let mut departures: Vec<Flight> = Vec::new();
    let mut arrivals: Vec<Flight> = Vec::new();
    proof {
        assert(vs.take(0) =~= Seq::<FlightView>::empty());
        assert(flight_views(departures@) =~= Seq::<FlightView>::empty());
        assert(flight_views(arrivals@) =~= Seq::<FlightView>::empty());
    }
    let mut i: usize = 0;
    while i < n
        invariant
            n == flights@.len(),
            i <= n,
            vs == flight_views(flights@),
            flight_views(departures@) == departures_in(vs.take(i as int), icao@, since, until),
            flight_views(arrivals@) == arrivals_in(vs.take(i as int), icao@, since, until),
        decreases n - i,
    {
        proof {
            assert(vs.take(i + 1).drop_last() =~= vs.take(i as int));
            assert(vs.take(i + 1).last() == vs[i as int]);
            assert(vs[i as int] == flights@[i as int]@);
        }
        let f = &flights[i];
        let dep_time_ok = match f.departure_time {
            Some(t) => since <= t && t <= until,
            None => false,
        };
        if dep_time_ok && str_equal(f.departure.as_str(), icao) {
            let ghost d0 = departures@;
            departures.push(flight_dup(f));
            proof {
                assert(departures@.drop_last() =~= d0);
                assert(flight_views(departures@) =~= flight_views(d0).push(vs[i as int]));
            }
        } else {
            proof {
                assert(!departure_match(vs[i as int], icao@, since, until));
            }
        }
        let arr_time_ok = match f.arrival_time {
            Some(t) => since <= t && t <= until,
            None => false,
        };
        if arr_time_ok && str_equal(f.arrival.as_str(), icao) {
            let ghost a0 = arrivals@;
            arrivals.push(flight_dup(f));
            proof {
                assert(arrivals@.drop_last() =~= a0);
                assert(flight_views(arrivals@) =~= flight_views(a0).push(vs[i as int]));
            }
        } else {
            proof {
                assert(!arrival_match(vs[i as int], icao@, since, until));
            }
        }
        i += 1;
    }
    proof {
        assert(vs.take(n as int) =~= vs);
    }
    AirportFlights { departures, arrivals }
}

} // verus!
