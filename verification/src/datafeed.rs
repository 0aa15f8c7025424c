//! Data model of one network snapshot: a timestamped capture of all
//! connected pilots, each with an optional flight plan and an instantaneous
//! groundspeed.

use vstd::prelude::*;

verus! {

/// Origin and destination airport codes of a filed flight plan.
pub struct Flightplan {
    pub departure: String,
    pub arrival: String,
}

/// Mathematical value of a [`Flightplan`].
#[verifier::ext_equal]
pub struct FlightplanView {
    pub departure: Seq<char>,
    pub arrival: Seq<char>,
}

impl View for Flightplan {
    type V = FlightplanView;

    open spec fn view(&self) -> FlightplanView {
        FlightplanView { departure: self.departure@, arrival: self.arrival@ }
    }
}

/// One connected pilot as reported by a snapshot.
///
/// `logon_time` is the session-start time in seconds since the epoch; it
/// distinguishes repeated uses of the same callsign across sessions.
pub struct Pilot {
    pub cid: u64,
    pub callsign: String,
    pub flight_plan: Option<Flightplan>,
    pub logon_time: i64,
    pub groundspeed: i64,
}

/// Mathematical value of a [`Pilot`].
#[verifier::ext_equal]
pub struct PilotView {
    pub cid: u64,
    pub callsign: Seq<char>,
    pub flight_plan: Option<FlightplanView>,
    pub logon_time: i64,
    pub groundspeed: i64,
}

impl View for Pilot {
    type V = PilotView;

    open spec fn view(&self) -> PilotView {
        PilotView {
            cid: self.cid,
            callsign: self.callsign@,
            flight_plan: match self.flight_plan {
                Some(fp) => Some(fp@),
                None => None,
            },
            logon_time: self.logon_time,
            groundspeed: self.groundspeed,
        }
    }
}

/// Snapshot header: the update timestamp, both as the compact fourteen-digit
/// string from the wire document and as its numeric value (`YYYYMMDDHHMMSS`
/// read as one integer, so numeric order is chronological order).
pub struct General {
    pub update: String,
    pub update_timestamp: u64,
}

/// Mathematical value of a [`General`].
#[verifier::ext_equal]
pub struct GeneralView {
    pub update: Seq<char>,
    pub update_timestamp: u64,
}

impl View for General {
    type V = GeneralView;

    open spec fn view(&self) -> GeneralView {
        GeneralView { update: self.update@, update_timestamp: self.update_timestamp }
    }
}

/// One network snapshot: header plus the list of connected pilots.
pub struct Datafeed {
    pub general: General,
    pub pilots: Vec<Pilot>,
}

/// Mathematical value of a [`Datafeed`].
#[verifier::ext_equal]
pub struct DatafeedView {
    pub general: GeneralView,
    pub pilots: Seq<PilotView>,
}

impl View for Datafeed {
    type V = DatafeedView;

    open spec fn view(&self) -> DatafeedView {
        DatafeedView {
            general: self.general@,
            pilots: self.pilots@.map_values(|p: Pilot| p@),
        }
    }
}

} // verus!
