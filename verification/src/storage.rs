//! The flight ledger: per-flight records keyed by flight identity, the
//! last-processed timestamp, and the transient velocity state of the most
//! recent snapshot.  `append` applies the groundspeed threshold-crossing
//! rule; snapshots must arrive in strictly increasing timestamp order.

use vstd::prelude::*;

use crate::datafeed::{Datafeed, DatafeedView, FlightplanView, PilotView};

verus! {

/// Groundspeed threshold (knots) whose crossing is read as a takeoff
/// (below to at-or-above) or a landing (at-or-above to below).
pub const GROUNDSPEED_THRESHOLD: i64 = 60;

/// A flight identity: callsign plus session-start time, the unique key of a
/// flight record.  The same callsign reconnecting starts a new identity.
#[derive(Debug, Clone, PartialEq, Eq)]
pub struct FlightId {
    pub callsign: String,
    pub session_start: i64,
}

/// Mathematical value of a [`FlightId`].
#[verifier::ext_equal]
pub struct FlightIdView {
    pub callsign: Seq<char>,
    pub session_start: i64,
}

impl View for FlightId {
    type V = FlightIdView;

    open spec fn view(&self) -> FlightIdView {
        FlightIdView { callsign: self.callsign@, session_start: self.session_start }
    }
}

impl FlightId {
    /// A copy with the same mathematical value.
    pub fn duplicate(&self) -> (r: FlightId)
        ensures
            r@ == self@,
    {
        FlightId { callsign: self.callsign.clone(), session_start: self.session_start }
    }
}

/// The record the ledger keeps for one flight identity.  Origin and
/// destination are fixed at the first observation of the identity; the
/// event times are overwritten on every qualifying threshold crossing.
#[derive(Debug, Clone, PartialEq, Eq)]
pub struct FlightData {
    pub departure: String,
    pub arrival: String,
    pub departure_time: Option<u64>,
    pub arrival_time: Option<u64>,
}

/// Mathematical value of a [`FlightData`].
#[verifier::ext_equal]
pub struct FlightDataView {
    pub departure: Seq<char>,
    pub arrival: Seq<char>,
    pub departure_time: Option<u64>,
    pub arrival_time: Option<u64>,
}

impl View for FlightData {
    type V = FlightDataView;

    open spec fn view(&self) -> FlightDataView {
        FlightDataView {
            departure: self.departure@,
            arrival: self.arrival@,
            departure_time: self.departure_time,
            arrival_time: self.arrival_time,
        }
    }
}

/// An owned read-only view of one ledger entry, as handed out by
/// [`FlightStorage::flights`].
#[derive(Debug, PartialEq, Eq)]
pub struct Flight {
    pub callsign: String,
    pub departure: String,
    pub arrival: String,
    pub departure_time: Option<u64>,
    pub arrival_time: Option<u64>,
}

/// Mathematical value of a [`Flight`].
#[verifier::ext_equal]
pub struct FlightView {
    pub callsign: Seq<char>,
    pub departure: Seq<char>,
    pub arrival: Seq<char>,
    pub departure_time: Option<u64>,
    pub arrival_time: Option<u64>,
}

impl View for Flight {
    type V = FlightView;

    open spec fn view(&self) -> FlightView {
        FlightView {
            callsign: self.callsign@,
            departure: self.departure@,
            arrival: self.arrival@,
            departure_time: self.departure_time,
            arrival_time: self.arrival_time,
        }
    }
}

/// Why an append was refused.
#[derive(Debug, PartialEq, Eq)]
pub enum StorageError {
    /// The snapshot's timestamp is at or before the ledger's cutoff:
    /// appends must be strictly increasing in time.
    OutOfOrder,
    /// A state document offered for restoration repeats a flight identity.
    DuplicateKey,
}

impl StorageError {
    /// A human-readable description of the error.
    pub fn message(&self) -> (r: &'static str)
        ensures
            r@ == self.spec_message(),
    {
        match self {
            StorageError::OutOfOrder => "snapshots can only be appended in strictly increasing timestamp order",
            StorageError::DuplicateKey => "ledger state document repeats a flight identity",
        }
    }

    /// What [`StorageError::message`] returns.
    pub open spec fn spec_message(&self) -> Seq<char> {
        match self {
            StorageError::OutOfOrder => "snapshots can only be appended in strictly increasing timestamp order"@,
            StorageError::DuplicateKey => "ledger state document repeats a flight identity"@,
        }
    }
}

/// The mathematical value of the whole ledger: the cutoff timestamp, the
/// record map, and the velocity state of the most recent snapshot.
#[verifier::ext_equal]
pub struct StorageView {
    pub last_ts: u64,
    pub flights: Map<FlightIdView, FlightDataView>,
    pub prev_gs: Map<FlightIdView, i64>,
}

/// The empty ledger: epoch cutoff, no records, no tracked velocities.
pub open spec fn empty_storage() -> StorageView {
    StorageView { last_ts: 0, flights: Map::empty(), prev_gs: Map::empty() }
}

/// The map an association list stands for: later entries win, but the
/// ledger keeps its keys distinct so each key occurs once.
pub open spec fn assoc_map<K: View, V: View>(s: Seq<(K, V)>) -> Map<K::V, V::V>
    decreases s.len(),
{
    if s.len() == 0 {
        Map::empty()
    } else {
        assoc_map(s.drop_last()).insert(s.last().0@, s.last().1@)
    }
}

/// No two entries of the association list share a key.
pub open spec fn distinct_keys<K: View, V>(s: Seq<(K, V)>) -> bool {
    forall|i: int, j: int| 0 <= i < j < s.len() ==> s[i].0@ !== s[j].0@
}

/// An association list with distinct keys denotes its map entry by entry.
proof fn lemma_assoc_absent<K: View, V: View>(s: Seq<(K, V)>, key: K::V)
    requires
        forall|i: int| 0 <= i < s.len() ==> s[i].0@ !== key,
    ensures
        !assoc_map(s).contains_key(key),
    decreases s.len(),
{
    if s.len() > 0 {
        lemma_assoc_absent::<K, V>(s.drop_last(), key);
    }
}

/// Removing the last entry keeps the keys distinct.
proof fn lemma_distinct_drop_last<K: View, V>(s: Seq<(K, V)>)
    requires
        distinct_keys(s),
        s.len() > 0,
    ensures
        distinct_keys(s.drop_last()),
{
    let d = s.drop_last();
    assert forall|i: int, j: int| 0 <= i < j < d.len() implies d[i].0@ !== d[j].0@ by {
        assert(d[i] == s[i]);
        assert(d[j] == s[j]);
    }
}

/// Under distinct keys, the entry at any index is what the map holds.
proof fn lemma_assoc_present<K: View, V: View>(s: Seq<(K, V)>, i: int)
    requires
        distinct_keys(s),
        0 <= i < s.len(),
    ensures
        assoc_map(s).contains_key(s[i].0@),
        assoc_map(s)[s[i].0@] == s[i].1@,
    decreases s.len(),
{
    if i < s.len() - 1 {
        lemma_distinct_drop_last(s);
        lemma_assoc_present::<K, V>(s.drop_last(), i);
        assert(s.drop_last()[i] == s[i]);
        assert(s[i].0@ !== s.last().0@);
    }
}

/// Overwriting the value at an index (keeping its key) is a map insert.
proof fn lemma_assoc_update<K: View, V: View>(s: Seq<(K, V)>, i: int, e: (K, V))
    requires
        distinct_keys(s),
        0 <= i < s.len(),
        e.0@ == s[i].0@,
    ensures
        distinct_keys(s.update(i, e)),
        assoc_map(s.update(i, e)) == assoc_map(s).insert(e.0@, e.1@),
    decreases s.len(),
{
    let s2 = s.update(i, e);
    assert forall|m: int, n: int| 0 <= m < n < s2.len() implies s2[m].0@ !== s2[n].0@ by {
        assert(s2[m].0@ == s[m].0@);
        assert(s2[n].0@ == s[n].0@);
    }
    if i == s.len() - 1 {
        assert(s2.drop_last() =~= s.drop_last());
        assert(s2.last() == e);
        assert(assoc_map(s2) =~= assoc_map(s).insert(e.0@, e.1@));
    } else {
        lemma_distinct_drop_last(s);
        assert(s.drop_last()[i] == s[i]);
        lemma_assoc_update::<K, V>(s.drop_last(), i, e);
        assert(s2.drop_last() =~= s.drop_last().update(i, e));
        assert(s2.last() == s.last());
        assert(s.last().0@ !== e.0@);
        assert(assoc_map(s2) =~= assoc_map(s).insert(e.0@, e.1@));
    }
}

/// Appending an entry under a key not yet present is a map insert.
proof fn lemma_assoc_push<K: View, V: View>(s: Seq<(K, V)>, e: (K, V))
    requires
        distinct_keys(s),
        forall|i: int| 0 <= i < s.len() ==> s[i].0@ !== e.0@,
    ensures
        distinct_keys(s.push(e)),
        assoc_map(s.push(e)) == assoc_map(s).insert(e.0@, e.1@),
{
    let s2 = s.push(e);
    assert forall|m: int, n: int| 0 <= m < n < s2.len() implies s2[m].0@ !== s2[n].0@ by {
        assert(s2[m] == s[m]);
        if n < s.len() {
            assert(s2[n] == s[n]);
        } else {
            assert(s2[n] == e);
        }
    }
    assert(s2.drop_last() =~= s);
    assert(s2.last() == e);
}

/// The index of the entry holding `key`, if any.
fn assoc_find<V>(entries: &Vec<(FlightId, V)>, key: &FlightId) -> (r: Option<usize>)
    ensures
        r matches Some(i) ==> i < entries@.len() && entries@[i as int].0@ == key@,
        r is None ==> forall|i: int| 0 <= i < entries@.len() ==> entries@[i].0@ !== key@,
{
    let n = entries.len();
    let mut i: usize = 0;
    while i < n
        invariant
            n == entries@.len(),
            i <= n,
            forall|j: int| 0 <= j < i ==> entries@[j].0@ !== key@,
        decreases n - i,
    {
        let e = &entries[i];
        if e.0.callsign == key.callsign && e.0.session_start == key.session_start {
            proof {
                assert(entries@[i as int].0@ =~= key@);
            }
            return Some(i);
        }
        i += 1;
    }
    None
}

/// The value stored under `key`, if any; agrees with the map the list
/// denotes when its keys are distinct.
fn assoc_get<'a, V: View>(entries: &'a Vec<(FlightId, V)>, key: &FlightId) -> (r: Option<&'a V>)
    requires
        distinct_keys(entries@),
    ensures
        r matches Some(v) ==> assoc_map(entries@).contains_key(key@) && v@ == assoc_map(
            entries@,
        )[key@],
        r is None ==> !assoc_map(entries@).contains_key(key@),
{
    match assoc_find(entries, key) {
        Some(i) => {
            proof {
                lemma_assoc_present::<FlightId, V>(entries@, i as int);
            }
            Some(&entries[i].1)
        },
        None => {
            proof {
                lemma_assoc_absent::<FlightId, V>(entries@, key@);
            }
            None
        },
    }
}

/// Store `val` under `key`: overwrite the existing entry or append a new
/// one.  On the denoted map this is exactly an insert.
fn assoc_set<V: View>(entries: &mut Vec<(FlightId, V)>, key: FlightId, val: V)
    requires
        distinct_keys(old(entries)@),
    ensures
        distinct_keys(final(entries)@),
        assoc_map(final(entries)@) == assoc_map(old(entries)@).insert(key@, val@),
{
    match assoc_find(entries, &key) {
        Some(i) => {
            let ghost s = entries@;
            entries[i] = (key, val);
            proof {
                lemma_assoc_update::<FlightId, V>(s, i as int, entries@[i as int]);
            }
        },
        None => {
            let ghost s = entries@;
            entries.push((key, val));
            proof {
                lemma_assoc_push::<FlightId, V>(s, entries@.last());
            }
        },
    }
}

/// The flight identity a pilot entry contributes.
pub open spec fn pilot_key(p: PilotView) -> FlightIdView {
    FlightIdView { callsign: p.callsign, session_start: p.logon_time }
}

/// The record opened at the first observation of an identity: the flight
/// plan's origin and destination, no events yet.
pub open spec fn fresh_record(fp: FlightplanView) -> FlightDataView {
    FlightDataView {
        departure: fp.departure,
        arrival: fp.arrival,
        departure_time: None,
        arrival_time: None,
    }
}

/// The record a pilot entry starts from: the existing one if the identity
/// is already known (its origin and destination are never overwritten),
/// otherwise a fresh record from the entry's flight plan.
pub open spec fn base_record(
    flights: Map<FlightIdView, FlightDataView>,
    key: FlightIdView,
    fp: FlightplanView,
) -> FlightDataView {
    if flights.contains_key(key) {
        flights[key]
    } else {
        fresh_record(fp)
    }
}

/// The threshold-crossing rule.  With no velocity tracked from the
/// immediately preceding snapshot, no transition is evaluated.  A crossing
/// from below to at-or-above the threshold stamps the departure time; the
/// opposite crossing stamps the arrival time; both overwrite any earlier
/// stamp, so only the most recent event of each kind survives.
pub open spec fn crossed_record(
    rec: FlightDataView,
    prev: Option<i64>,
    gs: i64,
    ts: u64,
) -> FlightDataView {
    match prev {
        Some(old_gs) => if old_gs < GROUNDSPEED_THRESHOLD && gs >= GROUNDSPEED_THRESHOLD {
            FlightDataView { departure_time: Some(ts), ..rec }
        } else if old_gs >= GROUNDSPEED_THRESHOLD && gs < GROUNDSPEED_THRESHOLD {
            FlightDataView { arrival_time: Some(ts), ..rec }
        } else {
            rec
        },
        None => rec,
    }
}

/// One pilot entry folded into the record map and the velocity map under
/// construction.  Entries without a flight plan are ignored entirely.
pub open spec fn snap_step(
    flights: Map<FlightIdView, FlightDataView>,
    cur_gs: Map<FlightIdView, i64>,
    prev_gs: Map<FlightIdView, i64>,
    p: PilotView,
    ts: u64,
) -> (Map<FlightIdView, FlightDataView>, Map<FlightIdView, i64>) {
    match p.flight_plan {
        None => (flights, cur_gs),
        Some(fp) => {
            let key = pilot_key(p);
            let prev = if prev_gs.contains_key(key) {
                Some(prev_gs[key])
            } else {
                None
            };
            let rec = crossed_record(base_record(flights, key, fp), prev, p.groundspeed, ts);
            (flights.insert(key, rec), cur_gs.insert(key, p.groundspeed))
        },
    }
}

/// All pilot entries of one snapshot folded left to right.  The velocity
/// lookups go to `prev_gs`, the preceding snapshot's state, throughout.
pub open spec fn snap_fold(
    flights: Map<FlightIdView, FlightDataView>,
    cur_gs: Map<FlightIdView, i64>,
    prev_gs: Map<FlightIdView, i64>,
    pilots: Seq<PilotView>,
    ts: u64,
) -> (Map<FlightIdView, FlightDataView>, Map<FlightIdView, i64>)
    decreases pilots.len(),
{
    if pilots.len() == 0 {
        (flights, cur_gs)
    } else {
        let (f, c) = snap_fold(flights, cur_gs, prev_gs, pilots.drop_last(), ts);
        snap_step(f, c, prev_gs, pilots.last(), ts)
    }
}

/// The ledger after appending one snapshot: records updated by the
/// threshold-crossing rule, the velocity state replaced wholesale with
/// exactly the flight-plan-bearing identities of this snapshot, and the
/// cutoff advanced to the snapshot's timestamp.  Meaningful only when the
/// snapshot's timestamp exceeds `m.last_ts`.
pub open spec fn append_model(m: StorageView, d: DatafeedView) -> StorageView {
    let ts = d.general.update_timestamp;
    let (f, c) = snap_fold(m.flights, Map::empty(), m.prev_gs, d.pilots, ts);
    StorageView { last_ts: ts, flights: f, prev_gs: c }
}

/// Successive appends as one batch: [`append_model`] folded left to right.
pub open spec fn apply_all(m: StorageView, snaps: Seq<DatafeedView>) -> StorageView
    decreases snaps.len(),
{
    if snaps.len() == 0 {
        m
    } else {
        append_model(apply_all(m, snaps.drop_last()), snaps.last())
    }
}

/// The timestamps along `snaps` strictly increase, starting above `t0`.
pub open spec fn strictly_newer(t0: u64, snaps: Seq<DatafeedView>) -> bool {
    &&& forall|i: int|
        0 <= i < snaps.len() ==> (#[trigger] snaps[i]).general.update_timestamp > t0
    &&& forall|i: int, j: int|
        0 <= i < j < snaps.len() ==> (#[trigger] snaps[i]).general.update_timestamp < (
        #[trigger] snaps[j]).general.update_timestamp
}

/// The mathematical values of a list of snapshots.
pub open spec fn feed_views(s: Seq<Datafeed>) -> Seq<DatafeedView> {
    s.map_values(|d: Datafeed| d@)
}

/// After any batch, the cutoff is the last snapshot's timestamp.
pub proof fn lemma_apply_all_last_ts(m: StorageView, snaps: Seq<DatafeedView>)
    ensures
        apply_all(m, snaps).last_ts == if snaps.len() == 0 {
            m.last_ts
        } else {
            snaps.last().general.update_timestamp
        },
{
}

/// Appending snapshots one at a time and appending them as one batch in the
/// same order produce the same ledger: extending a batch by one snapshot is
/// one more single append on the batch's result.
pub proof fn lemma_apply_all_push(m: StorageView, snaps: Seq<DatafeedView>, d: DatafeedView)
    ensures
        apply_all(m, snaps.push(d)) == append_model(apply_all(m, snaps), d),
{
    assert(snaps.push(d).drop_last() =~= snaps);
    assert(snaps.push(d).last() == d);
}

/// Splitting a batch anywhere changes nothing: the batch of a concatenation
/// is the second batch appended onto the result of the first.
pub proof fn lemma_apply_all_concat(m: StorageView, a: Seq<DatafeedView>, b: Seq<DatafeedView>)
    ensures
        apply_all(m, a + b) == apply_all(apply_all(m, a), b),
    decreases b.len(),
{
    if b.len() == 0 {
        assert(a + b =~= a);
    } else {
        lemma_apply_all_concat(m, a, b.drop_last());
        assert((a + b).drop_last() =~= a + b.drop_last());
        assert((a + b).last() == b.last());
    }
}

/// A strictly increasing prefix extends by one element that is newer than
/// the prefix's end.
proof fn lemma_strictly_newer_extend(t0: u64, s: Seq<DatafeedView>, i: int)
    requires
        0 <= i < s.len(),
        strictly_newer(t0, s.take(i)),
        s[i].general.update_timestamp > (if i == 0 {
            t0
        } else {
            s[i - 1].general.update_timestamp
        }),
    ensures
        strictly_newer(t0, s.take(i + 1)),
{
    let t = s.take(i + 1);
    assert forall|j: int| 0 <= j < t.len() implies (#[trigger] t[j]).general.update_timestamp
        > t0 by {
        if j < i {
            assert(s.take(i)[j] == s[j]);
        } else if i > 0 {
            assert(s.take(i)[i - 1] == s[i - 1]);
        }
    }
    assert forall|p: int, q: int| 0 <= p < q < t.len() implies (
    #[trigger] t[p]).general.update_timestamp < (#[trigger] t[q]).general.update_timestamp by {
        assert(t[p] == s[p]);
        assert(t[q] == s[q]);
        if q < i {
            assert(s.take(i)[p] == s[p]);
            assert(s.take(i)[q] == s[q]);
        } else {
            // q == i: p is below i, and the new element is newer than s[i - 1]
            if p < i - 1 {
                assert(s.take(i)[p] == s[p]);
                assert(s.take(i)[i - 1] == s[i - 1]);
            }
        }
    }
}

/// An element no newer than the prefix's end refutes strict increase for
/// the whole sequence.
proof fn lemma_strictly_newer_violation(t0: u64, s: Seq<DatafeedView>, i: int)
    requires
        0 <= i < s.len(),
        s[i].general.update_timestamp <= (if i == 0 {
            t0
        } else {
            s[i - 1].general.update_timestamp
        }),
    ensures
        !strictly_newer(t0, s),
{
    if strictly_newer(t0, s) {
        assert(s[i].general.update_timestamp > t0);
        if i > 0 {
            assert(s[i - 1].general.update_timestamp < s[i].general.update_timestamp);
        }
    }
}

/// A batch append from ledger `m0` stopped at position `k`, leaving `m1`:
/// the snapshots before `k` were strictly increasing and were applied, and
/// the one at `k` was not newer than the cutoff they left behind.
pub open spec fn batch_stopped_at(
    m0: StorageView,
    vs: Seq<DatafeedView>,
    k: int,
    m1: StorageView,
) -> bool {
    &&& 0 <= k < vs.len()
    &&& strictly_newer(m0.last_ts, vs.take(k))
    &&& m1 == apply_all(m0, vs.take(k))
    &&& vs[k].general.update_timestamp <= apply_all(m0, vs.take(k)).last_ts
}

/// The owned view handed out for the ledger entry `(k, d)`.
pub open spec fn flight_of(k: FlightIdView, d: FlightDataView) -> FlightView {
    FlightView {
        callsign: k.callsign,
        departure: d.departure,
        arrival: d.arrival,
        departure_time: d.departure_time,
        arrival_time: d.arrival_time,
    }
}

/// A key is in the denoted map exactly when some entry holds it.
proof fn lemma_assoc_contains<K: View, V: View>(s: Seq<(K, V)>, key: K::V)
    ensures
        assoc_map(s).contains_key(key) <==> exists|i: int| 0 <= i < s.len() && s[i].0@ == key,
    decreases s.len(),
{
    if s.len() > 0 {
        lemma_assoc_contains::<K, V>(s.drop_last(), key);
        if assoc_map(s).contains_key(key) {
            if s.last().0@ == key {
                assert(s[s.len() - 1].0@ == key);
            } else {
                let i = choose|i: int| 0 <= i < s.drop_last().len() && s.drop_last()[i].0@ == key;
                assert(s[i].0@ == key);
            }
        }
        if exists|i: int| 0 <= i < s.len() && s[i].0@ == key {
            let i = choose|i: int| 0 <= i < s.len() && s[i].0@ == key;
            if i < s.len() - 1 {
                assert(s.drop_last()[i].0@ == key);
            }
        }
    }
}

/// Whether no two entries of the list share a key, decided entry by entry.
fn check_distinct<V>(entries: &Vec<(FlightId, V)>) -> (r: bool)
    ensures
        r == distinct_keys(entries@),
{
    let n = entries.len();
    let mut i: usize = 0;
    while i < n
        invariant
            n == entries@.len(),
            i <= n,
            forall|p: int, q: int| 0 <= p < q < i ==> entries@[p].0@ !== entries@[q].0@,
        decreases n - i,
    {
        let mut j: usize = 0;
        while j < i
            invariant
                i < n,
                n == entries@.len(),
                j <= i,
                forall|q: int| 0 <= q < j ==> entries@[q].0@ !== entries@[i as int].0@,
            decreases i - j,
        {
            let a = &entries[j];
            let b = &entries[i];
            if a.0.callsign == b.0.callsign && a.0.session_start == b.0.session_start {
                proof {
                    assert(entries@[j as int].0@ =~= entries@[i as int].0@);
                }
                return false;
            }
            j += 1;
        }
        i += 1;
    }
    true
}

/// The ledger.  One instance per process; the owner serializes access.
pub struct FlightStorage {
    last_ts: u64,
    flights: Vec<(FlightId, FlightData)>,
    prev_gs: Vec<(FlightId, i64)>,
}

impl View for FlightStorage {
    type V = StorageView;

    closed spec fn view(&self) -> StorageView {
        StorageView {
            last_ts: self.last_ts,
            flights: assoc_map(self.flights@),
            prev_gs: assoc_map(self.prev_gs@),
        }
    }
}

impl FlightStorage {
    /// Internal invariant: both association lists have distinct keys, so
    /// they denote their maps entry for entry.
    pub closed spec fn wf(&self) -> bool {
        distinct_keys(self.flights@) && distinct_keys(self.prev_gs@)
    }

    /// A fresh ledger with the epoch as cutoff and nothing recorded.
    pub fn new() -> (r: Self)
        ensures
            r.wf(),
            r@ == empty_storage(),
    {
        let r = FlightStorage { last_ts: 0, flights: Vec::new(), prev_gs: Vec::new() };
        proof {
            assert(r@.flights =~= empty_storage().flights);
            assert(r@.prev_gs =~= empty_storage().prev_gs);
            assert(r@ =~= empty_storage());
        }
        r
    }

    /// Apply one snapshot to the ledger.
    ///
    /// Refused, with no mutation at all, when the snapshot's timestamp is
    /// at or before the cutoff.  Otherwise every pilot entry carrying a
    /// flight plan is folded in by the threshold-crossing rule, the
    /// velocity state is replaced wholesale with this snapshot's
    /// flight-plan-bearing identities, and the cutoff advances — exactly
    /// [`append_model`].
    pub fn append(&mut self, datafeed: &Datafeed) -> (r: Result<(), StorageError>)
        requires
            old(self).wf(),
        ensures
            final(self).wf(),
            datafeed@.general.update_timestamp > old(self)@.last_ts ==> r is Ok && final(self)@
                == append_model(old(self)@, datafeed@),
            datafeed@.general.update_timestamp <= old(self)@.last_ts ==> (r matches Err(e)
                && e is OutOfOrder) && final(self)@ == old(self)@,
    {
        if datafeed.general.update_timestamp <= self.last_ts {
            return Err(StorageError::OutOfOrder);
        }
        let ts = datafeed.general.update_timestamp;
        let ghost m0 = self@;
        let ghost pilots = datafeed@.pilots;
        let ghost prev0 = self.prev_gs@;
        let mut cur_gs: Vec<(FlightId, i64)> = Vec::new();
        let n = datafeed.pilots.len();
        proof {
            assert(assoc_map(cur_gs@) =~= Map::<FlightIdView, i64>::empty());
            assert(pilots.take(0) =~= Seq::<PilotView>::empty());
        }
        let mut idx: usize = 0;
        while idx < n
            invariant
                n == datafeed.pilots@.len(),
                pilots == datafeed@.pilots,
                idx <= n,
                distinct_keys(self.flights@),
                distinct_keys(cur_gs@),
                self.prev_gs@ == prev0,
                distinct_keys(prev0),
                m0.prev_gs == assoc_map(prev0),
                self.last_ts == m0.last_ts,
                assoc_map(self.flights@) == snap_fold(
                    m0.flights,
                    Map::<FlightIdView, i64>::empty(),
                    m0.prev_gs,
                    pilots.take(idx as int),
                    ts,
                ).0,
                assoc_map(cur_gs@) == snap_fold(
                    m0.flights,
                    Map::<FlightIdView, i64>::empty(),
                    m0.prev_gs,
                    pilots.take(idx as int),
                    ts,
                ).1,
            decreases n - idx,
        {
            let p = &datafeed.pilots[idx];
            proof {
                assert(pilots.take(idx + 1).drop_last() =~= pilots.take(idx as int));
                assert(pilots.take(idx + 1).last() == pilots[idx as int]);
                assert(pilots[idx as int] == datafeed.pilots@[idx as int]@);
            }
            let ghost pv = pilots[idx as int];
            match &p.flight_plan {
                None => {
                    proof {
                        assert(pv.flight_plan is None);
                    }
                },
                Some(fp) => {
                    let key = FlightId {
                        callsign: p.callsign.clone(),
                        session_start: p.logon_time,
                    };
                    proof {
                        assert(key@ =~= pilot_key(pv));
                        assert(pv.flight_plan == Some(fp@));
                    }
                    let rec0: FlightData = match assoc_get(&self.flights, &key) {
                        Some(r) => FlightData {
                            departure: r.departure.clone(),
                            arrival: r.arrival.clone(),
                            departure_time: r.departure_time,
                            arrival_time: r.arrival_time,
                        },
                        None => FlightData {
                            departure: fp.departure.clone(),
                            arrival: fp.arrival.clone(),
                            departure_time: None,
                            arrival_time: None,
                        },
                    };
                    let ghost flights_map = assoc_map(self.flights@);
                    proof {
                        assert(rec0@ =~= base_record(flights_map, key@, fp@));
                    }
                    let ghost rec0v = rec0@;
                    let prev: Option<i64> = match assoc_get(&self.prev_gs, &key) {
                        Some(g) => Some(*g),
                        None => None,
                    };
                    proof {
                        assert(prev == (if m0.prev_gs.contains_key(key@) {
                            Some(m0.prev_gs[key@])
                        } else {
                            None::<i64>
                        }));
                    }
                    let gs = p.groundspeed;
                    let rec1: FlightData = match prev {
                        Some(old_gs) => {
                            if old_gs < GROUNDSPEED_THRESHOLD && gs >= GROUNDSPEED_THRESHOLD {
                                FlightData { departure_time: Some(ts), ..rec0 }
                            } else if old_gs >= GROUNDSPEED_THRESHOLD && gs < GROUNDSPEED_THRESHOLD {
                                FlightData { arrival_time: Some(ts), ..rec0 }
                            } else {
                                rec0
                            }
                        },
                        None => rec0,
                    };
                    proof {
                        assert(rec1@ =~= crossed_record(rec0v, prev, gs, ts));
                    }
                    assoc_set(&mut self.flights, key.duplicate(), rec1);
                    assoc_set(&mut cur_gs, key, gs);
                },
            }
            proof {
                let step = snap_step(
                    snap_fold(
                        m0.flights,
                        Map::<FlightIdView, i64>::empty(),
                        m0.prev_gs,
                        pilots.take(idx as int),
                        ts,
                    ).0,
                    snap_fold(
                        m0.flights,
                        Map::<FlightIdView, i64>::empty(),
                        m0.prev_gs,
                        pilots.take(idx as int),
                        ts,
                    ).1,
                    m0.prev_gs,
                    pv,
                    ts,
                );
                assert(assoc_map(self.flights@) == step.0);
                assert(assoc_map(cur_gs@) == step.1);
            }
            idx += 1;
        }
        proof {
            assert(pilots.take(n as int) =~= pilots);
        }
        self.prev_gs = cur_gs;
        self.last_ts = ts;
        proof {
            assert(self@ =~= append_model(m0, datafeed@));
        }
        Ok(())
    }

    /// Apply a batch of snapshots in order, stopping at the first one that
    /// is out of order.  Already-applied snapshots stay applied: an append
    /// is safe once made, and the caller learns where the batch failed.
    #[verifier::rlimit(60)]
    pub fn append_all(&mut self, datafeeds: &Vec<Datafeed>) -> (r: Result<(), StorageError>)
        requires
            old(self).wf(),
        ensures
            final(self).wf(),
            r is Ok <==> strictly_newer(old(self)@.last_ts, feed_views(datafeeds@)),
            r is Ok ==> final(self)@ == apply_all(old(self)@, feed_views(datafeeds@)),
            r matches Err(e) ==> e is OutOfOrder && exists|k: int|
                batch_stopped_at(old(self)@, feed_views(datafeeds@), k, final(self)@),
    {
        let ghost m0 = self@;
        let ghost vs = feed_views(datafeeds@);
        let n = datafeeds.len();
        proof {
            assert(vs.take(0) =~= Seq::<DatafeedView>::empty());
        }
        let mut i: usize = 0;
        while i < n
            invariant
                self.wf(),
                n == datafeeds@.len(),
                i <= n,
                m0 == old(self)@,
                vs == feed_views(datafeeds@),
                strictly_newer(m0.last_ts, vs.take(i as int)),
                self@ == apply_all(m0, vs.take(i as int)),
            decreases n - i,
        {
            let ghost taken = vs.take(i as int);
            proof {
                assert(vs.take(i + 1).drop_last() =~= taken);
                assert(vs.take(i + 1).last() == vs[i as int]);
                assert(datafeeds@[i as int]@ == vs[i as int]);
                lemma_apply_all_last_ts(m0, taken);
                if i > 0 {
                    assert(taken.last() == vs[i - 1]);
                }
            }
            match self.append(&datafeeds[i]) {
                Ok(()) => {
                    proof {
                        lemma_strictly_newer_extend(m0.last_ts, vs, i as int);
                    }
                },
                Err(e) => {
                    proof {
                        let k = i as int;
                        assert(vs[k].general.update_timestamp <= apply_all(m0, taken).last_ts);
                        assert(vs[k].general.update_timestamp <= (if k == 0 {
                            m0.last_ts
                        } else {
                            vs[k - 1].general.update_timestamp
                        }));
                        lemma_strictly_newer_violation(m0.last_ts, vs, k);
                        assert(!strictly_newer(old(self)@.last_ts, feed_views(datafeeds@)));
                        assert(batch_stopped_at(old(self)@, feed_views(datafeeds@), k, self@));
                    }
                    return Err(e);
                },
            }
            i += 1;
        }
        proof {
            assert(vs.take(n as int) =~= vs);
        }
        Ok(())
    }

    /// All flight records, as owned read-only views in some order: one per
    /// tracked flight identity, the identity's callsign beside the record.
    pub fn flights(&self) -> (r: Vec<Flight>)
        requires
            self.wf(),
        ensures
            exists|keys: Seq<FlightIdView>|
                (#[trigger] keys.len()) == r@.len() && keys.no_duplicates() && (forall|
                    k: FlightIdView,
                |
                    self@.flights.contains_key(k) <==> keys.contains(k)) && (forall|i: int|
                    0 <= i < r@.len() ==> self@.flights.contains_key(keys[i]) && r@[i]@
                        == flight_of(keys[i], self@.flights[keys[i]])),
    {
        let n = self.flights.len();
        let mut r: Vec<Flight> = Vec::new();
        let mut i: usize = 0;
        while i < n
            invariant
                n == self.flights@.len(),
                i <= n,
                self.wf(),
                r@.len() == i,
                forall|j: int|
                    0 <= j < i ==> r@[j]@ == flight_of(
                        self.flights@[j].0@,
                        self.flights@[j].1@,
                    ),
            decreases n - i,
        {
            let e = &self.flights[i];
            let f = Flight {
                callsign: e.0.callsign.clone(),
                departure: e.1.departure.clone(),
                arrival: e.1.arrival.clone(),
                departure_time: e.1.departure_time,
                arrival_time: e.1.arrival_time,
            };
            proof {
                assert(f@ =~= flight_of(self.flights@[i as int].0@, self.flights@[i as int].1@));
            }
            r.push(f);
            i += 1;
        }
        proof {
            let keys = self.flights@.map_values(|e: (FlightId, FlightData)| e.0@);
            assert forall|k: FlightIdView| self@.flights.contains_key(k) <==> keys.contains(
                k,
            ) by {
                lemma_assoc_contains::<FlightId, FlightData>(self.flights@, k);
                if exists|i: int| 0 <= i < self.flights@.len() && self.flights@[i].0@ == k {
                    let i = choose|i: int|
                        0 <= i < self.flights@.len() && self.flights@[i].0@ == k;
                    assert(keys[i] == k);
                }
                if keys.contains(k) {
                    let i = choose|i: int| 0 <= i < keys.len() && keys[i] == k;
                    assert(self.flights@[i].0@ == k);
                }
            }
            assert forall|i: int, j: int|
                0 <= i < keys.len() && 0 <= j < keys.len() && i != j implies keys[i] != keys[
                j
            ] by {
                assert(keys[i] == self.flights@[i].0@);
                assert(keys[j] == self.flights@[j].0@);
            }
            assert(keys.no_duplicates());
            assert forall|i: int| 0 <= i < r@.len() implies self@.flights.contains_key(keys[i])
                && r@[i]@ == flight_of(keys[i], self@.flights[keys[i]]) by {
                lemma_assoc_present::<FlightId, FlightData>(self.flights@, i);
            }
            assert(keys.len() == r@.len());
        }
        r
    }

    /// The record entries, keyed by flight identity, for persistence.
    pub fn flight_entries(&self) -> (r: &Vec<(FlightId, FlightData)>)
        requires
            self.wf(),
        ensures
            distinct_keys(r@),
            assoc_map(r@) == self@.flights,
    {
        &self.flights
    }

    /// The velocity-state entries of the most recent snapshot, for
    /// persistence.
    pub fn velocity_entries(&self) -> (r: &Vec<(FlightId, i64)>)
        requires
            self.wf(),
        ensures
            distinct_keys(r@),
            assoc_map(r@) == self@.prev_gs,
    {
        &self.prev_gs
    }

    /// Rebuild a ledger from a persisted state document.  Refused when
    /// either entry list repeats a flight identity: such a document does
    /// not denote a ledger.
    pub fn from_parts(
        last_ts: u64,
        flights: Vec<(FlightId, FlightData)>,
        prev_gs: Vec<(FlightId, i64)>,
    ) -> (r: Result<FlightStorage, StorageError>)
        ensures
            r is Ok <==> distinct_keys(flights@) && distinct_keys(prev_gs@),
            r matches Ok(s) ==> s.wf() && s@ == (StorageView {
                last_ts: last_ts,
                flights: assoc_map(flights@),
                prev_gs: assoc_map(prev_gs@),
            }),
            r matches Err(e) ==> e is DuplicateKey,
    {
        if !check_distinct(&flights) || !check_distinct(&prev_gs) {
            return Err(StorageError::DuplicateKey);
        }
        Ok(FlightStorage { last_ts, flights, prev_gs })
    }

    /// The cutoff: the timestamp of the most recently appended snapshot,
    /// or the epoch if none was appended yet.
    pub fn last_ts(&self) -> (r: u64)
        ensures
            r == self@.last_ts,
    {
        self.last_ts
    }
}

impl Default for FlightStorage {
    /// Same as [`FlightStorage::new`].
    fn default() -> (r: Self)
        ensures
            r.wf(),
            r@ == empty_storage(),
    {
        FlightStorage::new()
    }
}

} // verus!
