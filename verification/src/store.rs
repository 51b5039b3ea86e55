//! The relational store: three tables, id counters, and a schema version.

use vstd::prelude::*;

use crate::reading::{ReadingResponse, ReadingV};
use crate::sensor::{SensorResponse, SensorV};
use crate::session::{LoggingSessionResponse, SessionV};

verus! {

/// Spec view of an optional text field.
pub open spec fn opt_text(o: Option<String>) -> Option<Seq<char>> {
    match o {
        Some(s) => Some(s@),
        None => None,
    }
}

/// Spec view of an optional integer field.
pub open spec fn opt_int(o: Option<i64>) -> Option<int> {
    match o {
        Some(v) => Some(v as int),
        None => None,
    }
}

/// One store, holding every persisted entity.
///
/// All operations live on the entity types (`Sensor`, `Reading`,
/// `LoggingSession`) and on the maintenance functions, each taking the
/// store by reference; the store itself only offers construction.
pub struct Store {
    pub sensors: Vec<SensorResponse>,
    pub readings: Vec<ReadingResponse>,
    pub sessions: Vec<LoggingSessionResponse>,
    pub next_sensor_id: i64,
    pub next_reading_id: i64,
    pub next_session_id: i64,
    pub schema_version: i32,
}

/// Mathematical value of a store.
pub ghost struct StoreV {
    pub sensors: Seq<SensorV>,
    pub readings: Seq<ReadingV>,
    pub sessions: Seq<SessionV>,
    pub next_sensor_id: int,
    pub next_reading_id: int,
    pub next_session_id: int,
    pub schema_version: int,
}

impl View for Store {
    type V = StoreV;

    open spec fn view(&self) -> StoreV {
        StoreV {
            sensors: self.sensors@.map_values(|r: SensorResponse| r@),
            readings: self.readings@.map_values(|r: ReadingResponse| r@),
            sessions: self.sessions@.map_values(|r: LoggingSessionResponse| r@),
            next_sensor_id: self.next_sensor_id as int,
            next_reading_id: self.next_reading_id as int,
            next_session_id: self.next_session_id as int,
            schema_version: self.schema_version as int,
        }
    }
}

/// Some stored sensor carries the given id.
pub open spec fn sensor_exists(sensors: Seq<SensorV>, id: int) -> bool {
    exists|k: int| 0 <= k < sensors.len() && (#[trigger] sensors[k]).id == id
}

/// The first stored sensor with the given id, if any. Under the store
/// invariant ids are unique, so this is the only one.
pub open spec fn lookup_sensor(sensors: Seq<SensorV>, id: int) -> Option<SensorV>
    decreases sensors.len(),
{
    if sensors.len() == 0 {
        None
    } else if sensors[0].id == id {
        Some(sensors[0])
    } else {
        lookup_sensor(sensors.drop_first(), id)
    }
}

/// When ids are unique, `lookup_sensor` returns exactly the record at the
/// index bearing the id.
pub proof fn lemma_lookup_sensor_at(sensors: Seq<SensorV>, id: int, i: int)
    requires
        0 <= i < sensors.len(),
        sensors[i].id == id,
        forall|j: int| 0 <= j < i ==> (#[trigger] sensors[j]).id != id,
    ensures
        lookup_sensor(sensors, id) == Some(sensors[i]),
    decreases i,
{
    if i > 0 {
        lemma_lookup_sensor_at(sensors.drop_first(), id, i - 1);
    }
}

/// `lookup_sensor` fails when no record bears the id.
pub proof fn lemma_lookup_sensor_none(sensors: Seq<SensorV>, id: int)
    requires
        forall|j: int| 0 <= j < sensors.len() ==> (#[trigger] sensors[j]).id != id,
    ensures
        lookup_sensor(sensors, id) is None,
    decreases sensors.len(),
{
    if sensors.len() > 0 {
        lemma_lookup_sensor_none(sensors.drop_first(), id);
    }
}

/// Copy an optional text field; the copy carries the same text.
pub fn clone_opt_text(o: &Option<String>) -> (r: Option<String>)
    ensures
        opt_text(r) == opt_text(*o),
{
    match o {
        Some(s) => Some(s.clone()),
        None => None,
    }
}

/// An elementwise property of a sequence holds of every element of any of
/// its filterings.
pub proof fn lemma_filter_elem<A>(s: Seq<A>, pred: spec_fn(A) -> bool, prop: spec_fn(A) -> bool)
    requires
        forall|i: int| 0 <= i < s.len() ==> prop(#[trigger] s[i]),
    ensures
        forall|i: int|
            0 <= i < s.filter(pred).len() ==> prop(#[trigger] s.filter(pred)[i]),
{
    let f = s.filter(pred);
    assert forall|i: int| 0 <= i < f.len() implies prop(f[i]) by {
        assert(f.contains(f[i]));
        s.lemma_filter_contains_rev(pred, f[i]);
        let k = choose|k: int| 0 <= k < s.len() && s[k] == f[i];
        assert(prop(s[k]));
    }
}

/// Filtering by a predicate that every element passes keeps the sequence
/// as it is.
pub proof fn lemma_filter_all<A>(s: Seq<A>, pred: spec_fn(A) -> bool)
    requires
        forall|i: int| 0 <= i < s.len() ==> pred(#[trigger] s[i]),
    ensures
        s.filter(pred) == s,
    decreases s.len(),
{
    reveal(Seq::filter);
    if s.len() > 0 {
        lemma_filter_all(s.drop_last(), pred);
        assert(s.filter(pred) =~= s);
    }
}

/// A pairwise property of a sequence (over every ordered index pair) holds
/// of any of its filterings: filtering keeps order and drops elements.
pub proof fn lemma_filter_pairwise<A>(s: Seq<A>, pred: spec_fn(A) -> bool, rel: spec_fn(A, A) -> bool)
    requires
        forall|i: int, j: int| 0 <= i < j < s.len() ==> rel(#[trigger] s[i], #[trigger] s[j]),
    ensures
        forall|i: int, j: int|
            0 <= i < j < s.filter(pred).len() ==> rel(
                #[trigger] s.filter(pred)[i],
                #[trigger] s.filter(pred)[j],
            ),
    decreases s.len(),
{
    reveal(Seq::filter);
    if s.len() > 0 {
        let prefix = s.drop_last();
        lemma_filter_pairwise(prefix, pred, rel);
        let fp = prefix.filter(pred);
        let f = s.filter(pred);
        if pred(s.last()) {
            assert(f == fp.push(s.last()));
            assert forall|i: int, j: int| 0 <= i < j < f.len() implies rel(f[i], f[j]) by {
                if j < f.len() - 1 {
                    assert(rel(fp[i], fp[j]));
                } else {
                    assert(fp.contains(fp[i]));
                    prefix.lemma_filter_contains_rev(pred, fp[i]);
                    let k = choose|k: int| 0 <= k < prefix.len() && prefix[k] == fp[i];
                    assert(s[k] == fp[i]);
                    assert(rel(s[k], s[s.len() - 1]));
                }
            }
        }
    }
}

impl StoreV {
    /// Well-formedness: positive unique ids below their counters, readings
    /// and sessions referencing existing sensors, at most one active
    /// session per sensor, and the active flag derived from the end time.
    pub open spec fn inv(self) -> bool {
        &&& forall|i: int|
            0 <= i < self.sensors.len() ==> 0 < (#[trigger] self.sensors[i]).id
                < self.next_sensor_id
        &&& forall|i: int, j: int|
            0 <= i < j < self.sensors.len() ==> (#[trigger] self.sensors[i]).id != (
            #[trigger] self.sensors[j]).id
        &&& forall|i: int|
            0 <= i < self.readings.len() ==> 0 < (#[trigger] self.readings[i]).id
                < self.next_reading_id
        &&& forall|i: int, j: int|
            0 <= i < j < self.readings.len() ==> (#[trigger] self.readings[i]).id != (
            #[trigger] self.readings[j]).id
        &&& forall|i: int|
            0 <= i < self.readings.len() ==> sensor_exists(
                self.sensors,
                (#[trigger] self.readings[i]).sensor_id,
            )
        &&& forall|i: int|
            0 <= i < self.readings.len() ==> ((#[trigger] self.readings[i]).value is Some
                || self.readings[i].state is Some)
        &&& forall|i: int|
            0 <= i < self.sessions.len() ==> 0 < (#[trigger] self.sessions[i]).id
                < self.next_session_id
        &&& forall|i: int, j: int|
            0 <= i < j < self.sessions.len() ==> (#[trigger] self.sessions[i]).id != (
            #[trigger] self.sessions[j]).id
        &&& forall|i: int|
            0 <= i < self.sessions.len() ==> sensor_exists(
                self.sensors,
                (#[trigger] self.sessions[i]).sensor_id,
            )
        &&& forall|i: int, j: int|
            0 <= i < j < self.sessions.len() && (#[trigger] self.sessions[i]).sensor_id == (
            #[trigger] self.sessions[j]).sensor_id ==> !(self.sessions[i].active
                && self.sessions[j].active)
        &&& forall|i: int|
            0 <= i < self.sessions.len() ==> (#[trigger] self.sessions[i]).active == (
            self.sessions[i].end_time is None)
        &&& 0 < self.next_sensor_id
        &&& 0 < self.next_reading_id
        &&& 0 < self.next_session_id
        &&& 0 <= self.schema_version
    }
}

impl Store {
    /// An empty, unmigrated store: no rows, fresh id counters, schema
    /// version zero.
    pub fn new() -> (s: Store)
        ensures
            s@.inv(),
            s@.sensors == Seq::<SensorV>::empty(),
            s@.readings == Seq::<ReadingV>::empty(),
            s@.sessions == Seq::<SessionV>::empty(),
            s@.next_sensor_id == 1,
            s@.next_reading_id == 1,
            s@.next_session_id == 1,
            s@.schema_version == 0,
    {
        let s = Store {
            sensors: Vec::new(),
            readings: Vec::new(),
            sessions: Vec::new(),
            next_sensor_id: 1,
            next_reading_id: 1,
            next_session_id: 1,
            schema_version: 0,
        };
        proof {
            assert(s@.sensors =~= Seq::<SensorV>::empty());
            assert(s@.readings =~= Seq::<ReadingV>::empty());
            assert(s@.sessions =~= Seq::<SessionV>::empty());
        }
        s
    }
}

} // verus!
