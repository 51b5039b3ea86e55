//! Sensors: metadata records with optional thresholds.
//!
//! Threshold fields are fixed-point values in thousandths of the sensor's
//! unit, so that `21500` stands for 21.5 units.

use vstd::prelude::*;

use crate::error::AppError;
use crate::reading::{ReadingResponse, ReadingV};
use crate::session::{LoggingSessionResponse, SessionV};
use crate::store::{
    lemma_filter_elem, lemma_filter_pairwise, lemma_lookup_sensor_at, lemma_lookup_sensor_none,
    lookup_sensor, opt_int, opt_text, sensor_exists, Store, StoreV,
};
use crate::time::current_timestamp;

verus! {

/// Caller-supplied sensor fields, as handed to `create` and `update`.
/// `sensor_id`, `created_at` and `updated_at` are ignored on input; the
/// store assigns them.
#[derive(Debug, Clone)]
pub struct Sensor {
    pub sensor_id: Option<i64>,
    pub sensor_name: String,
    pub sensor_type: String,
    pub location: Option<String>,
    pub unit: Option<String>,
    pub threshold_min: Option<i64>,
    pub threshold_max: Option<i64>,
    pub calibration_date: Option<i64>,
    pub notes: Option<String>,
    pub created_at: Option<i64>,
    pub updated_at: Option<i64>,
}

/// A stored sensor record, as returned by reads.
#[derive(Debug, Clone)]
pub struct SensorResponse {
    pub sensor_id: i64,
    pub sensor_name: String,
    pub sensor_type: String,
    pub location: Option<String>,
    pub unit: Option<String>,
    pub threshold_min: Option<i64>,
    pub threshold_max: Option<i64>,
    pub calibration_date: Option<i64>,
    pub notes: Option<String>,
    pub created_at: i64,
    pub updated_at: i64,
}

/// Mathematical value of a caller-supplied sensor.
pub ghost struct SensorInV {
    pub sensor_id: Option<int>,
    pub name: Seq<char>,
    pub ty: Seq<char>,
    pub location: Option<Seq<char>>,
    pub unit: Option<Seq<char>>,
    pub threshold_min: Option<int>,
    pub threshold_max: Option<int>,
    pub calibration_date: Option<int>,
    pub notes: Option<Seq<char>>,
    pub created_at: Option<int>,
    pub updated_at: Option<int>,
}

impl View for Sensor {
    type V = SensorInV;

    open spec fn view(&self) -> SensorInV {
        SensorInV {
            sensor_id: opt_int(self.sensor_id),
            name: self.sensor_name@,
            ty: self.sensor_type@,
            location: opt_text(self.location),
            unit: opt_text(self.unit),
            threshold_min: opt_int(self.threshold_min),
            threshold_max: opt_int(self.threshold_max),
            calibration_date: opt_int(self.calibration_date),
            notes: opt_text(self.notes),
            created_at: opt_int(self.created_at),
            updated_at: opt_int(self.updated_at),
        }
    }
}

/// Mathematical value of a stored sensor record.
pub ghost struct SensorV {
    pub id: int,
    pub name: Seq<char>,
    pub ty: Seq<char>,
    pub location: Option<Seq<char>>,
    pub unit: Option<Seq<char>>,
    pub threshold_min: Option<int>,
    pub threshold_max: Option<int>,
    pub calibration_date: Option<int>,
    pub notes: Option<Seq<char>>,
    pub created_at: int,
    pub updated_at: int,
}

impl View for SensorResponse {
    type V = SensorV;

    open spec fn view(&self) -> SensorV {
        SensorV {
            id: self.sensor_id as int,
            name: self.sensor_name@,
            ty: self.sensor_type@,
            location: opt_text(self.location),
            unit: opt_text(self.unit),
            threshold_min: opt_int(self.threshold_min),
            threshold_max: opt_int(self.threshold_max),
            calibration_date: opt_int(self.calibration_date),
            notes: opt_text(self.notes),
            created_at: self.created_at as int,
            updated_at: self.updated_at as int,
        }
    }
}

/// Equality filters for listing sensors; absent fields do not restrict.
#[derive(Debug, Clone)]
pub struct SensorQuery {
    pub sensor_type: Option<String>,
    pub location: Option<String>,
}

/// The record that `create` at time `now` adds for input `s` under id `id`.
pub open spec fn sensor_row_from(s: Sensor, id: int, now: int) -> SensorV {
    SensorV {
        id: id,
        name: s.sensor_name@,
        ty: s.sensor_type@,
        location: opt_text(s.location),
        unit: opt_text(s.unit),
        threshold_min: opt_int(s.threshold_min),
        threshold_max: opt_int(s.threshold_max),
        calibration_date: opt_int(s.calibration_date),
        notes: opt_text(s.notes),
        created_at: now,
        updated_at: now,
    }
}

/// The record that `update` at time `now` leaves for a sensor whose stored
/// record was `prev`: every caller-supplied field replaces the stored one
/// (clearing to absent included), the id and creation timestamp are kept,
/// and the update timestamp is refreshed.
pub open spec fn sensor_row_updated(s: Sensor, prev: SensorV, now: int) -> SensorV {
    SensorV {
        id: prev.id,
        name: s.sensor_name@,
        ty: s.sensor_type@,
        location: opt_text(s.location),
        unit: opt_text(s.unit),
        threshold_min: opt_int(s.threshold_min),
        threshold_max: opt_int(s.threshold_max),
        calibration_date: opt_int(s.calibration_date),
        notes: opt_text(s.notes),
        created_at: prev.created_at,
        updated_at: now,
    }
}

impl SensorResponse {
    /// Copy of this record, carrying the same mathematical value.
    pub fn duplicate(&self) -> (r: SensorResponse)
        ensures
            r@ == self@,
    {
        SensorResponse {
            sensor_id: self.sensor_id,
            sensor_name: self.sensor_name.clone(),
            sensor_type: self.sensor_type.clone(),
            location: crate::store::clone_opt_text(&self.location),
            unit: crate::store::clone_opt_text(&self.unit),
            threshold_min: self.threshold_min,
            threshold_max: self.threshold_max,
            calibration_date: self.calibration_date,
            notes: crate::store::clone_opt_text(&self.notes),
            created_at: self.created_at,
            updated_at: self.updated_at,
        }
    }
}

/// Whether a stored sensor passes the equality filters of a query.
pub open spec fn sensor_matches(q: SensorQuery) -> spec_fn(SensorV) -> bool {
    |s: SensorV|
        (q.sensor_type matches Some(t) ==> s.ty == t@) && (q.location matches Some(l) ==> s.location
            == Some(l@))
}

impl Sensor {
    /// Build the stored record for this input.
    fn materialize(&self, id: i64, now: i64) -> (r: SensorResponse)
        ensures
            r@ == sensor_row_from(*self, id as int, now as int),
    {
        SensorResponse {
            sensor_id: id,
            sensor_name: self.sensor_name.clone(),
            sensor_type: self.sensor_type.clone(),
            location: crate::store::clone_opt_text(&self.location),
            unit: crate::store::clone_opt_text(&self.unit),
            threshold_min: self.threshold_min,
            threshold_max: self.threshold_max,
            calibration_date: self.calibration_date,
            notes: crate::store::clone_opt_text(&self.notes),
            created_at: now,
            updated_at: now,
        }
    }

    /// Create a sensor, assigning the next id and the current time as both
    /// timestamps. The new record is appended; nothing else changes.
    pub fn create(&self, store: &mut Store) -> (r: Result<i64, AppError>)
        requires
            old(store)@.inv(),
            old(store)@.next_sensor_id < i64::MAX as int,
        ensures
            final(store)@.inv(),
            r is Ok,
            r->Ok_0 as int == old(store)@.next_sensor_id,
            ({
                let row = final(store)@.sensors.last();
                &&& row == sensor_row_from(*self, old(store)@.next_sensor_id, row.created_at)
                &&& row.created_at == row.updated_at
                &&& row.created_at >= 0
                &&& final(store)@.sensors == old(store)@.sensors.push(row)
            }),
            final(store)@.readings == old(store)@.readings,
            final(store)@.sessions == old(store)@.sessions,
            final(store)@.next_sensor_id == old(store)@.next_sensor_id + 1,
            final(store)@.next_reading_id == old(store)@.next_reading_id,
            final(store)@.next_session_id == old(store)@.next_session_id,
            final(store)@.schema_version == old(store)@.schema_version,
    {
        let now = current_timestamp();
        self.create_at(store, now)
    }

    /// `create` with the clock reading passed in.
    pub fn create_at(&self, store: &mut Store, now: i64) -> (r: Result<i64, AppError>)
        requires
            old(store)@.inv(),
            old(store)@.next_sensor_id < i64::MAX as int,
        ensures
            final(store)@.inv(),
            r is Ok,
            r->Ok_0 as int == old(store)@.next_sensor_id,
            final(store)@.sensors == old(store)@.sensors.push(
                sensor_row_from(*self, old(store)@.next_sensor_id, now as int),
            ),
            final(store)@.readings == old(store)@.readings,
            final(store)@.sessions == old(store)@.sessions,
            final(store)@.next_sensor_id == old(store)@.next_sensor_id + 1,
            final(store)@.next_reading_id == old(store)@.next_reading_id,
            final(store)@.next_session_id == old(store)@.next_session_id,
            final(store)@.schema_version == old(store)@.schema_version,
    {
        let id = store.next_sensor_id;
        let row = self.materialize(id, now);
        let ghost pre = store@;
        let ghost rowv = row@;
        store.sensors.push(row);
        store.next_sensor_id = id + 1;
        proof {
            let post = store@;
            assert(post.sensors =~= pre.sensors.push(rowv));
            assert(post.readings =~= pre.readings);
            assert(post.sessions =~= pre.sessions);
            assert forall|i: int|
                0 <= i < post.readings.len() implies sensor_exists(
                post.sensors,
                (#[trigger] post.readings[i]).sensor_id,
            ) by {
                assert(sensor_exists(pre.sensors, pre.readings[i].sensor_id));
                let k = choose|k: int|
                    0 <= k < pre.sensors.len() && (#[trigger] pre.sensors[k]).id
                        == pre.readings[i].sensor_id;
                assert(post.sensors[k].id == post.readings[i].sensor_id);
            }
            assert forall|i: int|
                0 <= i < post.sessions.len() implies sensor_exists(
                post.sensors,
                (#[trigger] post.sessions[i]).sensor_id,
            ) by {
                assert(sensor_exists(pre.sensors, pre.sessions[i].sensor_id));
                let k = choose|k: int|
                    0 <= k < pre.sensors.len() && (#[trigger] pre.sensors[k]).id
                        == pre.sessions[i].sensor_id;
                assert(post.sensors[k].id == post.sessions[i].sensor_id);
            }
        }
        Ok(id)
    }

    /// Fetch a sensor by id; `NotFound` exactly when no record carries it.
    pub fn get_by_id(store: &Store, id: i64) -> (r: Result<SensorResponse, AppError>)
        requires
            store@.inv(),
        ensures
            (r is Ok) <==> lookup_sensor(store@.sensors, id as int) is Some,
            r is Ok ==> r->Ok_0@ == lookup_sensor(store@.sensors, id as int)->Some_0,
            r is Err ==> r->Err_0 is NotFound,
    {
        let n = store.sensors.len();
        let mut i: usize = 0;
        while i < n
            invariant
                n == store.sensors.len(),
                i <= n,
                forall|j: int| 0 <= j < i ==> (#[trigger] store@.sensors[j]).id != id as int,
            decreases n - i,
        {
            if store.sensors[i].sensor_id == id {
                let row = store.sensors[i].duplicate();
                proof {
                    lemma_lookup_sensor_at(store@.sensors, id as int, i as int);
                }
                return Ok(row);
            }
            i = i + 1;
        }
        proof {
            lemma_lookup_sensor_none(store@.sensors, id as int);
        }
        Err(AppError::NotFound(String::from_str("Sensor not found")))
    }

    /// List sensors, keeping exactly those that pass the query's equality
    /// filters, in storage order.
    pub fn get_all(store: &Store, query: &SensorQuery) -> (r: Result<
        Vec<SensorResponse>,
        AppError,
    >)
        requires
            store@.inv(),
        ensures
            r is Ok,
            r->Ok_0@.map_values(|x: SensorResponse| x@) == store@.sensors.filter(
                sensor_matches(*query),
            ),
    {
        let ghost pred = sensor_matches(*query);
        let n = store.sensors.len();
        let mut out: Vec<SensorResponse> = Vec::new();
        let mut i: usize = 0;
        while i < n
            invariant
                n == store.sensors.len(),
                i <= n,
                out@.map_values(|x: SensorResponse| x@) == store@.sensors.take(i as int).filter(
                    pred,
                ),
            decreases n - i,
        {
            let row = &store.sensors[i];
            let type_ok = match &query.sensor_type {
                Some(t) => *t == row.sensor_type,
                None => true,
            };
            let loc_ok = match (&query.location, &row.location) {
                (Some(l), Some(rl)) => *l == *rl,
                (Some(_), None) => false,
                (None, _) => true,
            };
            proof {
                assert(store@.sensors.take(i as int + 1) =~= store@.sensors.take(i as int).push(
                    store@.sensors[i as int],
                ));
                store@.sensors.take(i as int).lemma_filter_push(store@.sensors[i as int], pred);
            }
            if type_ok && loc_ok {
                let copy = row.duplicate();
                let ghost out_pre = out@;
                out.push(copy);
                proof {
                    assert(out@.map_values(|x: SensorResponse| x@) =~= out_pre.map_values(
                        |x: SensorResponse| x@,
                    ).push(copy@));
                }
            }
            i = i + 1;
        }
        proof {
            assert(store@.sensors.take(n as int) =~= store@.sensors);
        }
        Ok(out)
    }

    /// Update the sensor with the given id: every caller-supplied field
    /// replaces the stored one, the creation timestamp is kept, and the
    /// update timestamp becomes the current time. `NotFound` exactly when
    /// the id is absent, and then the store is unchanged.
    pub fn update(&self, store: &mut Store, id: i64) -> (r: Result<(), AppError>)
        requires
            old(store)@.inv(),
        ensures
            final(store)@.inv(),
            (r is Ok) <==> sensor_exists(old(store)@.sensors, id as int),
            r is Err ==> final(store)@ == old(store)@ && r->Err_0 is NotFound,
            r is Ok ==> ({
                let i = sensor_index(old(store)@.sensors, id as int);
                let row = final(store)@.sensors[i];
                &&& row == sensor_row_updated(*self, old(store)@.sensors[i], row.updated_at)
                &&& row.updated_at >= 0
                &&& final(store)@.sensors == old(store)@.sensors.update(i, row)
            }),
            final(store)@.readings == old(store)@.readings,
            final(store)@.sessions == old(store)@.sessions,
            final(store)@.next_sensor_id == old(store)@.next_sensor_id,
            final(store)@.next_reading_id == old(store)@.next_reading_id,
            final(store)@.next_session_id == old(store)@.next_session_id,
            final(store)@.schema_version == old(store)@.schema_version,
    {
        let now = current_timestamp();
        self.update_at(store, id, now)
    }

    /// `update` with the clock reading passed in.
    pub fn update_at(&self, store: &mut Store, id: i64, now: i64) -> (r: Result<(), AppError>)
        requires
            old(store)@.inv(),
        ensures
            final(store)@.inv(),
            (r is Ok) <==> sensor_exists(old(store)@.sensors, id as int),
            r is Err ==> final(store)@ == old(store)@ && r->Err_0 is NotFound,
            r is Ok ==> ({
                let i = sensor_index(old(store)@.sensors, id as int);
                &&& final(store)@.sensors == old(store)@.sensors.update(
                    i,
                    sensor_row_updated(*self, old(store)@.sensors[i], now as int),
                )
            }),
            r is Ok ==> sensor_index(old(store)@.sensors, id as int) == sensor_index(
                final(store)@.sensors,
                id as int,
            ),
            final(store)@.readings == old(store)@.readings,
            final(store)@.sessions == old(store)@.sessions,
            final(store)@.next_sensor_id == old(store)@.next_sensor_id,
            final(store)@.next_reading_id == old(store)@.next_reading_id,
            final(store)@.next_session_id == old(store)@.next_session_id,
            final(store)@.schema_version == old(store)@.schema_version,
    {
        let n = store.sensors.len();
        let mut i: usize = 0;
        while i < n
            invariant
                n == store.sensors.len(),
                i <= n,
                store@ == old(store)@,
                forall|j: int| 0 <= j < i ==> (#[trigger] store@.sensors[j]).id != id as int,
            decreases n - i,
        {
            if store.sensors[i].sensor_id == id {
                let ghost pre = store@;
                let prev_created = store.sensors[i].created_at;
                let mut row = self.materialize(id, now);
                row.created_at = prev_created;
                let ghost rowv = row@;
                store.sensors.set(i, row);
                proof {
                    let post = store@;
                    assert(post.sensors =~= pre.sensors.update(i as int, rowv));
                    assert(post.readings =~= pre.readings);
                    assert(post.sessions =~= pre.sessions);
                    assert(rowv == sensor_row_updated(*self, pre.sensors[i as int], now as int));
                    lemma_sensor_index_is(pre.sensors, id as int, i as int);
                    lemma_sensor_index_is(post.sensors, id as int, i as int);
                    assert forall|k: int|
                        0 <= k < post.readings.len() implies sensor_exists(
                        post.sensors,
                        (#[trigger] post.readings[k]).sensor_id,
                    ) by {
                        lemma_exists_after_update(pre.sensors, i as int, rowv, pre.readings[k].sensor_id, id as int);
                    }
                    assert forall|k: int|
                        0 <= k < post.sessions.len() implies sensor_exists(
                        post.sensors,
                        (#[trigger] post.sessions[k]).sensor_id,
                    ) by {
                        lemma_exists_after_update(pre.sensors, i as int, rowv, pre.sessions[k].sensor_id, id as int);
                    }
                }
                return Ok(());
            }
            i = i + 1;
        }
        Err(AppError::NotFound(String::from_str("Sensor not found or no changes made")))
    }

    /// Delete the sensor with the given id, cascading to its readings and
    /// sessions. `NotFound` exactly when the id is absent, and then the
    /// store is unchanged.
    pub fn delete(store: &mut Store, id: i64) -> (r: Result<(), AppError>)
        requires
            old(store)@.inv(),
        ensures
            final(store)@.inv(),
            (r is Ok) <==> sensor_exists(old(store)@.sensors, id as int),
            r is Err ==> final(store)@ == old(store)@ && r->Err_0 is NotFound,
            r is Ok ==> final(store)@.sensors == old(store)@.sensors.filter(
                |s: SensorV| s.id != id as int,
            ),
            r is Ok ==> final(store)@.readings == old(store)@.readings.filter(
                |x: ReadingV| x.sensor_id != id as int,
            ),
            r is Ok ==> final(store)@.sessions == old(store)@.sessions.filter(
                |x: SessionV| x.sensor_id != id as int,
            ),
            final(store)@.next_sensor_id == old(store)@.next_sensor_id,
            final(store)@.next_reading_id == old(store)@.next_reading_id,
            final(store)@.next_session_id == old(store)@.next_session_id,
            final(store)@.schema_version == old(store)@.schema_version,
    {
        let found = sensor_known(store, id);
        if !found {
            proof {
                lemma_lookup_sensor_none(store@.sensors, id as int);
            }
            return Err(AppError::NotFound(String::from_str("Sensor not found")));
        }
        let ghost pre = store@;
        let ghost sens_pred = |s: SensorV| s.id != id as int;
        let ghost read_pred = |x: ReadingV| x.sensor_id != id as int;
        let ghost sess_pred = |x: SessionV| x.sensor_id != id as int;

        let n = store.sensors.len();
        let mut kept_sensors: Vec<SensorResponse> = Vec::new();
        let mut i: usize = 0;
        while i < n
            invariant
                n == store.sensors.len(),
                i <= n,
                store@ == pre,
                kept_sensors@.map_values(|x: SensorResponse| x@) == pre.sensors.take(
                    i as int,
                ).filter(sens_pred),
            decreases n - i,
        {
            proof {
                assert(pre.sensors.take(i as int + 1) =~= pre.sensors.take(i as int).push(
                    pre.sensors[i as int],
                ));
                pre.sensors.take(i as int).lemma_filter_push(pre.sensors[i as int], sens_pred);
            }
            if store.sensors[i].sensor_id != id {
                let copy = store.sensors[i].duplicate();
                let ghost out_pre = kept_sensors@;
                kept_sensors.push(copy);
                proof {
                    assert(kept_sensors@.map_values(|x: SensorResponse| x@) =~= out_pre.map_values(
                        |x: SensorResponse| x@,
                    ).push(copy@));
                }
            }
            i = i + 1;
        }

        let m = store.readings.len();
        let mut kept_readings: Vec<ReadingResponse> = Vec::new();
        let mut j: usize = 0;
        while j < m
            invariant
                m == store.readings.len(),
                j <= m,
                store@ == pre,
                kept_readings@.map_values(|x: ReadingResponse| x@) == pre.readings.take(
                    j as int,
                ).filter(read_pred),
            decreases m - j,
        {
            proof {
                assert(pre.readings.take(j as int + 1) =~= pre.readings.take(j as int).push(
                    pre.readings[j as int],
                ));
                pre.readings.take(j as int).lemma_filter_push(pre.readings[j as int], read_pred);
            }
            if store.readings[j].sensor_id != id {
                let copy = store.readings[j].duplicate();
                let ghost out_pre = kept_readings@;
                kept_readings.push(copy);
                proof {
                    assert(kept_readings@.map_values(|x: ReadingResponse| x@) =~= out_pre.map_values(
                        |x: ReadingResponse| x@,
                    ).push(copy@));
                }
            }
            j = j + 1;
        }

        let p = store.sessions.len();
        let mut kept_sessions: Vec<LoggingSessionResponse> = Vec::new();
        let mut k: usize = 0;
        while k < p
            invariant
                p == store.sessions.len(),
                k <= p,
                store@ == pre,
                kept_sessions@.map_values(|x: LoggingSessionResponse| x@) == pre.sessions.take(
                    k as int,
                ).filter(sess_pred),
            decreases p - k,
        {
            proof {
                assert(pre.sessions.take(k as int + 1) =~= pre.sessions.take(k as int).push(
                    pre.sessions[k as int],
                ));
                pre.sessions.take(k as int).lemma_filter_push(pre.sessions[k as int], sess_pred);
            }
            if store.sessions[k].sensor_id != id {
                let copy = store.sessions[k].duplicate();
                let ghost out_pre = kept_sessions@;
                kept_sessions.push(copy);
                proof {
                    assert(kept_sessions@.map_values(|x: LoggingSessionResponse| x@)
                        =~= out_pre.map_values(|x: LoggingSessionResponse| x@).push(copy@));
                }
            }
            k = k + 1;
        }

        store.sensors = kept_sensors;
        store.readings = kept_readings;
        store.sessions = kept_sessions;
        proof {
            assert(pre.sensors.take(n as int) =~= pre.sensors);
            assert(pre.readings.take(m as int) =~= pre.readings);
            assert(pre.sessions.take(p as int) =~= pre.sessions);
            let post = store@;
            lemma_filter_pairwise(
                pre.sensors,
                sens_pred,
                |a: SensorV, b: SensorV| a.id != b.id,
            );
            lemma_filter_elem(
                pre.sensors,
                sens_pred,
                |a: SensorV| 0 < a.id < pre.next_sensor_id,
            );
            lemma_filter_pairwise(
                pre.readings,
                read_pred,
                |a: ReadingV, b: ReadingV| a.id != b.id,
            );
            lemma_filter_elem(
                pre.readings,
                read_pred,
                |a: ReadingV| 0 < a.id < pre.next_reading_id,
            );
            lemma_filter_elem(
                pre.readings,
                read_pred,
                |a: ReadingV| a.value is Some || a.state is Some,
            );
            lemma_filter_pairwise(
                pre.sessions,
                sess_pred,
                |a: SessionV, b: SessionV| a.id != b.id,
            );
            lemma_filter_elem(
                pre.sessions,
                sess_pred,
                |a: SessionV| 0 < a.id < pre.next_session_id,
            );
            lemma_filter_pairwise(
                pre.sessions,
                sess_pred,
                |a: SessionV, b: SessionV| a.sensor_id == b.sensor_id ==> !(a.active && b.active),
            );
            lemma_filter_elem(
                pre.sessions,
                sess_pred,
                |a: SessionV| a.active == (a.end_time is None),
            );
            assert forall|q: int|
                0 <= q < post.readings.len() implies sensor_exists(
                post.sensors,
                (#[trigger] post.readings[q]).sensor_id,
            ) by {
                lemma_exists_after_remove(pre.sensors, pre.readings, read_pred, sens_pred, q, id as int);
            }
            assert forall|q: int|
                0 <= q < post.sessions.len() implies sensor_exists(
                post.sensors,
                (#[trigger] post.sessions[q]).sensor_id,
            ) by {
                lemma_exists_after_remove_sess(pre.sensors, pre.sessions, sess_pred, sens_pred, q, id as int);
            }
        }
        Ok(())
    }
}

/// Law: a sensor created and then fetched by its generated id yields
/// exactly the input fields plus that id, with equal creation and update
/// timestamps. The hypotheses are the postcondition of `create_at`; the
/// conclusion is what `get_by_id` then returns.
pub proof fn lemma_create_then_get(pre: StoreV, post: StoreV, input: Sensor, now: int)
    requires
        pre.inv(),
        post.sensors == pre.sensors.push(sensor_row_from(input, pre.next_sensor_id, now)),
    ensures
        lookup_sensor(post.sensors, pre.next_sensor_id) == Some(
            sensor_row_from(input, pre.next_sensor_id, now),
        ),
        sensor_row_from(input, pre.next_sensor_id, now).created_at == sensor_row_from(
            input,
            pre.next_sensor_id,
            now,
        ).updated_at,
{
    let id = pre.next_sensor_id;
    assert forall|j: int| 0 <= j < pre.sensors.len() implies (#[trigger] post.sensors[j]).id
        != id by {
        assert(post.sensors[j] == pre.sensors[j]);
    }
    lemma_lookup_sensor_at(post.sensors, id, pre.sensors.len() as int);
}

/// Law: updating a sensor leaves its update timestamp strictly beyond
/// its creation timestamp whenever the clock has moved past the moment
/// of creation. The hypotheses are the postcondition of `update_at`.
pub proof fn lemma_update_refreshes_timestamp(
    pre: StoreV,
    post: StoreV,
    input: Sensor,
    id: int,
    now: int,
)
    requires
        pre.inv(),
        sensor_exists(pre.sensors, id),
        post.sensors == pre.sensors.update(
            sensor_index(pre.sensors, id),
            sensor_row_updated(input, pre.sensors[sensor_index(pre.sensors, id)], now),
        ),
        now > pre.sensors[sensor_index(pre.sensors, id)].created_at,
    ensures
        post.sensors[sensor_index(pre.sensors, id)].updated_at > post.sensors[sensor_index(
            pre.sensors,
            id,
        )].created_at,
{
}

/// Whether some stored sensor carries the given id.
pub(crate) fn sensor_known(store: &Store, id: i64) -> (b: bool)
    ensures
        b == sensor_exists(store@.sensors, id as int),
{
    let n = store.sensors.len();
    let mut i: usize = 0;
    while i < n
        invariant
            n == store.sensors.len(),
            i <= n,
            forall|j: int| 0 <= j < i ==> (#[trigger] store@.sensors[j]).id != id as int,
        decreases n - i,
    {
        if store.sensors[i].sensor_id == id {
            proof {
                assert(store@.sensors[i as int].id == id as int);
            }
            return true;
        }
        i = i + 1;
    }
    false
}

/// The index of the sensor with the given id.
pub open spec fn sensor_index(sensors: Seq<SensorV>, id: int) -> int {
    choose|i: int| 0 <= i < sensors.len() && (#[trigger] sensors[i]).id == id
}

/// Under unique ids, `sensor_index` is exactly the index that carries the
/// id.
pub proof fn lemma_sensor_index_is(sensors: Seq<SensorV>, id: int, i: int)
    requires
        0 <= i < sensors.len(),
        sensors[i].id == id,
        forall|a: int, b: int|
            0 <= a < b < sensors.len() ==> (#[trigger] sensors[a]).id != (#[trigger] sensors[b]).id,
    ensures
        sensor_index(sensors, id) == i,
        sensor_exists(sensors, id),
{
    assert(sensor_exists(sensors, id));
    let w = sensor_index(sensors, id);
    if w != i {
        if w < i {
            assert(sensors[w].id != sensors[i].id);
        } else {
            assert(sensors[i].id != sensors[w].id);
        }
    }
}

/// A sensor id that survives an in-place record update (of a possibly
/// different sensor, or of the same sensor keeping its id) still exists.
proof fn lemma_exists_after_update(
    sensors: Seq<SensorV>,
    i: int,
    row: SensorV,
    want: int,
    id: int,
)
    requires
        0 <= i < sensors.len(),
        sensors[i].id == id,
        row.id == id,
        sensor_exists(sensors, want),
    ensures
        sensor_exists(sensors.update(i, row), want),
{
    let k = choose|k: int| 0 <= k < sensors.len() && (#[trigger] sensors[k]).id == want;
    if k == i {
        assert(sensors.update(i, row)[i].id == want);
    } else {
        assert(sensors.update(i, row)[k].id == want);
    }
}

/// After a cascade delete, every kept reading still references a kept
/// sensor.
proof fn lemma_exists_after_remove(
    sensors: Seq<SensorV>,
    readings: Seq<ReadingV>,
    read_pred: spec_fn(ReadingV) -> bool,
    sens_pred: spec_fn(SensorV) -> bool,
    q: int,
    id: int,
)
    requires
        forall|x: ReadingV| #[trigger] read_pred(x) == (x.sensor_id != id),
        forall|s: SensorV| #[trigger] sens_pred(s) == (s.id != id),
        0 <= q < readings.filter(read_pred).len(),
        forall|i: int|
            0 <= i < readings.len() ==> sensor_exists(
                sensors,
                (#[trigger] readings[i]).sensor_id,
            ),
    ensures
        sensor_exists(
            sensors.filter(sens_pred),
            readings.filter(read_pred)[q].sensor_id,
        ),
{
    let kept = readings.filter(read_pred);
    assert(kept.contains(kept[q]));
    readings.lemma_filter_contains_rev(read_pred, kept[q]);
    let ri = choose|ri: int| 0 <= ri < readings.len() && readings[ri] == kept[q];
    assert(sensor_exists(sensors, readings[ri].sensor_id));
    let k = choose|k: int|
        0 <= k < sensors.len() && (#[trigger] sensors[k]).id == readings[ri].sensor_id;
    readings.lemma_filter_pred(read_pred, q);
    assert(kept[q].sensor_id != id);
    assert(sens_pred(sensors[k]));
    sensors.lemma_filter_contains(sens_pred, k);
    let f = sensors.filter(sens_pred);
    let w = choose|w: int| 0 <= w < f.len() && f[w] == sensors[k];
    assert(f[w].id == kept[q].sensor_id);
}

/// After a cascade delete, every kept session still references a kept
/// sensor.
proof fn lemma_exists_after_remove_sess(
    sensors: Seq<SensorV>,
    sessions: Seq<SessionV>,
    sess_pred: spec_fn(SessionV) -> bool,
    sens_pred: spec_fn(SensorV) -> bool,
    q: int,
    id: int,
)
    requires
        forall|x: SessionV| #[trigger] sess_pred(x) == (x.sensor_id != id),
        forall|s: SensorV| #[trigger] sens_pred(s) == (s.id != id),
        0 <= q < sessions.filter(sess_pred).len(),
        forall|i: int|
            0 <= i < sessions.len() ==> sensor_exists(
                sensors,
                (#[trigger] sessions[i]).sensor_id,
            ),
    ensures
        sensor_exists(
            sensors.filter(sens_pred),
            sessions.filter(sess_pred)[q].sensor_id,
        ),
{
    let kept = sessions.filter(sess_pred);
    assert(kept.contains(kept[q]));
    sessions.lemma_filter_contains_rev(sess_pred, kept[q]);
    let ri = choose|ri: int| 0 <= ri < sessions.len() && sessions[ri] == kept[q];
    assert(sensor_exists(sensors, sessions[ri].sensor_id));
    let k = choose|k: int|
        0 <= k < sensors.len() && (#[trigger] sensors[k]).id == sessions[ri].sensor_id;
    sessions.lemma_filter_pred(sess_pred, q);
    assert(kept[q].sensor_id != id);
    assert(sens_pred(sensors[k]));
    sensors.lemma_filter_contains(sens_pred, k);
    let f = sensors.filter(sens_pred);
    let w = choose|w: int| 0 <= w < f.len() && f[w] == sensors[k];
    assert(f[w].id == kept[q].sensor_id);
}

} // verus!
