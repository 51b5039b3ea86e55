//! Logging sessions: bounded intervals of active collection per sensor.

use vstd::prelude::*;

use crate::error::AppError;
use crate::store::{opt_int, opt_text, sensor_exists, Store};
use crate::time::current_timestamp;
use vstd::multiset::Multiset;

verus! {

/// Caller-supplied session, as handed to `start`. `session_id` is ignored
/// on input; an absent `start_time` defaults to the time of the call.
#[derive(Debug, Clone)]
pub struct LoggingSession {
    pub session_id: Option<i64>,
    pub sensor_id: i64,
    pub start_time: Option<i64>,
    pub end_time: Option<i64>,
    pub sample_rate: Option<i64>,
    pub notes: Option<String>,
}

/// A stored session, as returned by reads. `is_active` is derived:
/// it holds exactly when the end time is absent.
#[derive(Debug, Clone)]
pub struct LoggingSessionResponse {
    pub session_id: i64,
    pub sensor_id: i64,
    pub start_time: i64,
    pub end_time: Option<i64>,
    pub sample_rate: Option<i64>,
    pub notes: Option<String>,
    pub is_active: bool,
}

/// Mathematical value of a stored session.
pub ghost struct SessionV {
    pub id: int,
    pub sensor_id: int,
    pub start_time: int,
    pub end_time: Option<int>,
    pub sample_rate: Option<int>,
    pub notes: Option<Seq<char>>,
    pub active: bool,
}

impl View for LoggingSessionResponse {
    type V = SessionV;

    open spec fn view(&self) -> SessionV {
        SessionV {
            id: self.session_id as int,
            sensor_id: self.sensor_id as int,
            start_time: self.start_time as int,
            end_time: opt_int(self.end_time),
            sample_rate: opt_int(self.sample_rate),
            notes: opt_text(self.notes),
            active: self.is_active,
        }
    }
}

impl LoggingSessionResponse {
    /// Copy of this record, carrying the same mathematical value.
    pub fn duplicate(&self) -> (r: LoggingSessionResponse)
        ensures
            r@ == self@,
    {
        LoggingSessionResponse {
            session_id: self.session_id,
            sensor_id: self.sensor_id,
            start_time: self.start_time,
            end_time: self.end_time,
            sample_rate: self.sample_rate,
            notes: crate::store::clone_opt_text(&self.notes),
            is_active: self.is_active,
        }
    }
}

/// Some stored session of this sensor is still active.
pub open spec fn has_active_session(sessions: Seq<SessionV>, sensor_id: int) -> bool {
    exists|k: int|
        0 <= k < sessions.len() && (#[trigger] sessions[k]).sensor_id == sensor_id
            && sessions[k].active
}

/// The index of the active session of this sensor. Under the store
/// invariant there is at most one.
pub open spec fn active_index(sessions: Seq<SessionV>, sensor_id: int) -> int {
    choose|k: int|
        0 <= k < sessions.len() && (#[trigger] sessions[k]).sensor_id == sensor_id
            && sessions[k].active
}

/// The record that `start` at time `now` adds for input `s` under id
/// `id`: an absent start time defaults to `now`, and the session is
/// active exactly when no end time was supplied.
pub open spec fn session_row_from(s: LoggingSession, id: int, now: int) -> SessionV {
    SessionV {
        id: id,
        sensor_id: s.sensor_id as int,
        start_time: match s.start_time {
            Some(t) => t as int,
            None => now,
        },
        end_time: opt_int(s.end_time),
        sample_rate: opt_int(s.sample_rate),
        notes: opt_text(s.notes),
        active: s.end_time is None,
    }
}

/// The record left when a session is ended at time `now`.
pub open spec fn session_row_ended(s: SessionV, now: int) -> SessionV {
    SessionV { end_time: Some(now), active: false, ..s }
}

/// Descending start-time order with the session id as tie-break: the
/// order in which session listings are returned.
pub open spec fn session_before(a: SessionV, b: SessionV) -> bool {
    a.start_time > b.start_time || (a.start_time == b.start_time && a.id <= b.id)
}

/// `session_before` as an order relation.
pub open spec fn session_leq() -> spec_fn(SessionV, SessionV) -> bool {
    |a: SessionV, b: SessionV| session_before(a, b)
}

/// Under unique ids and at most one active session per sensor, the found
/// active index is the only one.
proof fn lemma_active_index_is(sessions: Seq<SessionV>, sensor_id: int, i: int)
    requires
        0 <= i < sessions.len(),
        sessions[i].sensor_id == sensor_id,
        sessions[i].active,
        forall|a: int, b: int|
            0 <= a < b < sessions.len() && (#[trigger] sessions[a]).sensor_id == (
            #[trigger] sessions[b]).sensor_id ==> !(sessions[a].active && sessions[b].active),
    ensures
        active_index(sessions, sensor_id) == i,
        has_active_session(sessions, sensor_id),
{
    assert(has_active_session(sessions, sensor_id));
    let w = active_index(sessions, sensor_id);
    if w != i {
        if w < i {
            assert(!(sessions[w].active && sessions[i].active));
        } else {
            assert(!(sessions[i].active && sessions[w].active));
        }
    }
}

impl LoggingSession {
    /// Build the stored record for this input.
    fn materialize(&self, id: i64, now: i64) -> (r: LoggingSessionResponse)
        ensures
            r@ == session_row_from(*self, id as int, now as int),
    {
        let start_time = match self.start_time {
            Some(t) => t,
            None => now,
        };
        LoggingSessionResponse {
            session_id: id,
            sensor_id: self.sensor_id,
            start_time,
            end_time: self.end_time,
            sample_rate: self.sample_rate,
            notes: crate::store::clone_opt_text(&self.notes),
            is_active: self.end_time.is_none(),
        }
    }

    /// Start a logging session: `Conflict` exactly when the sensor already
    /// has an active session, otherwise `BadRequest` exactly when the
    /// sensor does not exist; on success the new record is appended and
    /// nothing else changes.
    pub fn start(&self, store: &mut Store) -> (r: Result<i64, AppError>)
        requires
            old(store)@.inv(),
            old(store)@.next_session_id < i64::MAX as int,
        ensures
            final(store)@.inv(),
            (r is Err && r->Err_0 is Conflict) <==> has_active_session(
                old(store)@.sessions,
                self.sensor_id as int,
            ),
            (r is Err && r->Err_0 is BadRequest) <==> (!has_active_session(
                old(store)@.sessions,
                self.sensor_id as int,
            ) && !sensor_exists(old(store)@.sensors, self.sensor_id as int)),
            (r is Ok) <==> (!has_active_session(old(store)@.sessions, self.sensor_id as int)
                && sensor_exists(old(store)@.sensors, self.sensor_id as int)),
            r is Err ==> final(store)@ == old(store)@,
            r is Ok ==> ({
                let row = final(store)@.sessions.last();
                &&& r->Ok_0 as int == old(store)@.next_session_id
                &&& row == session_row_from(*self, old(store)@.next_session_id, row.start_time)
                &&& final(store)@.sessions == old(store)@.sessions.push(row)
                &&& self.start_time is Some ==> row.start_time == self.start_time->0 as int
                &&& row.start_time >= 0 || self.start_time is Some
                &&& final(store)@.next_session_id == old(store)@.next_session_id + 1
            }),
            final(store)@.sensors == old(store)@.sensors,
            final(store)@.readings == old(store)@.readings,
            final(store)@.next_sensor_id == old(store)@.next_sensor_id,
            final(store)@.next_reading_id == old(store)@.next_reading_id,
            final(store)@.schema_version == old(store)@.schema_version,
    {
        let now = current_timestamp();
        self.start_at(store, now)
    }

    /// `start` with the clock reading passed in.
    pub fn start_at(&self, store: &mut Store, now: i64) -> (r: Result<i64, AppError>)
        requires
            old(store)@.inv(),
            old(store)@.next_session_id < i64::MAX as int,
        ensures
            final(store)@.inv(),
            (r is Err && r->Err_0 is Conflict) <==> has_active_session(
                old(store)@.sessions,
                self.sensor_id as int,
            ),
            (r is Err && r->Err_0 is BadRequest) <==> (!has_active_session(
                old(store)@.sessions,
                self.sensor_id as int,
            ) && !sensor_exists(old(store)@.sensors, self.sensor_id as int)),
            (r is Ok) <==> (!has_active_session(old(store)@.sessions, self.sensor_id as int)
                && sensor_exists(old(store)@.sensors, self.sensor_id as int)),
            r is Err ==> final(store)@ == old(store)@,
            r is Ok ==> r->Ok_0 as int == old(store)@.next_session_id,
            r is Ok ==> final(store)@.sessions == old(store)@.sessions.push(
                session_row_from(*self, old(store)@.next_session_id, now as int),
            ) && final(store)@.next_session_id == old(store)@.next_session_id + 1,
            final(store)@.sensors == old(store)@.sensors,
            final(store)@.readings == old(store)@.readings,
            final(store)@.next_sensor_id == old(store)@.next_sensor_id,
            final(store)@.next_reading_id == old(store)@.next_reading_id,
            final(store)@.schema_version == old(store)@.schema_version,
    {
        let n = store.sessions.len();
        let mut i: usize = 0;
        while i < n
            invariant
                n == store.sessions.len(),
                i <= n,
                forall|j: int|
                    0 <= j < i ==> !((#[trigger] store@.sessions[j]).sensor_id
                        == self.sensor_id as int && store@.sessions[j].active),
            decreases n - i,
        {
            if store.sessions[i].sensor_id == self.sensor_id && store.sessions[i].is_active {
                proof {
                    assert(store@.sessions[i as int].sensor_id == self.sensor_id as int
                        && store@.sessions[i as int].active);
                }
                return Err(
                    AppError::Conflict(
                        String::from_str("Sensor already has an active logging session"),
                    ),
                );
            }
            i = i + 1;
        }
        if !crate::sensor::sensor_known(store, self.sensor_id) {
            return Err(
                AppError::BadRequest(String::from_str("Referenced sensor does not exist")),
            );
        }
        let id = store.next_session_id;
        let row = self.materialize(id, now);
        let ghost pre = store@;
        let ghost rowv = row@;
        store.sessions.push(row);
        store.next_session_id = id + 1;
        proof {
            let post = store@;
            assert(post.sessions =~= pre.sessions.push(rowv));
            assert(post.sensors =~= pre.sensors);
            assert(post.readings =~= pre.readings);
            assert forall|k: int|
                0 <= k < post.sessions.len() implies sensor_exists(
                post.sensors,
                (#[trigger] post.sessions[k]).sensor_id,
            ) by {
                if k < pre.sessions.len() {
                    assert(sensor_exists(pre.sensors, pre.sessions[k].sensor_id));
                }
            }
        }
        Ok(id)
    }

    /// End the active session of a sensor: sets its end time to the
    /// current time and clears its active flag, touching no other record;
    /// `NotFound` exactly when the sensor has no active session, and then
    /// the store is unchanged.
    pub fn end(store: &mut Store, sensor_id: i64) -> (r: Result<(), AppError>)
        requires
            old(store)@.inv(),
        ensures
            final(store)@.inv(),
            (r is Ok) <==> has_active_session(old(store)@.sessions, sensor_id as int),
            r is Err ==> final(store)@ == old(store)@ && r->Err_0 is NotFound,
            r is Ok ==> ({
                let i = active_index(old(store)@.sessions, sensor_id as int);
                let row = final(store)@.sessions[i];
                &&& row == session_row_ended(old(store)@.sessions[i], row.end_time->0)
                &&& row.end_time->0 >= 0
                &&& final(store)@.sessions == old(store)@.sessions.update(i, row)
            }),
            final(store)@.sensors == old(store)@.sensors,
            final(store)@.readings == old(store)@.readings,
            final(store)@.next_sensor_id == old(store)@.next_sensor_id,
            final(store)@.next_reading_id == old(store)@.next_reading_id,
            final(store)@.next_session_id == old(store)@.next_session_id,
            final(store)@.schema_version == old(store)@.schema_version,
    {
        let now = current_timestamp();
        Self::end_at(store, sensor_id, now)
    }

    /// `end` with the clock reading passed in.
    pub fn end_at(store: &mut Store, sensor_id: i64, now: i64) -> (r: Result<(), AppError>)
        requires
            old(store)@.inv(),
        ensures
            final(store)@.inv(),
            (r is Ok) <==> has_active_session(old(store)@.sessions, sensor_id as int),
            r is Err ==> final(store)@ == old(store)@ && r->Err_0 is NotFound,
            r is Ok ==> ({
                let i = active_index(old(store)@.sessions, sensor_id as int);
                &&& final(store)@.sessions == old(store)@.sessions.update(
                    i,
                    session_row_ended(old(store)@.sessions[i], now as int),
                )
            }),
            final(store)@.sensors == old(store)@.sensors,
            final(store)@.readings == old(store)@.readings,
            final(store)@.next_sensor_id == old(store)@.next_sensor_id,
            final(store)@.next_reading_id == old(store)@.next_reading_id,
            final(store)@.next_session_id == old(store)@.next_session_id,
            final(store)@.schema_version == old(store)@.schema_version,
    {
        let n = store.sessions.len();
        let mut i: usize = 0;
        while i < n
            invariant
                n == store.sessions.len(),
                i <= n,
                store@ == old(store)@,
                forall|j: int|
                    0 <= j < i ==> !((#[trigger] store@.sessions[j]).sensor_id == sensor_id as int
                        && store@.sessions[j].active),
            decreases n - i,
        {
            if store.sessions[i].sensor_id == sensor_id && store.sessions[i].is_active {
                let ghost pre = store@;
                let mut row = store.sessions[i].duplicate();
                row.end_time = Some(now);
                row.is_active = false;
                let ghost rowv = row@;
                store.sessions.set(i, row);
                proof {
                    let post = store@;
                    assert(post.sessions =~= pre.sessions.update(i as int, rowv));
                    assert(post.sensors =~= pre.sensors);
                    assert(post.readings =~= pre.readings);
                    assert(rowv == session_row_ended(pre.sessions[i as int], now as int));
                    lemma_active_index_is(pre.sessions, sensor_id as int, i as int);
                    assert forall|k: int|
                        0 <= k < post.sessions.len() implies sensor_exists(
                        post.sensors,
                        (#[trigger] post.sessions[k]).sensor_id,
                    ) by {
                        assert(sensor_exists(pre.sensors, pre.sessions[k].sensor_id));
                        assert(post.sessions[k].sensor_id == pre.sessions[k].sensor_id);
                    }
                }
                return Ok(());
            }
            i = i + 1;
        }
        Err(AppError::NotFound(String::from_str("No active logging session found for this sensor")))
    }

    /// All sessions of a sensor, newest start time first.
    pub fn get_by_sensor(store: &Store, sensor_id: i64) -> (r: Result<
        Vec<LoggingSessionResponse>,
        AppError,
    >)
        requires
            store@.inv(),
        ensures
            r is Ok,
            vstd::relations::sorted_by(
                r->Ok_0@.map_values(|x: LoggingSessionResponse| x@),
                session_leq(),
            ),
            r->Ok_0@.map_values(|x: LoggingSessionResponse| x@).to_multiset()
                == store@.sessions.filter(
                |s: SessionV| s.sensor_id == sensor_id as int,
            ).to_multiset(),
    {
        let ghost pred = |s: SessionV| s.sensor_id == sensor_id as int;
        let n = store.sessions.len();
        let mut picked: Vec<LoggingSessionResponse> = Vec::new();
        let mut i: usize = 0;
        while i < n
            invariant
                n == store.sessions.len(),
                i <= n,
                picked@.map_values(|x: LoggingSessionResponse| x@) == store@.sessions.take(
                    i as int,
                ).filter(pred),
            decreases n - i,
        {
            proof {
                assert(store@.sessions.take(i as int + 1) =~= store@.sessions.take(i as int).push(
                    store@.sessions[i as int],
                ));
                store@.sessions.take(i as int).lemma_filter_push(store@.sessions[i as int], pred);
            }
            if store.sessions[i].sensor_id == sensor_id {
                let copy = store.sessions[i].duplicate();
                let ghost out_pre = picked@;
                picked.push(copy);
                proof {
                    assert(picked@.map_values(|x: LoggingSessionResponse| x@) =~= out_pre.map_values(
                        |x: LoggingSessionResponse| x@,
                    ).push(copy@));
                }
            }
            i = i + 1;
        }
        proof {
            assert(store@.sessions.take(n as int) =~= store@.sessions);
        }
        let sorted = sort_sessions(picked);
        Ok(sorted)
    }

    /// The active session of a sensor, if any; absence is not an error.
    pub fn get_active(store: &Store, sensor_id: i64) -> (r: Result<
        Option<LoggingSessionResponse>,
        AppError,
    >)
        requires
            store@.inv(),
        ensures
            r is Ok,
            (r->Ok_0 is Some) <==> has_active_session(store@.sessions, sensor_id as int),
            r->Ok_0 is Some ==> r->Ok_0->Some_0@ == store@.sessions[active_index(
                store@.sessions,
                sensor_id as int,
            )],
    {
        let n = store.sessions.len();
        let mut i: usize = 0;
        while i < n
            invariant
                n == store.sessions.len(),
                i <= n,
                forall|j: int|
                    0 <= j < i ==> !((#[trigger] store@.sessions[j]).sensor_id == sensor_id as int
                        && store@.sessions[j].active),
            decreases n - i,
        {
            if store.sessions[i].sensor_id == sensor_id && store.sessions[i].is_active {
                let row = store.sessions[i].duplicate();
                proof {
                    lemma_active_index_is(store@.sessions, sensor_id as int, i as int);
                }
                return Ok(Some(row));
            }
            i = i + 1;
        }
        Ok(None)
    }

    /// All active sessions across all sensors, newest start time first.
    pub fn get_all_active(store: &Store) -> (r: Result<Vec<LoggingSessionResponse>, AppError>)
        requires
            store@.inv(),
        ensures
            r is Ok,
            vstd::relations::sorted_by(
                r->Ok_0@.map_values(|x: LoggingSessionResponse| x@),
                session_leq(),
            ),
            r->Ok_0@.map_values(|x: LoggingSessionResponse| x@).to_multiset()
                == store@.sessions.filter(|s: SessionV| s.active).to_multiset(),
    {
        let ghost pred = |s: SessionV| s.active;
        let n = store.sessions.len();
        let mut picked: Vec<LoggingSessionResponse> = Vec::new();
        let mut i: usize = 0;
        while i < n
            invariant
                n == store.sessions.len(),
                i <= n,
                picked@.map_values(|x: LoggingSessionResponse| x@) == store@.sessions.take(
                    i as int,
                ).filter(pred),
            decreases n - i,
        {
            proof {
                assert(store@.sessions.take(i as int + 1) =~= store@.sessions.take(i as int).push(
                    store@.sessions[i as int],
                ));
                store@.sessions.take(i as int).lemma_filter_push(store@.sessions[i as int], pred);
            }
            if store.sessions[i].is_active {
                let copy = store.sessions[i].duplicate();
                let ghost out_pre = picked@;
                picked.push(copy);
                proof {
                    assert(picked@.map_values(|x: LoggingSessionResponse| x@) =~= out_pre.map_values(
                        |x: LoggingSessionResponse| x@,
                    ).push(copy@));
                }
            }
            i = i + 1;
        }
        proof {
            assert(store@.sessions.take(n as int) =~= store@.sessions);
        }
        let sorted = sort_sessions(picked);
        Ok(sorted)
    }
}

/// Sort sessions into descending start-time order (ids break ties),
/// keeping exactly the given records.
fn sort_sessions(input: Vec<LoggingSessionResponse>) -> (out: Vec<LoggingSessionResponse>)
    ensures
        vstd::relations::sorted_by(
            out@.map_values(|x: LoggingSessionResponse| x@),
            session_leq(),
        ),
        out@.map_values(|x: LoggingSessionResponse| x@).to_multiset() == input@.map_values(
            |x: LoggingSessionResponse| x@,
        ).to_multiset(),
{
    broadcast use vstd::seq_lib::group_to_multiset_ensures;
    broadcast use vstd::multiset::group_multiset_axioms;

    let ghost total = input@.map_values(|x: LoggingSessionResponse| x@).to_multiset();
    let mut src = input;
    let mut out: Vec<LoggingSessionResponse> = Vec::new();
    while src.len() > 0
        invariant
            out@.map_values(|x: LoggingSessionResponse| x@).to_multiset().add(
                src@.map_values(|x: LoggingSessionResponse| x@).to_multiset(),
            ) == total,
            vstd::relations::sorted_by(
                out@.map_values(|x: LoggingSessionResponse| x@),
                session_leq(),
            ),
            forall|a: int, b: int|
                0 <= a < out.len() && 0 <= b < src.len() ==> session_before(
                    (#[trigger] out@[a])@,
                    (#[trigger] src@[b])@,
                ),
        decreases src.len(),
    {
        let ghost outv = out@.map_values(|x: LoggingSessionResponse| x@);
        let ghost srcv = src@.map_values(|x: LoggingSessionResponse| x@);
        let mut m: usize = 0;
        let mut t: usize = 1;
        while t < src.len()
            invariant
                m < t <= src.len(),
                src@.map_values(|x: LoggingSessionResponse| x@) == srcv,
                forall|j: int| 0 <= j < t ==> session_before(srcv[m as int], #[trigger] srcv[j]),
            decreases src.len() - t,
        {
            if session_earlier(&src[t], &src[m]) {
                proof {
                    assert forall|j: int| 0 <= j < t + 1 implies session_before(
                        srcv[t as int],
                        #[trigger] srcv[j],
                    ) by {
                        if j < t {
                            assert(session_before(srcv[m as int], srcv[j]));
                        }
                    }
                }
                m = t;
            }
            t = t + 1;
        }
        let x = src.remove(m);
        let ghost out_pre = out@;
        out.push(x);
        proof {
            let srcv2 = src@.map_values(|y: LoggingSessionResponse| y@);
            let outv2 = out@.map_values(|y: LoggingSessionResponse| y@);
            assert(srcv2 =~= srcv.remove(m as int));
            srcv.remove_ensures(m as int);
            assert(outv2 =~= outv.push(x@));
            assert(x@ == srcv[m as int]);
            assert(vstd::relations::sorted_by(outv2, session_leq())) by {
                assert forall|a: int, b: int| 0 <= a < b < outv2.len() implies session_leq()(
                    outv2[a],
                    outv2[b],
                ) by {
                    if b < outv2.len() - 1 {
                        assert(session_leq()(outv[a], outv[b]));
                    } else {
                        assert(session_before(outv[a], srcv[m as int]));
                    }
                }
            }
            assert forall|a: int, b: int|
                0 <= a < out.len() && 0 <= b < src.len() implies session_before(
                (#[trigger] out@[a])@,
                (#[trigger] src@[b])@,
            ) by {
                assert(out@[a]@ == outv2[a]);
                assert(src@[b]@ == srcv2[b]);
                let j: int = if b < m as int {
                    b
                } else {
                    b + 1
                };
                assert(srcv2[b] == srcv[j]);
                if a < out.len() - 1 {
                    assert(session_before(outv[a], srcv[j]));
                } else {
                    assert(session_before(srcv[m as int], srcv[j]));
                }
            }
            assert(srcv.to_multiset().contains(srcv[m as int]));
            assert(outv2.to_multiset().add(srcv2.to_multiset()) =~= outv.to_multiset().add(
                srcv.to_multiset(),
            ));
        }
    }
    proof {
        assert(src@.map_values(|x: LoggingSessionResponse| x@) =~= Seq::<SessionV>::empty());
        assert(src@.map_values(|x: LoggingSessionResponse| x@).to_multiset() =~= Multiset::<
            SessionV,
        >::empty());
        assert(out@.map_values(|x: LoggingSessionResponse| x@).to_multiset() =~= total);
    }
    out
}

/// `session_before` on the stored records.
fn session_earlier(a: &LoggingSessionResponse, b: &LoggingSessionResponse) -> (r: bool)
    ensures
        r == session_before(a@, b@),
{
    a.start_time > b.start_time || (a.start_time == b.start_time && a.session_id <= b.session_id)
}

} // verus!
