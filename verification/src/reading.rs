//! Readings: timestamped observations owned by a sensor.
//!
//! The analog `value` is a fixed-point number in thousandths of the
//! sensor's unit (`21500` stands for 21.5); `state` is the digital 0/1
//! channel. A reading carries at least one of the two.

use vstd::prelude::*;

use crate::error::AppError;
use crate::sensor::SensorV;
use crate::store::{opt_int, opt_text, sensor_exists, Store, StoreV};
use crate::time::current_timestamp;

verus! {

/// Caller-supplied reading, as handed to `create` and `bulk_insert`.
/// `reading_id` is ignored on input; an absent `timestamp` defaults to the
/// time of the call.
#[derive(Debug, Clone)]
pub struct Reading {
    pub reading_id: Option<i64>,
    pub timestamp: Option<i64>,
    pub sensor_id: i64,
    pub value: Option<i64>,
    pub state: Option<i64>,
    pub change_type: Option<String>,
}

/// A stored reading, as returned by reads.
#[derive(Debug, Clone)]
pub struct ReadingResponse {
    pub reading_id: i64,
    pub timestamp: i64,
    pub sensor_id: i64,
    pub value: Option<i64>,
    pub state: Option<i64>,
    pub change_type: Option<String>,
}

/// Mathematical value of a caller-supplied reading.
pub ghost struct ReadingInV {
    pub reading_id: Option<int>,
    pub timestamp: Option<int>,
    pub sensor_id: int,
    pub value: Option<int>,
    pub state: Option<int>,
    pub change_type: Option<Seq<char>>,
}

impl View for Reading {
    type V = ReadingInV;

    open spec fn view(&self) -> ReadingInV {
        ReadingInV {
            reading_id: opt_int(self.reading_id),
            timestamp: opt_int(self.timestamp),
            sensor_id: self.sensor_id as int,
            value: opt_int(self.value),
            state: opt_int(self.state),
            change_type: opt_text(self.change_type),
        }
    }
}

/// Mathematical value of a stored reading.
pub ghost struct ReadingV {
    pub id: int,
    pub timestamp: int,
    pub sensor_id: int,
    pub value: Option<int>,
    pub state: Option<int>,
    pub change_type: Option<Seq<char>>,
}

impl View for ReadingResponse {
    type V = ReadingV;

    open spec fn view(&self) -> ReadingV {
        ReadingV {
            id: self.reading_id as int,
            timestamp: self.timestamp as int,
            sensor_id: self.sensor_id as int,
            value: opt_int(self.value),
            state: opt_int(self.state),
            change_type: opt_text(self.change_type),
        }
    }
}

impl ReadingResponse {
    /// Copy of this record, carrying the same mathematical value.
    pub fn duplicate(&self) -> (r: ReadingResponse)
        ensures
            r@ == self@,
    {
        ReadingResponse {
            reading_id: self.reading_id,
            timestamp: self.timestamp,
            sensor_id: self.sensor_id,
            value: self.value,
            state: self.state,
            change_type: crate::store::clone_opt_text(&self.change_type),
        }
    }
}

/// Filters and pagination for reading queries. Absent bounds do not
/// restrict; the limit defaults to 1000 and the offset to 0.
#[derive(Debug, Clone)]
pub struct ReadingQuery {
    pub sensor_id: Option<i64>,
    pub start_time: Option<i64>,
    pub end_time: Option<i64>,
    pub limit: Option<usize>,
    pub offset: Option<usize>,
}

/// A batch of readings for `bulk_insert`.
#[derive(Debug, Clone)]
pub struct ReadingBulkInsert {
    pub readings: Vec<Reading>,
}

/// Outcome of a bulk insert.
#[derive(Debug, Clone)]
pub struct ReadingBulkResponse {
    pub inserted_count: usize,
    pub success: bool,
}

/// A reading input carries an analog value, a digital state, or both.
pub open spec fn reading_has_payload(r: Reading) -> bool {
    r.value is Some || r.state is Some
}

/// A reading input is storable: it has a payload and references an
/// existing sensor.
pub open spec fn reading_ok(sensors: Seq<SensorV>, r: Reading) -> bool {
    reading_has_payload(r) && sensor_exists(sensors, r.sensor_id as int)
}

/// The record that an insert at time `now` adds for input `r` under id
/// `id`: an absent timestamp defaults to `now`.
pub open spec fn reading_row_from(r: Reading, id: int, now: int) -> ReadingV {
    ReadingV {
        id: id,
        timestamp: match r.timestamp {
            Some(t) => t as int,
            None => now,
        },
        sensor_id: r.sensor_id as int,
        value: opt_int(r.value),
        state: opt_int(r.state),
        change_type: opt_text(r.change_type),
    }
}

/// Some stored reading belongs to the given sensor.
pub open spec fn has_reading(readings: Seq<ReadingV>, sensor_id: int) -> bool {
    exists|k: int| 0 <= k < readings.len() && (#[trigger] readings[k]).sensor_id == sensor_id
}

/// Descending timestamp order with the reading id as tie-break: the order
/// in which query results are returned.
pub open spec fn reading_before(a: ReadingV, b: ReadingV) -> bool {
    a.timestamp > b.timestamp || (a.timestamp == b.timestamp && a.id <= b.id)
}

/// `reading_before` as an order relation.
pub open spec fn reading_leq() -> spec_fn(ReadingV, ReadingV) -> bool {
    |a: ReadingV, b: ReadingV| reading_before(a, b)
}

/// Whether a stored reading passes the filters of a query.
pub open spec fn reading_matches(q: ReadingQuery) -> spec_fn(ReadingV) -> bool {
    |x: ReadingV|
        (q.sensor_id matches Some(s) ==> x.sensor_id == s as int) && (q.start_time matches Some(t)
            ==> x.timestamp >= t as int) && (q.end_time matches Some(t) ==> x.timestamp
            <= t as int)
}

/// The page size a query asks for; 1000 when none is given.
pub open spec fn limit_of(q: ReadingQuery) -> int {
    match q.limit {
        Some(l) => l as int,
        None => 1000,
    }
}

/// The offset a query asks for; 0 when none is given.
pub open spec fn offset_of(q: ReadingQuery) -> int {
    match q.offset {
        Some(o) => o as int,
        None => 0,
    }
}

/// Whether a stored reading falls in a deletion range: timestamp within
/// the inclusive bounds, and owned by the given sensor if one is named.
pub open spec fn in_delete_range(sensor_id: Option<i64>, start: i64, end: i64) -> spec_fn(
    ReadingV,
) -> bool {
    |x: ReadingV|
        start as int <= x.timestamp <= end as int && (sensor_id matches Some(s) ==> x.sensor_id
            == s as int)
}

/// Insert a record into a sequence sorted by `reading_before`, keeping it
/// sorted: the canonical arrangement of query results.
pub open spec fn reading_insert(s: Seq<ReadingV>, x: ReadingV) -> Seq<ReadingV>
    decreases s.len(),
{
    if s.len() == 0 {
        seq![x]
    } else if reading_before(x, s[0]) {
        seq![x] + s
    } else {
        seq![s[0]] + reading_insert(s.drop_first(), x)
    }
}

/// The canonical arrangement of a set of readings: descending timestamp,
/// ids breaking ties.
pub open spec fn reading_sort(s: Seq<ReadingV>) -> Seq<ReadingV>
    decreases s.len(),
{
    if s.len() == 0 {
        Seq::<ReadingV>::empty()
    } else {
        reading_insert(reading_sort(s.drop_first()), s[0])
    }
}

/// `reading_insert` keeps the sequence sorted and adds exactly the new
/// record.
pub proof fn lemma_reading_insert(s: Seq<ReadingV>, x: ReadingV)
    requires
        vstd::relations::sorted_by(s, reading_leq()),
    ensures
        vstd::relations::sorted_by(reading_insert(s, x), reading_leq()),
        reading_insert(s, x).to_multiset() == s.to_multiset().insert(x),
        reading_insert(s, x).len() == s.len() + 1,
    decreases s.len(),
{
    broadcast use vstd::seq_lib::group_to_multiset_ensures;
    broadcast use vstd::multiset::group_multiset_axioms;

    let leq = reading_leq();
    let out = reading_insert(s, x);
    if s.len() == 0 {
        crate::order::lemma_to_multiset_prepend(s, x);
        assert(out =~= seq![x] + s);
    } else if reading_before(x, s[0]) {
        crate::order::lemma_to_multiset_prepend(s, x);
        assert forall|a: int, b: int| 0 <= a < b < out.len() implies leq(out[a], out[b]) by {
            if a == 0 {
                assert(out[b] == s[b - 1]);
                if b > 1 {
                    assert(leq(s[0], s[b - 1]));
                }
            } else {
                assert(out[a] == s[a - 1] && out[b] == s[b - 1]);
            }
        }
    } else {
        let rest = s.drop_first();
        assert(vstd::relations::sorted_by(rest, leq)) by {
            assert forall|a: int, b: int| 0 <= a < b < rest.len() implies leq(rest[a], rest[b]) by {
                assert(rest[a] == s[a + 1] && rest[b] == s[b + 1]);
            }
        }
        lemma_reading_insert(rest, x);
        let inner = reading_insert(rest, x);
        crate::order::lemma_to_multiset_prepend(inner, s[0]);
        assert(out.to_multiset() == inner.to_multiset().insert(s[0]));
        assert(rest.to_multiset().insert(x).insert(s[0]) =~= rest.to_multiset().insert(
            s[0],
        ).insert(x));
        assert(s.to_multiset() == rest.to_multiset().insert(s[0])) by {
            assert(s =~= seq![s[0]] + rest);
            crate::order::lemma_to_multiset_prepend(rest, s[0]);
        }
        assert forall|a: int, b: int| 0 <= a < b < out.len() implies leq(out[a], out[b]) by {
            if a == 0 {
                let v = inner[b - 1];
                assert(inner.to_multiset().contains(v));
                if v == x {
                    assert(reading_before(s[0], x));
                } else {
                    assert(rest.to_multiset().contains(v));
                    assert(rest.contains(v));
                    let k = choose|k: int| 0 <= k < rest.len() && rest[k] == v;
                    assert(s[k + 1] == v);
                    assert(leq(s[0], s[k + 1]));
                }
            } else {
                assert(out[a] == inner[a - 1] && out[b] == inner[b - 1]);
                assert(leq(inner[a - 1], inner[b - 1]));
            }
        }
    }
}

/// `reading_sort` arranges exactly the given records in the canonical
/// order.
pub proof fn lemma_reading_sort(s: Seq<ReadingV>)
    ensures
        vstd::relations::sorted_by(reading_sort(s), reading_leq()),
        reading_sort(s).to_multiset() == s.to_multiset(),
        reading_sort(s).len() == s.len(),
    decreases s.len(),
{
    broadcast use vstd::seq_lib::group_to_multiset_ensures;
    broadcast use vstd::multiset::group_multiset_axioms;

    if s.len() == 0 {
        assert(reading_sort(s).to_multiset() =~= s.to_multiset());
    } else {
        let rest = s.drop_first();
        lemma_reading_sort(rest);
        lemma_reading_insert(reading_sort(rest), s[0]);
        assert(s.to_multiset() == rest.to_multiset().insert(s[0])) by {
            assert(s =~= seq![s[0]] + rest);
            crate::order::lemma_to_multiset_prepend(rest, s[0]);
        }
    }
}

/// The records a batch materializes to, by index: row `k` is stored
/// under id `base + k` with `now` as timestamp fallback.
pub open spec fn row_batch_fn(rows: Seq<Reading>, base: int, now: int) -> spec_fn(int) -> ReadingV {
    |k: int| reading_row_from(rows[k], base + k, now)
}

/// The index of the first input row that cannot be stored.
pub open spec fn first_bad_row(sensors: Seq<SensorV>, rows: Seq<Reading>) -> int
    decreases rows.len(),
{
    if rows.len() == 0 {
        0
    } else if !reading_ok(sensors, rows[0]) {
        0
    } else {
        1 + first_bad_row(sensors, rows.drop_first())
    }
}

/// When row `i` is the first unstorable one, `first_bad_row` names it.
proof fn lemma_first_bad_row_at(sensors: Seq<SensorV>, rows: Seq<Reading>, i: int)
    requires
        0 <= i < rows.len(),
        !reading_ok(sensors, rows[i]),
        forall|j: int| 0 <= j < i ==> reading_ok(sensors, #[trigger] rows[j]),
    ensures
        first_bad_row(sensors, rows) == i,
    decreases i,
{
    if i > 0 {
        lemma_first_bad_row_at(sensors, rows.drop_first(), i - 1);
    }
}

/// Law: a bulk insert of storable rows adds exactly those rows to the
/// store, and a query without filters (offset 0, page at least the whole
/// store) then returns every stored reading, in descending timestamp
/// order. The hypotheses are the postconditions of `bulk_insert_at` and
/// `get`.
pub proof fn lemma_bulk_then_query(
    pre: StoreV,
    post: StoreV,
    rows: Seq<Reading>,
    now: int,
    q: ReadingQuery,
    out: Seq<ReadingV>,
)
    requires
        pre.inv(),
        post.readings == pre.readings + Seq::new(
            rows.len(),
            row_batch_fn(rows, pre.next_reading_id, now),
        ),
        q.sensor_id is None,
        q.start_time is None,
        q.end_time is None,
        offset_of(q) == 0,
        limit_of(q) >= post.readings.len(),
        out == reading_sort(post.readings.filter(reading_matches(q))).subrange(
            0,
            reading_sort(post.readings.filter(reading_matches(q))).len() as int,
        ),
    ensures
        post.readings.len() == pre.readings.len() + rows.len(),
        out.to_multiset() == post.readings.to_multiset(),
        vstd::relations::sorted_by(out, reading_leq()),
{
    let pred = reading_matches(q);
    assert forall|i: int| 0 <= i < post.readings.len() implies pred(#[trigger] post.readings[i]) by {
        assert(pred(post.readings[i]) == true);
    }
    crate::store::lemma_filter_all(post.readings, pred);
    lemma_reading_sort(post.readings);
    assert(out =~= reading_sort(post.readings));
}

/// A sorted arrangement of a set of readings is the canonical one: the
/// order ties only equal records because reading ids are unique.
proof fn lemma_reading_sort_unique(
    readings: Seq<ReadingV>,
    pred: spec_fn(ReadingV) -> bool,
    sorted: Seq<ReadingV>,
)
    requires
        forall|a: int, b: int|
            0 <= a < b < readings.len() ==> (#[trigger] readings[a]).id != (
            #[trigger] readings[b]).id,
        vstd::relations::sorted_by(sorted, reading_leq()),
        sorted.to_multiset() == readings.filter(pred).to_multiset(),
    ensures
        sorted == reading_sort(readings.filter(pred)),
{
    broadcast use vstd::seq_lib::group_to_multiset_ensures;
    broadcast use vstd::multiset::group_multiset_axioms;

    let matching = readings.filter(pred);
    let leq = reading_leq();
    lemma_reading_sort(matching);
    let canon = reading_sort(matching);
    crate::store::lemma_filter_pairwise(
        readings,
        pred,
        |a: ReadingV, b: ReadingV| a.id != b.id,
    );
    assert forall|a: ReadingV, b: ReadingV| #![trigger leq(a, b)]
        sorted.contains(a) && sorted.contains(b) implies leq(a, b) || leq(b, a) by {
        assert(reading_before(a, b) || reading_before(b, a));
    }
    assert forall|a: ReadingV, b: ReadingV| #![trigger leq(a, b), leq(b, a)]
        sorted.contains(a) && sorted.contains(b) && leq(a, b) && leq(b, a) implies a == b by {
        assert(matching.to_multiset().contains(a));
        assert(matching.contains(a));
        assert(matching.to_multiset().contains(b));
        assert(matching.contains(b));
        let i = choose|i: int| 0 <= i < matching.len() && matching[i] == a;
        let j = choose|j: int| 0 <= j < matching.len() && matching[j] == b;
        if i < j {
            assert(matching[i].id != matching[j].id);
        } else if j < i {
            assert(matching[j].id != matching[i].id);
        }
    }
    crate::order::lemma_sorted_unique_by(sorted, canon, leq);
}

/// `reading_before` on the stored records.
fn reading_earlier(a: &ReadingResponse, b: &ReadingResponse) -> (r: bool)
    ensures
        r == reading_before(a@, b@),
{
    a.timestamp > b.timestamp || (a.timestamp == b.timestamp && a.reading_id <= b.reading_id)
}

/// Sort readings into descending timestamp order (ids break ties),
/// keeping exactly the given records.
fn sort_readings(input: Vec<ReadingResponse>) -> (out: Vec<ReadingResponse>)
    ensures
        vstd::relations::sorted_by(out@.map_values(|x: ReadingResponse| x@), reading_leq()),
        out@.map_values(|x: ReadingResponse| x@).to_multiset() == input@.map_values(
            |x: ReadingResponse| x@,
        ).to_multiset(),
{
    broadcast use vstd::seq_lib::group_to_multiset_ensures;
    broadcast use vstd::multiset::group_multiset_axioms;

    let ghost total = input@.map_values(|x: ReadingResponse| x@).to_multiset();
    let mut src = input;
    let mut out: Vec<ReadingResponse> = Vec::new();
    while src.len() > 0
        invariant
            out@.map_values(|x: ReadingResponse| x@).to_multiset().add(
                src@.map_values(|x: ReadingResponse| x@).to_multiset(),
            ) == total,
            vstd::relations::sorted_by(out@.map_values(|x: ReadingResponse| x@), reading_leq()),
            forall|a: int, b: int|
                0 <= a < out.len() && 0 <= b < src.len() ==> reading_before(
                    (#[trigger] out@[a])@,
                    (#[trigger] src@[b])@,
                ),
        decreases src.len(),
    {
        let ghost outv = out@.map_values(|x: ReadingResponse| x@);
        let ghost srcv = src@.map_values(|x: ReadingResponse| x@);
        let mut m: usize = 0;
        let mut t: usize = 1;
        while t < src.len()
            invariant
                m < t <= src.len(),
                src@.map_values(|x: ReadingResponse| x@) == srcv,
                forall|j: int| 0 <= j < t ==> reading_before(srcv[m as int], #[trigger] srcv[j]),
            decreases src.len() - t,
        {
            if reading_earlier(&src[t], &src[m]) {
                proof {
                    assert forall|j: int| 0 <= j < t + 1 implies reading_before(
                        srcv[t as int],
                        #[trigger] srcv[j],
                    ) by {
                        if j < t {
                            assert(reading_before(srcv[m as int], srcv[j]));
                        }
                    }
                }
                m = t;
            }
            t = t + 1;
        }
        let x = src.remove(m);
        let ghost out_pre = out@;
        out.push(x);
        proof {
            let srcv2 = src@.map_values(|y: ReadingResponse| y@);
            let outv2 = out@.map_values(|y: ReadingResponse| y@);
            assert(srcv2 =~= srcv.remove(m as int));
            srcv.remove_ensures(m as int);
            assert(outv2 =~= outv.push(x@));
            assert(x@ == srcv[m as int]);
            assert(vstd::relations::sorted_by(outv2, reading_leq())) by {
                assert forall|a: int, b: int| 0 <= a < b < outv2.len() implies reading_leq()(
                    outv2[a],
                    outv2[b],
                ) by {
                    if b < outv2.len() - 1 {
                        assert(reading_leq()(outv[a], outv[b]));
                    } else {
                        assert(reading_before(outv[a], srcv[m as int]));
                    }
                }
            }
            assert forall|a: int, b: int|
                0 <= a < out.len() && 0 <= b < src.len() implies reading_before(
                (#[trigger] out@[a])@,
                (#[trigger] src@[b])@,
            ) by {
                assert(out@[a]@ == outv2[a]);
                assert(src@[b]@ == srcv2[b]);
                let j: int = if b < m as int {
                    b
                } else {
                    b + 1
                };
                assert(srcv2[b] == srcv[j]);
                if a < out.len() - 1 {
                    assert(reading_before(outv[a], srcv[j]));
                } else {
                    assert(reading_before(srcv[m as int], srcv[j]));
                }
            }
            assert(srcv.to_multiset().contains(srcv[m as int]));
            assert(outv2.to_multiset().add(srcv2.to_multiset()) =~= outv.to_multiset().add(
                srcv.to_multiset(),
            ));
        }
    }
    proof {
        assert(src@.map_values(|x: ReadingResponse| x@) =~= Seq::<ReadingV>::empty());
        assert(src@.map_values(|x: ReadingResponse| x@).to_multiset() =~= vstd::multiset::Multiset::<
            ReadingV,
        >::empty());
        assert(out@.map_values(|x: ReadingResponse| x@).to_multiset() =~= total);
    }
    out
}

impl Reading {
    /// Build the stored record for this input.
    fn materialize(&self, id: i64, now: i64) -> (r: ReadingResponse)
        ensures
            r@ == reading_row_from(*self, id as int, now as int),
    {
        let timestamp = match self.timestamp {
            Some(t) => t,
            None => now,
        };
        ReadingResponse {
            reading_id: id,
            timestamp,
            sensor_id: self.sensor_id,
            value: self.value,
            state: self.state,
            change_type: crate::store::clone_opt_text(&self.change_type),
        }
    }

    /// Store one reading: `BadRequest` exactly when it carries neither
    /// value nor state, otherwise `NotFound` exactly when its sensor does
    /// not exist; on success the new record is appended with the current
    /// time as default timestamp, and nothing else changes.
    pub fn create(&self, store: &mut Store) -> (r: Result<i64, AppError>)
        requires
            old(store)@.inv(),
            old(store)@.next_reading_id < i64::MAX as int,
        ensures
            final(store)@.inv(),
            (r is Err && r->Err_0 is BadRequest) <==> !reading_has_payload(*self),
            (r is Err && r->Err_0 is NotFound) <==> (reading_has_payload(*self) && !sensor_exists(
                old(store)@.sensors,
                self.sensor_id as int,
            )),
            r is Err ==> final(store)@ == old(store)@,
            (r is Ok) <==> reading_ok(old(store)@.sensors, *self),
            r is Ok ==> ({
                let row = final(store)@.readings.last();
                &&& r->Ok_0 as int == old(store)@.next_reading_id
                &&& row == reading_row_from(*self, old(store)@.next_reading_id, row.timestamp)
                &&& self.timestamp is Some ==> row.timestamp == self.timestamp->0 as int
                &&& row.timestamp >= 0 || self.timestamp is Some
                &&& final(store)@.readings == old(store)@.readings.push(row)
                &&& final(store)@.next_reading_id == old(store)@.next_reading_id + 1
            }),
            final(store)@.sensors == old(store)@.sensors,
            final(store)@.sessions == old(store)@.sessions,
            final(store)@.next_sensor_id == old(store)@.next_sensor_id,
            final(store)@.next_session_id == old(store)@.next_session_id,
            final(store)@.schema_version == old(store)@.schema_version,
    {
        let now = current_timestamp();
        self.create_at(store, now)
    }

    /// `create` with the clock reading passed in.
    pub fn create_at(&self, store: &mut Store, now: i64) -> (r: Result<i64, AppError>)
        requires
            old(store)@.inv(),
            old(store)@.next_reading_id < i64::MAX as int,
        ensures
            final(store)@.inv(),
            (r is Err && r->Err_0 is BadRequest) <==> !reading_has_payload(*self),
            (r is Err && r->Err_0 is NotFound) <==> (reading_has_payload(*self) && !sensor_exists(
                old(store)@.sensors,
                self.sensor_id as int,
            )),
            r is Err ==> final(store)@ == old(store)@,
            (r is Ok) <==> reading_ok(old(store)@.sensors, *self),
            r is Ok ==> r->Ok_0 as int == old(store)@.next_reading_id,
            r is Ok ==> final(store)@.readings == old(store)@.readings.push(
                reading_row_from(*self, old(store)@.next_reading_id, now as int),
            ) && final(store)@.next_reading_id == old(store)@.next_reading_id + 1,
            final(store)@.sensors == old(store)@.sensors,
            final(store)@.sessions == old(store)@.sessions,
            final(store)@.next_sensor_id == old(store)@.next_sensor_id,
            final(store)@.next_session_id == old(store)@.next_session_id,
            final(store)@.schema_version == old(store)@.schema_version,
    {
        if self.value.is_none() && self.state.is_none() {
            return Err(
                AppError::BadRequest(String::from_str("Reading must have either value or state")),
            );
        }
        if !crate::sensor::sensor_known(store, self.sensor_id) {
            return Err(AppError::NotFound(String::from_str("Sensor not found")));
        }
        let id = store.next_reading_id;
        let row = self.materialize(id, now);
        let ghost pre = store@;
        let ghost rowv = row@;
        store.readings.push(row);
        store.next_reading_id = id + 1;
        proof {
            let post = store@;
            assert(post.readings =~= pre.readings.push(rowv));
            assert(post.sensors =~= pre.sensors);
            assert(post.sessions =~= pre.sessions);
            assert forall|k: int|
                0 <= k < post.readings.len() implies sensor_exists(
                post.sensors,
                (#[trigger] post.readings[k]).sensor_id,
            ) by {
                if k < pre.readings.len() {
                    assert(sensor_exists(pre.sensors, pre.readings[k].sensor_id));
                }
            }
        }
        Ok(id)
    }

    /// Store a batch of readings in one transaction: either every row is
    /// appended (all sharing one "now" fallback for absent timestamps,
    /// captured at batch start) and the count is returned, or no row is
    /// stored at all and the first offending row's error is returned.
    pub fn bulk_insert(store: &mut Store, rows: &Vec<Reading>) -> (r: Result<usize, AppError>)
        requires
            old(store)@.inv(),
            old(store)@.next_reading_id + rows@.len() <= i64::MAX as int,
        ensures
            final(store)@.inv(),
            (r is Ok) <==> (forall|j: int|
                0 <= j < rows@.len() ==> reading_ok(old(store)@.sensors, #[trigger] rows@[j])),
            r is Err ==> final(store)@ == old(store)@,
            r is Err ==> ({
                let k = first_bad_row(old(store)@.sensors, rows@);
                &&& (r->Err_0 is BadRequest) <==> !reading_has_payload(rows@[k])
                &&& (r->Err_0 is NotFound) <==> reading_has_payload(rows@[k])
            }),
            r is Ok ==> r->Ok_0 == rows@.len(),
            r is Ok ==> (exists|now: int|
                now >= 0 && final(store)@.readings == old(store)@.readings + Seq::new(
                    rows@.len(),
                    #[trigger] row_batch_fn(rows@, old(store)@.next_reading_id, now),
                )),
            r is Ok ==> final(store)@.next_reading_id == old(store)@.next_reading_id + rows@.len(),
            final(store)@.sensors == old(store)@.sensors,
            final(store)@.sessions == old(store)@.sessions,
            final(store)@.next_sensor_id == old(store)@.next_sensor_id,
            final(store)@.next_session_id == old(store)@.next_session_id,
            final(store)@.schema_version == old(store)@.schema_version,
    {
        let now = current_timestamp();
        let r = Self::bulk_insert_at(store, rows, now);
        proof {
            if r is Ok {
                assert(now as int >= 0 && store@.readings == old(store)@.readings + Seq::new(
                    rows@.len(),
                    #[trigger] row_batch_fn(rows@, old(store)@.next_reading_id, now as int),
                ));
            }
        }
        r
    }

    /// `bulk_insert` with the clock reading passed in. On success the
    /// appended records are exactly the inputs materialized in order,
    /// under consecutive ids, all with the same timestamp fallback.
    pub fn bulk_insert_at(store: &mut Store, rows: &Vec<Reading>, now: i64) -> (r: Result<
        usize,
        AppError,
    >)
        requires
            old(store)@.inv(),
            old(store)@.next_reading_id + rows@.len() <= i64::MAX as int,
        ensures
            final(store)@.inv(),
            (r is Ok) <==> (forall|j: int|
                0 <= j < rows@.len() ==> reading_ok(old(store)@.sensors, #[trigger] rows@[j])),
            r is Err ==> final(store)@ == old(store)@,
            r is Err ==> ({
                let k = first_bad_row(old(store)@.sensors, rows@);
                &&& (r->Err_0 is BadRequest) <==> !reading_has_payload(rows@[k])
                &&& (r->Err_0 is NotFound) <==> reading_has_payload(rows@[k])
            }),
            r is Ok ==> r->Ok_0 == rows@.len(),
            r is Ok ==> final(store)@.readings == old(store)@.readings + Seq::new(
                rows@.len(),
                row_batch_fn(rows@, old(store)@.next_reading_id, now as int),
            ),
            r is Ok ==> final(store)@.next_reading_id == old(store)@.next_reading_id + rows@.len(),
            final(store)@.sensors == old(store)@.sensors,
            final(store)@.sessions == old(store)@.sessions,
            final(store)@.next_sensor_id == old(store)@.next_sensor_id,
            final(store)@.next_session_id == old(store)@.next_session_id,
            final(store)@.schema_version == old(store)@.schema_version,
    {
        let n = rows.len();
        let mut i: usize = 0;
        while i < n
            invariant
                i <= n,
                n == rows.len(),
                store@ == old(store)@,
                forall|j: int| 0 <= j < i ==> reading_ok(store@.sensors, #[trigger] rows@[j]),
            decreases n - i,
        {
            let has_payload = rows[i].value.is_some() || rows[i].state.is_some();
            if !has_payload {
                proof {
                    lemma_first_bad_row_at(store@.sensors, rows@, i as int);
                }
                return Err(
                    AppError::BadRequest(
                        String::from_str("Reading must have either value or state"),
                    ),
                );
            }
            if !crate::sensor::sensor_known(store, rows[i].sensor_id) {
                proof {
                    lemma_first_bad_row_at(store@.sensors, rows@, i as int);
                }
                return Err(AppError::NotFound(String::from_str("Sensor not found")));
            }
            i = i + 1;
        }
        let ghost pre = store@;
        let mut i: usize = 0;
        while i < n
            invariant
                i <= n,
                n == rows.len(),
                store@.sensors == pre.sensors,
                store@.sessions == pre.sessions,
                store@.next_sensor_id == pre.next_sensor_id,
                store@.next_session_id == pre.next_session_id,
                store@.schema_version == pre.schema_version,
                store@.next_reading_id == pre.next_reading_id + i,
                store@.readings == pre.readings + Seq::new(
                    i as nat,
                    |k: int| reading_row_from(rows@[k], pre.next_reading_id + k, now as int),
                ),
                forall|j: int| 0 <= j < n ==> reading_ok(pre.sensors, #[trigger] rows@[j]),
            decreases n - i,
        {
            let id = store.next_reading_id;
            let row = rows[i].materialize(id, now);
            let ghost mid = store@;
            let ghost rowv = row@;
            store.readings.push(row);
            store.next_reading_id = id + 1;
            proof {
                assert(store@.readings =~= mid.readings.push(rowv));
                assert(store@.readings =~= pre.readings + Seq::new(
                    (i + 1) as nat,
                    |k: int| reading_row_from(rows@[k], pre.next_reading_id + k, now as int),
                ));
            }
            i = i + 1;
        }
        proof {
            let post = store@;
            let fresh = Seq::new(
                n as nat,
                |k: int| reading_row_from(rows@[k], pre.next_reading_id + k, now as int),
            );
            assert forall|a: int|
                0 <= a < post.readings.len() implies 0 < (#[trigger] post.readings[a]).id
                < post.next_reading_id && sensor_exists(post.sensors, post.readings[a].sensor_id)
                && (post.readings[a].value is Some || post.readings[a].state is Some) by {
                if a < pre.readings.len() {
                    assert(pre.readings[a] == post.readings[a]);
                    assert(sensor_exists(pre.sensors, pre.readings[a].sensor_id));
                } else {
                    assert(post.readings[a] == fresh[a - pre.readings.len()]);
                    assert(reading_ok(pre.sensors, rows@[a - pre.readings.len()]));
                }
            }
            assert forall|a: int, b: int|
                0 <= a < b < post.readings.len() implies (#[trigger] post.readings[a]).id != (
                #[trigger] post.readings[b]).id by {
                if b >= pre.readings.len() {
                    assert(post.readings[b].id == pre.next_reading_id + (b - pre.readings.len()));
                    if a >= pre.readings.len() {
                        assert(post.readings[a].id == pre.next_reading_id + (a
                            - pre.readings.len()));
                    }
                }
            }
            assert(fresh =~= Seq::new(
                rows@.len(),
                row_batch_fn(rows@, pre.next_reading_id, now as int),
            ));
        }
        Ok(n)
    }

    /// Query readings: the records passing the filters, in descending
    /// timestamp order (ids break ties), windowed by offset and limit
    /// (1000 when absent).
    pub fn get(store: &Store, query: &ReadingQuery) -> (r: Result<Vec<ReadingResponse>, AppError>)
        requires
            store@.inv(),
        ensures
            r is Ok,
            ({
                let full = reading_sort(store@.readings.filter(reading_matches(*query)));
                let off = if offset_of(*query) <= full.len() {
                    offset_of(*query)
                } else {
                    full.len() as int
                };
                let cnt = if limit_of(*query) <= full.len() - off {
                    limit_of(*query)
                } else {
                    full.len() - off
                };
                r->Ok_0@.map_values(|x: ReadingResponse| x@) == full.subrange(off, off + cnt)
            }),
    {
        let ghost pred = reading_matches(*query);
        let n = store.readings.len();
        let mut picked: Vec<ReadingResponse> = Vec::new();
        let mut i: usize = 0;
        while i < n
            invariant
                n == store.readings.len(),
                i <= n,
                picked@.map_values(|x: ReadingResponse| x@) == store@.readings.take(
                    i as int,
                ).filter(pred),
            decreases n - i,
        {
            proof {
                assert(store@.readings.take(i as int + 1) =~= store@.readings.take(i as int).push(
                    store@.readings[i as int],
                ));
                store@.readings.take(i as int).lemma_filter_push(store@.readings[i as int], pred);
            }
            let row = &store.readings[i];
            let sensor_ok = match query.sensor_id {
                Some(s) => row.sensor_id == s,
                None => true,
            };
            let start_ok = match query.start_time {
                Some(t) => row.timestamp >= t,
                None => true,
            };
            let end_ok = match query.end_time {
                Some(t) => row.timestamp <= t,
                None => true,
            };
            if sensor_ok && start_ok && end_ok {
                let copy = row.duplicate();
                let ghost out_pre = picked@;
                picked.push(copy);
                proof {
                    assert(picked@.map_values(|x: ReadingResponse| x@) =~= out_pre.map_values(
                        |x: ReadingResponse| x@,
                    ).push(copy@));
                }
            }
            i = i + 1;
        }
        proof {
            assert(store@.readings.take(n as int) =~= store@.readings);
        }
        let sorted = sort_readings(picked);
        proof {
            lemma_reading_sort_unique(
                store@.readings,
                pred,
                sorted@.map_values(|x: ReadingResponse| x@),
            );
        }
        let ghost full = reading_sort(store@.readings.filter(pred));
        let len = sorted.len();
        let offset = match query.offset {
            Some(o) => o,
            None => 0,
        };
        let limit = match query.limit {
            Some(l) => l,
            None => 1000,
        };
        let off = if offset <= len {
            offset
        } else {
            len
        };
        let avail = len - off;
        let cnt = if limit <= avail {
            limit
        } else {
            avail
        };
        let mut out: Vec<ReadingResponse> = Vec::new();
        let mut j: usize = off;
        while j < off + cnt
            invariant
                off + cnt <= len,
                off <= j <= off + cnt,
                len == sorted.len(),
                sorted@.map_values(|x: ReadingResponse| x@) == full,
                out@.map_values(|x: ReadingResponse| x@) == full.subrange(off as int, j as int),
            decreases off + cnt - j,
        {
            let copy = sorted[j].duplicate();
            let ghost out_pre = out@;
            out.push(copy);
            proof {
                assert(out@.map_values(|x: ReadingResponse| x@) =~= out_pre.map_values(
                    |x: ReadingResponse| x@,
                ).push(copy@));
                assert(full.subrange(off as int, j as int + 1) =~= full.subrange(
                    off as int,
                    j as int,
                ).push(full[j as int]));
            }
            j = j + 1;
        }
        Ok(out)
    }

    /// The most recent reading of a sensor: maximal timestamp, smallest id
    /// among equal timestamps. `NotFound` exactly when the sensor has no
    /// readings.
    pub fn get_current(store: &Store, sensor_id: i64) -> (r: Result<ReadingResponse, AppError>)
        requires
            store@.inv(),
        ensures
            (r is Ok) <==> has_reading(store@.readings, sensor_id as int),
            r is Err ==> r->Err_0 is NotFound,
            r is Ok ==> ({
                let v = r->Ok_0@;
                &&& v.sensor_id == sensor_id as int
                &&& store@.readings.contains(v)
                &&& forall|k: int|
                    0 <= k < store@.readings.len() && (#[trigger] store@.readings[k]).sensor_id
                        == sensor_id as int ==> reading_before(v, store@.readings[k])
            }),
    {
        let n = store.readings.len();
        let mut best: Option<usize> = None;
        let mut i: usize = 0;
        while i < n
            invariant
                n == store.readings.len(),
                i <= n,
                best is None ==> forall|j: int|
                    0 <= j < i ==> (#[trigger] store@.readings[j]).sensor_id != sensor_id as int,
                best is Some ==> ({
                    let b = best->0 as int;
                    &&& 0 <= b < i
                    &&& store@.readings[b].sensor_id == sensor_id as int
                    &&& forall|j: int|
                        0 <= j < i && (#[trigger] store@.readings[j]).sensor_id == sensor_id as int
                            ==> reading_before(store@.readings[b], store@.readings[j])
                }),
            decreases n - i,
        {
            if store.readings[i].sensor_id == sensor_id {
                match best {
                    None => {
                        best = Some(i);
                    },
                    Some(b) => {
                        if reading_earlier(&store.readings[i], &store.readings[b]) {
                            best = Some(i);
                        }
                    },
                }
            }
            i = i + 1;
        }
        match best {
            Some(b) => {
                let row = store.readings[b].duplicate();
                proof {
                    assert(store@.readings.contains(store@.readings[b as int]));
                }
                Ok(row)
            },
            None => Err(AppError::NotFound(String::from_str("No readings found for this sensor"))),
        }
    }

    /// Delete the readings whose timestamps lie in the inclusive range,
    /// across all sensors or restricted to one; returns how many rows were
    /// removed.
    pub fn delete_range(store: &mut Store, sensor_id: Option<i64>, start_time: i64, end_time: i64)
        -> (r: Result<usize, AppError>)
        requires
            old(store)@.inv(),
        ensures
            final(store)@.inv(),
            r is Ok,
            final(store)@.readings == old(store)@.readings.filter(
                |x: ReadingV| !(in_delete_range(sensor_id, start_time, end_time)(x)),
            ),
            r->Ok_0 as int == old(store)@.readings.len() - final(store)@.readings.len(),
            final(store)@.sensors == old(store)@.sensors,
            final(store)@.sessions == old(store)@.sessions,
            final(store)@.next_sensor_id == old(store)@.next_sensor_id,
            final(store)@.next_reading_id == old(store)@.next_reading_id,
            final(store)@.next_session_id == old(store)@.next_session_id,
            final(store)@.schema_version == old(store)@.schema_version,
    {
        let ghost pre = store@;
        let ghost keep = |x: ReadingV| !(in_delete_range(sensor_id, start_time, end_time)(x));
        let m = store.readings.len();
        let mut kept: Vec<ReadingResponse> = Vec::new();
        let mut j: usize = 0;
        while j < m
            invariant
                m == store.readings.len(),
                j <= m,
                store@ == pre,
                kept@.map_values(|x: ReadingResponse| x@) == pre.readings.take(j as int).filter(
                    keep,
                ),
                kept.len() <= j,
            decreases m - j,
        {
            proof {
                assert(pre.readings.take(j as int + 1) =~= pre.readings.take(j as int).push(
                    pre.readings[j as int],
                ));
                pre.readings.take(j as int).lemma_filter_push(pre.readings[j as int], keep);
            }
            let row = &store.readings[j];
            let in_range = start_time <= row.timestamp && row.timestamp <= end_time && (match
                sensor_id {
                Some(s) => row.sensor_id == s,
                None => true,
            });
            if !in_range {
                let copy = row.duplicate();
                let ghost out_pre = kept@;
                kept.push(copy);
                proof {
                    assert(kept@.map_values(|x: ReadingResponse| x@) =~= out_pre.map_values(
                        |x: ReadingResponse| x@,
                    ).push(copy@));
                }
            }
            j = j + 1;
        }
        let removed = m - kept.len();
        store.readings = kept;
        proof {
            assert(pre.readings.take(m as int) =~= pre.readings);
            crate::store::lemma_filter_pairwise(
                pre.readings,
                keep,
                |a: ReadingV, b: ReadingV| a.id != b.id,
            );
            crate::store::lemma_filter_elem(
                pre.readings,
                keep,
                |a: ReadingV| 0 < a.id < pre.next_reading_id,
            );
            crate::store::lemma_filter_elem(
                pre.readings,
                keep,
                |a: ReadingV| a.value is Some || a.state is Some,
            );
            crate::store::lemma_filter_elem(
                pre.readings,
                keep,
                |a: ReadingV| sensor_exists(pre.sensors, a.sensor_id),
            );
        }
        Ok(removed)
    }

    /// Handle a deletion request whose bounds may be absent: both bounds
    /// are mandatory (`BadRequest` otherwise, with the store unchanged),
    /// since an unbounded delete must not be invocable.
    pub fn delete_readings(
        store: &mut Store,
        sensor_id: Option<i64>,
        start_time: Option<i64>,
        end_time: Option<i64>,
    ) -> (r: Result<usize, AppError>)
        requires
            old(store)@.inv(),
        ensures
            final(store)@.inv(),
            (r is Err) <==> (start_time is None || end_time is None),
            r is Err ==> r->Err_0 is BadRequest && final(store)@ == old(store)@,
            r is Ok ==> ({
                &&& final(store)@.readings == old(store)@.readings.filter(
                    |x: ReadingV| !(in_delete_range(sensor_id, start_time->0, end_time->0)(x)),
                )
                &&& r->Ok_0 as int == old(store)@.readings.len() - final(store)@.readings.len()
            }),
            final(store)@.sensors == old(store)@.sensors,
            final(store)@.sessions == old(store)@.sessions,
            final(store)@.next_sensor_id == old(store)@.next_sensor_id,
            final(store)@.next_reading_id == old(store)@.next_reading_id,
            final(store)@.next_session_id == old(store)@.next_session_id,
            final(store)@.schema_version == old(store)@.schema_version,
    {
        let start = match start_time {
            Some(t) => t,
            None => {
                return Err(AppError::BadRequest(String::from_str("start_time is required")));
            },
        };
        let end = match end_time {
            Some(t) => t,
            None => {
                return Err(AppError::BadRequest(String::from_str("end_time is required")));
            },
        };
        Self::delete_range(store, sensor_id, start, end)
    }
}

} // verus!
