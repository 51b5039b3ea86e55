//! Health diagnostics and maintenance over the store.

use vstd::prelude::*;

use crate::error::AppError;
use crate::reading::ReadingV;
use crate::sensor::SensorV;
use crate::store::{sensor_exists, Store};

verus! {

/// An exact insertion rate: `count` readings per `seconds` seconds.
/// Consumers divide when they need a unitless number.
#[derive(Debug, Clone, PartialEq, Eq, Structural)]
pub struct InsertRate {
    pub count: i64,
    pub seconds: i128,
}

/// Health report of a store. Sizes are in bytes as the process edge
/// measured them, with -1 where a size could not be determined.
#[derive(Debug, Clone)]
pub struct DatabaseHealth {
    pub status: String,
    pub database_size_bytes: i64,
    pub free_space_bytes: i64,
    pub last_backup: Option<i64>,
    pub readings_count: i64,
    pub oldest_reading: Option<i64>,
    pub newest_reading: Option<i64>,
    pub average_insert_rate: Option<InsertRate>,
    pub peak_insert_rate: Option<InsertRate>,
}

/// A maintenance request: the tasks to run and an optional cutoff below
/// which readings are archived away.
#[derive(Debug, Clone)]
pub struct MaintenanceRequest {
    pub tasks: Vec<String>,
    pub archive_before: Option<i64>,
}

/// What a maintenance run decided and changed. The process edge performs
/// the engine work: the completed tasks inside one transaction, and —
/// because the underlying engine cannot run it inside any transaction —
/// the vacuum afterwards, when `vacuum_requested` holds.
#[derive(Debug, Clone)]
pub struct MaintenanceOutcome {
    pub tasks_completed: Vec<String>,
    pub archived_readings: usize,
    pub vacuum_requested: bool,
}

/// Parameters of a data export request.
#[derive(Debug, Clone)]
pub struct ExportQuery {
    pub sensor_ids: Option<String>,
    pub start_time: Option<i64>,
    pub end_time: Option<i64>,
    pub format: Option<String>,
}

/// How many readings fall in the hour-aligned bucket `b`.
pub open spec fn bucket_count(readings: Seq<ReadingV>, b: int) -> nat {
    readings.filter(|x: ReadingV| crate::hour_bucket_of(x.timestamp) == b).len()
}

/// A maintenance task name this layer knows.
pub open spec fn known_task(s: Seq<char>) -> bool {
    s == "analyze"@ || s == "optimize"@ || s == "vacuum"@
}

/// Compute the health report of a store. The physical sizes are handed
/// in by the process edge, which alone can measure files and volumes.
///
/// The average insertion rate is total readings over the seconds between
/// the oldest and the newest reading; the peak rate is the largest
/// count of readings in any single hour-aligned bucket, per 3600
/// seconds. Both are absent — not zero — when the span is empty.
pub fn get_database_health(store: &Store, database_size_bytes: i64, free_space_bytes: i64) -> (h:
    DatabaseHealth)
    requires
        store@.inv(),
        store@.readings.len() <= i64::MAX as int,
    ensures
        h.readings_count == store@.readings.len(),
        h.database_size_bytes == database_size_bytes,
        h.free_space_bytes == free_space_bytes,
        h.last_backup is None,
        (h.status@ == "healthy"@ && store@.readings.len() > 0) || (h.status@ == "empty"@
            && store@.readings.len() == 0),
        (h.oldest_reading is Some) <==> store@.readings.len() > 0,
        (h.newest_reading is Some) <==> store@.readings.len() > 0,
        h.oldest_reading is Some ==> ({
            let o = h.oldest_reading->0 as int;
            &&& exists|k: int|
                0 <= k < store@.readings.len() && (#[trigger] store@.readings[k]).timestamp == o
            &&& forall|k: int|
                0 <= k < store@.readings.len() ==> (#[trigger] store@.readings[k]).timestamp >= o
        }),
        h.newest_reading is Some ==> ({
            let w = h.newest_reading->0 as int;
            &&& exists|k: int|
                0 <= k < store@.readings.len() && (#[trigger] store@.readings[k]).timestamp == w
            &&& forall|k: int|
                0 <= k < store@.readings.len() ==> (#[trigger] store@.readings[k]).timestamp <= w
        }),
        (h.average_insert_rate is Some) <==> (store@.readings.len() > 0 && h.newest_reading->0
            > h.oldest_reading->0),
        h.average_insert_rate is Some ==> h.average_insert_rate->0.count == h.readings_count
            && h.average_insert_rate->0.seconds as int == h.newest_reading->0
            - h.oldest_reading->0,
        (h.peak_insert_rate is Some) <==> (h.average_insert_rate is Some),
        h.peak_insert_rate is Some ==> ({
            let p = h.peak_insert_rate->0;
            &&& p.seconds == 3600
            &&& exists|k: int|
                0 <= k < store@.readings.len() && bucket_count(
                    store@.readings,
                    crate::hour_bucket_of((#[trigger] store@.readings[k]).timestamp),
                ) == p.count as int
            &&& forall|k: int|
                0 <= k < store@.readings.len() ==> bucket_count(
                    store@.readings,
                    crate::hour_bucket_of((#[trigger] store@.readings[k]).timestamp),
                ) <= p.count as int
        }),
{
    let n = store.readings.len();
    let readings_count = n as i64;

    let mut oldest: Option<i64> = None;
    let mut newest: Option<i64> = None;
    let mut i: usize = 0;
    while i < n
        invariant
            n == store.readings.len(),
            i <= n,
            (oldest is Some) <==> i > 0,
            (newest is Some) <==> i > 0,
            oldest is Some ==> ({
                let o = oldest->0 as int;
                &&& exists|k: int|
                    0 <= k < i && (#[trigger] store@.readings[k]).timestamp == o
                &&& forall|k: int| 0 <= k < i ==> (#[trigger] store@.readings[k]).timestamp >= o
            }),
            newest is Some ==> ({
                let w = newest->0 as int;
                &&& exists|k: int|
                    0 <= k < i && (#[trigger] store@.readings[k]).timestamp == w
                &&& forall|k: int| 0 <= k < i ==> (#[trigger] store@.readings[k]).timestamp <= w
            }),
        decreases n - i,
    {
        let ts = store.readings[i].timestamp;
        proof {
            assert(store@.readings[i as int].timestamp == ts as int);
        }
        oldest = match oldest {
            None => Some(ts),
            Some(o) => if ts < o {
                Some(ts)
            } else {
                Some(o)
            },
        };
        newest = match newest {
            None => Some(ts),
            Some(w) => if ts > w {
                Some(ts)
            } else {
                Some(w)
            },
        };
        i = i + 1;
    }

    let status = if n > 0 {
        String::from_str("healthy")
    } else {
        String::from_str("empty")
    };

    let rates: Option<(InsertRate, InsertRate)> = match (oldest, newest) {
        (Some(o), Some(w)) => {
            if w > o {
                let peak_count = peak_bucket_count(store);
                let span: i128 = w as i128 - o as i128;
                let avg = InsertRate { count: readings_count, seconds: span };
                let peak = InsertRate { count: peak_count as i64, seconds: 3600 };
                Some((avg, peak))
            } else {
                None
            }
        },
        _ => None,
    };
    let (average_insert_rate, peak_insert_rate) = match rates {
        Some((a, p)) => (Some(a), Some(p)),
        None => (None, None),
    };

    DatabaseHealth {
        status,
        database_size_bytes,
        free_space_bytes,
        last_backup: None,
        readings_count,
        oldest_reading: oldest,
        newest_reading: newest,
        average_insert_rate,
        peak_insert_rate,
    }
}

/// How many readings share the hour-aligned bucket of reading `i`.
fn count_bucket_of(store: &Store, i: usize) -> (c: usize)
    requires
        store@.inv(),
        i < store@.readings.len(),
    ensures
        c as int == bucket_count(
            store@.readings,
            crate::hour_bucket_of(store@.readings[i as int].timestamp),
        ),
{
    let b = crate::hour_bucket(store.readings[i].timestamp);
    let ghost pred = |x: ReadingV| crate::hour_bucket_of(x.timestamp) == b as int;
    let n = store.readings.len();
    let mut c: usize = 0;
    let mut j: usize = 0;
    while j < n
        invariant
            n == store.readings.len(),
            j <= n,
            c as int == store@.readings.take(j as int).filter(pred).len(),
            c <= j,
        decreases n - j,
    {
        proof {
            assert(store@.readings.take(j as int + 1) =~= store@.readings.take(j as int).push(
                store@.readings[j as int],
            ));
            store@.readings.take(j as int).lemma_filter_push(store@.readings[j as int], pred);
        }
        if crate::hour_bucket(store.readings[j].timestamp) == b {
            c = c + 1;
        }
        j = j + 1;
    }
    proof {
        assert(store@.readings.take(n as int) =~= store@.readings);
    }
    c
}

/// The largest count of readings in any single hour-aligned bucket.
fn peak_bucket_count(store: &Store) -> (p: usize)
    requires
        store@.inv(),
        store@.readings.len() > 0,
    ensures
        exists|k: int|
            0 <= k < store@.readings.len() && bucket_count(
                store@.readings,
                crate::hour_bucket_of((#[trigger] store@.readings[k]).timestamp),
            ) == p as int,
        forall|k: int|
            0 <= k < store@.readings.len() ==> bucket_count(
                store@.readings,
                crate::hour_bucket_of((#[trigger] store@.readings[k]).timestamp),
            ) <= p as int,
{
    let n = store.readings.len();
    let mut best: usize = count_bucket_of(store, 0);
    let mut i: usize = 1;
    while i < n
        invariant
            n == store.readings.len(),
            1 <= i <= n,
            exists|k: int|
                0 <= k < i && bucket_count(
                    store@.readings,
                    crate::hour_bucket_of((#[trigger] store@.readings[k]).timestamp),
                ) == best as int,
            forall|k: int|
                0 <= k < i ==> bucket_count(
                    store@.readings,
                    crate::hour_bucket_of((#[trigger] store@.readings[k]).timestamp),
                ) <= best as int,
        decreases n - i,
    {
        let c = count_bucket_of(store, i);
        if c > best {
            best = c;
        }
        i = i + 1;
    }
    best
}

/// Run the named maintenance tasks on a store: the recognized task names
/// are kept in order (unknown ones are skipped), and when a cutoff is
/// given, every reading strictly older than it is removed. Analyze and
/// optimize run with the archive delete in one transaction at the
/// process edge; a requested vacuum is only recorded here, since the
/// underlying engine cannot vacuum inside a transaction.
pub fn run_maintenance(store: &mut Store, request: &MaintenanceRequest) -> (r: MaintenanceOutcome)
    requires
        old(store)@.inv(),
    ensures
        final(store)@.inv(),
        r.tasks_completed@.map_values(|s: String| s@) == request.tasks@.map_values(
            |s: String| s@,
        ).filter(|t: Seq<char>| known_task(t)),
        r.vacuum_requested == (exists|k: int|
            0 <= k < request.tasks@.len() && (#[trigger] request.tasks@[k])@ == "vacuum"@),
        match request.archive_before {
            Some(cutoff) => {
                &&& final(store)@.readings == old(store)@.readings.filter(
                    |x: ReadingV| x.timestamp >= cutoff as int,
                )
                &&& r.archived_readings as int == old(store)@.readings.len() - final(store)@.readings.len()
            },
            None => final(store)@.readings == old(store)@.readings && r.archived_readings == 0,
        },
        final(store)@.sensors == old(store)@.sensors,
        final(store)@.sessions == old(store)@.sessions,
        final(store)@.next_sensor_id == old(store)@.next_sensor_id,
        final(store)@.next_reading_id == old(store)@.next_reading_id,
        final(store)@.next_session_id == old(store)@.next_session_id,
        final(store)@.schema_version == old(store)@.schema_version,
{
    let ghost task_pred = |t: Seq<char>| known_task(t);
    let analyze = String::from_str("analyze");
    let optimize = String::from_str("optimize");
    let vacuum = String::from_str("vacuum");
    let n = request.tasks.len();
    let mut tasks_completed: Vec<String> = Vec::new();
    let mut vacuum_requested = false;
    let mut i: usize = 0;
    while i < n
        invariant
            n == request.tasks@.len(),
            i <= n,
            store@ == old(store)@,
            analyze@ == "analyze"@,
            optimize@ == "optimize"@,
            vacuum@ == "vacuum"@,
            tasks_completed@.map_values(|s: String| s@) == request.tasks@.take(
                i as int,
            ).map_values(|s: String| s@).filter(task_pred),
            vacuum_requested == (exists|k: int|
                0 <= k < i && (#[trigger] request.tasks@[k])@ == "vacuum"@),
        decreases n - i,
    {
        let task = &request.tasks[i];
        proof {
            let mapped = request.tasks@.take(i as int).map_values(|s: String| s@);
            assert(request.tasks@.take(i as int + 1).map_values(|s: String| s@) =~= mapped.push(
                request.tasks@[i as int]@,
            ));
            mapped.lemma_filter_push(request.tasks@[i as int]@, task_pred);
        }
        let is_vacuum = *task == vacuum;
        if *task == analyze || *task == optimize || is_vacuum {
            let copy = task.clone();
            let ghost out_pre = tasks_completed@;
            tasks_completed.push(copy);
            proof {
                assert(tasks_completed@.map_values(|s: String| s@) =~= out_pre.map_values(
                    |s: String| s@,
                ).push(copy@));
            }
        }
        if is_vacuum {
            vacuum_requested = true;
        }
        i = i + 1;
    }
    proof {
        assert(request.tasks@.take(n as int) =~= request.tasks@);
    }

    let archived_readings: usize = match request.archive_before {
        Some(cutoff) => {
            let ghost pre = store@;
            let ghost keep = |x: ReadingV| x.timestamp >= cutoff as int;
            let m = store.readings.len();
            let mut kept: Vec<crate::reading::ReadingResponse> = Vec::new();
            let mut j: usize = 0;
            while j < m
                invariant
                    m == store.readings.len(),
                    j <= m,
                    store@ == pre,
                    kept@.map_values(|x: crate::reading::ReadingResponse| x@) == pre.readings.take(
                        j as int,
                    ).filter(keep),
                    kept.len() <= j,
                decreases m - j,
            {
                proof {
                    assert(pre.readings.take(j as int + 1) =~= pre.readings.take(j as int).push(
                        pre.readings[j as int],
                    ));
                    pre.readings.take(j as int).lemma_filter_push(pre.readings[j as int], keep);
                }
                if store.readings[j].timestamp >= cutoff {
                    let copy = store.readings[j].duplicate();
                    let ghost out_pre = kept@;
                    kept.push(copy);
                    proof {
                        assert(kept@.map_values(|x: crate::reading::ReadingResponse| x@)
                            =~= out_pre.map_values(|x: crate::reading::ReadingResponse| x@).push(
                            copy@,
                        ));
                    }
                }
                j = j + 1;
            }
            let removed = m - kept.len();
            store.readings = kept;
            proof {
                assert(pre.readings.take(m as int) =~= pre.readings);
                crate::store::lemma_filter_pairwise(
                    pre.readings,
                    keep,
                    |a: ReadingV, b: ReadingV| a.id != b.id,
                );
                crate::store::lemma_filter_elem(
                    pre.readings,
                    keep,
                    |a: ReadingV| 0 < a.id < pre.next_reading_id,
                );
                crate::store::lemma_filter_elem(
                    pre.readings,
                    keep,
                    |a: ReadingV| a.value is Some || a.state is Some,
                );
                crate::store::lemma_filter_elem(
                    pre.readings,
                    keep,
                    |a: ReadingV| sensor_exists(pre.sensors, a.sensor_id),
                );
            }
            removed
        },
        None => 0,
    };

    MaintenanceOutcome { tasks_completed, archived_readings, vacuum_requested }
}

} // verus!
