use sensor_store::error::AppError;
use sensor_store::migrations::run_migrations;
use sensor_store::pool::ConnectionPool;
use sensor_store::sensor::Sensor;
use sensor_store::session::LoggingSession;
use sensor_store::store::Store;

fn session_test_store() -> (Store, i64) {
    let mut store = Store::new();
    run_migrations(&mut store).unwrap();
    let sensor = Sensor {
        sensor_id: None,
        sensor_name: "Logger".to_string(),
        sensor_type: "power".to_string(),
        location: None,
        unit: None,
        threshold_min: None,
        threshold_max: None,
        calibration_date: None,
        notes: None,
        created_at: None,
        updated_at: None,
    };
    let id = sensor.create(&mut store).unwrap();
    (store, id)
}

fn session_for(sensor_id: i64, start: Option<i64>) -> LoggingSession {
    LoggingSession {
        session_id: None,
        sensor_id,
        start_time: start,
        end_time: None,
        sample_rate: Some(300),
        notes: Some("Test Session".to_string()),
    }
}

#[test]
fn start_rejects_second_active_session_and_leaves_store_unchanged() {
    let (mut store, sid) = session_test_store();
    session_for(sid, Some(100)).start(&mut store).unwrap();

    let result = session_for(sid, Some(200)).start(&mut store);
    assert!(matches!(result, Err(AppError::Conflict(_))));

    let sessions = LoggingSession::get_by_sensor(&store, sid).unwrap();
    assert_eq!(sessions.len(), 1, "The refused start left no trace");
    assert_eq!(sessions[0].start_time, 100);
}

#[test]
fn start_for_missing_sensor_is_rejected() {
    let (mut store, sid) = session_test_store();
    let result = session_for(sid + 5, Some(100)).start(&mut store);
    assert!(matches!(result, Err(AppError::BadRequest(_))));
}

#[test]
fn end_without_active_session_is_not_found() {
    let (mut store, sid) = session_test_store();
    let result = LoggingSession::end(&mut store, sid);
    assert!(matches!(result, Err(AppError::NotFound(_))));
}

#[test]
fn end_flips_exactly_the_active_session() {
    let (mut store, sid) = session_test_store();
    // an older, already ended session
    let mut first = session_for(sid, Some(100));
    first.end_time = Some(150);
    let first_id = first.start(&mut store).unwrap();
    // the active one
    let second_id = session_for(sid, Some(200)).start(&mut store).unwrap();

    LoggingSession::end_at(&mut store, sid, 250).unwrap();

    let sessions = LoggingSession::get_by_sensor(&store, sid).unwrap();
    assert_eq!(sessions.len(), 2);
    for s in &sessions {
        if s.session_id == second_id {
            assert_eq!(s.end_time, Some(250));
            assert!(!s.is_active);
        } else {
            assert_eq!(s.session_id, first_id);
            assert_eq!(s.end_time, Some(150), "The old session is untouched");
        }
    }
}

#[test]
fn sessions_can_follow_each_other_once_ended() {
    let (mut store, sid) = session_test_store();
    session_for(sid, Some(100)).start(&mut store).unwrap();
    LoggingSession::end_at(&mut store, sid, 150).unwrap();
    session_for(sid, Some(200)).start(&mut store).unwrap();

    let sessions = LoggingSession::get_by_sensor(&store, sid).unwrap();
    assert_eq!(sessions.len(), 2);
    // newest start first
    assert_eq!(sessions[0].start_time, 200);
    assert!(sessions[0].is_active);
    assert_eq!(sessions[1].start_time, 100);
    assert!(!sessions[1].is_active);
}

#[test]
fn get_active_returns_none_without_error() {
    let (store, sid) = session_test_store();
    let active = LoggingSession::get_active(&store, sid).unwrap();
    assert!(active.is_none());
}

#[test]
fn get_all_active_lists_only_running_sessions() {
    let mut store = Store::new();
    run_migrations(&mut store).unwrap();
    let mk = |name: &str| Sensor {
        sensor_id: None,
        sensor_name: name.to_string(),
        sensor_type: "power".to_string(),
        location: None,
        unit: None,
        threshold_min: None,
        threshold_max: None,
        calibration_date: None,
        notes: None,
        created_at: None,
        updated_at: None,
    };
    let a = mk("A").create(&mut store).unwrap();
    let b = mk("B").create(&mut store).unwrap();
    session_for(a, Some(100)).start(&mut store).unwrap();
    session_for(b, Some(300)).start(&mut store).unwrap();
    LoggingSession::end_at(&mut store, a, 200).unwrap();

    let active = LoggingSession::get_all_active(&store).unwrap();
    assert_eq!(active.len(), 1);
    assert_eq!(active[0].sensor_id, b);
    assert!(active[0].is_active);

    let found = LoggingSession::get_active(&store, b).unwrap();
    assert!(found.is_some());
    assert_eq!(found.unwrap().start_time, 300);
}

#[test]
fn session_start_time_defaults_to_the_clock() {
    let (mut store, sid) = session_test_store();
    session_for(sid, None).start_at(&mut store, 4242).unwrap();
    let sessions = LoggingSession::get_by_sensor(&store, sid).unwrap();
    assert_eq!(sessions[0].start_time, 4242);
}

#[test]
fn pool_bounds_concurrent_borrows() {
    let mut pool = ConnectionPool::new(2);
    pool.acquire().unwrap();
    pool.acquire().unwrap();
    let exhausted = pool.acquire();
    assert!(matches!(exhausted, Err(AppError::Internal(_))));
    pool.release();
    pool.acquire().unwrap();
}
