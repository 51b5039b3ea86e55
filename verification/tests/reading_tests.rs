use sensor_store::error::AppError;
use sensor_store::migrations::run_migrations;
use sensor_store::reading::{Reading, ReadingBulkInsert, ReadingBulkResponse, ReadingQuery};
use sensor_store::sensor::Sensor;
use sensor_store::store::Store;

fn reading_test_store() -> (Store, i64) {
    let mut store = Store::new();
    run_migrations(&mut store).unwrap();
    let sensor = Sensor {
        sensor_id: None,
        sensor_name: "Rig".to_string(),
        sensor_type: "temperature".to_string(),
        location: None,
        unit: None,
        threshold_min: None,
        threshold_max: None,
        calibration_date: None,
        notes: None,
        created_at: None,
        updated_at: None,
    };
    let id = sensor.create(&mut store).unwrap();
    (store, id)
}

fn reading_at(sensor_id: i64, ts: i64, value: Option<i64>, state: Option<i64>) -> Reading {
    Reading {
        reading_id: None,
        timestamp: Some(ts),
        sensor_id,
        value,
        state,
        change_type: None,
    }
}

#[test]
fn create_reading_assigns_id_and_stores_fields() {
    let (mut store, sid) = reading_test_store();
    let id = reading_at(sid, 500, Some(21500), None).create(&mut store).unwrap();
    assert!(id > 0);

    let current = Reading::get_current(&store, sid).unwrap();
    assert_eq!(current.reading_id, id);
    assert_eq!(current.timestamp, 500);
    assert_eq!(current.value, Some(21500));
    assert_eq!(current.state, None);
}

#[test]
fn create_reading_without_payload_is_bad_request() {
    let (mut store, sid) = reading_test_store();
    let result = reading_at(sid, 500, None, None).create(&mut store);
    assert!(matches!(result, Err(AppError::BadRequest(_))));
}

#[test]
fn create_reading_for_missing_sensor_is_not_found() {
    let (mut store, sid) = reading_test_store();
    let result = reading_at(sid + 10, 500, Some(1000), None).create(&mut store);
    assert!(matches!(result, Err(AppError::NotFound(_))));
}

#[test]
fn bulk_insert_stores_every_row_and_query_returns_them_descending() {
    let (mut store, sid) = reading_test_store();
    let rows = vec![
        reading_at(sid, 100, Some(1000), None),
        reading_at(sid, 300, Some(3000), None),
        reading_at(sid, 200, None, Some(1)),
    ];
    let count = Reading::bulk_insert(&mut store, &rows).unwrap();
    assert_eq!(count, 3);

    let query =
        ReadingQuery { sensor_id: None, start_time: None, end_time: None, limit: None, offset: None };
    let all = Reading::get(&store, &query).unwrap();
    assert_eq!(all.len(), 3);
    assert_eq!(all[0].timestamp, 300);
    assert_eq!(all[1].timestamp, 200);
    assert_eq!(all[2].timestamp, 100);
}

#[test]
fn bulk_insert_with_invalid_sensor_rolls_back_everything() {
    let (mut store, sid) = reading_test_store();
    let rows = vec![
        reading_at(sid, 100, Some(1000), None),
        reading_at(sid + 99, 200, Some(2000), None),
        reading_at(sid, 300, Some(3000), None),
    ];
    let result = Reading::bulk_insert(&mut store, &rows);
    assert!(matches!(result, Err(AppError::NotFound(_))));

    let query =
        ReadingQuery { sensor_id: None, start_time: None, end_time: None, limit: None, offset: None };
    let all = Reading::get(&store, &query).unwrap();
    assert_eq!(all.len(), 0, "No row of the failed batch may survive");
}

#[test]
fn bulk_insert_with_missing_payload_rolls_back_everything() {
    let (mut store, sid) = reading_test_store();
    let rows = vec![reading_at(sid, 100, Some(1000), None), reading_at(sid, 200, None, None)];
    let result = Reading::bulk_insert(&mut store, &rows);
    assert!(matches!(result, Err(AppError::BadRequest(_))));

    let query =
        ReadingQuery { sensor_id: None, start_time: None, end_time: None, limit: None, offset: None };
    assert_eq!(Reading::get(&store, &query).unwrap().len(), 0);
}

#[test]
fn bulk_insert_shares_one_now_for_absent_timestamps() {
    let (mut store, sid) = reading_test_store();
    let rows = vec![
        Reading { reading_id: None, timestamp: None, sensor_id: sid, value: Some(1), state: None, change_type: None },
        Reading { reading_id: None, timestamp: None, sensor_id: sid, value: Some(2), state: None, change_type: None },
    ];
    Reading::bulk_insert_at(&mut store, &rows, 777).unwrap();
    let query =
        ReadingQuery { sensor_id: None, start_time: None, end_time: None, limit: None, offset: None };
    let all = Reading::get(&store, &query).unwrap();
    assert_eq!(all.len(), 2);
    assert_eq!(all[0].timestamp, 777);
    assert_eq!(all[1].timestamp, 777);
}

#[test]
fn bulk_payload_carries_rows_and_reports_the_count() {
    let (mut store, sid) = reading_test_store();
    let payload = ReadingBulkInsert {
        readings: vec![reading_at(sid, 10, Some(1), None), reading_at(sid, 20, Some(2), None)],
    };
    let inserted_count = Reading::bulk_insert(&mut store, &payload.readings).unwrap();
    let response = ReadingBulkResponse { inserted_count, success: true };
    assert_eq!(response.inserted_count, 2);
    assert!(response.success);
}

#[test]
fn query_filters_compose_and_paginate() {
    let (mut store, sid) = reading_test_store();
    let rows: Vec<Reading> = (0..5).map(|k| reading_at(sid, 100 * (k + 1), Some(k), None)).collect();
    Reading::bulk_insert(&mut store, &rows).unwrap();

    // range filter keeps exactly the overlap
    let query = ReadingQuery {
        sensor_id: Some(sid),
        start_time: Some(200),
        end_time: Some(400),
        limit: None,
        offset: None,
    };
    let ranged = Reading::get(&store, &query).unwrap();
    assert_eq!(ranged.len(), 3);
    assert_eq!(ranged[0].timestamp, 400);
    assert_eq!(ranged[2].timestamp, 200);

    // pagination windows the descending order
    let query = ReadingQuery {
        sensor_id: None,
        start_time: None,
        end_time: None,
        limit: Some(2),
        offset: Some(1),
    };
    let page = Reading::get(&store, &query).unwrap();
    assert_eq!(page.len(), 2);
    assert_eq!(page[0].timestamp, 400);
    assert_eq!(page[1].timestamp, 300);
}

#[test]
fn get_current_picks_latest_reading() {
    let (mut store, sid) = reading_test_store();
    assert!(matches!(Reading::get_current(&store, sid), Err(AppError::NotFound(_))));

    let rows = vec![
        reading_at(sid, 50, Some(1), None),
        reading_at(sid, 90, Some(2), None),
        reading_at(sid, 70, Some(3), None),
    ];
    Reading::bulk_insert(&mut store, &rows).unwrap();
    let current = Reading::get_current(&store, sid).unwrap();
    assert_eq!(current.timestamp, 90);
    assert_eq!(current.value, Some(2));
}

#[test]
fn delete_range_removes_exactly_the_bounded_readings() {
    let mut store = Store::new();
    run_migrations(&mut store).unwrap();
    let mk = |name: &str| Sensor {
        sensor_id: None,
        sensor_name: name.to_string(),
        sensor_type: "temperature".to_string(),
        location: None,
        unit: None,
        threshold_min: None,
        threshold_max: None,
        calibration_date: None,
        notes: None,
        created_at: None,
        updated_at: None,
    };
    let a = mk("A").create(&mut store).unwrap();
    let b = mk("B").create(&mut store).unwrap();
    let rows = vec![
        reading_at(a, 100, Some(1), None),
        reading_at(a, 250, Some(2), None),
        reading_at(b, 300, Some(3), None),
        reading_at(b, 450, Some(4), None),
    ];
    Reading::bulk_insert(&mut store, &rows).unwrap();

    let removed = Reading::delete_range(&mut store, None, 200, 400).unwrap();
    assert_eq!(removed, 2, "Exactly the readings in [200, 400] go");

    let query =
        ReadingQuery { sensor_id: None, start_time: None, end_time: None, limit: None, offset: None };
    let left = Reading::get(&store, &query).unwrap();
    assert_eq!(left.len(), 2);
    assert_eq!(left[0].timestamp, 450);
    assert_eq!(left[1].timestamp, 100);
}

#[test]
fn delete_range_can_be_restricted_to_one_sensor() {
    let mut store = Store::new();
    run_migrations(&mut store).unwrap();
    let mk = |name: &str| Sensor {
        sensor_id: None,
        sensor_name: name.to_string(),
        sensor_type: "flow".to_string(),
        location: None,
        unit: None,
        threshold_min: None,
        threshold_max: None,
        calibration_date: None,
        notes: None,
        created_at: None,
        updated_at: None,
    };
    let a = mk("A").create(&mut store).unwrap();
    let b = mk("B").create(&mut store).unwrap();
    Reading::bulk_insert(
        &mut store,
        &vec![reading_at(a, 100, Some(1), None), reading_at(b, 100, Some(2), None)],
    )
    .unwrap();

    let removed = Reading::delete_range(&mut store, Some(a), 0, 1000).unwrap();
    assert_eq!(removed, 1);
    let query =
        ReadingQuery { sensor_id: None, start_time: None, end_time: None, limit: None, offset: None };
    let left = Reading::get(&store, &query).unwrap();
    assert_eq!(left.len(), 1);
    assert_eq!(left[0].sensor_id, b);
}

#[test]
fn delete_readings_requires_both_bounds() {
    let (mut store, sid) = reading_test_store();
    reading_at(sid, 100, Some(1), None).create(&mut store).unwrap();

    let missing_start = Reading::delete_readings(&mut store, None, None, Some(200));
    assert!(matches!(missing_start, Err(AppError::BadRequest(_))));
    let missing_end = Reading::delete_readings(&mut store, None, Some(0), None);
    assert!(matches!(missing_end, Err(AppError::BadRequest(_))));

    let query =
        ReadingQuery { sensor_id: None, start_time: None, end_time: None, limit: None, offset: None };
    assert_eq!(Reading::get(&store, &query).unwrap().len(), 1, "Nothing was deleted");

    let done = Reading::delete_readings(&mut store, None, Some(0), Some(200)).unwrap();
    assert_eq!(done, 1);
}
