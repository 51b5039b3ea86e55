use sensor_store::migrations::{pending_migrations, run_migrations};
use sensor_store::reading::Reading;
use sensor_store::schema::{get_maintenance_sql, get_optimization_sql, get_time_series_indices_sql, SCHEMA_VERSION};
use sensor_store::sensor::Sensor;
use sensor_store::store::Store;
use sensor_store::system::{get_database_health, run_maintenance, MaintenanceRequest};
use sensor_store::time::current_timestamp;

fn system_test_store() -> (Store, i64) {
    let mut store = Store::new();
    run_migrations(&mut store).unwrap();
    let sensor = Sensor {
        sensor_id: None,
        sensor_name: "Meter".to_string(),
        sensor_type: "power".to_string(),
        location: None,
        unit: None,
        threshold_min: None,
        threshold_max: None,
        calibration_date: None,
        notes: None,
        created_at: None,
        updated_at: None,
    };
    let id = sensor.create(&mut store).unwrap();
    (store, id)
}

fn plain_reading(sensor_id: i64, ts: i64) -> Reading {
    Reading {
        reading_id: None,
        timestamp: Some(ts),
        sensor_id,
        value: Some(1000),
        state: None,
        change_type: None,
    }
}

#[test]
fn migrator_is_idempotent() {
    let mut store = Store::new();
    assert_eq!(store.schema_version, 0);
    run_migrations(&mut store).unwrap();
    assert_eq!(store.schema_version, SCHEMA_VERSION);

    run_migrations(&mut store).unwrap();
    assert_eq!(store.schema_version, SCHEMA_VERSION, "A second run changes nothing");
    assert!(pending_migrations(store.schema_version).is_empty());
}

#[test]
fn pending_migrations_lists_initial_schema_for_fresh_store() {
    let scripts = pending_migrations(0);
    assert_eq!(scripts.len(), 1);
    assert!(scripts[0].contains("CREATE TABLE IF NOT EXISTS sensors"));
    assert!(scripts[0].contains("logging_sessions"));
}

#[test]
fn health_of_empty_store_reports_empty_without_rates() {
    let (store, _) = system_test_store();
    let h = get_database_health(&store, 4096, 1 << 20);
    assert_eq!(h.status, "empty");
    assert_eq!(h.readings_count, 0);
    assert_eq!(h.database_size_bytes, 4096);
    assert!(h.oldest_reading.is_none());
    assert!(h.newest_reading.is_none());
    assert!(h.average_insert_rate.is_none());
    assert!(h.peak_insert_rate.is_none());
}

#[test]
fn health_with_zero_span_omits_rates() {
    let (mut store, sid) = system_test_store();
    plain_reading(sid, 900).create(&mut store).unwrap();
    plain_reading(sid, 900).create(&mut store).unwrap();

    let h = get_database_health(&store, 0, 0);
    assert_eq!(h.status, "healthy");
    assert_eq!(h.readings_count, 2);
    assert_eq!(h.oldest_reading, Some(900));
    assert_eq!(h.newest_reading, Some(900));
    assert!(h.average_insert_rate.is_none(), "A zero span has no rate, not a zero rate");
    assert!(h.peak_insert_rate.is_none());
}

#[test]
fn health_average_rate_is_count_over_span() {
    let (mut store, sid) = system_test_store();
    // 3600 readings spanning exactly 3600 seconds: one each at 0 and 3600,
    // the rest at 2..=3599
    let mut rows = vec![plain_reading(sid, 0), plain_reading(sid, 3600)];
    for ts in 2..=3599 {
        rows.push(plain_reading(sid, ts));
    }
    assert_eq!(rows.len(), 3600);
    Reading::bulk_insert(&mut store, &rows).unwrap();

    let h = get_database_health(&store, 0, 0);
    assert_eq!(h.readings_count, 3600);
    assert_eq!(h.oldest_reading, Some(0));
    assert_eq!(h.newest_reading, Some(3600));
    let avg = h.average_insert_rate.unwrap();
    assert_eq!(avg.count, 3600);
    assert_eq!(avg.seconds, 3600, "3600 readings over 3600 seconds: one per second");

    // every reading but the one at 3600 falls into the first hour bucket
    let peak = h.peak_insert_rate.unwrap();
    assert_eq!(peak.count, 3599);
    assert_eq!(peak.seconds, 3600);
}

#[test]
fn maintenance_keeps_known_tasks_and_archives_old_readings() {
    let (mut store, sid) = system_test_store();
    plain_reading(sid, 100).create(&mut store).unwrap();
    plain_reading(sid, 900).create(&mut store).unwrap();

    let request = MaintenanceRequest {
        tasks: vec![
            "analyze".to_string(),
            "shrink".to_string(),
            "vacuum".to_string(),
            "optimize".to_string(),
        ],
        archive_before: Some(500),
    };
    let outcome = run_maintenance(&mut store, &request);
    assert_eq!(outcome.tasks_completed, vec!["analyze", "vacuum", "optimize"]);
    assert!(outcome.vacuum_requested, "Vacuum runs after the transaction, not inside it");
    assert_eq!(outcome.archived_readings, 1);
    assert_eq!(store.readings.len(), 1);
    assert_eq!(store.readings[0].timestamp, 900);
}

#[test]
fn maintenance_without_archive_changes_no_reading() {
    let (mut store, sid) = system_test_store();
    plain_reading(sid, 100).create(&mut store).unwrap();
    let request = MaintenanceRequest { tasks: vec!["analyze".to_string()], archive_before: None };
    let outcome = run_maintenance(&mut store, &request);
    assert_eq!(outcome.archived_readings, 0);
    assert!(!outcome.vacuum_requested);
    assert_eq!(store.readings.len(), 1);
}

#[test]
fn maintenance_sql_batches_name_their_statements() {
    assert!(get_optimization_sql().contains("VACUUM"));
    assert!(get_maintenance_sql().contains("integrity_check"));
}

#[test]
fn time_series_index_sql_is_assembled_from_the_names() {
    let sql = get_time_series_indices_sql("readings", "timestamp", "sensor_id");
    assert_eq!(
        sql,
        "CREATE INDEX IF NOT EXISTS idx_readings_timestamp ON readings(timestamp);\n\
         CREATE INDEX IF NOT EXISTS idx_readings_sensor_id_timestamp ON readings(sensor_id, timestamp);\n"
    );
}

#[test]
fn clock_reads_a_present_day_time() {
    let t = current_timestamp();
    assert!(t > 1_500_000_000, "The clock reports seconds since the epoch");
}
