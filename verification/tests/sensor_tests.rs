use sensor_store::error::AppError;
use sensor_store::migrations::run_migrations;
use sensor_store::sensor::{Sensor, SensorQuery};
use sensor_store::store::Store;

fn sensor_test_store() -> Store {
    let mut store = Store::new();
    run_migrations(&mut store).unwrap();
    store
}

fn sample_sensor(name: &str, ty: &str, location: Option<&str>, unit: Option<&str>) -> Sensor {
    Sensor {
        sensor_id: None,
        sensor_name: name.to_string(),
        sensor_type: ty.to_string(),
        location: location.map(|s| s.to_string()),
        unit: unit.map(|s| s.to_string()),
        threshold_min: None,
        threshold_max: None,
        calibration_date: None,
        notes: None,
        created_at: None,
        updated_at: None,
    }
}

#[test]
fn test_create_sensor() {
    let mut store = sensor_test_store();

    let sensor = Sensor {
        sensor_id: None,
        sensor_name: "Test Temperature Sensor".to_string(),
        sensor_type: "temperature".to_string(),
        location: Some("Building A, Room 101".to_string()),
        unit: Some("C".to_string()),
        threshold_min: Some(18000),
        threshold_max: Some(25000),
        calibration_date: None,
        notes: Some("Test sensor".to_string()),
        created_at: None,
        updated_at: None,
    };

    let id = sensor.create(&mut store).unwrap();
    assert!(id > 0, "Sensor ID should be positive");

    let retrieved = Sensor::get_by_id(&store, id).unwrap();
    assert_eq!(retrieved.sensor_name, "Test Temperature Sensor");
    assert_eq!(retrieved.sensor_type, "temperature");
    assert_eq!(retrieved.location, Some("Building A, Room 101".to_string()));
}

#[test]
fn test_update_sensor() {
    let mut store = sensor_test_store();
    let sensor_id = sample_sensor("Test Sensor", "temperature", Some("Test Location"), Some("C"))
        .create(&mut store)
        .unwrap();

    let sensor = Sensor {
        sensor_id: None,
        sensor_name: "Updated Sensor".to_string(),
        sensor_type: "humidity".to_string(),
        location: Some("New Location".to_string()),
        unit: Some("%".to_string()),
        threshold_min: Some(30000),
        threshold_max: Some(70000),
        calibration_date: None,
        notes: Some("Updated notes".to_string()),
        created_at: None,
        updated_at: None,
    };

    sensor.update(&mut store, sensor_id).unwrap();

    let retrieved = Sensor::get_by_id(&store, sensor_id).unwrap();
    assert_eq!(retrieved.sensor_name, "Updated Sensor");
    assert_eq!(retrieved.sensor_type, "humidity");
    assert_eq!(retrieved.unit, Some("%".to_string()));
}

#[test]
fn test_delete_sensor() {
    let mut store = sensor_test_store();
    let sensor_id = sample_sensor("Test Sensor", "temperature", Some("Test Location"), Some("C"))
        .create(&mut store)
        .unwrap();

    Sensor::delete(&mut store, sensor_id).unwrap();

    let result = Sensor::get_by_id(&store, sensor_id);
    assert!(result.is_err(), "Sensor should be deleted");
}

#[test]
fn test_get_all_sensors() {
    let mut store = sensor_test_store();
    sample_sensor("Test Sensor", "temperature", Some("Test Location"), Some("C"))
        .create(&mut store)
        .unwrap();

    let sensor2 = Sensor {
        sensor_id: None,
        sensor_name: "Test Flow Sensor".to_string(),
        sensor_type: "flow".to_string(),
        location: Some("Building B".to_string()),
        unit: Some("L/min".to_string()),
        threshold_min: Some(5000),
        threshold_max: Some(50000),
        calibration_date: None,
        notes: Some("Test flow sensor".to_string()),
        created_at: None,
        updated_at: None,
    };
    sensor2.create(&mut store).unwrap();

    let query = SensorQuery { sensor_type: None, location: None };
    let sensors = Sensor::get_all(&store, &query).unwrap();
    assert_eq!(sensors.len(), 2, "Should retrieve 2 sensors");

    let query = SensorQuery { sensor_type: Some("flow".to_string()), location: None };
    let sensors = Sensor::get_all(&store, &query).unwrap();
    assert_eq!(sensors.len(), 1, "Should retrieve 1 sensor");
    assert_eq!(sensors[0].sensor_type, "flow");

    let query = SensorQuery { sensor_type: None, location: Some("Building B".to_string()) };
    let sensors = Sensor::get_all(&store, &query).unwrap();
    assert_eq!(sensors.len(), 1, "Should retrieve 1 sensor");
    assert_eq!(sensors[0].location, Some("Building B".to_string()));
}

#[test]
fn create_then_fetch_returns_input_fields_with_equal_timestamps() {
    let mut store = sensor_test_store();
    let input = Sensor {
        sensor_id: None,
        sensor_name: "Pressure North".to_string(),
        sensor_type: "pressure".to_string(),
        location: Some("Hall 3".to_string()),
        unit: Some("kPa".to_string()),
        threshold_min: Some(-2500),
        threshold_max: Some(90000),
        calibration_date: Some(1700000000),
        notes: None,
        created_at: None,
        updated_at: None,
    };
    let id = input.create(&mut store).unwrap();

    let fetched = Sensor::get_by_id(&store, id).unwrap();
    assert_eq!(fetched.sensor_id, id);
    assert_eq!(fetched.sensor_name, input.sensor_name);
    assert_eq!(fetched.sensor_type, input.sensor_type);
    assert_eq!(fetched.location, input.location);
    assert_eq!(fetched.unit, input.unit);
    assert_eq!(fetched.threshold_min, input.threshold_min);
    assert_eq!(fetched.threshold_max, input.threshold_max);
    assert_eq!(fetched.calibration_date, input.calibration_date);
    assert_eq!(fetched.notes, input.notes);
    assert_eq!(fetched.created_at, fetched.updated_at);
}

#[test]
fn update_refreshes_update_timestamp_beyond_creation() {
    let mut store = sensor_test_store();
    let input = sample_sensor("Clocked", "temperature", None, None);
    let id = input.create_at(&mut store, 1000).unwrap();

    let changed = sample_sensor("Clocked", "temperature", Some("Cellar"), None);
    changed.update_at(&mut store, id, 1001).unwrap();

    let fetched = Sensor::get_by_id(&store, id).unwrap();
    assert_eq!(fetched.created_at, 1000);
    assert_eq!(fetched.updated_at, 1001);
    assert!(fetched.updated_at > fetched.created_at);
}

#[test]
fn update_clears_optional_fields_and_keeps_id() {
    let mut store = sensor_test_store();
    let id = sample_sensor("Full", "flow", Some("Yard"), Some("L/s")).create(&mut store).unwrap();

    let bare = sample_sensor("Full", "flow", None, None);
    bare.update(&mut store, id).unwrap();

    let fetched = Sensor::get_by_id(&store, id).unwrap();
    assert_eq!(fetched.sensor_id, id);
    assert_eq!(fetched.location, None);
    assert_eq!(fetched.unit, None);
}

#[test]
fn update_missing_sensor_reports_not_found() {
    let mut store = sensor_test_store();
    let result = sample_sensor("Ghost", "temperature", None, None).update(&mut store, 77);
    assert!(matches!(result, Err(AppError::NotFound(_))));
}

#[test]
fn delete_missing_sensor_reports_not_found() {
    let mut store = sensor_test_store();
    let result = Sensor::delete(&mut store, 12);
    assert!(matches!(result, Err(AppError::NotFound(_))));
}

#[test]
fn get_by_id_missing_sensor_reports_not_found() {
    let store = sensor_test_store();
    let result = Sensor::get_by_id(&store, 5);
    assert!(matches!(result, Err(AppError::NotFound(_))));
}
