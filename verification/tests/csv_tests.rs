use sensor_store::csv::{
    export_readings_to_csv, export_sensors_to_csv, import_readings_from_csv,
    import_sensors_from_csv,
};
use sensor_store::error::AppError;
use sensor_store::reading::ReadingResponse;
use sensor_store::sensor::SensorResponse;
use sensor_store::text::{int_to_text, milli_to_text};

#[test]
fn test_export_readings_to_csv() {
    let readings = vec![
        ReadingResponse {
            reading_id: 1,
            timestamp: 1744374600,
            sensor_id: 1,
            value: Some(21500),
            state: None,
            change_type: Some("periodic".to_string()),
        },
        ReadingResponse {
            reading_id: 2,
            timestamp: 1744374900,
            sensor_id: 1,
            value: Some(22000),
            state: None,
            change_type: Some("periodic".to_string()),
        },
    ];

    let csv_output = export_readings_to_csv(&readings, true);

    assert!(csv_output.contains("reading_id,timestamp,formatted_time"));
    assert!(csv_output.contains("21.5"));
    assert!(csv_output.contains("22.0"));
    assert!(csv_output.contains("periodic"));
}

#[test]
fn test_import_readings_from_csv() {
    let csv_data = "sensor_id,timestamp,value,change_type\n\
                    1,1712921800,21.5,periodic\n\
                    1,1712922100,22.0,periodic\n\
                    2,1712921800,15.2,periodic\n";

    let readings = import_readings_from_csv(csv_data).unwrap();

    assert_eq!(readings.len(), 3);
    assert_eq!(readings[0].sensor_id, 1);
    assert_eq!(readings[0].value, Some(21500));
    assert_eq!(readings[1].value, Some(22000));
    assert_eq!(readings[2].sensor_id, 2);
}

#[test]
fn exported_time_column_renders_the_calendar_text() {
    let readings = vec![ReadingResponse {
        reading_id: 7,
        timestamp: 0,
        sensor_id: 3,
        value: None,
        state: Some(1),
        change_type: None,
    }];
    let out = export_readings_to_csv(&readings, false);
    assert_eq!(out, "7,0,1970-01-01 00:00:00,3,,1,\n");
}

#[test]
fn export_quotes_fields_holding_separators() {
    let sensors = vec![SensorResponse {
        sensor_id: 4,
        sensor_name: "North \"alpha\" probe".to_string(),
        sensor_type: "temperature".to_string(),
        location: Some("Building A, Room 101".to_string()),
        unit: None,
        threshold_min: Some(18000),
        threshold_max: None,
        calibration_date: None,
        notes: None,
        created_at: 0,
        updated_at: 0,
    }];
    let out = export_sensors_to_csv(&sensors, true);
    assert!(out.starts_with("sensor_id,sensor_name,sensor_type,location,"));
    assert!(out.contains("\"North \"\"alpha\"\" probe\""));
    assert!(out.contains("\"Building A, Room 101\""));
    assert!(out.contains("18.0"));
}

#[test]
fn import_readings_accepts_quotes_blanks_and_mixed_case_headers() {
    let csv_data = "SENSOR_ID , Timestamp ,Value,Change_Type\n\
                    \n\
                    5, 100 ,\"1.25\",\"per,iodic\"\n";
    let readings = import_readings_from_csv(csv_data).unwrap();
    assert_eq!(readings.len(), 1);
    assert_eq!(readings[0].sensor_id, 5);
    assert_eq!(readings[0].timestamp, Some(100));
    assert_eq!(readings[0].value, Some(1250));
    assert_eq!(readings[0].change_type, Some("per,iodic".to_string()));
}

#[test]
fn import_readings_without_sensor_id_column_fails() {
    let csv_data = "timestamp,value\n100,1.5\n";
    let result = import_readings_from_csv(csv_data);
    assert!(matches!(result, Err(AppError::BadRequest(_))));
}

#[test]
fn import_readings_without_value_or_state_fails() {
    let csv_data = "sensor_id,timestamp\n1,100\n";
    let result = import_readings_from_csv(csv_data);
    assert!(matches!(result, Err(AppError::BadRequest(_))));
}

#[test]
fn import_readings_of_empty_text_yields_nothing() {
    assert_eq!(import_readings_from_csv("").unwrap().len(), 0);
}

#[test]
fn import_sensors_reads_names_types_and_thresholds() {
    let csv_data = "Sensor_Name,Sensor_Type,location,unit,threshold_min,threshold_max,notes\n\
                    Kitchen,temperature,Kitchen west,C,1.5,30,main probe\n\
                    Hall,flow,,,0.25,,\n";
    let sensors = import_sensors_from_csv(csv_data).unwrap();
    assert_eq!(sensors.len(), 2);
    assert_eq!(sensors[0].sensor_name, "Kitchen");
    assert_eq!(sensors[0].sensor_type, "temperature");
    assert_eq!(sensors[0].location, Some("Kitchen west".to_string()));
    assert_eq!(sensors[0].unit, Some("C".to_string()));
    assert_eq!(sensors[0].threshold_min, Some(1500));
    assert_eq!(sensors[0].threshold_max, Some(30000));
    assert_eq!(sensors[0].notes, Some("main probe".to_string()));
    assert_eq!(sensors[1].sensor_name, "Hall");
    assert_eq!(sensors[1].location, None);
    assert_eq!(sensors[1].threshold_min, Some(250));
    assert_eq!(sensors[1].threshold_max, None);
}

#[test]
fn import_sensors_with_empty_name_fails() {
    let csv_data = "sensor_name,sensor_type\n,temperature\n";
    let result = import_sensors_from_csv(csv_data);
    assert!(matches!(result, Err(AppError::BadRequest(_))));
}

#[test]
fn decimal_texts_render_sign_point_and_trimmed_fraction() {
    assert_eq!(int_to_text(0), "0");
    assert_eq!(int_to_text(-42), "-42");
    assert_eq!(int_to_text(9007), "9007");
    assert_eq!(milli_to_text(21500), "21.5");
    assert_eq!(milli_to_text(22000), "22.0");
    assert_eq!(milli_to_text(15200), "15.2");
    assert_eq!(milli_to_text(123), "0.123");
    assert_eq!(milli_to_text(-1250), "-1.25");
}
