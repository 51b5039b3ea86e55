//! Schema constants and helpers: the DDL that defines the physical
//! layout, and the statement batches that maintenance runs.

use vstd::prelude::*;

verus! {

/// Version of the current migration set.
pub const SCHEMA_VERSION: i32 = 1;

/// DDL of the initial schema: the three tables, their foreign keys, and
/// the time-series indices.
pub const INITIAL_SCHEMA: &'static str = "CREATE TABLE IF NOT EXISTS sensors (
    sensor_id INTEGER PRIMARY KEY AUTOINCREMENT,
    sensor_name TEXT NOT NULL,
    sensor_type TEXT NOT NULL,
    location TEXT,
    unit TEXT,
    threshold_min REAL,
    threshold_max REAL,
    calibration_date INTEGER,
    notes TEXT,
    created_at INTEGER NOT NULL,
    updated_at INTEGER NOT NULL
);

CREATE TABLE IF NOT EXISTS readings (
    reading_id INTEGER PRIMARY KEY AUTOINCREMENT,
    timestamp INTEGER NOT NULL,
    sensor_id INTEGER NOT NULL REFERENCES sensors(sensor_id) ON DELETE CASCADE,
    value REAL,
    state INTEGER,
    change_type TEXT
);

CREATE TABLE IF NOT EXISTS logging_sessions (
    session_id INTEGER PRIMARY KEY AUTOINCREMENT,
    sensor_id INTEGER NOT NULL REFERENCES sensors(sensor_id) ON DELETE CASCADE,
    start_time INTEGER NOT NULL,
    end_time INTEGER,
    sample_rate INTEGER,
    notes TEXT
);

CREATE INDEX IF NOT EXISTS idx_readings_timestamp ON readings(timestamp);

CREATE INDEX IF NOT EXISTS idx_readings_sensor_id_timestamp ON readings(sensor_id, timestamp);
";

/// Durability and performance settings applied to every connection:
/// write-ahead logging, bounded synchronous mode, foreign-key
/// enforcement, and a fixed cache size.
pub const PERFORMANCE_PRAGMAS: &'static str = "PRAGMA journal_mode = WAL;
PRAGMA synchronous = NORMAL;
PRAGMA foreign_keys = ON;
PRAGMA cache_size = 10000;
PRAGMA page_size = 4096;
PRAGMA temp_store = MEMORY;
";

/// Statement batch that reorganizes a time-series store: refresh the
/// planner statistics, then reclaim the space of deleted records.
pub const OPTIMIZATION_SQL: &'static str = "ANALYZE;
PRAGMA optimize;
PRAGMA auto_vacuum = FULL;
VACUUM;
";

/// Statement batch for routine maintenance: refresh statistics, fold the
/// write-ahead log back, and check integrity.
pub const MAINTENANCE_SQL: &'static str = "ANALYZE;
PRAGMA wal_checkpoint(FULL);
PRAGMA integrity_check;
";

/// The statement batch that reorganizes a time-series store.
pub fn get_optimization_sql() -> (r: String)
    ensures
        r@ == OPTIMIZATION_SQL@,
{
    String::from_str(OPTIMIZATION_SQL)
}

/// The statements that create the two time-series indices for a table:
/// one on the time column alone, one on the id and time columns.
pub fn get_time_series_indices_sql(table_name: &str, time_col: &str, id_col: &str) -> (r: String)
    ensures
        r@ == "CREATE INDEX IF NOT EXISTS idx_"@ + table_name@ + "_"@ + time_col@ + " ON "@
            + table_name@ + "("@ + time_col@ + ");\nCREATE INDEX IF NOT EXISTS idx_"@
            + table_name@ + "_"@ + id_col@ + "_"@ + time_col@ + " ON "@ + table_name@ + "("@
            + id_col@ + ", "@ + time_col@ + ");\n"@,
{
    let mut s = String::from_str("CREATE INDEX IF NOT EXISTS idx_");
    s.append(table_name);
    s.append("_");
    s.append(time_col);
    s.append(" ON ");
    s.append(table_name);
    s.append("(");
    s.append(time_col);
    s.append(");\nCREATE INDEX IF NOT EXISTS idx_");
    s.append(table_name);
    s.append("_");
    s.append(id_col);
    s.append("_");
    s.append(time_col);
    s.append(" ON ");
    s.append(table_name);
    s.append("(");
    s.append(id_col);
    s.append(", ");
    s.append(time_col);
    s.append(");\n");
    s
}

/// The statement batch for routine maintenance.
pub fn get_maintenance_sql() -> (r: String)
    ensures
        r@ == MAINTENANCE_SQL@,
{
    String::from_str(MAINTENANCE_SQL)
}

} // verus!
