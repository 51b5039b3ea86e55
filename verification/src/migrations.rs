//! Versioned schema migrations.
//!
//! A store records the version of the migration set applied to it. On
//! every start the migrator brings it to `SCHEMA_VERSION`; running it on
//! an already-migrated store changes nothing, so it is safe to call
//! unconditionally.

use vstd::prelude::*;

use crate::error::AppError;
use crate::schema::{INITIAL_SCHEMA, SCHEMA_VERSION};
use crate::store::Store;

verus! {

/// A store is migrated when its recorded version has reached the current
/// migration set.
pub open spec fn migrated(version: int) -> bool {
    version >= SCHEMA_VERSION as int
}

/// The DDL scripts that a store recorded at `version` still needs, in
/// the order they are applied. A migrated store needs none.
pub fn pending_migrations(version: i32) -> (r: Vec<String>)
    ensures
        migrated(version as int) ==> r@.len() == 0,
        !migrated(version as int) ==> r@.len() == 1 && r@[0]@ == INITIAL_SCHEMA@,
{
    if version < SCHEMA_VERSION {
        let mut v: Vec<String> = Vec::new();
        v.push(String::from_str(INITIAL_SCHEMA));
        v
    } else {
        Vec::new()
    }
}

/// Bring a store to the current schema version. Applying the migrator to
/// an already-migrated store is a no-op: the version and all contents
/// stay as they are, and no error is reported.
pub fn run_migrations(store: &mut Store) -> (r: Result<(), AppError>)
    requires
        old(store)@.inv(),
    ensures
        final(store)@.inv(),
        r is Ok,
        migrated(final(store)@.schema_version),
        final(store)@.schema_version == if old(store)@.schema_version < SCHEMA_VERSION as int {
            SCHEMA_VERSION as int
        } else {
            old(store)@.schema_version
        },
        old(store)@.schema_version >= SCHEMA_VERSION as int ==> final(store)@ == old(store)@,
        final(store)@.sensors == old(store)@.sensors,
        final(store)@.readings == old(store)@.readings,
        final(store)@.sessions == old(store)@.sessions,
        final(store)@.next_sensor_id == old(store)@.next_sensor_id,
        final(store)@.next_reading_id == old(store)@.next_reading_id,
        final(store)@.next_session_id == old(store)@.next_session_id,
{
    if store.schema_version < SCHEMA_VERSION {
        store.schema_version = SCHEMA_VERSION;
    }
    Ok(())
}

} // verus!
