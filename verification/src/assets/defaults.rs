//! The catalog that is used unless another one is given.

use vstd::prelude::*;

use super::device_db::{
    database_result, parsed_database, DeviceDatabase, DeviceDatabaseError,
};

verus! {

/// Parses the default catalog, which must carry the name `SP20.dev`.
///
/// # Errors
///
/// Returns [`DeviceDatabaseError`] if the catalog is invalid or has another
/// name.
pub fn default_device_database(bytes: &[u8]) -> (result: Result<
    DeviceDatabase,
    DeviceDatabaseError,
>)
    ensures
        database_result(result, parsed_database(bytes@, Some("SP20.dev"@))),
        result matches Ok(database) ==> database@.valid(),
{
    DeviceDatabase::parse_for_file_name(bytes, "SP20.dev")
}

} // verus!
