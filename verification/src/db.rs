//! Records kept in the import database.

use vstd::prelude::*;

verus! {

/// One imported file, as recorded after its copy was verified.
#[derive(Debug)]
pub struct ImportHistory {
    pub id: i64,
    pub source_path: String,
    pub dest_path: String,
    pub file_hash: String,
    pub file_size: i64,
    pub imported_at: String,
}

/// A saved naming rule: a folder template and a file template.
#[derive(Debug)]
pub struct ImportRule {
    pub id: i64,
    pub name: String,
    pub folder_template: String,
    pub file_template: String,
    pub is_default: i64,
}

/// Number of history records returned when no limit is given.
pub const DEFAULT_HISTORY_LIMIT: u32 = 100;

/// The number of history records to return: the requested limit, or 100.
pub fn history_limit(limit: Option<u32>) -> (n: i64)
    ensures
        n == match limit {
            Some(l) => l as int,
            None => DEFAULT_HISTORY_LIMIT as int,
        },
{
    match limit {
        Some(l) => l as i64,
        None => DEFAULT_HISTORY_LIMIT as i64,
    }
}

} // verus!
