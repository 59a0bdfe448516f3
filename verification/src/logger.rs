use vstd::prelude::*;

use crate::paths::{join_path, spec_join};

verus! {

/// The directory that the release build writes its log to.
pub const LOG_DIRECTORY: &'static str = "/var/log";

/// The name of the log file.
pub const LOG_FILE_NAME: &'static str = "sync-dir.log";

/// Where the program logs.
pub struct AppLogger;

impl AppLogger {
    /// The directory of the log file.
    pub fn log_directory() -> (d: String)
        ensures
            d@ == LOG_DIRECTORY@,
    {
        LOG_DIRECTORY.to_string()
    }

    /// The log file: `sync-dir.log` in the log directory.
    pub fn get_log_file() -> (f: String)
        ensures
            f@ == spec_join(LOG_DIRECTORY@, LOG_FILE_NAME@),
            f@ == LOG_DIRECTORY@ + seq!['/'] + LOG_FILE_NAME@,
    {
        proof {
            reveal_strlit("/var/log");
            reveal_strlit("sync-dir.log");
        }
        let dir = AppLogger::log_directory();
        join_path(dir.as_str(), LOG_FILE_NAME)
    }
}

} // verus!
