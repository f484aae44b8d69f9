use vstd::prelude::*;

verus! {

/// Where the application keeps its data, below the user's home directory.
pub struct Config {
    pub db_path: String,
    pub files_path: String,
    pub logs_path: String,
}

impl Config {
    /// The data directories under `home`: `.cache/super-cv/db`, `files` and
    /// `logs`.
    pub fn new(home: &str) -> (r: Config)
        ensures
            r.db_path@ == home@ + "/.cache/super-cv/db"@,
            r.files_path@ == home@ + "/.cache/super-cv/files"@,
            r.logs_path@ == home@ + "/.cache/super-cv/logs"@,
    {
        let mut db_path = String::from_str(home);
        db_path.append("/.cache/super-cv/db");
        let mut files_path = String::from_str(home);
        files_path.append("/.cache/super-cv/files");
        let mut logs_path = String::from_str(home);
        logs_path.append("/.cache/super-cv/logs");
        Config { db_path, files_path, logs_path }
    }
}

/// The log level a numeric setting stands for; no setting, or an unknown
/// one, means debug.
pub open spec fn log_level(log_int: Option<i32>) -> Seq<char> {
    match log_int {
        Some(0) => "trace"@,
        Some(1) => "error"@,
        Some(2) => "warn"@,
        Some(3) => "info"@,
        Some(4) => "debug"@,
        Some(5) => "trace"@,
        _ => "debug"@,
    }
}

/// The name of the log level a numeric setting stands for.
pub fn convert_log(log_int: Option<i32>) -> (r: String)
    ensures
        r@ == log_level(log_int),
{
    match log_int {
        Some(0) => String::from_str("trace"),
        Some(1) => String::from_str("error"),
        Some(2) => String::from_str("warn"),
        Some(3) => String::from_str("info"),
        Some(4) => String::from_str("debug"),
        Some(5) => String::from_str("trace"),
        _ => String::from_str("debug"),
    }
}

} // verus!
