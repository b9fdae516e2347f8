//! Where log messages go.

use vstd::prelude::*;

verus! {

/// The size in megabytes at which a log file is rotated when none is given.
pub const DEFAULT_LOG_SIZE_MB: u64 = 10;

/// The directory part of the path of a log file.
#[derive(Debug, Clone, PartialEq, Eq)]
pub enum LogDirectory {
    /// The path has no such part.
    Absent,
    /// It is not valid Unicode.
    Undecodable,
    Named(String),
}

/// The path of a log file, in its two parts.
#[derive(Debug, Clone, PartialEq, Eq)]
pub struct LogPath {
    pub directory: LogDirectory,
    /// The file name, if there is one and it is valid Unicode.
    pub file_name: Option<String>,
}

/// Where log messages go.
#[derive(Debug, Clone, PartialEq, Eq)]
pub enum LogTarget {
    Terminal,
    /// A file in a directory, rotated when it grows beyond a size in megabytes.
    File { directory: String, file_name: String, max_size_mb: u64 },
}

/// Why the path of a log file cannot be used.
#[derive(Debug, Clone, Copy, PartialEq, Eq, Structural)]
pub enum LogPathError {
    InvalidFile,
    InvalidDirectory,
}

impl LogPathError {
    /// The error in words.
    pub fn message(&self) -> (m: &'static str)
        ensures
            m@ == (match *self {
                LogPathError::InvalidFile => "Invalid log file path"@,
                LogPathError::InvalidDirectory => "Invalid log directory"@,
            }),
    {
        match self {
            LogPathError::InvalidFile => "Invalid log file path",
            LogPathError::InvalidDirectory => "Invalid log directory",
        }
    }
}

/// Decides where log messages go: to the terminal when there is no path, else to the file
/// there, in the current directory when the path names none.
pub fn log_target(log_path: Option<LogPath>, max_log_size_mb: Option<u64>) -> (r: Result<
    LogTarget,
    LogPathError,
>)
    ensures
        match (log_path, r) {
            (None, Ok(LogTarget::Terminal)) => true,
            (Some(path), Ok(LogTarget::File { directory, file_name, max_size_mb })) => {
                &&& path.file_name == Some(file_name)
                &&& match path.directory {
                    LogDirectory::Absent => directory@ == "."@,
                    LogDirectory::Named(named) => directory == named,
                    LogDirectory::Undecodable => false,
                }
                &&& max_size_mb == (match max_log_size_mb {
                    Some(size) => size,
                    None => DEFAULT_LOG_SIZE_MB,
                })
            },
            (Some(path), Err(LogPathError::InvalidFile)) => path.file_name is None,
            (Some(path), Err(LogPathError::InvalidDirectory)) => path.file_name is Some
                && path.directory is Undecodable,
            _ => false,
        },
{
    let path: LogPath = match log_path {
        Some(path) => path,
        None => {
            return Ok(LogTarget::Terminal);
        },
    };
    let file_name: String = match path.file_name {
        Some(file_name) => file_name,
        None => {
            return Err(LogPathError::InvalidFile);
        },
    };
    let directory: String = match path.directory {
        LogDirectory::Absent => ".".to_owned(),
        LogDirectory::Named(named) => named,
        LogDirectory::Undecodable => {
            return Err(LogPathError::InvalidDirectory);
        },
    };
    let max_size_mb: u64 = match max_log_size_mb {
        Some(size) => size,
        None => DEFAULT_LOG_SIZE_MB,
    };
    Ok(LogTarget::File { directory, file_name, max_size_mb })
}

/// Without a size of its own, a log file is rotated at ten megabytes.
pub proof fn law_default_log_size()
    ensures
        DEFAULT_LOG_SIZE_MB == 10,
{
}

} // verus!
