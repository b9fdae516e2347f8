//! Finding process-ID files whose process is gone.

pub mod daemon;
pub mod decimal;
pub mod logging;
pub mod pid_proc;
pub mod quoted;
pub mod sources;
pub mod staleness;
pub mod system;
pub mod text;

pub use daemon::{match_daemon_name, DaemonName, DaemonNameError, Pid};
pub use pid_proc::{PidProc, PidProcError};
pub use quoted::{between_chars, parse_quoted, ParseError};
pub use staleness::{
    examine, handle_pid_file, is_pid_path_stale, is_pid_stale, read_pid, trace_pid, Action,
    HandleError, InvalidPid, PidStatus, PidTrace, Step,
};
