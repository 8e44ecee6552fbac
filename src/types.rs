//! The job model shared by the codec, the adapter and the reconciliation layer.
use vstd::prelude::*;

verus! {

/// Which of the three fixed directory roots a job definition lives under.
#[derive(Debug, Clone, Copy, PartialEq, Eq, Structural)]
pub enum JobSource {
    UserAgent,
    SystemAgent,
    SystemDaemon,
}

/// The presented status of a job. The reconciliation layer produces
/// `Running` (the service has a pid) and `Stopped` (it has none, or is not
/// loaded); `Loaded`, `Unloaded` and `Unknown` are kept in the vocabulary for
/// callers that distinguish more states.
#[derive(Debug, Clone, Copy, PartialEq, Eq, Structural)]
pub enum JobStatus {
    Running,
    Stopped,
    Loaded,
    Unloaded,
    Unknown,
}

/// One row of the job listing.
#[derive(Debug, Clone)]
pub struct JobListEntry {
    pub label: String,
    pub pid: Option<u32>,
    pub last_exit_code: Option<i32>,
    pub plist_path: String,
    pub source: JobSource,
    pub status: JobStatus,
}

/// A calendar trigger: each absent field means "every value" of that unit.
#[derive(Debug, Clone, Copy, PartialEq, Eq, Structural)]
pub struct CalendarInterval {
    pub minute: Option<u32>,
    pub hour: Option<u32>,
    pub day: Option<u32>,
    pub weekday: Option<u32>,
    pub month: Option<u32>,
}

/// The normalized configuration of one job-definition file. Optional fields
/// that the file lacks stay `None`. `environment_variables` holds its pairs
/// in order, each key at most once.
#[derive(Debug, Clone)]
pub struct PlistConfig {
    pub label: String,
    pub program: Option<String>,
    pub program_arguments: Option<Vec<String>>,
    pub run_at_load: Option<bool>,
    pub keep_alive: Option<bool>,
    pub start_interval: Option<u64>,
    pub start_calendar_interval: Option<Vec<CalendarInterval>>,
    pub standard_out_path: Option<String>,
    pub standard_error_path: Option<String>,
    pub working_directory: Option<String>,
    pub environment_variables: Option<Vec<(String, String)>>,
    pub disabled: Option<bool>,
    pub raw_xml: String,
}

/// A job definition together with its live state.
#[derive(Debug, Clone)]
pub struct LaunchdJob {
    pub label: String,
    pub plist_path: String,
    pub source: JobSource,
    pub status: JobStatus,
    pub pid: Option<u32>,
    pub last_exit_code: Option<i32>,
    pub plist: PlistConfig,
}

/// The content of a log file and its modification time in milliseconds
/// since the epoch, as text.
#[derive(Debug, Clone)]
pub struct LogFileResult {
    pub content: String,
    pub modified_at: Option<String>,
}

} // verus!
