//! Launch-service management core: the service manager's listing and
//! outcome classification, the job-definition codec, and the reconciliation
//! of definitions with live state.
pub mod commands;
pub mod error;
pub mod launchctl;
pub mod plist_util;
pub mod text;
pub mod types;
