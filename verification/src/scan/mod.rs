//! Scanning a directory tree: what is known of it so far, which scans are
//! running or waiting, and what each result of a scan changes.
pub mod cache;
pub mod data;
pub mod effect_laws;
pub mod estimate_laws;
pub mod history_laws;
pub mod job_laws;
pub mod keeps;
pub mod level;
pub mod listing;
pub mod model;
pub mod once_laws;
pub mod queue_laws;
pub mod request_laws;
pub mod size_laws;
pub mod state;
pub mod view_laws;
pub mod walk;

pub use self::cache::{CachedSummary, SummaryCache};
pub use self::data::{
    DirectoryScanState, IoErrorSample, ScanOptions, ScanProgress, ScanStats, TreeIndex,
};
pub use self::listing::{
    children, directory_scan_state, entry_view, is_root_path, parent, path_for_node, EntryView,
};
pub use self::state::ActiveScan;
