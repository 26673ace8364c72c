//! The core of a disk usage explorer: what is known of a directory tree and which
//! scans are under way, how sizes add up, what is shown of it, and how one moves
//! about in it. Reading the disk, running threads and drawing are left to whoever
//! uses the library.
pub mod clock;
pub mod decimal;
pub mod deletion;
pub mod expansion;
pub mod filters;
pub mod labels;
pub mod mounts;
pub mod navigation;
pub mod order;
pub mod paths;
pub mod rounding;
pub mod scan;
pub mod session;
pub mod size_input;
pub mod text;
pub mod theme;
pub mod treemap;
