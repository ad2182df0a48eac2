//! Compression of noisy command output: build errors grouped by code,
//! stacktraces stripped of framework frames, and wget output condensed.

pub mod text;
pub mod pattern;
pub mod order;
pub mod build_cmd;
pub mod error_cmd;
pub mod wget_cmd;
pub mod verify_cmd;
