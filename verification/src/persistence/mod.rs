//! What outlives the daemon's process.

pub mod daemon_state;
pub mod events;
pub mod logs;
pub mod paths;
pub mod rehydrate;
pub mod runs;
pub mod workspace_owner;
