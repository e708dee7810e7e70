//! Live Markdown preview core: coalescing of file change events, rendering of
//! Markdown documents with a validated heading outline, per-path sequencing of
//! renders, a broadcast hub with bounded per-client inboxes, and the lifecycle
//! of one client session.

pub mod path;
pub mod render;
pub mod debounce;
pub mod hub;
pub mod session;
pub mod stage;
pub mod sequence;
