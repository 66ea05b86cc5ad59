//! Tab renaming and status annotation for a terminal-session host.
//!
//! The host identifies tabs by a persistent index that is assigned once and
//! never reused, while its snapshots only expose positions and display names.
//! This crate maintains the mapping from position to persistent index by
//! active probing (renaming candidate indices with tagged markers and watching
//! where the markers reappear), and serves rename/status requests addressed by
//! pane identity, queueing those that arrive before the mapping is known.

pub mod blink_runtime;
pub mod digits;
pub mod dispatcher;
pub mod json;
pub mod pipe_handler;
pub mod probing;
pub mod status_utils;
pub mod text;
