//! Verified core of the instance backup, content change and desktop shortcut logic.

pub mod backup;
pub mod content_change;
pub mod digest;
pub mod error;
pub mod paths;
pub mod repository;
pub mod selection;
pub mod servers;
pub mod shortcut;
pub mod snapshot;
pub mod text;
