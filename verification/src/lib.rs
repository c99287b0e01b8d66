//! Storage-drift detection and repair, account presence and self-healing for a
//! Plex Media Server. Everything that decides lives here and is verified; the
//! program around it runs commands, talks HTTP and reads the clock.

pub mod account;
pub mod lifecycle;
pub mod lists;
pub mod remediation;
pub mod storage;
pub mod text;
pub mod text_laws;
