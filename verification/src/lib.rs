//! Verified core of a practice coach for iRacing telemetry.
//!
//! The library decodes the `.ibt` telemetry format, scans session-info text, assembles
//! anonymized fixture files, cleans coach-model output and makes the small decisions
//! (which files to read, which saved track map to keep) that the application acts on.

pub mod ibt;
pub mod fixture;
pub mod text;
pub mod session_info;
pub mod coach;
pub mod commands;
pub mod track;
pub mod files;
pub mod runs;
pub mod splits;
pub mod laps;
pub mod fixture_text;
pub mod readback;
