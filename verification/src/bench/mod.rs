//! Timing the reference scene: what a run is asked for, when it presents an
//! image, and what it reports.
pub mod decimal;
pub mod options;
pub mod ratio;
pub mod report;
pub mod report_laws;
pub mod run;
pub mod session;
pub mod start;
