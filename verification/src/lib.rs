//! Logic of a benchmark harness for the Gyroflow stabilization hot path.
//!
//! A run measures cells, one for each backend with each pixel format. [`runner`] settles
//! which cells there are and with which device and workload each is measured, [`schedule`]
//! takes a cell through its frames, and [`source`] says what the frames are. [`stats`] and
//! [`bootstrap`] hold the statistics of frame times, [`result`] what is recorded of a run,
//! [`report`] how it is stored and told, and [`sysinfo`] what is recorded of the host.
//! [`lookup`] finds stored results and [`compare`] compares two of them.
//!
//! Files, processes, the clock, the engine under measurement and floating-point arithmetic are
//! the program's business. Floating-point values pass through as [`binary64`] bit patterns.

pub mod binary64;
pub mod bootstrap;
pub mod cli;
pub mod compare;
pub mod lookup;
pub mod report;
pub mod result;
pub mod runner;
pub mod schedule;
pub mod source;
pub mod stats;
pub mod sysinfo;
pub mod text;
