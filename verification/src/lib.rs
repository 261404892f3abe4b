//! Daw core library: the knowledge-base (OKF) document logic, the text
//! primitives it is built on, and the pure helpers of the agent runtime.

pub mod agent;
pub mod brand;
pub mod chat_log;
pub mod dates;
pub mod files;
pub mod image;
pub mod db;
pub mod duckdb;
pub mod model;
pub mod oa;
pub mod text;
pub mod usage;
pub mod okf;
pub mod okf_files;
