//! Office-automation domain records.

pub mod models;
