//! SQL texts of the analytical engine: the statements that attach external
//! data sources and a workspace's lake, and the reading of a query's
//! trailing `LIMIT`.

pub mod attach;
pub mod execute;
pub mod lake;
pub mod steps;
