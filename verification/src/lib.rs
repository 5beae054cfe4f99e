pub mod database;
pub mod diag;
pub mod executor;
pub mod outline;
pub mod pass;
pub mod promise;
pub mod segment;
pub mod source;
pub mod usage;
pub mod segment_order;
pub mod segment_set;
