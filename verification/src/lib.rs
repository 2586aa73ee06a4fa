pub mod interval;
pub mod laws;
pub mod schedule;
