pub mod date;
pub mod recurrence;
pub mod modifier;
pub mod account;
pub mod error;
pub mod schedule;
pub mod sort;
pub mod scheduler;
pub mod books;
pub mod balance;
pub mod reconcile;
pub mod generator;
