pub mod decimal;
pub mod feed;
pub mod laws;
pub mod parse;
pub mod reconcile;
pub mod scheduler;
pub mod store;
