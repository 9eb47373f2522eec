pub mod category;
pub mod dn;
pub mod graph;
pub mod laws;
pub mod query;
pub mod store;
