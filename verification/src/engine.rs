//! Storage and execution: the order of keys, the in-order model of a tree,
//! the B-tree and what holds of it; values, rows and tables; and the engine
//! that runs queries against named tables.

pub mod order;
pub mod inorder;
pub mod btree;
pub mod laws;
pub mod value;
pub mod row;
pub mod stored;
pub mod db;
