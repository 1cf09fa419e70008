//! An in-memory ordered index: a balanced B+-tree from integer keys to string
//! payloads, and a bounded top-K selector for ranked queries.

pub mod database_core;
pub mod delete;
pub mod inorder;
pub mod insert;
pub mod laws;
pub mod ml_interface;
pub mod node;
pub mod ordering;
pub mod rebalance;
pub mod render;
pub mod request;
pub mod siblings;
pub mod topk;
pub mod tree;
pub mod vector_db;
