//! The operations of the engine, one module per operation.

pub mod cat_file;
pub mod checkout;
pub mod commit;
pub mod commit_tree;
pub mod diff;
pub mod graph;
pub mod hash_object;
pub mod log;
pub mod ls_tree;
pub mod render;
pub mod status;
pub mod write_tree;
