//! The download core of SimpleHF.

pub mod text;
pub mod text_laws;
pub mod tree;
pub mod tree_laws;
pub mod node_laws;
pub mod ranges;
pub mod repo_id;
pub mod paths;
pub mod hub;
pub mod hub_laws;
pub mod probe;
pub mod events;
pub mod transfer;
pub mod transfer_laws;
pub mod progress;
pub mod download;
pub mod download_laws;
pub mod engine;
pub mod rows;
pub mod queue;
