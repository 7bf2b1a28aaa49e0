//! Renders the working-tree and index status of a repository as a
//! box-drawn directory tree.

pub mod names;
pub mod status;
pub mod paint;
pub mod tree;
pub mod path;
pub mod render;
pub mod walk;
pub mod laws;
pub mod lookup;
pub mod outline;
pub mod world;
