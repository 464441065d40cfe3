use vstd::prelude::*;

pub mod text;
pub mod scanner;
pub mod tree;
pub mod glob;
pub mod numfmt;
pub mod hashing;
pub mod preview;
pub mod pathset;
pub mod tree_paths;
pub mod details;
pub mod app;

verus! {

}
