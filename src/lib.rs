use vstd::prelude::*;

pub mod directory;
pub mod laws;
pub mod listing;
pub mod node;
pub mod position;
pub mod scanner;

pub use directory::{build_directory, Resolved};
pub use node::Node;
pub use listing::{Report, PLACEHOLDER_NAME};
pub use scanner::{Notice, Request, Scanner, SkipReason};

verus! {

} // verus!
