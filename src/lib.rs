pub mod filter;
pub mod order;
pub mod path;
pub mod read;
pub mod tree;
