pub mod list;
pub mod tree;
pub mod util;
