pub mod array_binary_search_tree;
pub mod array_bst;
pub mod binary_tree;
pub mod list_bst;
pub mod model;
pub mod red_black_tree;
pub mod render;
pub mod traits;
