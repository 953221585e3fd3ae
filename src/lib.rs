//! Renders an unordered batch of file paths as a sorted directory tree.

pub mod name_order;
pub mod tree;
pub mod render;
pub mod normalize;
pub mod listing;

pub use listing::{generate_tree, generate_tree_from_components};
pub use normalize::{clean_components, clean_path_components, PathPart};
pub use tree::{add_path_to_tree, add_path_to_tree_with_type, insert_components, resolve_kind, TreeNode};
pub use render::{render_child, render_tree};
pub use name_order::name_less;
