pub mod key_order;
pub mod rb_tree;
pub mod rbtree_node;
