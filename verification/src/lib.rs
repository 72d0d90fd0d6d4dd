//! A partially persistent ordered multiset: an AVL tree in which every past
//! version stays queryable after later insertions and deletions.
//!
//! Each insertion, and each deletion that finds its item, makes a version
//! and gives back its timestamp. A query names a time and sees the tree as
//! it was right after the version of that time was made.
//!
//! The tree is written once, over any store of nodes that remembers what
//! each node was at every time ([`node_access::NodeAccess`]), and there are
//! three such stores:
//!
//! - [`fat_node`]: every node keeps a log of its changes,
//! - [`path_copy`]: a change to a node writes a copy of the node,
//! - [`opt`]: a node takes one change in place and is copied at the next.
//!
//! [`fat_node_avl::FatNodeAvl`], [`path_copy_avl::PathCopyAvl`] and
//! [`opt_avl::OptAVL`] are the tree over each of them, and
//! [`persistent_avl_tree::PersistentAvlTree`] is what they have in common.
//!
//! The other modules, from the ground up: [`order`] and [`keys`] hold the
//! order of the data, [`timestamp`] the lookup in a log by time, [`shape`]
//! the mathematical tree that a version stands for, [`model`] insertion and
//! deletion on that tree, [`kernel`] rotations and rebalancing over a store,
//! [`descent`] and [`edit`] the changes to the latest version, [`tree`] the
//! table of versions with the operations on it, and [`laws`] what holds of
//! every tree.

pub mod descent;
pub mod edit;
pub mod fat_node;
pub mod fat_node_avl;
pub mod kernel;
pub mod keys;
pub mod laws;
pub mod model;
pub mod node_access;
pub mod opt;
pub mod opt_avl;
pub mod order;
pub mod path_copy;
pub mod path_copy_avl;
pub mod persistent_avl_tree;
pub mod shape;
pub mod timestamp;
pub mod tree;
