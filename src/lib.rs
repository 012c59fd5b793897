//! G-trees: history-independent randomized search trees, generic over the inner set
//! that each node holds, with a bucketed linked list (the k-list) as the main inner set.

pub mod control;
pub mod creation;
pub mod gtree;
pub mod klist;
pub mod stats;

pub use control::ControlSet;
pub use creation::{
    SetCreationOperation, TreeCreation, create_ctrl_tree, create_gtree, create_set, create_tree,
};
pub use gtree::{
    GTree, GTreeNode, NonemptySet, NonemptySetMeta, SetOrEmpty, delete, has, insert,
    possibly_empty_sets_assert_eq, search, sets_assert_eq, unzip, zip2, zip3,
};
pub use stats::{Stats, gtree_stats};
