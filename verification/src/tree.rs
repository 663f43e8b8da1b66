//! The tree: a root node and the configuration it was made with.
use vstd::prelude::*;

pub mod laws;
pub mod node;

use laws::{divisible, regular, within_capacity};
use node::{NodeView, QuadTreeConfig, QuadTreeNode};

verus! {

/// The tree of one simulation. Whoever runs the simulation owns it and
/// hands it to the rebuild once per tick.
#[derive(Debug)]
pub struct QuadTree {
    pub root: QuadTreeNode,
    pub config: QuadTreeConfig,
}

impl QuadTree {
    /// A tree whose root is an empty leaf over `config.rect`.
    pub fn new(config: QuadTreeConfig) -> (tree: QuadTree)
        ensures
            tree.root@ == NodeView::empty_leaf(config.rect, 0),
            tree.config == config,
            within_capacity(tree.root@, config),
            divisible(config.rect, 0, config) ==> regular(tree.root@, config),
    {
        QuadTree { root: QuadTreeNode::root(config.rect), config }
    }
}

} // verus!
