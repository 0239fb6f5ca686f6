use vstd::prelude::*;
use vstd::slice::slice_subrange;

use crate::btree::laws::{
    lemma_node_at_push, lemma_node_at_replaced, lemma_replace_with_same, lemma_replaced_data,
    lemma_replaced_paths, lemma_two_leaves,
};
use crate::btree::{is_default, BTreeNode, PathError};
use crate::path::{path_to_vec, under};

verus! {

/// The path of the other child of the parent of the node at `path`.
pub open spec fn sibling_path(path: Seq<bool>) -> Seq<bool> {
    path.drop_last().push(!path.last())
}

impl<L, B> BTreeNode<L, B> {
    /// This node is a branch with payload `data` over two leaves that each
    /// carry a clone of `payload`.
    pub open spec fn is_split_of(self, payload: L, data: B) -> bool where L: Clone {
        match self {
            BTreeNode::Leaf(_) => false,
            BTreeNode::Branch { first, second, data: own } => {
                &&& own == data
                &&& match *first {
                    BTreeNode::Leaf(a) => cloned(payload, a),
                    BTreeNode::Branch { .. } => false,
                }
                &&& match *second {
                    BTreeNode::Leaf(b) => cloned(payload, b),
                    BTreeNode::Branch { .. } => false,
                }
            },
        }
    }

    /// Turns the leaf at `path` into a branch that carries `branch_data` over
    /// two leaves, each with a clone of the old leaf's payload. A branch at
    /// `path` is `CannotSplitBranch`, a path that runs on past a leaf is
    /// `PathBeyondLeaf`; the tree is then left as it was.
    pub fn split_leaf_at(&mut self, path: &[bool], branch_data: B) -> (result: Result<
        (),
        PathError,
    >) where L: Clone
        ensures
            match result {
                Ok(()) => {
                    &&& old(self).node_at(path@) matches Some(BTreeNode::Leaf(payload))
                    &&& final(self).node_at(path@) matches Some(node)
                    &&& node.is_split_of(payload, branch_data)
                    &&& *final(self) == old(self).replaced_at(path@, node)
                    &&& final(self).leaf_paths() == old(self).leaf_paths().take(
                        old(self).leaf_rank(path@),
                    ) + seq![path@.push(true), path@.push(false)] + old(self).leaf_paths().skip(
                        old(self).leaf_rank(path@) + 1,
                    )
                    &&& final(self).leaf_paths().len() == old(self).leaf_paths().len() + 1
                    &&& final(self).leaf_data() == old(self).leaf_data().take(
                        old(self).leaf_rank(path@),
                    ) + node.leaf_data() + old(self).leaf_data().skip(
                        old(self).leaf_rank(path@) + 1,
                    )
                    &&& node.leaf_data().len() == 2
                    &&& cloned(payload, node.leaf_data()[0])
                    &&& cloned(payload, node.leaf_data()[1])
                },
                Err(e) => *final(self) == *old(self) && match old(self).node_at(path@) {
                    None => e == PathError::PathBeyondLeaf,
                    Some(node) => node is Branch && e == PathError::CannotSplitBranch,
                },
            },
    {
        let node = self.get_node_at_mut(path)?;
        let copies = match &*node {
            BTreeNode::Leaf(payload) => Some((payload.clone(), payload.clone())),
            BTreeNode::Branch { .. } => None,
        };
        match copies {
            Some((a, b)) => {
                *node = BTreeNode::Branch {
                    first: Box::new(BTreeNode::Leaf(a)),
                    second: Box::new(BTreeNode::Leaf(b)),
                    data: branch_data,
                };
                proof {
                    lemma_node_at_replaced(*old(self), path@, *node);
                    lemma_replaced_paths(*old(self), path@, *node);
                    lemma_replaced_data(*old(self), path@, *node);
                    assert(old(self).node_at(path@).unwrap().leaf_data().len() == 1);
                    lemma_two_leaves(*node);
                    assert(under(path@, node.leaf_paths()) =~= seq![
                        path@.push(true),
                        path@.push(false),
                    ]) by {
                        assert(path@ + seq![true] =~= path@.push(true));
                        assert(path@ + seq![false] =~= path@.push(false));
                    }
                }
                Ok(())
            },
            None => {
                proof {
                    lemma_replace_with_same(*old(self), path@);
                }
                Err(PathError::CannotSplitBranch)
            },
        }
    }

    /// Removes the leaf at `path`. Its sibling, leaf or subtree, takes the
    /// place of their parent, whose payload is dropped. The result is the path
    /// of the node that has moved up, which is the path that the parent had.
    /// Removing a root leaf puts a default leaf in its place, and the result
    /// is the empty path. A branch at `path` is `CannotRemoveBranch`,
    /// a path that runs on past a leaf is `PathBeyondLeaf`; the tree is then
    /// left as it was.
    pub fn remove_leaf_at(&mut self, path: &[bool]) -> (result: Result<Vec<bool>, PathError>) where
        L: Default,

        ensures
            match result {
                Ok(next) => {
                    &&& old(self).node_at(path@) matches Some(BTreeNode::Leaf(_))
                    &&& if path@.len() == 0 {
                        &&& next@ == path@
                        &&& *final(self) matches BTreeNode::Leaf(fresh)
                        &&& is_default(fresh)
                    } else {
                        &&& old(self).node_at(sibling_path(path@)) matches Some(sibling)
                        &&& *final(self) == old(self).replaced_at(path@.drop_last(), sibling)
                        &&& next@ == path@.drop_last()
                        &&& final(self).node_at(next@) == Some(sibling)
                        &&& final(self).leaf_paths().len() + 1 == old(self).leaf_paths().len()
                    }
                },
                Err(e) => *final(self) == *old(self) && match old(self).node_at(path@) {
                    None => e == PathError::PathBeyondLeaf,
                    Some(node) => node is Branch && e == PathError::CannotRemoveBranch,
                },
            },
    {
        let target = self.get_node_at(path)?;
        if !target.is_leaf() {
            return Err(PathError::CannotRemoveBranch);
        }
        if path.len() == 0 {
            *self = Self::default_leaf();
            return Ok(Vec::new());
        }
        let last = path.len() - 1;
        let removing_first = path[last];
        let parent_path = slice_subrange(path, 0, last);
        proof {
            assert(parent_path@ =~= path@.drop_last());
            assert(path@ =~= parent_path@.push(removing_first));
            lemma_node_at_push(*old(self), parent_path@, removing_first);
            lemma_node_at_push(*old(self), parent_path@, !removing_first);
        }
        match self.get_node_at_mut(parent_path) {
            // not reached: a node has been found below `parent_path`
            Err(e) => Err(e),
            Ok(parent) => {
                let mut taken = Self::default_leaf();
                std::mem::swap(parent, &mut taken);
                match taken {
                    // not reached: a leaf has nothing below it
                    BTreeNode::Leaf(payload) => {
                        *parent = BTreeNode::Leaf(payload);
                        proof {
                            lemma_replace_with_same(*old(self), parent_path@);
                        }
                        Err(PathError::PathBeyondLeaf)
                    },
                    BTreeNode::Branch { first, second, .. } => {
                        *parent = if removing_first {
                            *second
                        } else {
                            *first
                        };
                        proof {
                            lemma_replaced_paths(*old(self), parent_path@, *parent);
                            let gone = old(self).node_at(path@).unwrap();
                            assert(gone.leaf_paths().len() == 1);
                            let above = old(self).node_at(parent_path@).unwrap();
                            assert(above.leaf_paths().len() == parent.leaf_paths().len() + 1);
                        }
                        proof {
                            lemma_node_at_replaced(*old(self), parent_path@, *parent);
                        }
                        Ok(path_to_vec(parent_path))
                    },
                }
            },
        }
    }
}

} // verus!
