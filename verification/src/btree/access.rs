use vstd::prelude::*;

use crate::btree::{clones_of, BTreeNode};

verus! {

impl<L: Clone, B: Clone> Clone for BTreeNode<L, B> {
    /// A tree of the same shape that carries clones of the payloads.
    fn clone(&self) -> (copy: Self)
        ensures
            copy.shape() == self.shape(),
            clones_of(self.leaf_data(), copy.leaf_data()),
            clones_of(self.branch_data(), copy.branch_data()),
        decreases self,
    {
        match self {
            BTreeNode::Leaf(data) => BTreeNode::Leaf(data.clone()),
            BTreeNode::Branch { first, second, data } => {
                let first_copy = (&**first).clone();
                let second_copy = (&**second).clone();
                let copy = BTreeNode::Branch {
                    first: Box::new(first_copy),
                    second: Box::new(second_copy),
                    data: data.clone(),
                };
                proof {
                    let n = first.leaf_data().len() as int;
                    assert forall|i: int| 0 <= i < self.leaf_data().len() implies cloned(
                        #[trigger] self.leaf_data()[i],
                        copy.leaf_data()[i],
                    ) by {
                        if i < n {
                            assert(cloned(first.leaf_data()[i], first_copy.leaf_data()[i]));
                        } else {
                            assert(cloned(
                                second.leaf_data()[i - n],
                                second_copy.leaf_data()[i - n],
                            ));
                        }
                    }
                    let m = first.branch_data().len() as int;
                    assert forall|i: int| 0 <= i < self.branch_data().len() implies cloned(
                        #[trigger] self.branch_data()[i],
                        copy.branch_data()[i],
                    ) by {
                        if i == 0 {
                        } else if i <= m {
                            assert(cloned(
                                first.branch_data()[i - 1],
                                first_copy.branch_data()[i - 1],
                            ));
                        } else {
                            assert(cloned(
                                second.branch_data()[i - 1 - m],
                                second_copy.branch_data()[i - 1 - m],
                            ));
                        }
                    }
                }
                copy
            },
        }
    }
}

impl<L, B> BTreeNode<L, B> {
    /// The leaf payloads in traversal order, for changing in place. What the
    /// caller leaves in them are the leaf payloads afterwards; the shape and
    /// the branch payloads stay.
    pub fn collect_leaf_data_mut(&mut self) -> (leaf_data: Vec<&mut L>)
        ensures
            leaf_data@.len() == old(self).leaf_data().len(),
            forall|i: int|
                0 <= i < leaf_data@.len() ==> *leaf_data@[i] == old(self).leaf_data()[i],
            final(self).leaf_data() =~= Seq::new(
                leaf_data@.len(),
                |i: int| *final(leaf_data@[i]),
            ),
            final(self).shape() == old(self).shape(),
            final(self).branch_data() == old(self).branch_data(),
    {
        let mut leaf_data: Vec<&mut L> = Vec::new();
        self.collect_leaf_data_mut_impl(&mut leaf_data);
        leaf_data
    }

    /// Appends to `leaf_data` the leaf payloads below this node, for
    /// changing in place.
    pub fn collect_leaf_data_mut_impl<'a>(&'a mut self, leaf_data: &mut Vec<&'a mut L>)
        ensures
            final(leaf_data)@.len() == old(leaf_data)@.len() + old(self).leaf_data().len(),
            forall|i: int|
                0 <= i < old(leaf_data)@.len() ==> final(leaf_data)@[i] == old(leaf_data)@[i],
            forall|i: int|
                0 <= i < old(self).leaf_data().len() ==> *final(leaf_data)@[old(leaf_data)@.len()
                    + i] == old(self).leaf_data()[i],
            final(self).leaf_data() =~= Seq::new(
                old(self).leaf_data().len(),
                |i: int| *final(final(leaf_data)@[old(leaf_data)@.len() + i]),
            ),
            final(self).shape() == old(self).shape(),
            final(self).branch_data() == old(self).branch_data(),
        decreases *old(self),
    {
        match self {
            BTreeNode::Leaf(data) => {
                leaf_data.push(data);
            },
            BTreeNode::Branch { first, second, .. } => {
                first.collect_leaf_data_mut_impl(leaf_data);
                second.collect_leaf_data_mut_impl(leaf_data);
            },
        }
    }

    /// The branch payloads in pre-order, for changing in place. What the
    /// caller leaves in them are the branch payloads afterwards; the shape
    /// and the leaf payloads stay.
    pub fn collect_branch_data_mut(&mut self) -> (branch_data: Vec<&mut B>)
        ensures
            branch_data@.len() == old(self).branch_data().len(),
            forall|i: int|
                0 <= i < branch_data@.len() ==> *branch_data@[i] == old(self).branch_data()[i],
            final(self).branch_data() =~= Seq::new(
                branch_data@.len(),
                |i: int| *final(branch_data@[i]),
            ),
            final(self).shape() == old(self).shape(),
            final(self).leaf_data() == old(self).leaf_data(),
    {
        let mut branch_data: Vec<&mut B> = Vec::new();
        self.collect_branch_data_mut_impl(&mut branch_data);
        branch_data
    }

    /// Appends to `branch_data` the branch payloads at and below this node,
    /// for changing in place.
    pub fn collect_branch_data_mut_impl<'a>(&'a mut self, branch_data: &mut Vec<&'a mut B>)
        ensures
            final(branch_data)@.len() == old(branch_data)@.len() + old(self).branch_data().len(),
            forall|i: int|
                0 <= i < old(branch_data)@.len() ==> final(branch_data)@[i] == old(branch_data)@[i],
            forall|i: int|
                0 <= i < old(self).branch_data().len() ==> *final(branch_data)@[old(branch_data)@.len() + i] == old(self).branch_data()[i],
            final(self).branch_data() =~= Seq::new(
                old(self).branch_data().len(),
                |i: int| *final(final(branch_data)@[old(branch_data)@.len() + i]),
            ),
            final(self).shape() == old(self).shape(),
            final(self).leaf_data() == old(self).leaf_data(),
        decreases *old(self),
    {
        match self {
            BTreeNode::Leaf(_) => {},
            BTreeNode::Branch { first, second, data } => {
                branch_data.push(data);
                first.collect_branch_data_mut_impl(branch_data);
                second.collect_branch_data_mut_impl(branch_data);
            },
        }
    }
}

} // verus!
