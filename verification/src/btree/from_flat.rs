use vstd::prelude::*;

use crate::btree::laws::{lemma_counts, lemma_shape_paths};
use crate::btree::{clones_of, is_default, BTreeNode, BTreeSpec, Shape, SpecError};
use crate::path::{path_list, path_lists_equal};

verus! {

/// A list of paths is canonical when it is the list of leaf paths of some
/// tree. What that asks of the list itself is `listing::well_listed`.
pub open spec fn canonical(paths: Seq<Seq<bool>>) -> bool {
    exists|shape: Shape| shape.leaf_paths() == paths
}

/// What is wrong with a flat description that lists `paths` and comes with
/// `leaves` leaf payloads and `branches` branch payloads; `None` where it
/// describes a tree. The paths are judged first, then the leaf payloads, then
/// the branch payloads.
pub open spec fn flat_fault(paths: Seq<Seq<bool>>, leaves: nat, branches: nat) -> Option<
    SpecError,
> {
    if !canonical(paths) {
        Some(SpecError::NonCanonicalSpec)
    } else if leaves < paths.len() {
        Some(SpecError::LeafDataExhausted)
    } else if leaves > paths.len() {
        Some(SpecError::LeafDataRemaining)
    } else if branches + 1 < paths.len() {
        Some(SpecError::BranchDataExhausted)
    } else if branches + 1 > paths.len() {
        Some(SpecError::BranchDataRemaining)
    } else {
        None
    }
}

/// The two children of a branch; two leaves for a leaf, which is what a leaf
/// becomes when a path runs through it.
pub open spec fn opened(shape: Shape) -> (Shape, Shape) {
    match shape {
        BTreeNode::Leaf(_) => (BTreeNode::Leaf(()), BTreeNode::Leaf(())),
        BTreeNode::Branch { first, second, .. } => (*first, *second),
    }
}

/// The shape after `path` has been folded in: every leaf that the path runs
/// through is opened into a branch, and the path must end on a leaf.
pub open spec fn grown(shape: Shape, path: Seq<bool>) -> Option<Shape>
    decreases path.len(),
{
    if path.len() == 0 {
        if shape is Leaf {
            Some(shape)
        } else {
            None
        }
    } else {
        let (first, second) = opened(shape);
        if path[0] {
            match grown(first, path.drop_first()) {
                Some(below) => Some(
                    BTreeNode::Branch { first: Box::new(below), second: Box::new(second), data: () },
                ),
                None => None,
            }
        } else {
            match grown(second, path.drop_first()) {
                Some(below) => Some(
                    BTreeNode::Branch { first: Box::new(first), second: Box::new(below), data: () },
                ),
                None => None,
            }
        }
    }
}

/// The node is a leaf that carries a default payload.
pub open spec fn is_default_leaf<L: Default, B>(node: BTreeNode<L, B>) -> bool {
    node matches BTreeNode::Leaf(data) && is_default(data)
}

/// The node is what a default leaf becomes when `path` is folded into it: a
/// default leaf where the path ends, and before that default branches whose
/// child off the path is a default leaf.
pub open spec fn fresh_along<L: Default, B: Default>(node: BTreeNode<L, B>, path: Seq<bool>) -> bool
    decreases path.len(),
{
    if path.len() == 0 {
        is_default_leaf(node)
    } else {
        match node {
            BTreeNode::Leaf(_) => false,
            BTreeNode::Branch { first, second, data } => {
                &&& is_default(data)
                &&& if path[0] {
                    fresh_along(*first, path.drop_first()) && is_default_leaf(*second)
                } else {
                    is_default_leaf(*first) && fresh_along(*second, path.drop_first())
                }
            },
        }
    }
}

/// `after` is `before` with `path` folded in. Every branch on the path keeps
/// its payload and its child off the path; the leaf at which the path ends
/// keeps its payload; and a leaf that the path runs through gives way to
/// fresh nodes, all with default payloads.
pub open spec fn grown_along<L: Default, B: Default>(
    before: BTreeNode<L, B>,
    after: BTreeNode<L, B>,
    path: Seq<bool>,
) -> bool
    decreases path.len(),
{
    if path.len() == 0 {
        after == before
    } else {
        match before {
            BTreeNode::Leaf(_) => fresh_along(after, path),
            BTreeNode::Branch { first, second, data } => match after {
                BTreeNode::Leaf(_) => false,
                BTreeNode::Branch { first: grown_first, second: grown_second, data: kept } => {
                    &&& kept == data
                    &&& if path[0] {
                        grown_second == second && grown_along(
                            *first,
                            *grown_first,
                            path.drop_first(),
                        )
                    } else {
                        grown_first == first && grown_along(
                            *second,
                            *grown_second,
                            path.drop_first(),
                        )
                    }
                },
            },
        }
    }
}

/// What a default leaf grows into is all fresh.
pub proof fn lemma_grown_from_default<L: Default, B: Default>(
    before: BTreeNode<L, B>,
    after: BTreeNode<L, B>,
    path: Seq<bool>,
)
    requires
        is_default_leaf(before),
        grown_along(before, after, path),
    ensures
        fresh_along(after, path),
{
}

/// What has grown of `shape` once its first `keep` leaf paths are folded
/// into a single leaf.
pub open spec fn pruned(shape: Shape, keep: int) -> Shape
    decreases shape,
{
    if keep <= 0 {
        BTreeNode::Leaf(())
    } else {
        match shape {
            BTreeNode::Leaf(_) => BTreeNode::Leaf(()),
            BTreeNode::Branch { first, second, .. } => BTreeNode::Branch {
                first: Box::new(pruned(*first, keep)),
                second: Box::new(pruned(*second, keep - first.leaf_paths().len())),
                data: (),
            },
        }
    }
}

/// Once all leaf paths are folded in, the whole shape has grown.
pub proof fn lemma_pruned_whole(shape: Shape, keep: int)
    requires
        keep >= shape.leaf_paths().len(),
    ensures
        pruned(shape, keep) == shape,
        shape.leaf_paths().len() >= 1,
    decreases shape,
{
    match shape {
        BTreeNode::Leaf(unit) => {
            assert(unit == ());
        },
        BTreeNode::Branch { first, second, data } => {
            assert(data == ());
            lemma_pruned_whole(*first, keep);
            lemma_pruned_whole(*second, keep - first.leaf_paths().len());
        },
    }
}

/// Folding in the next leaf path of `shape` takes what has grown of it after
/// `k` paths to what has grown after `k + 1`.
pub proof fn lemma_grow_step(shape: Shape, k: int)
    requires
        0 <= k < shape.leaf_paths().len(),
    ensures
        grown(pruned(shape, k), shape.leaf_paths()[k]) == Some(pruned(shape, k + 1)),
    decreases shape,
{
    let path = shape.leaf_paths()[k];
    match shape {
        BTreeNode::Leaf(unit) => {
            assert(unit == ());
            assert(path.len() == 0);
        },
        BTreeNode::Branch { first, second, .. } => {
            let fp = first.leaf_paths();
            let sp = second.leaf_paths();
            let nf = fp.len() as int;
            lemma_pruned_whole(*first, nf);
            lemma_pruned_whole(*second, sp.len() as int);
            if k < nf {
                assert(path == seq![true] + fp[k]);
                assert(path.drop_first() =~= fp[k]);
                lemma_grow_step(*first, k);
                assert(pruned(*first, 0) == Shape::Leaf(()));
                assert(pruned(*second, k - nf) == Shape::Leaf(()));
                assert(pruned(*second, k + 1 - nf) == Shape::Leaf(()));
            } else {
                assert(path == seq![false] + sp[k - nf]);
                assert(path.drop_first() =~= sp[k - nf]);
                lemma_grow_step(*second, k - nf);
                lemma_pruned_whole(*first, k);
                lemma_pruned_whole(*first, k + 1);
            }
        },
    }
}

impl<L, B> BTreeNode<L, B> {
    /// Folds one path into the tree: each leaf that `path` runs through
    /// becomes a default branch over two default leaves, and the path has to
    /// end on a leaf. Nothing else changes: the nodes that were there keep
    /// their payloads. Where the path ends on a branch the result is
    /// `NonCanonicalSpec`, and the tree may have grown on the way.
    pub fn default_from_path(node: &mut Self, path: &[bool]) -> (result: Result<(), SpecError>) where
        L: Default,
        B: Default,

        ensures
            match grown(old(node).shape(), path@) {
                Some(shape) => {
                    &&& result is Ok
                    &&& final(node).shape() == shape
                    &&& grown_along(*old(node), *final(node), path@)
                },
                None => result == Err::<(), SpecError>(SpecError::NonCanonicalSpec),
            },
    {
        proof {
            assert(path@.skip(0) == path@);
        }
        Self::grow_from(node, path, 0)
    }

    fn grow_from(node: &mut Self, path: &[bool], i: usize) -> (result: Result<(), SpecError>) where
        L: Default,
        B: Default,

        requires
            i <= path.len(),
        ensures
            match grown(old(node).shape(), path@.skip(i as int)) {
                Some(shape) => {
                    &&& result is Ok
                    &&& final(node).shape() == shape
                    &&& grown_along(*old(node), *final(node), path@.skip(i as int))
                },
                None => result == Err::<(), SpecError>(SpecError::NonCanonicalSpec),
            },
        decreases path.len() - i,
    {
        if i == path.len() {
            return if node.is_leaf() {
                Ok(())
            } else {
                Err(SpecError::NonCanonicalSpec)
            };
        }
        proof {
            assert(path@.skip(i as int).drop_first() == path@.skip(i as int + 1));
            assert(path@.skip(i as int)[0] == path@[i as int]);
        }
        if node.is_leaf() {
            *node = Self::default_branch();
            proof {
                let opened_node = *node;
                match opened_node {
                    BTreeNode::Leaf(_) => {},
                    BTreeNode::Branch { first, second, .. } => {
                        assert(first.shape() == Shape::Leaf(()));
                        assert(second.shape() == Shape::Leaf(()));
                        let rest = path@.skip(i as int + 1);
                        assert forall|after: Self| #[trigger]
                            grown_along(*first, after, rest) implies fresh_along(after, rest) by {
                            lemma_grown_from_default(*first, after, rest);
                        }
                        assert forall|after: Self| #[trigger]
                            grown_along(*second, after, rest) implies fresh_along(after, rest) by {
                            lemma_grown_from_default(*second, after, rest);
                        }
                    },
                }
            }
        }
        match node {
            // not reached: a leaf has just been opened
            BTreeNode::Leaf(_) => Err(SpecError::NonCanonicalSpec),
            BTreeNode::Branch { first, second, .. } => {
                if path[i] {
                    Self::grow_from(&mut **first, path, i + 1)
                } else {
                    Self::grow_from(&mut **second, path, i + 1)
                }
            },
        }
    }

    /// How many leaf payloads `budget` leaves over once every leaf has taken
    /// one; `None` where the tree has more leaves than that.
    fn leaves_within(&self, budget: usize) -> (rest: Option<usize>)
        ensures
            match rest {
                Some(rest) => self.leaf_data().len() + rest == budget,
                None => self.leaf_data().len() > budget,
            },
        decreases self,
    {
        match self {
            BTreeNode::Leaf(_) => if budget == 0 {
                None
            } else {
                Some(budget - 1)
            },
            BTreeNode::Branch { first, second, .. } => match first.leaves_within(budget) {
                None => None,
                Some(rest) => second.leaves_within(rest),
            },
        }
    }

    /// As `leaves_within`, for branches.
    fn branches_within(&self, budget: usize) -> (rest: Option<usize>)
        ensures
            match rest {
                Some(rest) => self.branch_data().len() + rest == budget,
                None => self.branch_data().len() > budget,
            },
        decreases self,
    {
        match self {
            BTreeNode::Leaf(_) => Some(budget),
            BTreeNode::Branch { first, second, .. } => if budget == 0 {
                None
            } else {
                match first.branches_within(budget - 1) {
                    None => None,
                    Some(rest) => second.branches_within(rest),
                }
            },
        }
    }

    fn fill_leaves(&mut self, new_data: &[L], start: usize) -> (next: usize) where L: Clone
        requires
            start + old(self).leaf_data().len() <= new_data@.len(),
        ensures
            next == start + old(self).leaf_data().len(),
            final(self).shape() == old(self).shape(),
            final(self).branch_data() == old(self).branch_data(),
            clones_of(new_data@.subrange(start as int, next as int), final(self).leaf_data()),
        decreases *old(self),
    {
        match self {
            BTreeNode::Leaf(data) => {
                *data = new_data[start].clone();
                start + 1
            },
            BTreeNode::Branch { first, second, .. } => {
                let mid = first.fill_leaves(new_data, start);
                let next = second.fill_leaves(new_data, mid);
                proof {
                    let src = new_data@.subrange(start as int, next as int);
                    let out = self.leaf_data();
                    assert forall|i: int| 0 <= i < src.len() implies cloned(
                        #[trigger] src[i],
                        out[i],
                    ) by {
                        if i < mid - start {
                            assert(src[i] == new_data@.subrange(start as int, mid as int)[i]);
                        } else {
                            assert(src[i] == new_data@.subrange(mid as int, next as int)[i - (mid
                                - start)]);
                        }
                    }
                }
                next
            },
        }
    }

    fn fill_branches(&mut self, new_data: &[B], start: usize) -> (next: usize) where B: Clone
        requires
            start + old(self).branch_data().len() <= new_data@.len(),
        ensures
            next == start + old(self).branch_data().len(),
            final(self).shape() == old(self).shape(),
            final(self).leaf_data() == old(self).leaf_data(),
            clones_of(new_data@.subrange(start as int, next as int), final(self).branch_data()),
        decreases *old(self),
    {
        match self {
            BTreeNode::Leaf(_) => start,
            BTreeNode::Branch { first, second, data } => {
                *data = new_data[start].clone();
                let mid = first.fill_branches(new_data, start + 1);
                let next = second.fill_branches(new_data, mid);
                proof {
                    let src = new_data@.subrange(start as int, next as int);
                    let out = self.branch_data();
                    assert forall|i: int| 0 <= i < src.len() implies cloned(
                        #[trigger] src[i],
                        out[i],
                    ) by {
                        if i == 0 {
                        } else if i < mid - start {
                            assert(src[i] == new_data@.subrange(start + 1, mid as int)[i - 1]);
                        } else {
                            assert(src[i] == new_data@.subrange(mid as int, next as int)[i - (mid
                                - start)]);
                        }
                    }
                }
                next
            },
        }
    }

    /// Gives every leaf a clone of the payload at its position in `new_data`,
    /// which must hold one payload for each leaf: with fewer the result is
    /// `LeafDataExhausted`, with more `LeafDataRemaining`, and the tree is
    /// left as it was.
    pub fn assign_leaf_data(&mut self, new_data: &[L]) -> (result: Result<(), SpecError>) where
        L: Clone,

        ensures
            match result {
                Ok(()) => {
                    &&& final(self).shape() == old(self).shape()
                    &&& final(self).branch_data() == old(self).branch_data()
                    &&& clones_of(new_data@, final(self).leaf_data())
                },
                Err(e) => *final(self) == *old(self) && if new_data@.len() < old(
                    self,
                ).leaf_data().len() {
                    e == SpecError::LeafDataExhausted
                } else {
                    new_data@.len() > old(self).leaf_data().len() && e
                        == SpecError::LeafDataRemaining
                },
            },
    {
        match self.leaves_within(new_data.len()) {
            None => Err(SpecError::LeafDataExhausted),
            Some(rest) => if rest > 0 {
                Err(SpecError::LeafDataRemaining)
            } else {
                let next = self.fill_leaves(new_data, 0);
                assert(new_data@.subrange(0, next as int) =~= new_data@);
                Ok(())
            },
        }
    }

    /// Gives every branch a clone of the payload at its pre-order position in
    /// `new_data`, which must hold one payload for each branch: with fewer
    /// the result is `BranchDataExhausted`, with more `BranchDataRemaining`,
    /// and the tree is left as it was.
    pub fn assign_branch_data(&mut self, new_data: &[B]) -> (result: Result<(), SpecError>) where
        B: Clone,

        ensures
            match result {
                Ok(()) => {
                    &&& final(self).shape() == old(self).shape()
                    &&& final(self).leaf_data() == old(self).leaf_data()
                    &&& clones_of(new_data@, final(self).branch_data())
                },
                Err(e) => *final(self) == *old(self) && if new_data@.len() < old(
                    self,
                ).branch_data().len() {
                    e == SpecError::BranchDataExhausted
                } else {
                    new_data@.len() > old(self).branch_data().len() && e
                        == SpecError::BranchDataRemaining
                },
            },
    {
        match self.branches_within(new_data.len()) {
            None => Err(SpecError::BranchDataExhausted),
            Some(rest) => if rest > 0 {
                Err(SpecError::BranchDataRemaining)
            } else {
                let next = self.fill_branches(new_data, 0);
                assert(new_data@.subrange(0, next as int) =~= new_data@);
                Ok(())
            },
        }
    }

    /// Builds the tree that `spec` describes. It succeeds exactly when the
    /// paths are canonical and there is one leaf payload for each path and
    /// one branch payload fewer; the tree then has those leaf paths, and
    /// clones of the payloads in the order given. Otherwise the result is the
    /// first fault found: the paths are judged first, then the leaf payloads,
    /// then the branch payloads.
    pub fn from_spec(spec: &BTreeSpec<L, B>) -> (result: Result<Self, SpecError>) where
        L: Clone + Default,
        B: Clone + Default,

        ensures
            match result {
                Ok(tree) => {
                    &&& flat_fault(spec.paths(), spec.leaf_data@.len(), spec.branch_data@.len())
                        is None
                    &&& tree.leaf_paths() == spec.paths()
                    &&& clones_of(spec.leaf_data@, tree.leaf_data())
                    &&& clones_of(spec.branch_data@, tree.branch_data())
                },
                Err(e) => flat_fault(spec.paths(), spec.leaf_data@.len(), spec.branch_data@.len())
                    == Some(e),
            },
    {
        let ghost paths = spec.paths();
        let mut tree = Self::default_leaf();
        let mut i: usize = 0;
        while i < spec.leaf_paths.len()
            invariant
                i <= spec.leaf_paths.len(),
                paths == path_list(spec.leaf_paths@),
                forall|shape: Shape| shape.leaf_paths() == paths ==> tree.shape() == pruned(shape, i as int),
            decreases spec.leaf_paths.len() - i,
        {
            let ghost before = tree.shape();
            let grew = Self::default_from_path(&mut tree, spec.leaf_paths[i].as_slice());
            proof {
                assert(paths[i as int] == spec.leaf_paths@[i as int]@);
                assert forall|shape: Shape| shape.leaf_paths() == paths implies grew is Ok
                    && tree.shape() == pruned(shape, i as int + 1) by {
                    lemma_grow_step(shape, i as int);
                }
            }
            if grew.is_err() {
                return Err(SpecError::NonCanonicalSpec);
            }
            i += 1;
        }
        let found = tree.collect_paths();
        proof {
            lemma_shape_paths(tree);
            lemma_counts(tree);
            assert forall|shape: Shape| shape.leaf_paths() == paths implies tree.leaf_paths()
                == paths by {
                lemma_pruned_whole(shape, i as int);
            }
        }
        if !path_lists_equal(&found, &spec.leaf_paths) {
            return Err(SpecError::NonCanonicalSpec);
        }
        assert(canonical(paths));
        tree.assign_leaf_data(spec.leaf_data.as_slice())?;
        proof {
            lemma_shape_paths(tree);
            lemma_counts(tree);
        }
        tree.assign_branch_data(spec.branch_data.as_slice())?;
        proof {
            lemma_shape_paths(tree);
            lemma_counts(tree);
        }
        Ok(tree)
    }
}

} // verus!
