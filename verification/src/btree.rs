use vstd::prelude::*;

use crate::btree::from_flat::canonical;
use crate::btree::laws::{lemma_replace_with_same, lemma_shape_paths};
use crate::path::{path_list, path_to_vec, under};

pub mod from_flat;
pub mod access;
pub mod edit;
pub mod laws;
pub mod listing;
pub mod order;

verus! {

/// A binary tree of regions: a leaf is one region, a branch is a region cut
/// in two. Leaves carry an `L`, branches a `B`.
#[derive(Debug)]
pub enum BTreeNode<L = (), B = ()> {
    Leaf(L),
    Branch { first: Box<BTreeNode<L, B>>, second: Box<BTreeNode<L, B>>, data: B },
}

/// A tree written flat: the paths of its leaves in traversal order, the leaf
/// payloads in that order, and the branch payloads in pre-order.
#[derive(Debug)]
pub struct BTreeSpec<L = (), B = ()> {
    pub leaf_paths: Vec<Vec<bool>>,
    pub leaf_data: Vec<L>,
    pub branch_data: Vec<B>,
}

/// A tree with its payloads forgotten.
pub type Shape = BTreeNode<(), ()>;

/// Why a path could not be used on a tree.
#[derive(Debug, Clone, Copy, PartialEq, Eq, Structural)]
pub enum PathError {
    /// The path goes on after it has reached a leaf.
    PathBeyondLeaf,
    /// The path stops at a branch, or is not the path of any leaf.
    PathNotFound,
    /// The node to split is a branch.
    CannotSplitBranch,
    /// The node to remove is a branch.
    CannotRemoveBranch,
    /// The node whose image should change is a branch.
    CannotCycleImageOnBranch,
}

/// Why a flat description does not describe a tree.
#[derive(Debug, Clone, Copy, PartialEq, Eq, Structural)]
pub enum SpecError {
    /// The paths are not the leaf paths of any tree.
    NonCanonicalSpec,
    /// There are fewer leaf payloads than leaves.
    LeafDataExhausted,
    /// There are more leaf payloads than leaves.
    LeafDataRemaining,
    /// There are fewer branch payloads than branches.
    BranchDataExhausted,
    /// There are more branch payloads than branches.
    BranchDataRemaining,
}

impl PathError {
    /// What the error says, as a sequence of characters.
    pub open spec fn message(self) -> Seq<char> {
        match self {
            PathError::PathBeyondLeaf => "Path leads beyond a leaf node"@,
            PathError::PathNotFound => "Could not find leaf at specified path"@,
            PathError::CannotSplitBranch => "Can only split a leaf node"@,
            PathError::CannotRemoveBranch => "Not allowed to remove a split node"@,
            PathError::CannotCycleImageOnBranch => "Cannot change image on a split node"@,
        }
    }

    /// What the error says.
    pub fn to_string(&self) -> (text: String)
        ensures
            text@ == self.message(),
    {
        match self {
            PathError::PathBeyondLeaf => "Path leads beyond a leaf node".to_owned(),
            PathError::PathNotFound => "Could not find leaf at specified path".to_owned(),
            PathError::CannotSplitBranch => "Can only split a leaf node".to_owned(),
            PathError::CannotRemoveBranch => "Not allowed to remove a split node".to_owned(),
            PathError::CannotCycleImageOnBranch => "Cannot change image on a split node".to_owned(),
        }
    }
}

impl SpecError {
    /// What the error says, as a sequence of characters.
    pub open spec fn message(self) -> Seq<char> {
        match self {
            SpecError::NonCanonicalSpec => "Non-canonical/invalid path spec"@,
            SpecError::LeafDataExhausted => "Prematurely exhausted leaf data"@,
            SpecError::LeafDataRemaining => "Remaining unused leaf data"@,
            SpecError::BranchDataExhausted => "Prematurely exhausted branch data"@,
            SpecError::BranchDataRemaining => "Remaining unused branch data"@,
        }
    }

    /// What the error says.
    pub fn to_string(&self) -> (text: String)
        ensures
            text@ == self.message(),
    {
        match self {
            SpecError::NonCanonicalSpec => "Non-canonical/invalid path spec".to_owned(),
            SpecError::LeafDataExhausted => "Prematurely exhausted leaf data".to_owned(),
            SpecError::LeafDataRemaining => "Remaining unused leaf data".to_owned(),
            SpecError::BranchDataExhausted => "Prematurely exhausted branch data".to_owned(),
            SpecError::BranchDataRemaining => "Remaining unused branch data".to_owned(),
        }
    }
}

/// `out` holds, position by position, a clone of each element of `src`.
pub open spec fn clones_of<T: Clone>(src: Seq<T>, out: Seq<T>) -> bool {
    &&& src.len() == out.len()
    &&& forall|i: int| 0 <= i < src.len() ==> cloned(#[trigger] src[i], out[i])
}

/// `value` is a value that `T::default()` may return.
pub open spec fn is_default<T: Default>(value: T) -> bool {
    call_ensures(T::default, (), value)
}

impl<L, B> BTreeNode<L, B> {
    /// The node that `path` leads to from this node, if the path does not
    /// run on past a leaf.
    pub open spec fn node_at(self, path: Seq<bool>) -> Option<Self>
        decreases path.len(),
    {
        if path.len() == 0 {
            Some(self)
        } else {
            match self {
                BTreeNode::Leaf(_) => None,
                BTreeNode::Branch { first, second, .. } => if path[0] {
                    first.node_at(path.drop_first())
                } else {
                    second.node_at(path.drop_first())
                },
            }
        }
    }

    /// This tree with the node at `path` replaced by `node`; the tree itself
    /// where `path` leads nowhere.
    pub open spec fn replaced_at(self, path: Seq<bool>, node: Self) -> Self
        decreases path.len(),
    {
        if path.len() == 0 {
            node
        } else {
            match self {
                BTreeNode::Leaf(_) => self,
                BTreeNode::Branch { first, second, data } => if path[0] {
                    BTreeNode::Branch {
                        first: Box::new(first.replaced_at(path.drop_first(), node)),
                        second,
                        data,
                    }
                } else {
                    BTreeNode::Branch {
                        first,
                        second: Box::new(second.replaced_at(path.drop_first(), node)),
                        data,
                    }
                },
            }
        }
    }

    /// The paths of the leaves, `first` before `second` at every branch.
    pub open spec fn leaf_paths(self) -> Seq<Seq<bool>>
        decreases self,
    {
        match self {
            BTreeNode::Leaf(_) => seq![Seq::empty()],
            BTreeNode::Branch { first, second, .. } => under(seq![true], first.leaf_paths()) + under(
                seq![false],
                second.leaf_paths(),
            ),
        }
    }

    /// The leaf payloads, in the order of `leaf_paths`.
    pub open spec fn leaf_data(self) -> Seq<L>
        decreases self,
    {
        match self {
            BTreeNode::Leaf(data) => seq![data],
            BTreeNode::Branch { first, second, .. } => first.leaf_data() + second.leaf_data(),
        }
    }

    /// The branch payloads in pre-order: a branch, then the branches of its
    /// `first` child, then those of its `second`.
    pub open spec fn branch_data(self) -> Seq<B>
        decreases self,
    {
        match self {
            BTreeNode::Leaf(_) => Seq::empty(),
            BTreeNode::Branch { first, second, data } => seq![data] + first.branch_data()
                + second.branch_data(),
        }
    }

    /// How many leaves come before the node at `path` in traversal order.
    pub open spec fn leaf_rank(self, path: Seq<bool>) -> int
        decreases path.len(),
    {
        if path.len() == 0 {
            0
        } else {
            match self {
                BTreeNode::Leaf(_) => 0,
                BTreeNode::Branch { first, second, .. } => if path[0] {
                    first.leaf_rank(path.drop_first())
                } else {
                    first.leaf_paths().len() + second.leaf_rank(path.drop_first())
                },
            }
        }
    }

    /// The position of `path` among the leaf paths; `None` where no leaf
    /// stands at `path`.
    pub open spec fn leaf_position(self, path: Seq<bool>) -> Option<int> {
        match self.node_at(path) {
            Some(BTreeNode::Leaf(_)) => Some(self.leaf_rank(path)),
            _ => None,
        }
    }

    /// The tree without its payloads.
    pub open spec fn shape(self) -> Shape
        decreases self,
    {
        match self {
            BTreeNode::Leaf(_) => BTreeNode::Leaf(()),
            BTreeNode::Branch { first, second, .. } => BTreeNode::Branch {
                first: Box::new(first.shape()),
                second: Box::new(second.shape()),
                data: (),
            },
        }
    }

    /// Whether this node is a leaf.
    pub fn is_leaf(&self) -> (leaf: bool)
        ensures
            leaf == (*self is Leaf),
    {
        match self {
            BTreeNode::Leaf(_) => true,
            BTreeNode::Branch { .. } => false,
        }
    }

    /// The node at `path`, leaf or branch.
    pub fn get_node_at(&self, path: &[bool]) -> (result: Result<&Self, PathError>)
        ensures
            match result {
                Ok(node) => self.node_at(path@) == Some(*node),
                Err(e) => self.node_at(path@) is None && e == PathError::PathBeyondLeaf,
            },
    {
        let mut node = self;
        let mut i: usize = 0;
        proof {
            assert(path@.skip(0) == path@);
        }
        while i < path.len()
            invariant
                i <= path.len(),
                self.node_at(path@) == node.node_at(path@.skip(i as int)),
            decreases path.len() - i,
        {
            match node {
                BTreeNode::Leaf(_) => {
                    return Err(PathError::PathBeyondLeaf);
                },
                BTreeNode::Branch { first, second, .. } => {
                    proof {
                        assert(path@.skip(i as int).drop_first() == path@.skip(i as int + 1));
                    }
                    node = if path[i] { &**first } else { &**second };
                },
            }
            i += 1;
        }
        Ok(node)
    }

    /// The node at `path`, leaf or branch, for changing in place. What the
    /// caller leaves in it stands at `path` afterwards; the rest of the tree
    /// is untouched.
    pub fn get_node_at_mut(&mut self, path: &[bool]) -> (result: Result<&mut Self, PathError>)
        ensures
            match result {
                Ok(node) => old(self).node_at(path@) == Some(*node) && *final(self) == old(self).replaced_at(path@, *final(node)),
                Err(e) => old(self).node_at(path@) is None && e == PathError::PathBeyondLeaf
                    && *final(self) == *old(self),
            },
    {
        proof {
            assert(path@.skip(0) == path@);
        }
        Self::node_mut_from(self, path, 0)
    }

    fn node_mut_from<'a>(node: &'a mut Self, path: &[bool], i: usize) -> (result: Result<
        &'a mut Self,
        PathError,
    >)
        requires
            i <= path.len(),
        ensures
            match result {
                Ok(found) => old(node).node_at(path@.skip(i as int)) == Some(*found) && *final(node)
                    == old(node).replaced_at(path@.skip(i as int), *final(found)),
                Err(e) => old(node).node_at(path@.skip(i as int)) is None && e
                    == PathError::PathBeyondLeaf && *final(node) == *old(node),
            },
        decreases path.len() - i,
    {
        if i == path.len() {
            return Ok(node);
        }
        proof {
            assert(path@.skip(i as int).drop_first() == path@.skip(i as int + 1));
        }
        match node {
            BTreeNode::Leaf(_) => Err(PathError::PathBeyondLeaf),
            BTreeNode::Branch { first, second, .. } => {
                if path[i] {
                    Self::node_mut_from(&mut **first, path, i + 1)
                } else {
                    Self::node_mut_from(&mut **second, path, i + 1)
                }
            },
        }
    }

    /// The leaf at `path`. A path that runs on past a leaf is
    /// `PathBeyondLeaf`; one that stops at a branch is `PathNotFound`.
    pub fn get_leaf_at(&self, path: &[bool]) -> (result: Result<&Self, PathError>)
        ensures
            match result {
                Ok(node) => self.node_at(path@) == Some(*node) && *node is Leaf,
                Err(e) => match self.node_at(path@) {
                    None => e == PathError::PathBeyondLeaf,
                    Some(node) => node is Branch && e == PathError::PathNotFound,
                },
            },
    {
        let node = self.get_node_at(path)?;
        match node {
            BTreeNode::Leaf(_) => Ok(node),
            BTreeNode::Branch { .. } => Err(PathError::PathNotFound),
        }
    }

    /// The leaf at `path`, for changing in place; fails as `get_leaf_at` does
    /// and then leaves the tree as it was.
    pub fn get_leaf_at_mut(&mut self, path: &[bool]) -> (result: Result<&mut Self, PathError>)
        ensures
            match result {
                Ok(node) => old(self).node_at(path@) == Some(*node) && *node is Leaf && *final(self)
                    == old(self).replaced_at(path@, *final(node)),
                Err(e) => *final(self) == *old(self) && match old(self).node_at(path@) {
                    None => e == PathError::PathBeyondLeaf,
                    Some(node) => node is Branch && e == PathError::PathNotFound,
                },
            },
    {
        let node = self.get_node_at_mut(path)?;
        if node.is_leaf() {
            Ok(node)
        } else {
            proof {
                lemma_replace_with_same(*old(self), path@);
            }
            Err(PathError::PathNotFound)
        }
    }

    /// The branch at `path`, for changing in place. A path that runs on past
    /// a leaf is `PathBeyondLeaf`; one that stops at a leaf is `PathNotFound`.
    pub fn get_branch_at_mut(&mut self, path: &[bool]) -> (result: Result<&mut Self, PathError>)
        ensures
            match result {
                Ok(node) => old(self).node_at(path@) == Some(*node) && *node is Branch && *final(self) == old(self).replaced_at(path@, *final(node)),
                Err(e) => *final(self) == *old(self) && match old(self).node_at(path@) {
                    None => e == PathError::PathBeyondLeaf,
                    Some(node) => node is Leaf && e == PathError::PathNotFound,
                },
            },
    {
        let node = self.get_node_at_mut(path)?;
        if node.is_leaf() {
            proof {
                lemma_replace_with_same(*old(self), path@);
            }
            Err(PathError::PathNotFound)
        } else {
            Ok(node)
        }
    }

    /// The payload of the leaf at `path`; fails as `get_leaf_at` does.
    pub fn get_leaf_data_at(&self, path: &[bool]) -> (result: Result<&L, PathError>)
        ensures
            match result {
                Ok(data) => self.node_at(path@) == Some(BTreeNode::<L, B>::Leaf(*data)),
                Err(e) => match self.node_at(path@) {
                    None => e == PathError::PathBeyondLeaf,
                    Some(node) => node is Branch && e == PathError::PathNotFound,
                },
            },
    {
        match self.get_node_at(path)? {
            BTreeNode::Leaf(data) => Ok(data),
            BTreeNode::Branch { .. } => Err(PathError::PathNotFound),
        }
    }

    /// The paths of all leaves, `first` before `second`; `[[]]` for a single
    /// leaf.
    pub fn collect_paths(&self) -> (paths: Vec<Vec<bool>>)
        ensures
            path_list(paths@) == self.leaf_paths(),
            canonical(path_list(paths@)),
    {
        proof {
            lemma_shape_paths(*self);
        }
        let mut all_paths: Vec<Vec<bool>> = Vec::new();
        let mut current_path: Vec<bool> = Vec::new();
        self.collect_paths_impl(&mut current_path, &mut all_paths);
        proof {
            assert(under(Seq::empty(), self.leaf_paths()) =~= self.leaf_paths()) by {
                assert forall|i: int| 0 <= i < self.leaf_paths().len() implies Seq::<bool>::empty()
                    + self.leaf_paths()[i] == self.leaf_paths()[i] by {
                    assert(Seq::<bool>::empty() + self.leaf_paths()[i] =~= self.leaf_paths()[i]);
                }
            }
            assert(path_list(Seq::<Vec<bool>>::empty()) + self.leaf_paths() =~= self.leaf_paths());
        }
        all_paths
    }

    /// Appends to `all_paths` the path of every leaf below this node, each
    /// with `current_path` in front.
    pub fn collect_paths_impl(&self, current_path: &mut Vec<bool>, all_paths: &mut Vec<Vec<bool>>)
        ensures
            final(current_path)@ == old(current_path)@,
            path_list(final(all_paths)@) == path_list(old(all_paths)@) + under(
                old(current_path)@,
                self.leaf_paths(),
            ),
        decreases self,
    {
        match self {
            BTreeNode::Leaf(_) => {
                let copy = path_to_vec(current_path.as_slice());
                all_paths.push(copy);
                proof {
                    assert(old(current_path)@ + Seq::<bool>::empty() =~= old(current_path)@);
                    assert(path_list(all_paths@) =~= path_list(old(all_paths)@) + under(
                        old(current_path)@,
                        self.leaf_paths(),
                    ));
                }
            },
            BTreeNode::Branch { first, second, .. } => {
                let ghost base = current_path@;
                let ghost before = path_list(all_paths@);
                current_path.push(true);
                first.collect_paths_impl(current_path, all_paths);
                current_path.pop();
                assert(current_path@ =~= base);
                current_path.push(false);
                second.collect_paths_impl(current_path, all_paths);
                current_path.pop();
                assert(current_path@ =~= base);
                proof {
                    let fp = first.leaf_paths();
                    let sp = second.leaf_paths();
                    assert(under(base.push(true), fp) =~= under(base, under(seq![true], fp))) by {
                        assert forall|i: int| 0 <= i < fp.len() implies base.push(true) + fp[i]
                            == base + (seq![true] + fp[i]) by {
                            assert(base.push(true) + fp[i] =~= base + (seq![true] + fp[i]));
                        }
                    }
                    assert(under(base.push(false), sp) =~= under(base, under(seq![false], sp))) by {
                        assert forall|i: int| 0 <= i < sp.len() implies base.push(false) + sp[i]
                            == base + (seq![false] + sp[i]) by {
                            assert(base.push(false) + sp[i] =~= base + (seq![false] + sp[i]));
                        }
                    }
                    assert(under(base, self.leaf_paths()) =~= under(base, under(seq![true], fp))
                        + under(base, under(seq![false], sp)));
                    assert(path_list(all_paths@) =~= before + under(base, self.leaf_paths()));
                }
            },
        }
    }

    /// A clone of every leaf payload, in the order of `collect_paths`.
    pub fn collect_leaf_data(&self) -> (data: Vec<L>) where L: Clone
        ensures
            clones_of(self.leaf_data(), data@),
    {
        let mut leaf_data: Vec<L> = Vec::new();
        self.collect_leaf_data_impl(&mut leaf_data);
        assert(leaf_data@ =~= leaf_data@.skip(0));
        leaf_data
    }

    /// Appends to `leaf_data` a clone of every leaf payload below this node.
    pub fn collect_leaf_data_impl(&self, leaf_data: &mut Vec<L>) where L: Clone
        ensures
            final(leaf_data)@.len() == old(leaf_data)@.len() + self.leaf_data().len(),
            final(leaf_data)@.take(old(leaf_data)@.len() as int) == old(leaf_data)@,
            clones_of(self.leaf_data(), final(leaf_data)@.skip(old(leaf_data)@.len() as int)),
        decreases self,
    {
        match self {
            BTreeNode::Leaf(data) => {
                leaf_data.push(data.clone());
                assert(leaf_data@.take(old(leaf_data)@.len() as int) =~= old(leaf_data)@);
            },
            BTreeNode::Branch { first, second, .. } => {
                let ghost n0 = leaf_data@.len() as int;
                first.collect_leaf_data_impl(leaf_data);
                let ghost mid = leaf_data@;
                let ghost n1 = mid.len() as int;
                second.collect_leaf_data_impl(leaf_data);
                proof {
                    let end = leaf_data@;
                    assert(end.take(n0) =~= end.take(n1).take(n0));
                    let out = end.skip(n0);
                    let src = self.leaf_data();
                    assert forall|i: int| 0 <= i < src.len() implies cloned(
                        #[trigger] src[i],
                        out[i],
                    ) by {
                        if i < first.leaf_data().len() {
                            assert(out[i] == end.take(n1)[n0 + i]);
                            assert(mid.skip(n0)[i] == mid[n0 + i]);
                            assert(cloned(first.leaf_data()[i], mid.skip(n0)[i]));
                        } else {
                            let j = i - first.leaf_data().len();
                            assert(end.skip(n1)[j] == out[i]);
                            assert(cloned(second.leaf_data()[j], end.skip(n1)[j]));
                        }
                    }
                }
            },
        }
    }

    /// A clone of every branch payload, in pre-order.
    pub fn collect_branch_data(&self) -> (data: Vec<B>) where B: Clone
        ensures
            clones_of(self.branch_data(), data@),
    {
        let mut branch_data: Vec<B> = Vec::new();
        self.collect_branch_data_impl(&mut branch_data);
        assert(branch_data@ =~= branch_data@.skip(0));
        branch_data
    }

    /// Appends to `branch_data` a clone of every branch payload at and below
    /// this node.
    pub fn collect_branch_data_impl(&self, branch_data: &mut Vec<B>) where B: Clone
        ensures
            final(branch_data)@.len() == old(branch_data)@.len() + self.branch_data().len(),
            final(branch_data)@.take(old(branch_data)@.len() as int) == old(branch_data)@,
            clones_of(self.branch_data(), final(branch_data)@.skip(old(branch_data)@.len() as int)),
        decreases self,
    {
        match self {
            BTreeNode::Leaf(_) => {
                assert(branch_data@.take(old(branch_data)@.len() as int) =~= old(branch_data)@);
            },
            BTreeNode::Branch { first, second, data } => {
                let ghost n0 = branch_data@.len() as int;
                branch_data.push(data.clone());
                let ghost top = branch_data@;
                first.collect_branch_data_impl(branch_data);
                let ghost mid = branch_data@;
                let ghost n1 = mid.len() as int;
                second.collect_branch_data_impl(branch_data);
                proof {
                    let end = branch_data@;
                    assert(end.take(n0 + 1) =~= end.take(n1).take(n0 + 1));
                    assert(end.take(n0) =~= end.take(n0 + 1).take(n0));
                    assert(top.take(n0) =~= old(branch_data)@);
                    let out = end.skip(n0);
                    let src = self.branch_data();
                    let nf = first.branch_data().len();
                    assert forall|i: int| 0 <= i < src.len() implies cloned(
                        #[trigger] src[i],
                        out[i],
                    ) by {
                        if i == 0 {
                            assert(out[0] == end.take(n0 + 1)[n0]);
                            assert(top[n0] == mid.take(n0 + 1)[n0]);
                        } else if i <= nf {
                            assert(out[i] == end.take(n1)[n0 + i]);
                            assert(mid.skip(n0 + 1)[i - 1] == mid[n0 + i]);
                            assert(cloned(first.branch_data()[i - 1], mid.skip(n0 + 1)[i - 1]));
                        } else {
                            let j = i - 1 - nf;
                            assert(end.skip(n1)[j] == out[i]);
                            assert(cloned(second.branch_data()[j], end.skip(n1)[j]));
                        }
                    }
                }
            },
        }
    }

    /// A leaf that carries the default payload.
    pub fn default_leaf() -> (leaf: Self) where L: Default
        ensures
            leaf matches BTreeNode::Leaf(data) && is_default(data),
    {
        BTreeNode::Leaf(L::default())
    }

    /// A branch with the default payload over two default leaves.
    pub fn default_branch() -> (branch: Self) where L: Default, B: Default
        ensures
            branch matches BTreeNode::Branch { first, second, data } && is_default(data)
                && (*first matches BTreeNode::Leaf(a) && is_default(a))
                && (*second matches BTreeNode::Leaf(b) && is_default(b)),
    {
        BTreeNode::Branch {
            first: Box::new(Self::default_leaf()),
            second: Box::new(Self::default_leaf()),
            data: B::default(),
        }
    }

    /// The flat description of this tree: its leaf paths, and clones of its
    /// leaf and branch payloads, all in traversal order.
    pub fn get_spec(&self) -> (spec: BTreeSpec<L, B>) where L: Clone, B: Clone
        ensures
            spec.paths() == self.leaf_paths(),
            clones_of(self.leaf_data(), spec.leaf_data@),
            clones_of(self.branch_data(), spec.branch_data@),
    {
        BTreeSpec {
            leaf_paths: self.collect_paths(),
            leaf_data: self.collect_leaf_data(),
            branch_data: self.collect_branch_data(),
        }
    }
}

impl BTreeNode<(), ()> {
    /// A leaf without payload.
    pub fn new_leaf() -> (leaf: Self)
        ensures
            leaf == Shape::Leaf(()),
    {
        BTreeNode::Leaf(())
    }

    /// A branch without payload over `first` and `second`.
    pub fn new_branch(first: Shape, second: Shape) -> (branch: Self)
        ensures
            branch == (Shape::Branch { first: Box::new(first), second: Box::new(second), data: () }),
    {
        BTreeNode::Branch { first: Box::new(first), second: Box::new(second), data: () }
    }

    /// A branch without payload over two leaves.
    pub fn new_lastbranch() -> (branch: Self)
        ensures
            branch == (Shape::Branch {
                first: Box::new(Shape::Leaf(())),
                second: Box::new(Shape::Leaf(())),
                data: (),
            }),
    {
        Self::new_branch(Self::new_leaf(), Self::new_leaf())
    }

    /// The flat description that lists `leaf_paths` and carries no payloads:
    /// one unit for each path, and one unit fewer for the branches.
    pub fn spec_from(leaf_paths: Vec<Vec<bool>>) -> (spec: BTreeSpec)
        requires
            leaf_paths@.len() > 0,
        ensures
            spec.leaf_paths == leaf_paths,
            spec.leaf_data@.len() == leaf_paths@.len(),
            spec.branch_data@.len() == leaf_paths@.len() - 1,
    {
        let size = leaf_paths.len();
        let mut leaf_data: Vec<()> = Vec::new();
        let mut branch_data: Vec<()> = Vec::new();
        let mut i: usize = 0;
        while i < size
            invariant
                i <= size,
                size > 0,
                leaf_data@.len() == i,
                branch_data@.len() == if i == 0 {
                    0
                } else {
                    i - 1
                },
            decreases size - i,
        {
            leaf_data.push(());
            if i > 0 {
                branch_data.push(());
            }
            i += 1;
        }
        BTreeSpec { leaf_paths, leaf_data, branch_data }
    }
}

impl<L, B> BTreeSpec<L, B> {
    /// The leaf paths that the description lists.
    pub open spec fn paths(self) -> Seq<Seq<bool>> {
        path_list(self.leaf_paths@)
    }
}

} // verus!
