use vstd::prelude::*;
use vstd::slice::slice_subrange;

use crate::adjust_index::{cycle_index, cycled, stepped, AdjustDirection};
use crate::btree::edit::sibling_path;
use crate::btree::laws::{
    lemma_counts, lemma_flat_description_decides, lemma_leaf_at_index, lemma_node_at_replaced,
    lemma_prefix_leads_somewhere, lemma_replace_with_same, lemma_replaced_same_shape,
    lemma_shape_paths,
};
use crate::btree::order::find_path;
use crate::btree::{BTreeNode, BTreeSpec, PathError};
use crate::path::{common_prefix, common_prefix_of, is_prefix, path_list, path_to_vec};

verus! {

/// The line along which a region is cut in two.
#[derive(Debug, Clone, Copy, PartialEq, Eq, Structural)]
pub enum SplitDirection {
    Horizontal,
    Vertical,
}

/// What a pane shows: the position of its image among the images of the
/// current row.
#[derive(Debug, Clone, Copy, PartialEq, Eq, Structural)]
pub struct PaneData {
    pub image_id: usize,
}

/// How a region is cut: along which line, and what share of it, in percent,
/// the first of the two parts takes.
#[derive(Debug, Clone, Copy, PartialEq, Eq, Structural)]
pub struct SplitData {
    pub direction: SplitDirection,
    pub pct: u8,
}

pub type PaneType = BTreeNode<PaneData, SplitData>;

pub type PaneSpec = BTreeSpec<PaneData, SplitData>;

/// The smallest share a divider leaves to the first part.
pub const MIN_PCT: u8 = 5;

/// The largest share a divider leaves to the first part.
pub const MAX_PCT: u8 = 95;

/// The share a fresh divider gives to the first part.
pub const EVEN_PCT: u8 = 50;

/// A layout of panes: a tree whose leaves are panes and whose branches are
/// dividers.
#[derive(Debug)]
pub struct Pane(pub PaneType);

impl Clone for Pane {
    /// The same layout once more.
    fn clone(&self) -> (copy: Self)
        ensures
            copy.0 == self.0,
    {
        let tree = self.0.clone();
        proof {
            lemma_shape_paths(tree);
            lemma_shape_paths(self.0);
            assert forall|i: int| 0 <= i < tree.leaf_data().len() implies tree.leaf_data()[i]
                == self.0.leaf_data()[i] by {
                lemma_pane_data_clone(self.0.leaf_data()[i], tree.leaf_data()[i]);
            }
            assert(tree.leaf_data() =~= self.0.leaf_data());
            assert forall|i: int| 0 <= i < tree.branch_data().len() implies tree.branch_data()[i]
                == self.0.branch_data()[i] by {
                lemma_split_data_clone(self.0.branch_data()[i], tree.branch_data()[i]);
            }
            assert(tree.branch_data() =~= self.0.branch_data());
            lemma_flat_description_decides(tree, self.0);
        }
        Pane(tree)
    }
}

impl Default for PaneData {
    fn default() -> (data: Self)
        ensures
            data.image_id == 0,
    {
        PaneData { image_id: 0 }
    }
}

impl Default for SplitData {
    fn default() -> (data: Self)
        ensures
            data == SplitData::vertical(),
    {
        SplitData::default_vsplit()
    }
}

impl Default for Pane {
    fn default() -> (pane: Self)
        ensures
            pane.0 == leaf_showing(0),
    {
        Pane::new_leaf()
    }
}

impl SplitData {
    /// An even cut along a vertical line.
    pub open spec fn vertical() -> SplitData {
        SplitData { direction: SplitDirection::Vertical, pct: EVEN_PCT }
    }

    /// An even cut along a horizontal line.
    pub open spec fn horizontal() -> SplitData {
        SplitData { direction: SplitDirection::Horizontal, pct: EVEN_PCT }
    }

    /// An even cut along a vertical line.
    pub fn default_vsplit() -> (data: Self)
        ensures
            data == SplitData::vertical(),
    {
        SplitData { direction: SplitDirection::Vertical, pct: EVEN_PCT }
    }

    /// An even cut along a horizontal line.
    pub fn default_hsplit() -> (data: Self)
        ensures
            data == SplitData::horizontal(),
    {
        SplitData { direction: SplitDirection::Horizontal, pct: EVEN_PCT }
    }
}

/// A single pane that shows image `image_id`.
pub open spec fn leaf_showing(image_id: usize) -> PaneType {
    BTreeNode::Leaf(PaneData { image_id })
}

/// An even cut in `direction` with the same payload on both sides.
pub open spec fn split_showing(payload: PaneData, direction: SplitDirection) -> PaneType {
    BTreeNode::Branch {
        first: Box::new(BTreeNode::Leaf(payload)),
        second: Box::new(BTreeNode::Leaf(payload)),
        data: SplitData { direction, pct: EVEN_PCT },
    }
}

/// Every divider of the layout leaves between 5 and 95 percent to its first
/// part.
pub open spec fn pcts_in_range(node: PaneType) -> bool
    decreases node,
{
    match node {
        BTreeNode::Leaf(_) => true,
        BTreeNode::Branch { first, second, data } => {
            &&& MIN_PCT <= data.pct <= MAX_PCT
            &&& pcts_in_range(*first)
            &&& pcts_in_range(*second)
        },
    }
}

/// The share that a divider at `pct` has after a move by `delta`: their sum,
/// held between 5 and 95.
pub open spec fn clamped(pct: u8, delta: i8) -> u8 {
    let moved = pct as int + delta as int;
    if moved < MIN_PCT as int {
        MIN_PCT
    } else if moved > MAX_PCT as int {
        MAX_PCT
    } else {
        moved as u8
    }
}

/// The node with its divider at `pct`; a leaf as it is.
pub open spec fn with_pct(node: PaneType, pct: u8) -> PaneType {
    match node {
        BTreeNode::Leaf(_) => node,
        BTreeNode::Branch { first, second, data } => BTreeNode::Branch {
            first,
            second,
            data: SplitData { direction: data.direction, pct },
        },
    }
}

/// The path of the divider that a resize from `path` along `axis` moves: the
/// nearest branch above `path` that is cut in that direction. `None` where
/// there is none up to the root, or where nothing stands above `path`.
pub open spec fn resize_target(tree: PaneType, path: Seq<bool>, axis: SplitDirection) -> Option<
    Seq<bool>,
>
    decreases path.len(),
{
    if path.len() == 0 {
        None
    } else {
        match tree.node_at(path.drop_last()) {
            Some(BTreeNode::Branch { data, .. }) => if data.direction == axis {
                Some(path.drop_last())
            } else {
                resize_target(tree, path.drop_last(), axis)
            },
            _ => None,
        }
    }
}

/// The layout after a resize from `path` along `axis` by `delta`.
pub open spec fn resized(tree: PaneType, path: Seq<bool>, axis: SplitDirection, delta: i8) -> PaneType {
    match resize_target(tree, path, axis) {
        None => tree,
        Some(at) => match tree.node_at(at) {
            Some(BTreeNode::Branch { first, second, data }) => tree.replaced_at(
                at,
                BTreeNode::Branch {
                    first,
                    second,
                    data: SplitData { direction: data.direction, pct: clamped(data.pct, delta) },
                },
            ),
            _ => tree,
        },
    }
}

/// The deepest node above both `a` and `b` is a branch cut in direction
/// `axis`.
pub open spec fn joined_on(tree: PaneType, a: Seq<bool>, b: Seq<bool>, axis: SplitDirection) -> bool {
    match tree.node_at(common_prefix(a, b)) {
        Some(BTreeNode::Branch { data, .. }) => data.direction == axis,
        _ => false,
    }
}

/// `to` is where navigation from the leaf at position `from` along `axis`
/// ends: the nearest leaf in `direction` that is joined to it on that axis,
/// or the leaf itself where no leaf in that direction is.
pub open spec fn navigated(
    tree: PaneType,
    from: int,
    to: int,
    axis: SplitDirection,
    direction: AdjustDirection,
) -> bool {
    let paths = tree.leaf_paths();
    match direction {
        AdjustDirection::Next => if to == from {
            forall|k: int| from < k < paths.len() ==> !joined_on(tree, paths[from], paths[k], axis)
        } else {
            &&& from < to < paths.len()
            &&& joined_on(tree, paths[from], paths[to], axis)
            &&& forall|k: int| from < k < to ==> !joined_on(tree, paths[from], paths[k], axis)
        },
        AdjustDirection::Previous => if to == from {
            forall|k: int| 0 <= k < from ==> !joined_on(tree, paths[from], paths[k], axis)
        } else {
            &&& 0 <= to < from
            &&& joined_on(tree, paths[from], paths[to], axis)
            &&& forall|k: int| to < k < from ==> !joined_on(tree, paths[from], paths[k], axis)
        },
    }
}

/// A clone of a pane's payload is the payload.
pub proof fn lemma_pane_data_clone(a: PaneData, b: PaneData)
    requires
        cloned(a, b),
    ensures
        a == b,
{
}

/// A clone of a divider's payload is the payload.
pub proof fn lemma_split_data_clone(a: SplitData, b: SplitData)
    requires
        cloned(a, b),
    ensures
        a == b,
{
}

/// The divider of a fresh cut is in range.
pub proof fn lemma_split_in_range(payload: PaneData, direction: SplitDirection)
    ensures
        pcts_in_range(split_showing(payload, direction)),
{
    assert(pcts_in_range(leaf_showing(payload.image_id)));
}

/// The layout after one resize after another: each entry of `moves` is the
/// path to resize from, the axis, and by how much.
pub open spec fn resized_all(tree: PaneType, moves: Seq<(Seq<bool>, SplitDirection, i8)>) -> PaneType
    decreases moves.len(),
{
    if moves.len() == 0 {
        tree
    } else {
        resized_all(resized(tree, moves[0].0, moves[0].1, moves[0].2), moves.drop_first())
    }
}

/// A resize keeps the dividers in range, and the divider that it moves is
/// in range afterwards wherever it was before.
pub proof fn lemma_resized_in_range(tree: PaneType, path: Seq<bool>, axis: SplitDirection, delta: i8)
    ensures
        pcts_in_range(tree) ==> pcts_in_range(resized(tree, path, axis, delta)),
        resize_target(tree, path, axis) matches Some(at) ==> {
            &&& resized(tree, path, axis, delta).node_at(at) matches Some(
                BTreeNode::Branch { data, .. },
            )
            &&& MIN_PCT <= data.pct <= MAX_PCT
        },
{
    match resize_target(tree, path, axis) {
        None => {},
        Some(at) => {
            lemma_resize_target(tree, path, axis);
            let node = tree.node_at(at).unwrap();
            let moved = with_pct(node, clamped(node->data.pct, delta));
            lemma_node_at_replaced(tree, at, moved);
            if pcts_in_range(tree) {
                lemma_in_range_node_at(tree, at);
                lemma_in_range_replaced(tree, at, moved);
            }
        },
    }
}

/// A resize changes no shape: every pane stays where it is.
pub proof fn lemma_resized_same_shape(
    tree: PaneType,
    path: Seq<bool>,
    axis: SplitDirection,
    delta: i8,
)
    ensures
        resized(tree, path, axis, delta).shape() == tree.shape(),
{
    match resize_target(tree, path, axis) {
        None => {},
        Some(at) => {
            lemma_resize_target(tree, path, axis);
            let node = tree.node_at(at).unwrap();
            lemma_replaced_same_shape(tree, at, with_pct(node, clamped(node->data.pct, delta)));
        },
    }
}

/// The divider that a resize moves is a branch cut along the axis of the
/// resize, and stands above the path.
pub proof fn lemma_resize_target(tree: PaneType, path: Seq<bool>, axis: SplitDirection)
    ensures
        resize_target(tree, path, axis) matches Some(at) ==> {
            &&& at.len() < path.len()
            &&& is_prefix(at, path)
            &&& tree.node_at(at) matches Some(BTreeNode::Branch { data, .. })
            &&& data.direction == axis
        },
    decreases path.len(),
{
    if path.len() > 0 {
        let above = path.drop_last();
        assert(path.subrange(0, above.len() as int) =~= above);
        match tree.node_at(above) {
            Some(BTreeNode::Branch { data, .. }) => {
                if data.direction != axis {
                    lemma_resize_target(tree, above, axis);
                    match resize_target(tree, above, axis) {
                        Some(at) => {
                            assert(path.subrange(0, at.len() as int) =~= above.subrange(
                                0,
                                at.len() as int,
                            ));
                        },
                        None => {},
                    }
                }
            },
            _ => {},
        }
    }
}

/// However many resizes follow one another, every divider stays between 5
/// and 95 percent.
pub proof fn lemma_resizes_stay_in_range(
    tree: PaneType,
    moves: Seq<(Seq<bool>, SplitDirection, i8)>,
)
    requires
        pcts_in_range(tree),
    ensures
        pcts_in_range(resized_all(tree, moves)),
    decreases moves.len(),
{
    if moves.len() > 0 {
        lemma_resized_in_range(tree, moves[0].0, moves[0].1, moves[0].2);
        lemma_resizes_stay_in_range(
            resized(tree, moves[0].0, moves[0].1, moves[0].2),
            moves.drop_first(),
        );
    }
}

/// A replacement by a node whose dividers are in range keeps the dividers in
/// range.
pub proof fn lemma_in_range_replaced(tree: PaneType, path: Seq<bool>, node: PaneType)
    requires
        pcts_in_range(tree),
        pcts_in_range(node),
    ensures
        pcts_in_range(tree.replaced_at(path, node)),
    decreases path.len(),
{
    if path.len() > 0 {
        match tree {
            BTreeNode::Leaf(_) => {},
            BTreeNode::Branch { first, second, .. } => {
                if path[0] {
                    lemma_in_range_replaced(*first, path.drop_first(), node);
                } else {
                    lemma_in_range_replaced(*second, path.drop_first(), node);
                }
            },
        }
    }
}

/// Where the dividers of a layout are in range, so are those of each part.
pub proof fn lemma_in_range_node_at(tree: PaneType, path: Seq<bool>)
    requires
        pcts_in_range(tree),
        tree.node_at(path) is Some,
    ensures
        pcts_in_range(tree.node_at(path).unwrap()),
    decreases path.len(),
{
    if path.len() > 0 {
        match tree {
            BTreeNode::Leaf(_) => {},
            BTreeNode::Branch { first, second, .. } => {
                if path[0] {
                    lemma_in_range_node_at(*first, path.drop_first());
                } else {
                    lemma_in_range_node_at(*second, path.drop_first());
                }
            },
        }
    }
}

impl Pane {
    /// Every divider of the layout leaves between 5 and 95 percent to its
    /// first part.
    pub open spec fn well_formed(self) -> bool {
        pcts_in_range(self.0)
    }

    /// A layout of one pane, which shows the first image.
    pub fn new_leaf() -> (pane: Self)
        ensures
            pane.0 == leaf_showing(0),
            pane.well_formed(),
    {
        Pane(BTreeNode::Leaf(PaneData { image_id: 0 }))
    }

    /// A layout of two panes side by side in `direction`, cut evenly, both
    /// showing the first image.
    pub fn new_split(direction: SplitDirection) -> (pane: Self)
        ensures
            pane.0 == split_showing(PaneData { image_id: 0 }, direction),
            pane.well_formed(),
    {
        proof {
            lemma_split_in_range(PaneData { image_id: 0 }, direction);
        }
        Pane(
            BTreeNode::Branch {
                first: Box::new(BTreeNode::Leaf(PaneData { image_id: 0 })),
                second: Box::new(BTreeNode::Leaf(PaneData { image_id: 0 })),
                data: SplitData { direction, pct: EVEN_PCT },
            },
        )
    }

    /// A layout of one pane, as `new_leaf`.
    pub fn leaf() -> (pane: Self)
        ensures
            pane.0 == leaf_showing(0),
            pane.well_formed(),
    {
        Self::new_leaf()
    }

    /// A layout of two panes, as `new_split`.
    pub fn split(direction: SplitDirection) -> (pane: Self)
        ensures
            pane.0 == split_showing(PaneData { image_id: 0 }, direction),
            pane.well_formed(),
    {
        Self::new_split(direction)
    }

    /// The tree of the layout.
    pub fn inner(&self) -> (tree: &PaneType)
        ensures
            *tree == self.0,
    {
        &self.0
    }

    /// The flat description of the layout.
    pub fn get_spec(&self) -> (spec: PaneSpec)
        ensures
            spec.paths() == self.0.leaf_paths(),
            spec.leaf_data@ == self.0.leaf_data(),
            spec.branch_data@ == self.0.branch_data(),
    {
        let spec = self.0.get_spec();
        proof {
            assert forall|i: int| 0 <= i < spec.leaf_data@.len() implies spec.leaf_data@[i]
                == self.0.leaf_data()[i] by {
                lemma_pane_data_clone(self.0.leaf_data()[i], spec.leaf_data@[i]);
            }
            assert(spec.leaf_data@ =~= self.0.leaf_data());
            assert forall|i: int| 0 <= i < spec.branch_data@.len() implies spec.branch_data@[i]
                == self.0.branch_data()[i] by {
                lemma_split_data_clone(self.0.branch_data()[i], spec.branch_data@[i]);
            }
            assert(spec.branch_data@ =~= self.0.branch_data());
        }
        spec
    }

    /// The paths of all panes, `first` before `second`.
    pub fn collect_leaf_paths(&self) -> (paths: Vec<Vec<bool>>)
        ensures
            path_list(paths@) == self.0.leaf_paths(),
    {
        self.0.collect_paths()
    }

    /// The number of panes.
    pub fn get_total_imgpanes(&self) -> (count: usize)
        ensures
            count == self.0.leaf_paths().len(),
    {
        self.0.collect_paths().len()
    }

    /// The path of the pane at position `index` in traversal order; `None`
    /// where there are no more than `index` panes.
    pub fn path_of_imgpane(&self, index: usize) -> (path: Option<Vec<bool>>)
        ensures
            match path {
                Some(path) => index < self.0.leaf_paths().len() && path@
                    == self.0.leaf_paths()[index as int] && self.0.leaf_position(path@) == Some(
                    index as int,
                ),
                None => index >= self.0.leaf_paths().len(),
            },
    {
        let paths = self.0.collect_paths();
        if index < paths.len() {
            proof {
                assert(path_list(paths@)[index as int] == paths@[index as int]@);
                lemma_leaf_at_index(self.0, index as int);
            }
            Some(path_to_vec(paths[index].as_slice()))
        } else {
            None
        }
    }

    /// The node at `path`, pane or divider.
    pub fn get_node_at(&self, path: &[bool]) -> (result: Result<&PaneType, PathError>)
        ensures
            match result {
                Ok(node) => self.0.node_at(path@) == Some(*node),
                Err(e) => self.0.node_at(path@) is None && e == PathError::PathBeyondLeaf,
            },
    {
        self.0.get_node_at(path)
    }

    /// The node at `path`, pane or divider, for changing in place.
    pub fn get_node_at_mut(&mut self, path: &[bool]) -> (result: Result<&mut PaneType, PathError>)
        ensures
            match result {
                Ok(node) => old(self).0.node_at(path@) == Some(*node) && final(self).0 == old(
                    self,
                ).0.replaced_at(path@, *final(node)),
                Err(e) => old(self).0.node_at(path@) is None && e == PathError::PathBeyondLeaf
                    && final(self).0 == old(self).0,
            },
    {
        self.0.get_node_at_mut(path)
    }

    /// Cuts the pane at `path` evenly in `direction`. Both new panes show
    /// what the old one showed. The result is the path of the second of them.
    /// A divider at `path` is `CannotSplitBranch`, a path that runs on past a
    /// pane is `PathBeyondLeaf`; the layout is then left as it was.
    pub fn split_leaf_at(&mut self, path: &[bool], direction: SplitDirection) -> (result: Result<
        Vec<bool>,
        PathError,
    >)
        ensures
            match result {
                Ok(second) => {
                    &&& old(self).0.node_at(path@) matches Some(BTreeNode::Leaf(payload))
                    &&& final(self).0 == old(self).0.replaced_at(
                        path@,
                        split_showing(payload, direction),
                    )
                    &&& second@ == path@.push(false)
                },
                Err(e) => final(self).0 == old(self).0 && match old(self).0.node_at(path@) {
                    None => e == PathError::PathBeyondLeaf,
                    Some(node) => node is Branch && e == PathError::CannotSplitBranch,
                },
            },
            old(self).well_formed() ==> final(self).well_formed(),
    {
        let data = SplitData { direction, pct: EVEN_PCT };
        match self.0.split_leaf_at(path, data) {
            Err(e) => Err(e),
            Ok(()) => {
                proof {
                    let payload = old(self).0.node_at(path@).unwrap()->Leaf_0;
                    let node = self.0.node_at(path@).unwrap();
                    match node {
                        BTreeNode::Leaf(_) => {},
                        BTreeNode::Branch { first, second, data } => {
                            lemma_pane_data_clone(payload, first->Leaf_0);
                            lemma_pane_data_clone(payload, second->Leaf_0);
                        },
                    }
                    assert(node == split_showing(payload, direction));
                    lemma_split_in_range(payload, direction);
                    if old(self).well_formed() {
                        lemma_in_range_replaced(old(self).0, path@, node);
                    }
                }
                let mut second = path_to_vec(path);
                second.push(false);
                Ok(second)
            },
        }
    }

    /// Cuts the pane at `path` evenly along a vertical line; fails as
    /// `split_leaf_at` does.
    pub fn vsplit(&mut self, path: &[bool]) -> (result: Result<(), PathError>)
        ensures
            match result {
                Ok(()) => {
                    &&& old(self).0.node_at(path@) matches Some(BTreeNode::Leaf(payload))
                    &&& final(self).0 == old(self).0.replaced_at(
                        path@,
                        split_showing(payload, SplitDirection::Vertical),
                    )
                },
                Err(e) => final(self).0 == old(self).0 && match old(self).0.node_at(path@) {
                    None => e == PathError::PathBeyondLeaf,
                    Some(node) => node is Branch && e == PathError::CannotSplitBranch,
                },
            },
            old(self).well_formed() ==> final(self).well_formed(),
    {
        match self.split_leaf_at(path, SplitDirection::Vertical) {
            Ok(_) => Ok(()),
            Err(e) => Err(e),
        }
    }

    /// Cuts the pane at `path` evenly along a horizontal line; fails as
    /// `split_leaf_at` does.
    pub fn hsplit(&mut self, path: &[bool]) -> (result: Result<(), PathError>)
        ensures
            match result {
                Ok(()) => {
                    &&& old(self).0.node_at(path@) matches Some(BTreeNode::Leaf(payload))
                    &&& final(self).0 == old(self).0.replaced_at(
                        path@,
                        split_showing(payload, SplitDirection::Horizontal),
                    )
                },
                Err(e) => final(self).0 == old(self).0 && match old(self).0.node_at(path@) {
                    None => e == PathError::PathBeyondLeaf,
                    Some(node) => node is Branch && e == PathError::CannotSplitBranch,
                },
            },
            old(self).well_formed() ==> final(self).well_formed(),
    {
        match self.split_leaf_at(path, SplitDirection::Horizontal) {
            Ok(_) => Ok(()),
            Err(e) => Err(e),
        }
    }

    /// Removes the pane at `path` and gives its room to its sibling, pane or
    /// group of panes, which takes the place of the divider between them. The
    /// result is the path of what has moved up, which is the path that the
    /// divider had. The last pane is not removed but shows the first image
    /// again, and the result is the empty path. A divider at `path` is
    /// `CannotRemoveBranch`, a path that runs on past a pane is
    /// `PathBeyondLeaf`; the layout is then left as it was.
    pub fn remove_leaf_at(&mut self, path: &[bool]) -> (result: Result<Vec<bool>, PathError>)
        ensures
            match result {
                Ok(next) => {
                    &&& old(self).0.node_at(path@) matches Some(BTreeNode::Leaf(_))
                    &&& if path@.len() == 0 {
                        &&& next@ == path@
                        &&& final(self).0 == leaf_showing(0)
                    } else {
                        &&& old(self).0.node_at(sibling_path(path@)) matches Some(sibling)
                        &&& final(self).0 == old(self).0.replaced_at(path@.drop_last(), sibling)
                        &&& next@ == path@.drop_last()
                        &&& final(self).0.node_at(next@) == Some(sibling)
                    }
                },
                Err(e) => final(self).0 == old(self).0 && match old(self).0.node_at(path@) {
                    None => e == PathError::PathBeyondLeaf,
                    Some(node) => node is Branch && e == PathError::CannotRemoveBranch,
                },
            },
            old(self).well_formed() ==> final(self).well_formed(),
    {
        let result = self.0.remove_leaf_at(path);
        proof {
            if result is Ok && path@.len() > 0 && old(self).well_formed() {
                lemma_in_range_node_at(old(self).0, sibling_path(path@));
                lemma_in_range_replaced(
                    old(self).0,
                    path@.drop_last(),
                    old(self).0.node_at(sibling_path(path@)).unwrap(),
                );
            }
        }
        result
    }

    /// Removes the pane at `path` as `remove_leaf_at` does, without saying
    /// where to go on.
    pub fn remove(&mut self, path: &[bool]) -> (result: Result<(), PathError>)
        ensures
            match result {
                Ok(()) => {
                    &&& old(self).0.node_at(path@) matches Some(BTreeNode::Leaf(_))
                    &&& if path@.len() == 0 {
                        final(self).0 == leaf_showing(0)
                    } else {
                        &&& old(self).0.node_at(sibling_path(path@)) matches Some(sibling)
                        &&& final(self).0 == old(self).0.replaced_at(path@.drop_last(), sibling)
                    }
                },
                Err(e) => final(self).0 == old(self).0 && match old(self).0.node_at(path@) {
                    None => e == PathError::PathBeyondLeaf,
                    Some(node) => node is Branch && e == PathError::CannotRemoveBranch,
                },
            },
            old(self).well_formed() ==> final(self).well_formed(),
    {
        match self.remove_leaf_at(path) {
            Ok(_) => Ok(()),
            Err(e) => Err(e),
        }
    }

    /// The path of the pane after or before the pane at `path`, the panes
    /// taken as a ring in traversal order. Where no pane stands at `path` the
    /// result is `PathNotFound`.
    pub fn cycle(&self, path: &[bool], direction: AdjustDirection) -> (result: Result<
        Vec<bool>,
        PathError,
    >)
        ensures
            match result {
                Ok(next) => self.0.leaf_position(path@) matches Some(i) && next@
                    == self.0.leaf_paths()[cycled(i, self.0.leaf_paths().len() as int, direction)],
                Err(e) => e == PathError::PathNotFound && self.0.leaf_position(path@) is None,
            },
    {
        self.0.cycle(path, direction)
    }

    /// The path of the pane after or before the pane at `path`, the panes
    /// taken as a row in traversal order: from the first back, and from the
    /// last on, the result is `path` itself. Where no pane stands at `path`
    /// the result is `PathNotFound`.
    pub fn step(&self, path: &[bool], direction: AdjustDirection) -> (result: Result<
        Vec<bool>,
        PathError,
    >)
        ensures
            match result {
                Ok(next) => self.0.leaf_position(path@) matches Some(i) && next@
                    == self.0.leaf_paths()[stepped(i, self.0.leaf_paths().len() as int, direction)],
                Err(e) => e == PathError::PathNotFound && self.0.leaf_position(path@) is None,
            },
    {
        self.0.step(path, direction)
    }

    /// The pane to move to going forward round the ring of panes; from no
    /// pane at all, the first pane.
    pub fn next(&self, path: &Option<Vec<bool>>) -> (result: Result<Vec<bool>, PathError>)
        ensures
            match *path {
                None => result matches Ok(next) && next@ == self.0.leaf_paths()[0],
                Some(from) => match result {
                    Ok(next) => self.0.leaf_position(from@) matches Some(i) && next@
                        == self.0.leaf_paths()[cycled(
                        i,
                        self.0.leaf_paths().len() as int,
                        AdjustDirection::Next,
                    )],
                    Err(e) => e == PathError::PathNotFound && self.0.leaf_position(from@) is None,
                },
            },
    {
        self.0.next_path(path)
    }

    /// The pane to move to going backward round the ring of panes; from no
    /// pane at all, the last pane.
    pub fn prev(&self, path: &Option<Vec<bool>>) -> (result: Result<Vec<bool>, PathError>)
        ensures
            match *path {
                None => result matches Ok(next) && next@ == self.0.leaf_paths().last(),
                Some(from) => match result {
                    Ok(next) => self.0.leaf_position(from@) matches Some(i) && next@
                        == self.0.leaf_paths()[cycled(
                        i,
                        self.0.leaf_paths().len() as int,
                        AdjustDirection::Previous,
                    )],
                    Err(e) => e == PathError::PathNotFound && self.0.leaf_position(from@) is None,
                },
            },
    {
        self.0.prev_path(path)
    }

    /// Shows in the pane at `path` the image after or before the one it
    /// shows, the `size` images of the row taken as a ring. A divider at
    /// `path` is `CannotCycleImageOnBranch`, a path that runs on past a pane
    /// is `PathBeyondLeaf`; the layout is then left as it was.
    pub fn cycle_image(&mut self, path: &[bool], size: usize, direction: AdjustDirection) -> (result:
        Result<(), PathError>)
        requires
            size > 0,
        ensures
            match result {
                Ok(()) => {
                    &&& old(self).0.node_at(path@) matches Some(BTreeNode::Leaf(shown))
                    &&& final(self).0 == old(self).0.replaced_at(
                        path@,
                        leaf_showing(cycled(shown.image_id as int, size as int, direction) as usize),
                    )
                },
                Err(e) => final(self).0 == old(self).0 && match old(self).0.node_at(path@) {
                    None => e == PathError::PathBeyondLeaf,
                    Some(node) => node is Branch && e == PathError::CannotCycleImageOnBranch,
                },
            },
            old(self).well_formed() ==> final(self).well_formed(),
    {
        let node = self.0.get_node_at_mut(path)?;
        match node {
            BTreeNode::Branch { .. } => {
                proof {
                    lemma_replace_with_same(old(self).0, path@);
                }
                Err(PathError::CannotCycleImageOnBranch)
            },
            BTreeNode::Leaf(shown) => {
                shown.image_id = cycle_index(shown.image_id, size, direction);
                proof {
                    if old(self).well_formed() {
                        lemma_in_range_replaced(old(self).0, path@, *node);
                    }
                }
                Ok(())
            },
        }
    }

    /// Moves the divider that bounds the node at `path` along `axis`: the
    /// nearest divider above it that is cut in that direction gets `delta`
    /// added to the share of its first part, which stays between 5 and 95.
    /// Where no divider above is cut in that direction nothing changes. Where
    /// nothing stands above `path` the result is `PathBeyondLeaf`.
    pub fn resize_leaf_at(&mut self, path: &[bool], axis: SplitDirection, delta: i8) -> (result:
        Result<(), PathError>)
        ensures
            match result {
                Ok(()) => final(self).0 == resized(old(self).0, path@, axis, delta) && (path@.len()
                    == 0 || old(self).0.node_at(path@.drop_last()) is Some),
                Err(e) => final(self).0 == old(self).0 && e == PathError::PathBeyondLeaf
                    && path@.len() > 0 && old(self).0.node_at(path@.drop_last()) is None,
            },
            old(self).well_formed() ==> final(self).well_formed(),
    {
        let mut len = path.len();
        proof {
            assert(path@.take(len as int) =~= path@);
        }
        while len > 0
            invariant
                len <= path.len(),
                self.0 == old(self).0,
                resized(old(self).0, path@, axis, delta) == resized(
                    old(self).0,
                    path@.take(len as int),
                    axis,
                    delta,
                ),
                len < path.len() ==> old(self).0.node_at(path@.take(len as int)) is Some,
                len < path.len() ==> old(self).0.node_at(path@.drop_last()) is Some,
            decreases len,
        {
            let above = slice_subrange(path, 0, len - 1);
            proof {
                assert(above@ =~= path@.take(len as int).drop_last());
                assert(above@ =~= path@.take(len - 1));
                if len < path.len() {
                    assert(path@.take(len as int).subrange(0, len - 1) =~= above@);
                    lemma_prefix_leads_somewhere(old(self).0, above@, path@.take(len as int));
                } else {
                    assert(above@ =~= path@.drop_last());
                }
            }
            let node = match self.0.get_node_at_mut(above) {
                Err(e) => {
                    return Err(e);
                },
                Ok(node) => node,
            };
            match divider_of(node) {
                None => {
                    proof {
                        lemma_replace_with_same(old(self).0, above@);
                    }
                    return Ok(());
                },
                Some(data) => {
                    if data.direction == axis {
                        set_pct(node, clamp_pct(data.pct, delta));
                        proof {
                            if old(self).well_formed() {
                                lemma_in_range_node_at(old(self).0, above@);
                                lemma_in_range_replaced(old(self).0, above@, *node);
                            }
                        }
                        return Ok(());
                    }
                    proof {
                        lemma_replace_with_same(old(self).0, above@);
                    }
                },
            }
            len -= 1;
        }
        proof {
            assert(path@.take(0).len() == 0);
        }
        Ok(())
    }

    /// The pane to move to from the pane at `path` along `axis`: the nearest
    /// pane after it, or before it, in traversal order whose deepest common
    /// divider with it is cut in direction `axis`. Where there is none, the
    /// result is `path` itself. Where no pane stands at `path` the result is
    /// `PathNotFound`.
    pub fn navigate(&self, path: &[bool], axis: SplitDirection, direction: AdjustDirection) -> (result:
        Result<Vec<bool>, PathError>)
        ensures
            match result {
                Ok(next) => {
                    &&& self.0.leaf_position(path@) matches Some(from)
                    &&& self.0.leaf_position(next@) matches Some(to)
                    &&& navigated(self.0, from, to, axis, direction)
                },
                Err(e) => e == PathError::PathNotFound && self.0.leaf_position(path@) is None,
            },
            self.0 is Leaf && path@.len() == 0 ==> (result matches Ok(next) && next@ == path@),
    {
        let paths = self.0.collect_paths();
        let found = find_path(&paths, path);
        proof {
            self.0.lemma_found(paths@, path@, found);
        }
        let from = match found {
            None => {
                return Err(PathError::PathNotFound);
            },
            Some(from) => from,
        };
        let count = paths.len();
        let ghost listed = self.0.leaf_paths();
        proof {
            assert(from < paths@.len());
            lemma_leaf_at_index(self.0, from as int);
            assert(listed[from as int] == paths@[from as int]@);
            lemma_counts(self.0);
        }
        match direction {
            AdjustDirection::Next => {
                let mut k: usize = from + 1;
                while k < count
                    invariant
                        direction == AdjustDirection::Next,
                        count == paths@.len(),
                        from < k <= paths@.len(),
                        listed == self.0.leaf_paths(),
                        listed == path_list(paths@),
                        listed[from as int] == path@,
                        self.0.leaf_position(path@) == Some(from as int),
                        forall|m: int| from < m < k ==> !joined_on(self.0, path@, listed[m], axis),
                    decreases paths@.len() - k,
                {
                    assert(listed[k as int] == paths@[k as int]@);
                    if self.joins(path, paths[k].as_slice(), axis) {
                        proof {
                            lemma_leaf_at_index(self.0, k as int);
                        }
                        return Ok(path_to_vec(paths[k].as_slice()));
                    }
                    k += 1;
                }
            },
            AdjustDirection::Previous => {
                let mut k: usize = from;
                while k > 0
                    invariant
                        direction == AdjustDirection::Previous,
                        k <= from < paths@.len(),
                        listed == self.0.leaf_paths(),
                        listed == path_list(paths@),
                        listed[from as int] == path@,
                        self.0.leaf_position(path@) == Some(from as int),
                        forall|m: int| k <= m < from ==> !joined_on(self.0, path@, listed[m], axis),
                    decreases k,
                {
                    assert(listed[k - 1] == paths@[k - 1]@);
                    if self.joins(path, paths[k - 1].as_slice(), axis) {
                        proof {
                            lemma_leaf_at_index(self.0, k - 1);
                        }
                        return Ok(path_to_vec(paths[k - 1].as_slice()));
                    }
                    k -= 1;
                }
            },
        }
        Ok(path_to_vec(path))
    }

    /// Whether the deepest divider above both `a` and `b` is cut in
    /// direction `axis`.
    pub fn joins(&self, a: &[bool], b: &[bool], axis: SplitDirection) -> (joined: bool)
        ensures
            joined == joined_on(self.0, a@, b@, axis),
    {
        let above = common_prefix_of(a, b);
        match self.0.get_node_at(above.as_slice()) {
            Ok(BTreeNode::Branch { data, .. }) => data.direction == axis,
            _ => false,
        }
    }
}

/// The payload of a divider; `None` for a pane.
pub fn divider_of(node: &PaneType) -> (data: Option<SplitData>)
    ensures
        match *node {
            BTreeNode::Leaf(_) => data is None,
            BTreeNode::Branch { data: own, .. } => data == Some(own),
        },
{
    match node {
        BTreeNode::Leaf(_) => None,
        BTreeNode::Branch { data, .. } => Some(*data),
    }
}

/// Puts a divider at `pct`; a pane is left as it is.
pub fn set_pct(node: &mut PaneType, pct: u8)
    ensures
        *final(node) == with_pct(*old(node), pct),
        MIN_PCT <= pct <= MAX_PCT && pcts_in_range(*old(node)) ==> pcts_in_range(*final(node)),
{
    match node {
        BTreeNode::Leaf(_) => {},
        BTreeNode::Branch { data, .. } => {
            data.pct = pct;
        },
    }
}

/// The share that a divider at `pct` has after a move by `delta`.
pub fn clamp_pct(pct: u8, delta: i8) -> (share: u8)
    ensures
        share == clamped(pct, delta),
        MIN_PCT <= share <= MAX_PCT,
{
    let moved: i16 = pct as i16 + delta as i16;
    if moved < MIN_PCT as i16 {
        MIN_PCT
    } else if moved > MAX_PCT as i16 {
        MAX_PCT
    } else {
        moved as u8
    }
}

} // verus!
