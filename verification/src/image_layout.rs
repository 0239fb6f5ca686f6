use vstd::prelude::*;

use crate::btree::BTreeNode;
use crate::panes::{pcts_in_range, Pane, PaneType, SplitDirection};
use crate::path::paths_equal;

verus! {

/// One step of drawing a layout into an area.
#[derive(Debug, Clone, Copy, PartialEq, Eq, Structural)]
pub enum RenderStep {
    /// Cut the area in `direction` into a first part of `first` percent and
    /// a second part of `second` percent, then draw into the first part, then
    /// into the second.
    Cut { direction: SplitDirection, first: u16, second: u16 },
    /// Draw image `image_id` into the area, marked where `focused`.
    Show { image_id: usize, focused: bool },
}

/// How a layout of panes is drawn.
#[derive(Debug, Clone, Copy, Default)]
pub struct ImageLayout;

/// No divider gives its first part more than the whole.
pub open spec fn shares_fit(tree: PaneType) -> bool
    decreases tree,
{
    match tree {
        BTreeNode::Leaf(_) => true,
        BTreeNode::Branch { first, second, data } => {
            &&& data.pct <= 100
            &&& shares_fit(*first)
            &&& shares_fit(*second)
        },
    }
}

/// The steps that draw the part `tree` of a layout, which stands at `here`,
/// while the pane at `focus` has the focus: a divider is a cut followed by
/// the steps of its first and then of its second part, a pane is shown.
pub open spec fn steps(tree: PaneType, here: Seq<bool>, focus: Option<Seq<bool>>) -> Seq<
    RenderStep,
>
    decreases tree,
{
    match tree {
        BTreeNode::Leaf(shown) => seq![
            RenderStep::Show { image_id: shown.image_id, focused: focus == Some(here) },
        ],
        BTreeNode::Branch { first, second, data } => seq![
            RenderStep::Cut {
                direction: data.direction,
                first: data.pct as u16,
                second: (100 - data.pct) as u16,
            },
        ] + steps(*first, here.push(true), focus) + steps(*second, here.push(false), focus),
    }
}

/// Dividers between 5 and 95 percent fit.
pub proof fn lemma_in_range_fits(tree: PaneType)
    requires
        pcts_in_range(tree),
    ensures
        shares_fit(tree),
    decreases tree,
{
    match tree {
        BTreeNode::Leaf(_) => {},
        BTreeNode::Branch { first, second, .. } => {
            lemma_in_range_fits(*first);
            lemma_in_range_fits(*second);
        },
    }
}

impl ImageLayout {
    /// The steps that draw `pane` while the pane at `focus` has the focus.
    pub fn plan(pane: &Pane, focus: &Option<Vec<bool>>) -> (plan: Vec<RenderStep>)
        requires
            shares_fit(pane.0),
        ensures
            plan@ == steps(
                pane.0,
                Seq::empty(),
                match *focus {
                    Some(path) => Some(path@),
                    None => None,
                },
            ),
    {
        let mut plan: Vec<RenderStep> = Vec::new();
        let mut here: Vec<bool> = Vec::new();
        Self::plan_part(&pane.0, &mut here, focus, &mut plan);
        assert(plan@ =~= Seq::<RenderStep>::empty() + plan@);
        plan
    }

    fn plan_part(
        tree: &PaneType,
        here: &mut Vec<bool>,
        focus: &Option<Vec<bool>>,
        plan: &mut Vec<RenderStep>,
    )
        requires
            shares_fit(*tree),
        ensures
            final(here)@ == old(here)@,
            final(plan)@ == old(plan)@ + steps(
                *tree,
                old(here)@,
                match *focus {
                    Some(path) => Some(path@),
                    None => None,
                },
            ),
        decreases *tree,
    {
        let ghost base = here@;
        let ghost before = plan@;
        match tree {
            BTreeNode::Leaf(shown) => {
                let focused = match focus {
                    Some(path) => paths_equal(path.as_slice(), here.as_slice()),
                    None => false,
                };
                plan.push(RenderStep::Show { image_id: shown.image_id, focused });
                assert(plan@ =~= before + seq![
                    RenderStep::Show { image_id: shown.image_id, focused },
                ]);
            },
            BTreeNode::Branch { first, second, data } => {
                let cut = RenderStep::Cut {
                    direction: data.direction,
                    first: data.pct as u16,
                    second: (100 - data.pct) as u16,
                };
                plan.push(cut);
                here.push(true);
                Self::plan_part(first, here, focus, plan);
                here.pop();
                assert(here@ =~= base);
                here.push(false);
                Self::plan_part(second, here, focus, plan);
                here.pop();
                assert(here@ =~= base);
                assert(plan@ =~= before + (seq![cut] + steps(
                    **first,
                    base.push(true),
                    match *focus {
                        Some(path) => Some(path@),
                        None => None,
                    },
                ) + steps(
                    **second,
                    base.push(false),
                    match *focus {
                        Some(path) => Some(path@),
                        None => None,
                    },
                )));
            },
        }
    }
}

} // verus!
