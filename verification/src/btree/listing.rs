use vstd::prelude::*;

use crate::btree::from_flat::canonical;
use crate::btree::laws::{
    lemma_counts, lemma_leaf_paths_both_arms, lemma_leaf_paths_ordered,
    lemma_leaf_paths_prefix_free,
};
use crate::btree::{BTreeNode, Shape};
use crate::path::{agreement, is_prefix, lemma_agreement_bounds};

verus! {

/// Where `p` and `q` part, `p` takes `first` and `q` takes `second`: `p`
/// is met before `q` when a tree is walked.
pub open spec fn goes_first(p: Seq<bool>, q: Seq<bool>) -> bool {
    let parting = agreement(p, q) as int;
    parting < p.len() && parting < q.len() && p[parting] && !q[parting]
}

/// Some path of the list agrees with the `i`-th up to position `k` and
/// makes the other choice there.
pub open spec fn has_other_arm(paths: Seq<Seq<bool>>, i: int, k: int) -> bool {
    exists|j: int|
        0 <= j < paths.len() && is_prefix(paths[i].take(k).push(!paths[i][k]), #[trigger] paths[j])
}

/// The list can be the list of leaf paths of a tree: it is not empty, no
/// path is a prefix of another, wherever a path makes a choice some path
/// makes the other one after the same beginning, and the paths stand in the
/// order in which a walk meets them.
pub open spec fn well_listed(paths: Seq<Seq<bool>>) -> bool {
    &&& paths.len() >= 1
    &&& forall|i: int, j: int|
        0 <= i < paths.len() && 0 <= j < paths.len() && i != j ==> !is_prefix(
            #[trigger] paths[i],
            #[trigger] paths[j],
        )
    &&& forall|i: int, k: int|
        0 <= i < paths.len() && 0 <= k < paths[i].len() ==> #[trigger] has_other_arm(paths, i, k)
    &&& forall|i: int, j: int|
        0 <= i < j < paths.len() ==> goes_first(#[trigger] paths[i], #[trigger] paths[j])
}

/// The paths from `from` to `to`, each without its first choice.
pub open spec fn tails(paths: Seq<Seq<bool>>, from: int, to: int) -> Seq<Seq<bool>> {
    Seq::new((to - from) as nat, |i: int| paths[from + i].drop_first())
}

/// How many paths at the head of the list begin with `first`.
pub open spec fn first_arm(paths: Seq<Seq<bool>>) -> int
    decreases paths.len(),
{
    if paths.len() == 0 || paths[0].len() == 0 || !paths[0][0] {
        0
    } else {
        1 + first_arm(paths.drop_first())
    }
}

proof fn lemma_first_arm(paths: Seq<Seq<bool>>)
    ensures
        0 <= first_arm(paths) <= paths.len(),
        forall|i: int| 0 <= i < first_arm(paths) ==> paths[i].len() > 0 && paths[i][0],
        first_arm(paths) < paths.len() ==> paths[first_arm(paths)].len() == 0
            || !paths[first_arm(paths)][0],
    decreases paths.len(),
{
    if paths.len() == 0 || paths[0].len() == 0 || !paths[0][0] {
    } else {
        let rest = paths.drop_first();
        lemma_first_arm(rest);
        assert forall|i: int| 0 <= i < first_arm(paths) implies paths[i].len() > 0
            && paths[i][0] by {
            if i > 0 {
                assert(rest[i - 1] == paths[i]);
            }
        }
        if first_arm(paths) < paths.len() {
            assert(rest[first_arm(rest)] == paths[first_arm(paths)]);
        }
    }
}

/// A prefix of a path that makes a choice begins with the same choice, and
/// goes on as a prefix of the rest.
proof fn lemma_prefix_step(p: Seq<bool>, q: Seq<bool>)
    requires
        p.len() > 0,
        q.len() > 0,
    ensures
        is_prefix(p, q) <==> p[0] == q[0] && is_prefix(p.drop_first(), q.drop_first()),
{
    if is_prefix(p, q) {
        assert(q.subrange(0, p.len() as int)[0] == p[0]);
        assert(q.drop_first().subrange(0, p.len() - 1) =~= p.drop_first());
    }
    if p[0] == q[0] && is_prefix(p.drop_first(), q.drop_first()) {
        assert forall|k: int| 0 <= k < p.len() implies q[k] == p[k] by {
            if k > 0 {
                assert(q.drop_first().subrange(0, p.len() - 1)[k - 1] == p.drop_first()[k - 1]);
            }
        }
        assert(q.subrange(0, p.len() as int) =~= p);
    }
}

/// Two paths that begin with the same choice part where their rests part.
proof fn lemma_goes_first_step(p: Seq<bool>, q: Seq<bool>)
    requires
        p.len() > 0,
        q.len() > 0,
        p[0] == q[0],
    ensures
        goes_first(p, q) == goes_first(p.drop_first(), q.drop_first()),
{
    let parting = agreement(p.drop_first(), q.drop_first()) as int;
    lemma_agreement_bounds(p.drop_first(), q.drop_first());
    if parting < p.len() - 1 {
        assert(p.drop_first()[parting] == p[parting + 1]);
    }
    if parting < q.len() - 1 {
        assert(q.drop_first()[parting] == q[parting + 1]);
    }
}

/// One arm of a well listed list, taken without the first choice, is well
/// listed.
proof fn lemma_arm_well_listed(paths: Seq<Seq<bool>>, from: int, to: int, head: bool)
    requires
        well_listed(paths),
        0 <= from < to <= paths.len(),
        forall|i: int| 0 <= i < paths.len() ==> (#[trigger] paths[i]).len() > 0,
        forall|i: int| 0 <= i < paths.len() ==> ((#[trigger] paths[i])[0] == head <==> from <= i < to),
    ensures
        well_listed(tails(paths, from, to)),
{
    let arm = tails(paths, from, to);
    assert forall|i: int, j: int| 0 <= i < arm.len() && 0 <= j < arm.len() && i != j implies !is_prefix(
        #[trigger] arm[i],
        #[trigger] arm[j],
    ) by {
        let p = paths[from + i];
        let q = paths[from + j];
        lemma_prefix_step(p, q);
        assert(!is_prefix(p, q));
    }
    assert forall|i: int, k: int| 0 <= i < arm.len() && 0 <= k < arm[i].len() implies #[trigger] has_other_arm(
        arm,
        i,
        k,
    ) by {
        let p = paths[from + i];
        assert(has_other_arm(paths, from + i, k + 1));
        let j = choose|j: int|
            0 <= j < paths.len() && is_prefix(p.take(k + 1).push(!p[k + 1]), #[trigger] paths[j]);
        let want = p.take(k + 1).push(!p[k + 1]);
        let q = paths[j];
        lemma_prefix_step(want, q);
        assert(want[0] == p[0]);
        assert(from <= j < to);
        assert(want.drop_first() =~= arm[i].take(k).push(!arm[i][k]));
        assert(arm[j - from] == q.drop_first());
        assert(is_prefix(arm[i].take(k).push(!arm[i][k]), arm[j - from]));
    }
    assert forall|i: int, j: int| 0 <= i < j < arm.len() implies goes_first(
        #[trigger] arm[i],
        #[trigger] arm[j],
    ) by {
        let p = paths[from + i];
        let q = paths[from + j];
        assert(goes_first(p, q));
        lemma_goes_first_step(p, q);
    }
}

/// A well listed list is the list of leaf paths of a tree.
pub proof fn lemma_well_listed_is_canonical(paths: Seq<Seq<bool>>, depth: nat) -> (shape: Shape)
    requires
        well_listed(paths),
        forall|i: int| 0 <= i < paths.len() ==> (#[trigger] paths[i]).len() <= depth,
    ensures
        shape.leaf_paths() == paths,
    decreases depth,
{
    if exists|e: int| 0 <= e < paths.len() && (#[trigger] paths[e]).len() == 0 {
        let e = choose|e: int| 0 <= e < paths.len() && (#[trigger] paths[e]).len() == 0;
        if paths.len() > 1 {
            let other = if e == 0 {
                1int
            } else {
                0int
            };
            assert(paths[other].subrange(0, 0) =~= paths[e]);
            assert(is_prefix(paths[e], paths[other]));
        }
        assert(paths =~= seq![Seq::<bool>::empty()]) by {
            assert(paths[0] =~= Seq::<bool>::empty());
        }
        BTreeNode::Leaf(())
    } else {
        let count = paths.len() as int;
        let split = first_arm(paths);
        lemma_first_arm(paths);
        assert(paths[0].len() > 0);
        // both arms are there, because the first path has another arm at
        // its first choice
        assert(has_other_arm(paths, 0, 0));
        let j = choose|j: int|
            0 <= j < paths.len() && is_prefix(paths[0].take(0).push(!paths[0][0]), #[trigger] paths[j]);
        assert(paths[j].len() > 0);
        lemma_prefix_step(paths[0].take(0).push(!paths[0][0]), paths[j]);
        assert(paths[j][0] == !paths[0][0]);
        // the paths that begin with `first` come before the others
        assert forall|i: int| 0 <= i < count implies ((#[trigger] paths[i])[0] <==> i < split) by {
            assert(paths[i].len() > 0);
            if i >= split && paths[i][0] {
                assert(split < count);
                assert(paths[split].len() > 0);
                if i > split {
                    assert(goes_first(paths[split], paths[i]));
                    lemma_agreement_bounds(paths[split], paths[i]);
                    assert(agreement(paths[split], paths[i]) == 0);
                }
            }
        }
        if split == 0 {
            assert(!paths[0][0]);
            assert(paths[j][0]);
        }
        if split == count {
            assert(paths[0][0]);
            assert(!paths[j][0]);
        }
        assert(0 < split < count);
        assert forall|i: int| 0 <= i < count implies (#[trigger] paths[i]).len() > 0 by {}
        lemma_arm_well_listed(paths, 0, split, true);
        assert forall|i: int| 0 <= i < count implies ((#[trigger] paths[i])[0] == false <==> split
            <= i < count) by {}
        lemma_arm_well_listed(paths, split, count, false);
        let first_tails = tails(paths, 0, split);
        let second_tails = tails(paths, split, count);
        assert forall|i: int| 0 <= i < first_tails.len() implies (#[trigger] first_tails[i]).len()
            <= depth - 1 by {
            assert(paths[i].len() <= depth);
        }
        assert forall|i: int| 0 <= i < second_tails.len() implies (
        #[trigger] second_tails[i]).len() <= depth - 1 by {
            assert(paths[split + i].len() <= depth);
        }
        let first = lemma_well_listed_is_canonical(first_tails, (depth - 1) as nat);
        let second = lemma_well_listed_is_canonical(second_tails, (depth - 1) as nat);
        let shape = BTreeNode::Branch { first: Box::new(first), second: Box::new(second), data: () };
        assert(shape.leaf_paths() =~= paths) by {
            assert forall|i: int| 0 <= i < count implies shape.leaf_paths()[i] == paths[i] by {
                if i < split {
                    assert(shape.leaf_paths()[i] == seq![true] + first_tails[i]);
                    assert(seq![true] + paths[i].drop_first() =~= paths[i]);
                } else {
                    assert(shape.leaf_paths()[i] == seq![false] + second_tails[i - split]);
                    assert(seq![false] + paths[i].drop_first() =~= paths[i]);
                }
            }
        }
        shape
    }
}

/// The longest of the first `upto` paths is no longer than this.
pub open spec fn longest(paths: Seq<Seq<bool>>, upto: int) -> nat
    decreases upto,
{
    if upto <= 0 {
        0
    } else if paths[upto - 1].len() > longest(paths, upto - 1) {
        paths[upto - 1].len()
    } else {
        longest(paths, upto - 1)
    }
}

proof fn lemma_longest(paths: Seq<Seq<bool>>, upto: int)
    requires
        0 <= upto <= paths.len(),
    ensures
        forall|i: int| 0 <= i < upto ==> (#[trigger] paths[i]).len() <= longest(paths, upto),
    decreases upto,
{
    if upto > 0 {
        lemma_longest(paths, upto - 1);
    }
}

/// A list of paths is canonical exactly when it is well listed.
pub proof fn lemma_canonical_iff_well_listed(paths: Seq<Seq<bool>>)
    ensures
        canonical(paths) <==> well_listed(paths),
{
    if canonical(paths) {
        let shape = choose|shape: Shape| shape.leaf_paths() == paths;
        lemma_counts(shape);
        assert forall|i: int, j: int|
            0 <= i < paths.len() && 0 <= j < paths.len() && i != j implies !is_prefix(
            #[trigger] paths[i],
            #[trigger] paths[j],
        ) by {
            if is_prefix(paths[i], paths[j]) {
                lemma_leaf_paths_prefix_free(shape, i, j);
            }
        }
        assert forall|i: int, k: int|
            0 <= i < paths.len() && 0 <= k < paths[i].len() implies #[trigger] has_other_arm(
            paths,
            i,
            k,
        ) by {
            let j = lemma_leaf_paths_both_arms(shape, i, k);
            assert(is_prefix(paths[i].take(k).push(!paths[i][k]), paths[j]));
        }
        assert forall|i: int, j: int| 0 <= i < j < paths.len() implies goes_first(
            #[trigger] paths[i],
            #[trigger] paths[j],
        ) by {
            lemma_leaf_paths_ordered(shape, i, j);
        }
    }
    if well_listed(paths) {
        lemma_longest(paths, paths.len() as int);
        let shape = lemma_well_listed_is_canonical(paths, longest(paths, paths.len() as int));
        assert(shape.leaf_paths() == paths);
    }
}

} // verus!
