use vstd::prelude::*;

use crate::btree::from_flat::canonical;
use crate::btree::{clones_of, BTreeNode};
use crate::path::{agreement, is_prefix, lemma_agreement_bounds, under};

verus! {

/// Putting back the node that already stands at `path` changes nothing.
pub proof fn lemma_replace_with_same<L, B>(tree: BTreeNode<L, B>, path: Seq<bool>)
    requires
        tree.node_at(path) is Some,
    ensures
        tree.replaced_at(path, tree.node_at(path).unwrap()) == tree,
    decreases path.len(),
{
    if path.len() > 0 {
        match tree {
            BTreeNode::Leaf(_) => {},
            BTreeNode::Branch { first, second, data } => {
                if path[0] {
                    lemma_replace_with_same(*first, path.drop_first());
                } else {
                    lemma_replace_with_same(*second, path.drop_first());
                }
            },
        }
    }
}

/// After a replacement at a path that leads somewhere, the new node stands
/// at that path.
pub proof fn lemma_node_at_replaced<L, B>(
    tree: BTreeNode<L, B>,
    path: Seq<bool>,
    node: BTreeNode<L, B>,
)
    requires
        tree.node_at(path) is Some,
    ensures
        tree.replaced_at(path, node).node_at(path) == Some(node),
    decreases path.len(),
{
    if path.len() > 0 {
        match tree {
            BTreeNode::Leaf(_) => {},
            BTreeNode::Branch { first, second, data } => {
                if path[0] {
                    lemma_node_at_replaced(*first, path.drop_first(), node);
                } else {
                    lemma_node_at_replaced(*second, path.drop_first(), node);
                }
            },
        }
    }
}

/// One step further down: the node at `path` followed by `choice` is the
/// chosen child of the branch at `path`, and nothing where no branch stands
/// there.
pub proof fn lemma_node_at_push<L, B>(tree: BTreeNode<L, B>, path: Seq<bool>, choice: bool)
    ensures
        tree.node_at(path.push(choice)) == match tree.node_at(path) {
            Some(BTreeNode::Branch { first, second, .. }) => Some(
                if choice {
                    *first
                } else {
                    *second
                },
            ),
            _ => None,
        },
    decreases path.len(),
{
    let longer = path.push(choice);
    if path.len() == 0 {
        assert(longer.drop_first() =~= Seq::<bool>::empty());
        match tree {
            BTreeNode::Leaf(_) => {},
            BTreeNode::Branch { first, second, .. } => {
                assert(first.node_at(Seq::empty()) == Some(*first));
                assert(second.node_at(Seq::empty()) == Some(*second));
            },
        }
    } else {
        assert(longer.drop_first() =~= path.drop_first().push(choice));
        assert(longer[0] == path[0]);
        match tree {
            BTreeNode::Leaf(_) => {},
            BTreeNode::Branch { first, second, .. } => {
                if path[0] {
                    lemma_node_at_push(*first, path.drop_first(), choice);
                } else {
                    lemma_node_at_push(*second, path.drop_first(), choice);
                }
            },
        }
    }
}

/// The leaf paths depend on the shape alone.
pub proof fn lemma_shape_paths<L, B>(tree: BTreeNode<L, B>)
    ensures
        tree.shape().leaf_paths() == tree.leaf_paths(),
    decreases tree,
{
    match tree {
        BTreeNode::Leaf(_) => {},
        BTreeNode::Branch { first, second, .. } => {
            lemma_shape_paths(*first);
            lemma_shape_paths(*second);
        },
    }
}

/// A tree has as many leaf payloads as leaf paths, at least one, and one
/// branch fewer than leaves.
pub proof fn lemma_counts<L, B>(tree: BTreeNode<L, B>)
    ensures
        tree.leaf_paths().len() >= 1,
        tree.leaf_data().len() == tree.leaf_paths().len(),
        tree.branch_data().len() + 1 == tree.leaf_paths().len(),
    decreases tree,
{
    match tree {
        BTreeNode::Leaf(_) => {},
        BTreeNode::Branch { first, second, .. } => {
            lemma_counts(*first);
            lemma_counts(*second);
        },
    }
}

/// The leaf at the `i`-th leaf path carries the `i`-th leaf payload, and its
/// position is `i`.
pub proof fn lemma_leaf_at_index<L, B>(tree: BTreeNode<L, B>, i: int)
    requires
        0 <= i < tree.leaf_paths().len(),
    ensures
        tree.leaf_data().len() == tree.leaf_paths().len(),
        tree.node_at(tree.leaf_paths()[i]) == Some(BTreeNode::<L, B>::Leaf(tree.leaf_data()[i])),
        tree.leaf_position(tree.leaf_paths()[i]) == Some(i),
    decreases tree,
{
    lemma_counts(tree);
    match tree {
        BTreeNode::Leaf(_) => {},
        BTreeNode::Branch { first, second, .. } => {
            lemma_counts(*first);
            lemma_counts(*second);
            let fp = first.leaf_paths();
            let sp = second.leaf_paths();
            let path = tree.leaf_paths()[i];
            if i < fp.len() {
                assert(path == seq![true] + fp[i]);
                assert(path.drop_first() =~= fp[i]);
                lemma_leaf_at_index(*first, i);
            } else {
                let j = i - fp.len();
                assert(path == seq![false] + sp[j]);
                assert(path.drop_first() =~= sp[j]);
                lemma_leaf_at_index(*second, j);
            }
        },
    }
}

/// A path at which a leaf stands is listed among the leaf paths, at the
/// leaf's position, and the payload listed there is the leaf's.
pub proof fn lemma_leaf_is_listed<L, B>(tree: BTreeNode<L, B>, path: Seq<bool>)
    requires
        tree.node_at(path) matches Some(BTreeNode::Leaf(_)),
    ensures
        tree.leaf_data().len() == tree.leaf_paths().len(),
        0 <= tree.leaf_rank(path) < tree.leaf_paths().len(),
        tree.leaf_paths()[tree.leaf_rank(path)] == path,
        tree.node_at(path) == Some(BTreeNode::<L, B>::Leaf(tree.leaf_data()[tree.leaf_rank(path)])),
    decreases path.len(),
{
    lemma_counts(tree);
    if path.len() == 0 {
        assert(tree.leaf_paths()[0] =~= path);
    } else {
        match tree {
            BTreeNode::Leaf(_) => {},
            BTreeNode::Branch { first, second, .. } => {
                lemma_counts(*first);
                lemma_counts(*second);
                let tail = path.drop_first();
                if path[0] {
                    lemma_leaf_is_listed(*first, tail);
                    assert(seq![true] + tail =~= path);
                } else {
                    lemma_leaf_is_listed(*second, tail);
                    assert(seq![false] + tail =~= path);
                }
            },
        }
    }
}

/// Every node on the way to a node exists.
pub proof fn lemma_prefix_leads_somewhere<L, B>(
    tree: BTreeNode<L, B>,
    prefix: Seq<bool>,
    path: Seq<bool>,
)
    requires
        tree.node_at(path) is Some,
        is_prefix(prefix, path),
    ensures
        tree.node_at(prefix) is Some,
        prefix.len() < path.len() ==> tree.node_at(prefix).unwrap() is Branch,
    decreases prefix.len(),
{
    if prefix.len() > 0 {
        assert(path[0] == path.subrange(0, prefix.len() as int)[0]);
        assert(path.drop_first().subrange(0, prefix.len() - 1) =~= prefix.drop_first());
        match tree {
            BTreeNode::Leaf(_) => {},
            BTreeNode::Branch { first, second, .. } => {
                if path[0] {
                    lemma_prefix_leads_somewhere(*first, prefix.drop_first(), path.drop_first());
                } else {
                    lemma_prefix_leads_somewhere(*second, prefix.drop_first(), path.drop_first());
                }
            },
        }
    }
}

/// No leaf path is a prefix of another: in particular no path is listed
/// twice.
pub proof fn lemma_leaf_paths_prefix_free<L, B>(tree: BTreeNode<L, B>, i: int, j: int)
    requires
        0 <= i < tree.leaf_paths().len(),
        0 <= j < tree.leaf_paths().len(),
        is_prefix(tree.leaf_paths()[i], tree.leaf_paths()[j]),
    ensures
        i == j,
{
    let p = tree.leaf_paths()[i];
    let q = tree.leaf_paths()[j];
    lemma_leaf_at_index(tree, i);
    lemma_leaf_at_index(tree, j);
    lemma_prefix_leads_somewhere(tree, p, q);
    assert(p.len() == q.len());
    assert(p =~= q);
}

/// Both arms of every branch on the way to a leaf are there: whichever
/// choice a leaf path makes at a position, some leaf path agrees with it up
/// to there and then makes the other choice.
pub proof fn lemma_leaf_paths_both_arms<L, B>(tree: BTreeNode<L, B>, i: int, k: int) -> (j: int)
    requires
        0 <= i < tree.leaf_paths().len(),
        0 <= k < tree.leaf_paths()[i].len(),
    ensures
        0 <= j < tree.leaf_paths().len(),
        is_prefix(tree.leaf_paths()[i].take(k).push(!tree.leaf_paths()[i][k]), tree.leaf_paths()[j]),
    decreases tree,
{
    let path = tree.leaf_paths()[i];
    match tree {
        BTreeNode::Leaf(_) => 0,
        BTreeNode::Branch { first, second, .. } => {
            lemma_counts(*first);
            lemma_counts(*second);
            let fp = first.leaf_paths();
            let sp = second.leaf_paths();
            let nf = fp.len() as int;
            if i < nf {
                assert(path == seq![true] + fp[i]);
                if k == 0 {
                    let other = tree.leaf_paths()[nf];
                    assert(other == seq![false] + sp[0]);
                    assert(other.subrange(0, 1) =~= path.take(0).push(false));
                    nf
                } else {
                    assert(fp[i][k - 1] == path[k]);
                    let j = lemma_leaf_paths_both_arms(*first, i, k - 1);
                    let want = fp[i].take(k - 1).push(!fp[i][k - 1]);
                    let got = tree.leaf_paths()[j];
                    assert(got == seq![true] + fp[j]);
                    assert(path.take(k).push(!path[k]) =~= seq![true] + want);
                    assert(fp[j].subrange(0, k) == want);
                    assert(got.subrange(0, k + 1) =~= seq![true] + fp[j].subrange(0, k));
                    j
                }
            } else {
                let m = i - nf;
                assert(path == seq![false] + sp[m]);
                if k == 0 {
                    let other = tree.leaf_paths()[0];
                    assert(other == seq![true] + fp[0]);
                    assert(other.subrange(0, 1) =~= path.take(0).push(true));
                    0
                } else {
                    assert(sp[m][k - 1] == path[k]);
                    let j = lemma_leaf_paths_both_arms(*second, m, k - 1);
                    let want = sp[m].take(k - 1).push(!sp[m][k - 1]);
                    let got = tree.leaf_paths()[nf + j];
                    assert(got == seq![false] + sp[j]);
                    assert(path.take(k).push(!path[k]) =~= seq![false] + want);
                    assert(sp[j].subrange(0, k) == want);
                    assert(got.subrange(0, k + 1) =~= seq![false] + sp[j].subrange(0, k));
                    nf + j
                }
            }
        },
    }
}

/// The leaf paths are listed `first` before `second`: where an earlier path
/// and a later one part, the earlier takes `first` and the later `second`.
pub proof fn lemma_leaf_paths_ordered<L, B>(tree: BTreeNode<L, B>, i: int, j: int)
    requires
        0 <= i < j < tree.leaf_paths().len(),
    ensures
        ({
            let p = tree.leaf_paths()[i];
            let q = tree.leaf_paths()[j];
            let d = agreement(p, q) as int;
            d < p.len() && d < q.len() && p[d] && !q[d]
        }),
    decreases tree,
{
    let p = tree.leaf_paths()[i];
    let q = tree.leaf_paths()[j];
    lemma_agreement_bounds(p, q);
    match tree {
        BTreeNode::Leaf(_) => {},
        BTreeNode::Branch { first, second, .. } => {
            let fp = first.leaf_paths();
            let sp = second.leaf_paths();
            let nf = fp.len() as int;
            if j < nf {
                assert(p == seq![true] + fp[i]);
                assert(q == seq![true] + fp[j]);
                assert(p.drop_first() =~= fp[i]);
                assert(q.drop_first() =~= fp[j]);
                lemma_leaf_paths_ordered(*first, i, j);
            } else if i >= nf {
                assert(p == seq![false] + sp[i - nf]);
                assert(q == seq![false] + sp[j - nf]);
                assert(p.drop_first() =~= sp[i - nf]);
                assert(q.drop_first() =~= sp[j - nf]);
                lemma_leaf_paths_ordered(*second, i - nf, j - nf);
            } else {
                assert(p == seq![true] + fp[i]);
                assert(q == seq![false] + sp[j - nf]);
            }
        },
    }
}

/// Putting `prefix` in front goes through joining, cutting and nesting of
/// path lists.
pub proof fn lemma_under_algebra(
    prefix: Seq<bool>,
    inner: Seq<bool>,
    a: Seq<Seq<bool>>,
    b: Seq<Seq<bool>>,
    k: int,
)
    requires
        0 <= k <= a.len(),
    ensures
        under(prefix, a + b) == under(prefix, a) + under(prefix, b),
        under(prefix, a.take(k)) == under(prefix, a).take(k),
        under(prefix, a.skip(k)) == under(prefix, a).skip(k),
        under(prefix, under(inner, a)) == under(prefix + inner, a),
        under(Seq::empty(), a) == a,
{
    assert(under(prefix, a + b) =~= under(prefix, a) + under(prefix, b));
    assert(under(prefix, a.take(k)) =~= under(prefix, a).take(k));
    assert(under(prefix, a.skip(k)) =~= under(prefix, a).skip(k));
    assert forall|i: int| 0 <= i < a.len() implies prefix + (inner + a[i]) == (prefix + inner)
        + a[i] by {
        assert(prefix + (inner + a[i]) =~= (prefix + inner) + a[i]);
    }
    assert(under(prefix, under(inner, a)) =~= under(prefix + inner, a));
    assert forall|i: int| 0 <= i < a.len() implies Seq::<bool>::empty() + a[i] == a[i] by {
        assert(Seq::<bool>::empty() + a[i] =~= a[i]);
    }
    assert(under(Seq::empty(), a) =~= a);
}

/// Replacing a run inside the left part of a joined list.
pub proof fn lemma_splice_left<T>(a: Seq<T>, b: Seq<T>, from: int, to: int, run: Seq<T>)
    requires
        0 <= from <= to <= a.len(),
    ensures
        (a + b).subrange(from, to) == a.subrange(from, to),
        (a.take(from) + run + a.skip(to)) + b == (a + b).take(from) + run + (a + b).skip(to),
{
    assert((a + b).subrange(from, to) =~= a.subrange(from, to));
    assert((a.take(from) + run + a.skip(to)) + b =~= (a + b).take(from) + run + (a + b).skip(to));
}

/// Replacing a run inside the right part of a joined list.
pub proof fn lemma_splice_right<T>(a: Seq<T>, b: Seq<T>, from: int, to: int, run: Seq<T>)
    requires
        0 <= from <= to <= b.len(),
    ensures
        (a + b).subrange(a.len() + from, a.len() + to) == b.subrange(from, to),
        a + (b.take(from) + run + b.skip(to)) == (a + b).take(a.len() + from) + run + (a
            + b).skip(a.len() + to),
{
    assert((a + b).subrange(a.len() + from, a.len() + to) =~= b.subrange(from, to));
    assert(a + (b.take(from) + run + b.skip(to)) =~= (a + b).take(a.len() + from) + run + (a
        + b).skip(a.len() + to));
}

/// Putting `head` in front of a list in which a run was replaced.
pub proof fn lemma_under_splice(
    head: Seq<bool>,
    tail: Seq<bool>,
    list: Seq<Seq<bool>>,
    from: int,
    to: int,
    run: Seq<Seq<bool>>,
)
    requires
        0 <= from <= to <= list.len(),
    ensures
        under(head, list.take(from) + under(tail, run) + list.skip(to)) == under(head, list).take(
            from,
        ) + under(head + tail, run) + under(head, list).skip(to),
        under(head, list.subrange(from, to)) == under(head, list).subrange(from, to),
{
    assert forall|i: int| 0 <= i < run.len() implies head + (tail + run[i]) == (head + tail)
        + run[i] by {
        assert(head + (tail + run[i]) =~= (head + tail) + run[i]);
    }
    assert(under(head, list.take(from) + under(tail, run) + list.skip(to)) =~= under(
        head,
        list,
    ).take(from) + under(head + tail, run) + under(head, list).skip(to));
    assert(under(head, list.subrange(from, to)) =~= under(head, list).subrange(from, to));
}

/// What a replacement does to the leaf paths. The leaves below the node at
/// `path` are listed in one run, which starts at the node's rank; the
/// replacement puts the leaf paths of the new node in place of that run and
/// leaves the rest as it was.
pub proof fn lemma_replaced_paths<L, B>(
    tree: BTreeNode<L, B>,
    path: Seq<bool>,
    node: BTreeNode<L, B>,
)
    requires
        tree.node_at(path) is Some,
    ensures
        ({
            let old_node = tree.node_at(path).unwrap();
            let rank = tree.leaf_rank(path);
            let end = rank + old_node.leaf_paths().len();
            &&& 0 <= rank
            &&& end <= tree.leaf_paths().len()
            &&& tree.leaf_paths().subrange(rank, end) == under(path, old_node.leaf_paths())
            &&& tree.replaced_at(path, node).leaf_paths() == tree.leaf_paths().take(rank) + under(
                path,
                node.leaf_paths(),
            ) + tree.leaf_paths().skip(end)
        }),
    decreases path.len(),
{
    let old_node = tree.node_at(path).unwrap();
    let after = tree.replaced_at(path, node);
    if path.len() == 0 {
        assert(path =~= Seq::<bool>::empty());
        lemma_under_algebra(path, path, tree.leaf_paths(), tree.leaf_paths(), 0);
        lemma_under_algebra(path, path, node.leaf_paths(), tree.leaf_paths(), 0);
        let n = tree.leaf_paths().len() as int;
        assert(tree.leaf_paths().subrange(0, n) =~= tree.leaf_paths());
        assert(after.leaf_paths() =~= tree.leaf_paths().take(0) + node.leaf_paths()
            + tree.leaf_paths().skip(n));
    } else {
        let tail = path.drop_first();
        match tree {
            BTreeNode::Leaf(_) => {},
            BTreeNode::Branch { first, second, data } => {
                let fp = first.leaf_paths();
                let sp = second.leaf_paths();
                let head = seq![path[0]];
                assert(head + tail =~= path);
                if path[0] {
                    lemma_replaced_paths(*first, tail, node);
                    let r = first.leaf_rank(tail);
                    let e = r + old_node.leaf_paths().len();
                    lemma_under_splice(head, tail, fp, r, e, node.leaf_paths());
                    lemma_under_algebra(head, tail, old_node.leaf_paths(), fp, 0);
                    lemma_splice_left(
                        under(head, fp),
                        under(seq![false], sp),
                        r,
                        e,
                        under(path, node.leaf_paths()),
                    );
                } else {
                    lemma_replaced_paths(*second, tail, node);
                    let r = second.leaf_rank(tail);
                    let e = r + old_node.leaf_paths().len();
                    lemma_under_splice(head, tail, sp, r, e, node.leaf_paths());
                    lemma_under_algebra(head, tail, old_node.leaf_paths(), sp, 0);
                    lemma_splice_right(
                        under(seq![true], fp),
                        under(head, sp),
                        r,
                        e,
                        under(path, node.leaf_paths()),
                    );
                }
            },
        }
    }
}

/// What a replacement does to the leaf payloads: those of the new node stand
/// in place of the run of the old node's, and the rest is as it was.
pub proof fn lemma_replaced_data<L, B>(
    tree: BTreeNode<L, B>,
    path: Seq<bool>,
    node: BTreeNode<L, B>,
)
    requires
        tree.node_at(path) is Some,
    ensures
        ({
            let old_node = tree.node_at(path).unwrap();
            let rank = tree.leaf_rank(path);
            let end = rank + old_node.leaf_data().len();
            &&& 0 <= rank
            &&& end <= tree.leaf_data().len()
            &&& tree.leaf_data().subrange(rank, end) == old_node.leaf_data()
            &&& tree.replaced_at(path, node).leaf_data() == tree.leaf_data().take(rank)
                + node.leaf_data() + tree.leaf_data().skip(end)
        }),
    decreases path.len(),
{
    let old_node = tree.node_at(path).unwrap();
    let after = tree.replaced_at(path, node);
    if path.len() == 0 {
        let n = tree.leaf_data().len() as int;
        assert(tree.leaf_data().subrange(0, n) =~= tree.leaf_data());
        assert(after.leaf_data() =~= tree.leaf_data().take(0) + node.leaf_data()
            + tree.leaf_data().skip(n));
    } else {
        let tail = path.drop_first();
        match tree {
            BTreeNode::Leaf(_) => {},
            BTreeNode::Branch { first, second, data } => {
                lemma_counts(*first);
                if path[0] {
                    lemma_replaced_data(*first, tail, node);
                    let r = first.leaf_rank(tail);
                    let e = r + old_node.leaf_data().len();
                    lemma_splice_left(first.leaf_data(), second.leaf_data(), r, e, node.leaf_data());
                } else {
                    lemma_replaced_data(*second, tail, node);
                    let r = second.leaf_rank(tail);
                    let e = r + old_node.leaf_data().len();
                    lemma_splice_right(
                        first.leaf_data(),
                        second.leaf_data(),
                        r,
                        e,
                        node.leaf_data(),
                    );
                }
            },
        }
    }
}

/// A branch over two leaves has the leaf paths `[true]` and `[false]`.
pub proof fn lemma_two_leaves<L, B>(node: BTreeNode<L, B>)
    requires
        node matches BTreeNode::Branch { first, second, .. } && *first is Leaf && *second is Leaf,
    ensures
        node.leaf_paths() == seq![seq![true], seq![false]],
        node.leaf_data() == seq![node->first->Leaf_0, node->second->Leaf_0],
{
    match node {
        BTreeNode::Leaf(_) => {},
        BTreeNode::Branch { first, second, .. } => {
            assert(first.leaf_paths() == seq![Seq::<bool>::empty()]);
            assert(second.leaf_paths() == seq![Seq::<bool>::empty()]);
            assert(seq![true] + Seq::<bool>::empty() =~= seq![true]);
            assert(seq![false] + Seq::<bool>::empty() =~= seq![false]);
            assert(node.leaf_paths() =~= seq![seq![true], seq![false]]);
            assert(first.leaf_data() == seq![first->Leaf_0]);
            assert(second.leaf_data() == seq![second->Leaf_0]);
            assert(node.leaf_data() =~= seq![first->Leaf_0, second->Leaf_0]);
        },
    }
}

/// Replacing a leaf by a leaf changes one leaf payload and nothing else.
pub proof fn lemma_leaf_replaced_by_leaf<L, B>(tree: BTreeNode<L, B>, path: Seq<bool>, payload: L)
    requires
        tree.node_at(path) matches Some(BTreeNode::Leaf(_)),
    ensures
        ({
            let after = tree.replaced_at(path, BTreeNode::Leaf(payload));
            &&& after.shape() == tree.shape()
            &&& after.leaf_paths() == tree.leaf_paths()
            &&& after.branch_data() == tree.branch_data()
            &&& 0 <= tree.leaf_rank(path) < tree.leaf_data().len()
            &&& after.leaf_data() == tree.leaf_data().update(tree.leaf_rank(path), payload)
        }),
    decreases path.len(),
{
    lemma_counts(tree);
    let after = tree.replaced_at(path, BTreeNode::Leaf(payload));
    if path.len() == 0 {
        assert(after.leaf_data() =~= tree.leaf_data().update(0, payload));
    } else {
        match tree {
            BTreeNode::Leaf(_) => {},
            BTreeNode::Branch { first, second, data } => {
                lemma_counts(*first);
                lemma_counts(*second);
                if path[0] {
                    lemma_leaf_replaced_by_leaf(*first, path.drop_first(), payload);
                } else {
                    lemma_leaf_replaced_by_leaf(*second, path.drop_first(), payload);
                }
                assert(after.leaf_data() =~= tree.leaf_data().update(
                    tree.leaf_rank(path),
                    payload,
                ));
            },
        }
    }
}

/// Of two replacements at one path the second alone counts.
pub proof fn lemma_replaced_twice<L, B>(
    tree: BTreeNode<L, B>,
    path: Seq<bool>,
    a: BTreeNode<L, B>,
    b: BTreeNode<L, B>,
)
    ensures
        tree.replaced_at(path, a).replaced_at(path, b) == tree.replaced_at(path, b),
    decreases path.len(),
{
    if path.len() > 0 {
        match tree {
            BTreeNode::Leaf(_) => {},
            BTreeNode::Branch { first, second, data } => {
                if path[0] {
                    lemma_replaced_twice(*first, path.drop_first(), a, b);
                } else {
                    lemma_replaced_twice(*second, path.drop_first(), a, b);
                }
            },
        }
    }
}

/// A tree is decided by its flat description: two trees with the same leaf
/// paths, the same leaf payloads and the same branch payloads are the same
/// tree.
pub proof fn lemma_flat_description_decides<L, B>(a: BTreeNode<L, B>, b: BTreeNode<L, B>)
    requires
        a.leaf_paths() == b.leaf_paths(),
        a.leaf_data() == b.leaf_data(),
        a.branch_data() == b.branch_data(),
    ensures
        a == b,
    decreases a,
{
    lemma_counts(a);
    lemma_counts(b);
    match a {
        BTreeNode::Leaf(x) => {
            match b {
                BTreeNode::Leaf(y) => {
                    assert(a.leaf_data()[0] == x);
                    assert(b.leaf_data()[0] == y);
                },
                BTreeNode::Branch { first, second, .. } => {
                    lemma_counts(*first);
                    assert(b.leaf_paths()[0] == seq![true] + first.leaf_paths()[0]);
                    assert(a.leaf_paths()[0].len() == 0);
                },
            }
        },
        BTreeNode::Branch { first: af, second: a_s, data: ad } => {
            lemma_counts(*af);
            lemma_counts(*a_s);
            match b {
                BTreeNode::Leaf(_) => {
                    assert(a.leaf_paths()[0] == seq![true] + af.leaf_paths()[0]);
                    assert(b.leaf_paths()[0].len() == 0);
                },
                BTreeNode::Branch { first: bf, second: bs, data: bd } => {
                    lemma_counts(*bf);
                    lemma_counts(*bs);
                    let na = af.leaf_paths().len() as int;
                    let nb = bf.leaf_paths().len() as int;
                    let all = a.leaf_paths();
                    if na < nb {
                        assert(all[na] == seq![false] + a_s.leaf_paths()[0]);
                        assert(all[na] == seq![true] + bf.leaf_paths()[na]);
                        assert(all[na][0] == false);
                    }
                    if nb < na {
                        assert(all[nb] == seq![true] + af.leaf_paths()[nb]);
                        assert(all[nb] == seq![false] + bs.leaf_paths()[0]);
                        assert(all[nb][0] == true);
                    }
                    assert(na == nb);
                    assert forall|i: int| 0 <= i < na implies af.leaf_paths()[i]
                        == bf.leaf_paths()[i] by {
                        assert(all[i] == seq![true] + af.leaf_paths()[i]);
                        assert(all[i] == seq![true] + bf.leaf_paths()[i]);
                        assert(all[i].drop_first() =~= af.leaf_paths()[i]);
                        assert(all[i].drop_first() =~= bf.leaf_paths()[i]);
                    }
                    assert(af.leaf_paths() =~= bf.leaf_paths());
                    assert forall|i: int| 0 <= i < a_s.leaf_paths().len() implies a_s.leaf_paths()[i]
                        == bs.leaf_paths()[i] by {
                        assert(all[na + i] == seq![false] + a_s.leaf_paths()[i]);
                        assert(all[na + i] == seq![false] + bs.leaf_paths()[i]);
                        assert(all[na + i].drop_first() =~= a_s.leaf_paths()[i]);
                        assert(all[na + i].drop_first() =~= bs.leaf_paths()[i]);
                    }
                    assert(a_s.leaf_paths() =~= bs.leaf_paths());
                    assert(af.leaf_data() =~= a.leaf_data().take(na));
                    assert(bf.leaf_data() =~= b.leaf_data().take(na));
                    assert(a_s.leaf_data() =~= a.leaf_data().skip(na));
                    assert(bs.leaf_data() =~= b.leaf_data().skip(na));
                    assert(a.branch_data()[0] == ad);
                    assert(b.branch_data()[0] == bd);
                    assert(af.branch_data() =~= a.branch_data().subrange(1, na));
                    assert(bf.branch_data() =~= b.branch_data().subrange(1, na));
                    assert(a_s.branch_data() =~= a.branch_data().skip(na));
                    assert(bs.branch_data() =~= b.branch_data().skip(na));
                    lemma_flat_description_decides(*af, *bf);
                    lemma_flat_description_decides(*a_s, *bs);
                },
            }
        },
    }
}

/// The leaf paths of a tree are canonical. There is at least one; none is a
/// prefix of another, so none is listed twice; and at every choice that a
/// leaf path makes, some leaf path makes the other choice after the same
/// beginning, so no branch has one arm only.
pub proof fn lemma_leaf_paths_canonical<L, B>(tree: BTreeNode<L, B>)
    ensures
        canonical(tree.leaf_paths()),
        tree.leaf_paths().len() >= 1,
        forall|i: int, j: int|
            0 <= i < tree.leaf_paths().len() && 0 <= j < tree.leaf_paths().len() && is_prefix(
                #[trigger] tree.leaf_paths()[i],
                #[trigger] tree.leaf_paths()[j],
            ) ==> i == j,
        forall|i: int, k: int|
            0 <= i < tree.leaf_paths().len() && 0 <= k < tree.leaf_paths()[i].len() ==> exists|
                j: int,
            |
                0 <= j < tree.leaf_paths().len() && is_prefix(
                    tree.leaf_paths()[i].take(k).push(!#[trigger] tree.leaf_paths()[i][k]),
                    #[trigger] tree.leaf_paths()[j],
                ),
{
    lemma_counts(tree);
    lemma_shape_paths(tree);
    assert(tree.shape().leaf_paths() == tree.leaf_paths());
    let paths = tree.leaf_paths();
    assert forall|i: int, j: int|
        0 <= i < paths.len() && 0 <= j < paths.len() && is_prefix(
            #[trigger] paths[i],
            #[trigger] paths[j],
        ) implies i == j by {
        lemma_leaf_paths_prefix_free(tree, i, j);
    }
    assert forall|i: int, k: int| 0 <= i < paths.len() && 0 <= k < paths[i].len() implies exists|
        j: int,
    |
        0 <= j < paths.len() && is_prefix(
            paths[i].take(k).push(!#[trigger] paths[i][k]),
            #[trigger] paths[j],
        ) by {
        let j = lemma_leaf_paths_both_arms(tree, i, k);
        assert(is_prefix(paths[i].take(k).push(!paths[i][k]), paths[j]));
    }
}

/// Reading back what a tree was built from gives the same description. The
/// tree built from a description has its leaf paths and clones of its
/// payloads, and the description read from a tree has the tree's leaf paths
/// and clones of its payloads: so the paths come back as they were, in
/// order, and where a clone of a payload is the payload, so do the payloads.
pub proof fn lemma_round_trip<L: Clone, B: Clone>(
    paths: Seq<Seq<bool>>,
    leaf_data: Seq<L>,
    branch_data: Seq<B>,
    tree: BTreeNode<L, B>,
    read_paths: Seq<Seq<bool>>,
    read_leaf_data: Seq<L>,
    read_branch_data: Seq<B>,
)
    requires
        tree.leaf_paths() == paths,
        clones_of(leaf_data, tree.leaf_data()),
        clones_of(branch_data, tree.branch_data()),
        read_paths == tree.leaf_paths(),
        clones_of(tree.leaf_data(), read_leaf_data),
        clones_of(tree.branch_data(), read_branch_data),
    ensures
        read_paths == paths,
        read_leaf_data.len() == leaf_data.len(),
        read_branch_data.len() == branch_data.len(),
        (forall|a: L, b: L| cloned(a, b) ==> a == b) ==> read_leaf_data == leaf_data,
        (forall|a: B, b: B| cloned(a, b) ==> a == b) ==> read_branch_data == branch_data,
{
    if forall|a: L, b: L| cloned(a, b) ==> a == b {
        assert forall|i: int| 0 <= i < leaf_data.len() implies read_leaf_data[i]
            == leaf_data[i] by {
            assert(cloned(leaf_data[i], tree.leaf_data()[i]));
            assert(cloned(tree.leaf_data()[i], read_leaf_data[i]));
        }
        assert(read_leaf_data =~= leaf_data);
    }
    if forall|a: B, b: B| cloned(a, b) ==> a == b {
        assert forall|i: int| 0 <= i < branch_data.len() implies read_branch_data[i]
            == branch_data[i] by {
            assert(cloned(branch_data[i], tree.branch_data()[i]));
            assert(cloned(tree.branch_data()[i], read_branch_data[i]));
        }
        assert(read_branch_data =~= branch_data);
    }
}

/// Removing one of the two leaves that a split has just made undoes the
/// split, but for the payload: the tree has its old shape, leaf paths and
/// branch payloads again, and at the place of the split leaf stands the leaf
/// that was kept. Where that leaf's payload is the old one, the tree is the
/// old tree.
pub proof fn lemma_remove_undoes_split<L: Clone, B>(
    tree: BTreeNode<L, B>,
    path: Seq<bool>,
    node: BTreeNode<L, B>,
    data: B,
    removed_first: bool,
)
    requires
        tree.node_at(path) matches Some(BTreeNode::Leaf(payload)) && node.is_split_of(
            payload,
            data,
        ),
    ensures
        ({
            let split = tree.replaced_at(path, node);
            let gone = path.push(removed_first);
            let kept_path = path.push(!removed_first);
            let kept = split.node_at(kept_path).unwrap();
            let after = split.replaced_at(path, kept);
            &&& split.leaf_paths().len() == tree.leaf_paths().len() + 1
            &&& split.node_at(gone) matches Some(BTreeNode::Leaf(_))
            &&& split.node_at(kept_path) is Some
            &&& gone.drop_last() == path
            &&& crate::btree::edit::sibling_path(gone) == kept_path
            &&& kept matches BTreeNode::Leaf(left) && cloned(tree.node_at(path).unwrap()->Leaf_0, left)
            &&& after.shape() == tree.shape()
            &&& after.leaf_paths() == tree.leaf_paths()
            &&& after.branch_data() == tree.branch_data()
            &&& kept == tree.node_at(path).unwrap() ==> after == tree
        }),
{
    let split = tree.replaced_at(path, node);
    let gone = path.push(removed_first);
    let kept_path = path.push(!removed_first);
    lemma_node_at_replaced(tree, path, node);
    lemma_node_at_push(split, path, removed_first);
    lemma_node_at_push(split, path, !removed_first);
    assert(gone.drop_last() =~= path);
    assert(gone.drop_last().push(!gone.last()) =~= kept_path);
    let kept = split.node_at(kept_path).unwrap();
    lemma_replaced_twice(tree, path, node, kept);
    lemma_leaf_replaced_by_leaf(tree, path, kept->Leaf_0);
    lemma_replaced_paths(tree, path, node);
    lemma_two_leaves(node);
    if kept == tree.node_at(path).unwrap() {
        lemma_replace_with_same(tree, path);
    }
}

/// Where a node stands, and whether it is a leaf, depends on the shape
/// alone: two trees of one shape have their leaves at the same positions.
pub proof fn lemma_shape_decides_position<L, B>(
    a: BTreeNode<L, B>,
    b: BTreeNode<L, B>,
    path: Seq<bool>,
)
    requires
        a.shape() == b.shape(),
    ensures
        a.node_at(path) is Some <==> b.node_at(path) is Some,
        a.node_at(path) is Some ==> a.node_at(path).unwrap().shape() == b.node_at(
            path,
        ).unwrap().shape(),
        a.leaf_position(path) == b.leaf_position(path),
    decreases path.len(),
{
    lemma_shape_paths(a);
    lemma_shape_paths(b);
    if path.len() > 0 {
        match a {
            BTreeNode::Leaf(_) => {},
            BTreeNode::Branch { first: af, second: a_s, .. } => {
                match b {
                    BTreeNode::Leaf(_) => {},
                    BTreeNode::Branch { first: bf, second: bs, .. } => {
                        lemma_shape_paths(*af);
                        lemma_shape_paths(*bf);
                        if path[0] {
                            lemma_shape_decides_position(*af, *bf, path.drop_first());
                        } else {
                            lemma_shape_decides_position(*a_s, *bs, path.drop_first());
                        }
                    },
                }
            },
        }
    }
}

/// A replacement by a node of the shape of the node replaced keeps the
/// shape of the tree.
pub proof fn lemma_replaced_same_shape<L, B>(
    tree: BTreeNode<L, B>,
    path: Seq<bool>,
    node: BTreeNode<L, B>,
)
    requires
        tree.node_at(path) is Some,
        tree.node_at(path).unwrap().shape() == node.shape(),
    ensures
        tree.replaced_at(path, node).shape() == tree.shape(),
    decreases path.len(),
{
    if path.len() > 0 {
        match tree {
            BTreeNode::Leaf(_) => {},
            BTreeNode::Branch { first, second, .. } => {
                if path[0] {
                    lemma_replaced_same_shape(*first, path.drop_first(), node);
                } else {
                    lemma_replaced_same_shape(*second, path.drop_first(), node);
                }
            },
        }
    }
}

} // verus!
