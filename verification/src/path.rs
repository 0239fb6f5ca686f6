use vstd::prelude::*;

verus! {

/// The paths that a list of path vectors stands for.
pub open spec fn path_list(list: Seq<Vec<bool>>) -> Seq<Seq<bool>> {
    Seq::new(list.len(), |i: int| list[i]@)
}

/// Every path of `paths` with `prefix` put in front of it.
pub open spec fn under(prefix: Seq<bool>, paths: Seq<Seq<bool>>) -> Seq<Seq<bool>> {
    Seq::new(paths.len(), |i: int| prefix + paths[i])
}

/// `p` is an initial piece of `q`, possibly all of it.
pub open spec fn is_prefix(p: Seq<bool>, q: Seq<bool>) -> bool {
    p.len() <= q.len() && q.subrange(0, p.len() as int) == p
}

/// The number of leading positions at which `a` and `b` agree.
pub open spec fn agreement(a: Seq<bool>, b: Seq<bool>) -> nat
    decreases a.len(),
{
    if a.len() == 0 || b.len() == 0 || a[0] != b[0] {
        0
    } else {
        1 + agreement(a.drop_first(), b.drop_first())
    }
}

/// The longest path that is a prefix of both `a` and `b`.
pub open spec fn common_prefix(a: Seq<bool>, b: Seq<bool>) -> Seq<bool> {
    a.take(agreement(a, b) as int)
}

pub proof fn lemma_agreement_bounds(a: Seq<bool>, b: Seq<bool>)
    ensures
        agreement(a, b) <= a.len(),
        agreement(a, b) <= b.len(),
        forall|k: int| 0 <= k < agreement(a, b) ==> a[k] == b[k],
        agreement(a, b) < a.len() && agreement(a, b) < b.len() ==> a[agreement(a, b) as int]
            != b[agreement(a, b) as int],
    decreases a.len(),
{
    if a.len() == 0 || b.len() == 0 || a[0] != b[0] {
    } else {
        lemma_agreement_bounds(a.drop_first(), b.drop_first());
        let n = agreement(a.drop_first(), b.drop_first()) as int;
        assert forall|k: int| 0 <= k < agreement(a, b) implies a[k] == b[k] by {
            if k > 0 {
                assert(a.drop_first()[k - 1] == a[k]);
                assert(b.drop_first()[k - 1] == b[k]);
            }
        }
        if agreement(a, b) < a.len() && agreement(a, b) < b.len() {
            assert(a.drop_first()[n] == a[n + 1]);
            assert(b.drop_first()[n] == b[n + 1]);
        }
    }
}

/// Whether two paths are the same sequence of choices.
pub fn paths_equal(a: &[bool], b: &[bool]) -> (same: bool)
    ensures
        same == (a@ == b@),
{
    if a.len() != b.len() {
        return false;
    }
    let mut i: usize = 0;
    while i < a.len()
        invariant
            a.len() == b.len(),
            i <= a.len(),
            forall|k: int| 0 <= k < i ==> a@[k] == b@[k],
        decreases a.len() - i,
    {
        if a[i] != b[i] {
            return false;
        }
        i += 1;
    }
    assert(a@ =~= b@);
    true
}

/// Whether two lists hold the same paths in the same order.
pub fn path_lists_equal(a: &Vec<Vec<bool>>, b: &Vec<Vec<bool>>) -> (same: bool)
    ensures
        same == (path_list(a@) == path_list(b@)),
{
    if a.len() != b.len() {
        assert(path_list(a@).len() != path_list(b@).len());
        return false;
    }
    let mut i: usize = 0;
    while i < a.len()
        invariant
            a.len() == b.len(),
            i <= a.len(),
            forall|k: int| 0 <= k < i ==> a@[k]@ == b@[k]@,
        decreases a.len() - i,
    {
        if !paths_equal(a[i].as_slice(), b[i].as_slice()) {
            assert(path_list(a@)[i as int] != path_list(b@)[i as int]);
            return false;
        }
        i += 1;
    }
    assert(path_list(a@) =~= path_list(b@));
    true
}

/// A fresh vector holding the choices of `path`.
pub fn path_to_vec(path: &[bool]) -> (copy: Vec<bool>)
    ensures
        copy@ == path@,
{
    let mut copy: Vec<bool> = Vec::new();
    let mut i: usize = 0;
    while i < path.len()
        invariant
            i <= path.len(),
            copy@ == path@.take(i as int),
        decreases path.len() - i,
    {
        copy.push(path[i]);
        assert(path@.take(i as int).push(path@[i as int]) =~= path@.take(i as int + 1));
        i += 1;
    }
    assert(path@.take(path.len() as int) =~= path@);
    copy
}

/// The longest common prefix of two paths: the address of the deepest node
/// that lies on both.
pub fn common_prefix_of(a: &[bool], b: &[bool]) -> (prefix: Vec<bool>)
    ensures
        prefix@ == common_prefix(a@, b@),
{
    let mut prefix: Vec<bool> = Vec::new();
    let mut i: usize = 0;
    proof {
        assert(a@.skip(0) =~= a@);
        assert(b@.skip(0) =~= b@);
    }
    while i < a.len() && i < b.len() && a[i] == b[i]
        invariant
            i <= a.len(),
            i <= b.len(),
            prefix@ == a@.take(i as int),
            agreement(a@, b@) == i + agreement(a@.skip(i as int), b@.skip(i as int)),
        decreases a.len() - i,
    {
        prefix.push(a[i]);
        proof {
            assert(a@.take(i as int).push(a@[i as int]) =~= a@.take(i as int + 1));
            assert(a@.skip(i as int).drop_first() =~= a@.skip(i as int + 1));
            assert(b@.skip(i as int).drop_first() =~= b@.skip(i as int + 1));
            assert(a@.skip(i as int)[0] == a@[i as int]);
            assert(b@.skip(i as int)[0] == b@[i as int]);
        }
        i += 1;
    }
    proof {
        if i < a.len() && i < b.len() {
            assert(a@.skip(i as int)[0] == a@[i as int]);
            assert(b@.skip(i as int)[0] == b@[i as int]);
        }
        assert(agreement(a@.skip(i as int), b@.skip(i as int)) == 0);
    }
    prefix
}

} // verus!
