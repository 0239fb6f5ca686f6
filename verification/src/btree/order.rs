use vstd::prelude::*;

use crate::adjust_index::{cycle_index, cycled, step_index, stepped, AdjustDirection};
use crate::btree::laws::{lemma_counts, lemma_leaf_at_index, lemma_leaf_is_listed};
use crate::btree::{BTreeNode, PathError};
use crate::path::{path_list, path_to_vec, paths_equal};

verus! {

/// The first position in `paths` that holds `path`.
pub fn find_path(paths: &Vec<Vec<bool>>, path: &[bool]) -> (found: Option<usize>)
    ensures
        match found {
            Some(i) => i < paths@.len() && paths@[i as int]@ == path@ && forall|k: int|
                0 <= k < i ==> paths@[k]@ != path@,
            None => forall|k: int| 0 <= k < paths@.len() ==> paths@[k]@ != path@,
        },
{
    let mut i: usize = 0;
    while i < paths.len()
        invariant
            i <= paths@.len(),
            forall|k: int| 0 <= k < i ==> paths@[k]@ != path@,
        decreases paths@.len() - i,
    {
        if paths_equal(paths[i].as_slice(), path) {
            return Some(i);
        }
        i += 1;
    }
    None
}

impl<L, B> BTreeNode<L, B> {
    /// The position of `path` among the leaf paths; `None` where no leaf
    /// stands at `path`.
    pub fn leaf_index(&self, path: &[bool]) -> (found: Option<usize>)
        ensures
            match found {
                Some(i) => self.leaf_position(path@) == Some(i as int) && i
                    < self.leaf_paths().len(),
                None => self.leaf_position(path@) is None,
            },
    {
        let paths = self.collect_paths();
        let found = find_path(&paths, path);
        proof {
            self.lemma_found(paths@, path@, found);
        }
        found
    }

    /// What a search of the collected leaf paths says of a path's position.
    pub proof fn lemma_found(self, paths: Seq<Vec<bool>>, path: Seq<bool>, found: Option<usize>)
        requires
            path_list(paths) == self.leaf_paths(),
            match found {
                Some(i) => i < paths.len() && paths[i as int]@ == path,
                None => forall|k: int| 0 <= k < paths.len() ==> paths[k]@ != path,
            },
        ensures
            match found {
                Some(i) => self.leaf_position(path) == Some(i as int) && i
                    < self.leaf_paths().len(),
                None => self.leaf_position(path) is None,
            },
    {
        match found {
            Some(i) => {
                assert(path_list(paths)[i as int] == paths[i as int]@);
                lemma_leaf_at_index(self, i as int);
            },
            None => {
                if self.leaf_position(path) is Some {
                    lemma_leaf_is_listed(self, path);
                    let k = self.leaf_rank(path);
                    assert(path_list(paths)[k] == paths[k]@);
                }
            },
        }
    }

    /// The path of the leaf that follows or precedes the leaf at `path` in
    /// traversal order, the leaves taken as a ring: after the last comes the
    /// first. Where no leaf stands at `path` the result is `PathNotFound`.
    pub fn cycle(&self, path: &[bool], direction: AdjustDirection) -> (result: Result<
        Vec<bool>,
        PathError,
    >)
        ensures
            match result {
                Ok(next) => self.leaf_position(path@) matches Some(i) && next@
                    == self.leaf_paths()[cycled(i, self.leaf_paths().len() as int, direction)],
                Err(e) => e == PathError::PathNotFound && self.leaf_position(path@) is None,
            },
    {
        let paths = self.collect_paths();
        let found = find_path(&paths, path);
        proof {
            self.lemma_found(paths@, path@, found);
        }
        match found {
            None => Err(PathError::PathNotFound),
            Some(i) => {
                let j = cycle_index(i, paths.len(), direction);
                assert(path_list(paths@)[j as int] == paths@[j as int]@);
                Ok(path_to_vec(paths[j].as_slice()))
            },
        }
    }

    /// The path of the leaf that follows or precedes the leaf at `path` in
    /// traversal order, the leaves taken as a row: the first has itself
    /// before it, the last has itself after it. Where no leaf stands at
    /// `path` the result is `PathNotFound`.
    pub fn step(&self, path: &[bool], direction: AdjustDirection) -> (result: Result<
        Vec<bool>,
        PathError,
    >)
        ensures
            match result {
                Ok(next) => self.leaf_position(path@) matches Some(i) && next@
                    == self.leaf_paths()[stepped(i, self.leaf_paths().len() as int, direction)],
                Err(e) => e == PathError::PathNotFound && self.leaf_position(path@) is None,
            },
    {
        let paths = self.collect_paths();
        let found = find_path(&paths, path);
        proof {
            self.lemma_found(paths@, path@, found);
        }
        match found {
            None => Err(PathError::PathNotFound),
            Some(i) => {
                let j = step_index(i, paths.len(), direction);
                assert(path_list(paths@)[j as int] == paths@[j as int]@);
                Ok(path_to_vec(paths[j].as_slice()))
            },
        }
    }

    /// The leaf path to move to from `path` going forward round the ring of
    /// leaves; from no path at all, the first leaf path.
    pub fn next_path(&self, path: &Option<Vec<bool>>) -> (result: Result<Vec<bool>, PathError>)
        ensures
            match *path {
                None => result matches Ok(next) && next@ == self.leaf_paths()[0],
                Some(from) => match result {
                    Ok(next) => self.leaf_position(from@) matches Some(i) && next@
                        == self.leaf_paths()[cycled(
                        i,
                        self.leaf_paths().len() as int,
                        AdjustDirection::Next,
                    )],
                    Err(e) => e == PathError::PathNotFound && self.leaf_position(from@) is None,
                },
            },
    {
        match path {
            Some(from) => self.cycle(from.as_slice(), AdjustDirection::Next),
            None => {
                let paths = self.collect_paths();
                proof {
                    lemma_counts(*self);
                    assert(path_list(paths@)[0] == paths@[0]@);
                }
                Ok(path_to_vec(paths[0].as_slice()))
            },
        }
    }

    /// The leaf path to move to from `path` going backward round the ring of
    /// leaves; from no path at all, the last leaf path.
    pub fn prev_path(&self, path: &Option<Vec<bool>>) -> (result: Result<Vec<bool>, PathError>)
        ensures
            match *path {
                None => result matches Ok(next) && next@ == self.leaf_paths().last(),
                Some(from) => match result {
                    Ok(next) => self.leaf_position(from@) matches Some(i) && next@
                        == self.leaf_paths()[cycled(
                        i,
                        self.leaf_paths().len() as int,
                        AdjustDirection::Previous,
                    )],
                    Err(e) => e == PathError::PathNotFound && self.leaf_position(from@) is None,
                },
            },
    {
        match path {
            Some(from) => self.cycle(from.as_slice(), AdjustDirection::Previous),
            None => {
                let paths = self.collect_paths();
                proof {
                    lemma_counts(*self);
                    assert(path_list(paths@)[paths@.len() - 1] == paths@[paths@.len() - 1]@);
                }
                Ok(path_to_vec(paths[paths.len() - 1].as_slice()))
            },
        }
    }
}

} // verus!
