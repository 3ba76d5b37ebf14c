//! The set of wallpaper candidates found in one directory, kept in byte
//! order without duplicates.

use vstd::prelude::*;
use crate::order::{bytes_less, bytes_lt, lemma_bytes_lt_total, lemma_bytes_lt_transitive};

verus! {

/// Every element of `s` sorts strictly before every later one.
pub open spec fn strictly_sorted(s: Seq<Seq<u8>>) -> bool {
    forall|i: int, j: int| 0 <= i < j < s.len() ==> bytes_lt(#[trigger] s[i], #[trigger] s[j])
}

/// Candidate paths as raw bytes, ascending in byte order, each one once.
pub struct CandidateSet {
    paths: Vec<Vec<u8>>,
}

impl View for CandidateSet {
    type V = Seq<Seq<u8>>;

    /// The candidates in ascending order.
    closed spec fn view(&self) -> Seq<Seq<u8>> {
        self.paths@.map_values(|p: Vec<u8>| p@)
    }
}

impl CandidateSet {
    /// The candidates, ascending and free of duplicates.
    pub open spec fn wf(&self) -> bool {
        strictly_sorted(self@)
    }

    /// The candidates as a set of paths.
    pub open spec fn members(&self) -> Set<Seq<u8>> {
        self@.to_set()
    }

    /// An empty set.
    pub fn new() -> (r: CandidateSet)
        ensures
            r.wf(),
            r@.len() == 0,
    {
        CandidateSet { paths: Vec::new() }
    }

    /// How many candidates there are.
    pub fn len(&self) -> (r: usize)
        ensures
            r == self@.len(),
    {
        self.paths.len()
    }

    /// Whether there is no candidate at all.
    pub fn is_empty(&self) -> (r: bool)
        ensures
            r == (self@.len() == 0),
    {
        self.paths.len() == 0
    }

    /// The candidate at position `i` in ascending order.
    pub fn get(&self, i: usize) -> (r: &Vec<u8>)
        requires
            i < self@.len(),
        ensures
            r@ == self@[i as int],
    {
        &self.paths[i]
    }

    /// Adds `path`, keeping the order; a path already present is not added
    /// twice.
    pub fn insert(&mut self, path: Vec<u8>)
        requires
            old(self).wf(),
        ensures
            final(self).wf(),
            final(self).members() == old(self).members().insert(path@),
    {
        let ghost old_view = self@;
        let mut i: usize = 0;
        while i < self.paths.len() && bytes_less(self.paths[i].as_slice(), path.as_slice())
            invariant
                self@ == old_view,
                strictly_sorted(old_view),
                0 <= i <= old_view.len(),
                forall|k: int| 0 <= k < i ==> bytes_lt(#[trigger] old_view[k], path@),
            decreases old_view.len() - i,
        {
            i = i + 1;
        }
        if i < self.paths.len() && !bytes_less(path.as_slice(), self.paths[i].as_slice()) {
            proof {
                lemma_bytes_lt_total(old_view[i as int], path@);
                assert(old_view.contains(path@));
                assert(old_view.to_set().insert(path@) =~= old_view.to_set());
            }
            return;
        }
        let ghost p = path@;
        self.paths.insert(i, path);
        proof {
            assert(self@ =~= old_view.insert(i as int, p));
            assert forall|a: int, b: int| 0 <= a < b < self@.len() implies bytes_lt(
                #[trigger] self@[a],
                #[trigger] self@[b],
            ) by {
                if b == i as int {
                    assert(bytes_lt(old_view[a], p));
                } else if a == i as int {
                    assert(bytes_lt(p, old_view[i as int]));
                    if b - 1 > i as int {
                        lemma_bytes_lt_transitive(p, old_view[i as int], old_view[b - 1]);
                    }
                } else if a > i as int {
                    assert(bytes_lt(old_view[a - 1], old_view[b - 1]));
                } else if b > i as int {
                    assert(bytes_lt(old_view[a], old_view[b - 1]));
                }
            }
            assert(self@.to_set() =~= old_view.to_set().insert(p)) by {
                assert forall|x: Seq<u8>| self@.to_set().contains(x) implies old_view.to_set().insert(p).contains(x) by {
                    let k = choose|k: int| 0 <= k < self@.len() && self@[k] == x;
                    if k < i as int {
                        assert(old_view[k] == x);
                    } else if k > i as int {
                        assert(old_view[k - 1] == x);
                    }
                }
                assert forall|x: Seq<u8>| old_view.to_set().insert(p).contains(x) implies self@.to_set().contains(x) by {
                    if x == p {
                        assert(self@[i as int] == x);
                    } else {
                        let k = choose|k: int| 0 <= k < old_view.len() && old_view[k] == x;
                        if k < i as int {
                            assert(self@[k] == x);
                        } else {
                            assert(self@[k + 1] == x);
                        }
                    }
                }
            }
        }
    }
}

} // verus!
