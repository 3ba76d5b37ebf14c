//! Choosing the next wallpaper from the candidates and the current one.

use vstd::prelude::*;
use crate::candidates::{strictly_sorted, CandidateSet};
use crate::error::WallpaperError;
use crate::scan::{admitted, scan_entries, ListedEntry};
use crate::order::{bytes_less, bytes_lt, lemma_bytes_lt_irreflexive, lemma_bytes_lt_total};

verus! {

/// `x` is in `s` and nothing in `s` sorts before it.
pub open spec fn is_least(s: Set<Seq<u8>>, x: Seq<u8>) -> bool {
    &&& s.contains(x)
    &&& forall|y: Seq<u8>| #[trigger] s.contains(y) ==> !bytes_lt(y, x)
}

/// Some element of `s` sorts strictly after `c`.
pub open spec fn has_above(s: Set<Seq<u8>>, c: Seq<u8>) -> bool {
    exists|y: Seq<u8>| #[trigger] s.contains(y) && bytes_lt(c, y)
}

/// `x` is the smallest element of `s` that sorts strictly after `c`.
pub open spec fn is_least_above(s: Set<Seq<u8>>, c: Seq<u8>, x: Seq<u8>) -> bool {
    &&& s.contains(x)
    &&& bytes_lt(c, x)
    &&& forall|y: Seq<u8>| #[trigger] s.contains(y) && bytes_lt(c, y) ==> !bytes_lt(y, x)
}

/// The wallpaper that follows `current` among the candidates `s`: the
/// smallest one after `current`, or the smallest of all when there is no
/// current one or nothing comes after it.
pub open spec fn next_selection(s: Set<Seq<u8>>, current: Option<Seq<u8>>) -> Seq<u8> {
    match current {
        Some(c) if has_above(s, c) => choose|x: Seq<u8>| is_least_above(s, c, x),
        _ => choose|x: Seq<u8>| is_least(s, x),
    }
}

/// The bytes of an optional path.
pub open spec fn path_view(p: Option<Vec<u8>>) -> Option<Seq<u8>> {
    match p {
        Some(v) => Some(v@),
        None => None,
    }
}

/// The wallpaper chosen on the `k`-th run, starting with no current one and
/// feeding each choice back as the next current one.
pub open spec fn selection_run(s: Set<Seq<u8>>, k: nat) -> Seq<u8>
    decreases k,
{
    if k == 0 {
        next_selection(s, None)
    } else {
        next_selection(s, Some(selection_run(s, (k - 1) as nat)))
    }
}

proof fn lemma_sorted_distinct(s: Seq<Seq<u8>>, i: int, j: int)
    requires
        strictly_sorted(s),
        0 <= i < s.len(),
        0 <= j < s.len(),
    ensures
        i < j ==> bytes_lt(s[i], s[j]),
        i != j ==> s[i] != s[j],
        bytes_lt(s[i], s[j]) ==> i < j,
{
    if i < j {
        lemma_bytes_lt_irreflexive(s[i]);
    } else if j < i {
        lemma_bytes_lt_irreflexive(s[j]);
        lemma_bytes_lt_total(s[j], s[i]);
    } else {
        lemma_bytes_lt_irreflexive(s[i]);
    }
}

/// In an ascending sequence the first element is the least.
proof fn lemma_first_is_least(s: Seq<Seq<u8>>)
    requires
        strictly_sorted(s),
        s.len() > 0,
    ensures
        is_least(s.to_set(), s[0]),
        next_selection(s.to_set(), None) == s[0],
{
    let set = s.to_set();
    assert(set.contains(s[0]));
    assert forall|y: Seq<u8>| #[trigger] set.contains(y) implies !bytes_lt(y, s[0]) by {
        let k = choose|k: int| 0 <= k < s.len() && s[k] == y;
        lemma_sorted_distinct(s, k, 0);
    }
    assert(is_least(set, s[0]));
    let x = choose|x: Seq<u8>| is_least(set, x);
    assert(is_least(set, x));
    lemma_bytes_lt_total(x, s[0]);
}

/// Where `i` is the first position whose element sorts after `c`, that
/// element follows `c`; where there is none, the choice wraps around to the
/// first element.
proof fn lemma_first_above(s: Seq<Seq<u8>>, c: Seq<u8>, i: int)
    requires
        strictly_sorted(s),
        s.len() > 0,
        0 <= i <= s.len(),
        forall|j: int| 0 <= j < i ==> !bytes_lt(c, #[trigger] s[j]),
        i < s.len() ==> bytes_lt(c, s[i]),
    ensures
        i < s.len() ==> has_above(s.to_set(), c) && is_least_above(s.to_set(), c, s[i]),
        i == s.len() ==> !has_above(s.to_set(), c),
        next_selection(s.to_set(), Some(c)) == if i < s.len() { s[i] } else { s[0] },
{
    let set = s.to_set();
    lemma_first_is_least(s);
    if i < s.len() {
        assert(set.contains(s[i]));
        assert forall|y: Seq<u8>| #[trigger] set.contains(y) && bytes_lt(c, y) implies !bytes_lt(y, s[i]) by {
            let k = choose|k: int| 0 <= k < s.len() && s[k] == y;
            lemma_sorted_distinct(s, k, i);
        }
        assert(has_above(set, c));
        assert(is_least_above(set, c, s[i]));
        let x = choose|x: Seq<u8>| is_least_above(set, c, x);
        assert(is_least_above(set, c, x));
        lemma_bytes_lt_total(x, s[i]);
    } else {
        assert forall|y: Seq<u8>| #[trigger] set.contains(y) implies !bytes_lt(c, y) by {
            let k = choose|k: int| 0 <= k < s.len() && s[k] == y;
        }
    }
}

/// A copy of `v`.
fn copy_bytes(v: &Vec<u8>) -> (r: Vec<u8>)
    ensures
        r@ == v@,
{
    let mut r: Vec<u8> = Vec::new();
    let mut i: usize = 0;
    while i < v.len()
        invariant
            0 <= i <= v@.len(),
            r@ == v@.subrange(0, i as int),
        decreases v@.len() - i,
    {
        r.push(v[i]);
        assert(r@ =~= v@.subrange(0, i + 1));
        i = i + 1;
    }
    assert(r@ =~= v@);
    r
}

/// The wallpaper to show next, given the candidates and the one shown last
/// (`None` on a first run). The current one need not be a candidate any
/// more: it is compared by value.
pub fn select_next(candidates: &CandidateSet, current: &Option<Vec<u8>>) -> (r: Result<
    Vec<u8>,
    WallpaperError,
>)
    requires
        candidates.wf(),
    ensures
        candidates@.len() == 0 ==> r == Err::<Vec<u8>, WallpaperError>(WallpaperError::NoCandidates),
        candidates@.len() > 0 ==> r is Ok && r->Ok_0@ == next_selection(candidates.members(), path_view(*current)),
        candidates@.len() > 0 && current is None ==> is_least(candidates.members(), r->Ok_0@),
        candidates@.len() > 0 && current is Some && has_above(candidates.members(), current->Some_0@)
            ==> is_least_above(candidates.members(), current->Some_0@, r->Ok_0@),
        candidates@.len() > 0 && current is Some && !has_above(candidates.members(), current->Some_0@)
            ==> is_least(candidates.members(), r->Ok_0@),
{
    let n = candidates.len();
    if n == 0 {
        return Err(WallpaperError::NoCandidates);
    }
    proof {
        lemma_first_is_least(candidates@);
    }
    match current {
        None => Ok(copy_bytes(candidates.get(0))),
        Some(c) => {
            let mut i: usize = 0;
            while i < n && !bytes_less(c.as_slice(), candidates.get(i).as_slice())
                invariant
                    n == candidates@.len(),
                    0 <= i <= n,
                    forall|j: int| 0 <= j < i ==> !bytes_lt(c@, #[trigger] candidates@[j]),
                decreases n - i,
            {
                i = i + 1;
            }
            proof {
                lemma_first_above(candidates@, c@, i as int);
            }
            if i < n {
                Ok(copy_bytes(candidates.get(i)))
            } else {
                Ok(copy_bytes(candidates.get(0)))
            }
        },
    }
}

/// The wallpaper to show next from the listing `entries` of directory `dir`
/// and the one shown last: the candidates are the listed regular files with
/// an image extension.
pub fn next_wallpaper(dir: &Vec<u8>, entries: &Vec<ListedEntry>, current: &Option<Vec<u8>>) -> (r: Result<
    Vec<u8>,
    WallpaperError,
>)
    ensures
        admitted(dir@, entries@, entries@.len() as int) == Set::<Seq<u8>>::empty()
            ==> r == Err::<Vec<u8>, WallpaperError>(WallpaperError::NoCandidates),
        admitted(dir@, entries@, entries@.len() as int) != Set::<Seq<u8>>::empty() ==> r is Ok
            && r->Ok_0@ == next_selection(admitted(dir@, entries@, entries@.len() as int), path_view(*current)),
{
    let candidates = scan_entries(dir, entries);
    proof {
        if candidates@.len() == 0 {
            assert(candidates.members() =~= Set::<Seq<u8>>::empty());
        } else {
            assert(candidates.members().contains(candidates@[0]));
        }
    }
    select_next(&candidates, current)
}

/// Feeding each choice back as the current one, starting from none, visits
/// every candidate once, in ascending order, and then starts again at the
/// smallest.
pub proof fn lemma_selection_cycles(candidates: CandidateSet)
    requires
        candidates.wf(),
        candidates@.len() > 0,
    ensures
        forall|k: nat| k < candidates@.len() ==> #[trigger] selection_run(candidates.members(), k) == candidates@[k as int],
        selection_run(candidates.members(), candidates@.len()) == selection_run(candidates.members(), 0),
        forall|i: nat, j: nat| i < j < candidates@.len() ==> #[trigger] selection_run(candidates.members(), i)
            != #[trigger] selection_run(candidates.members(), j),
        forall|x: Seq<u8>| #[trigger] candidates.members().contains(x) ==> exists|k: nat| k < candidates@.len()
            && #[trigger] selection_run(candidates.members(), k) == x,
{
    let s = candidates@;
    let set = candidates.members();
    let n = s.len();
    lemma_first_is_least(s);
    assert forall|k: nat| k < n implies #[trigger] selection_run(set, k) == s[k as int] by {
        lemma_run_follows_order(s, k);
    }
    lemma_run_follows_order(s, (n - 1) as nat);
    lemma_sorted_last_has_nothing_above(s);
    lemma_first_above(s, s[n - 1], n as int);
    assert forall|i: nat, j: nat| i < j < n implies #[trigger] selection_run(set, i)
        != #[trigger] selection_run(set, j) by {
        lemma_run_follows_order(s, i);
        lemma_run_follows_order(s, j);
        lemma_sorted_distinct(s, i as int, j as int);
    }
    assert forall|x: Seq<u8>| #[trigger] set.contains(x) implies exists|k: nat| k < n
        && #[trigger] selection_run(set, k) == x by {
        let k = choose|k: int| 0 <= k < s.len() && s[k] == x;
        lemma_run_follows_order(s, k as nat);
    }
}

proof fn lemma_sorted_last_has_nothing_above(s: Seq<Seq<u8>>)
    requires
        strictly_sorted(s),
        s.len() > 0,
    ensures
        forall|j: int| 0 <= j < s.len() ==> !bytes_lt(s[s.len() - 1], #[trigger] s[j]),
{
    assert forall|j: int| 0 <= j < s.len() implies !bytes_lt(s[s.len() - 1], #[trigger] s[j]) by {
        lemma_sorted_distinct(s, s.len() - 1, j);
    }
}

proof fn lemma_run_follows_order(s: Seq<Seq<u8>>, k: nat)
    requires
        strictly_sorted(s),
        k < s.len(),
    ensures
        selection_run(s.to_set(), k) == s[k as int],
    decreases k,
{
    lemma_first_is_least(s);
    if k > 0 {
        lemma_run_follows_order(s, (k - 1) as nat);
        assert forall|j: int| 0 <= j < k implies !bytes_lt(s[k - 1], #[trigger] s[j]) by {
            lemma_sorted_distinct(s, k - 1, j);
        }
        lemma_first_above(s, s[k - 1], k as int);
    }
}

} // verus!
