//! Which directory entries are wallpaper candidates.

use vstd::prelude::*;
use crate::candidates::CandidateSet;

verus! {

/// ASCII `.`, which starts an extension.
pub const DOT: u8 = 46;

/// ASCII `/`, the path separator.
pub const SLASH: u8 = 47;

/// Index of the last `.` in `name`, or -1 when there is none.
pub open spec fn last_dot(name: Seq<u8>) -> int
    decreases name.len(),
{
    if name.len() == 0 {
        -1
    } else if name.last() == DOT {
        name.len() - 1
    } else {
        last_dot(name.drop_last())
    }
}

/// What follows the last `.` of a file name. A name without a dot, or whose
/// only dot leads it (a hidden file), has no extension.
pub open spec fn extension_of(name: Seq<u8>) -> Option<Seq<u8>> {
    let k = last_dot(name);
    if k > 0 {
        Some(name.subrange(k + 1, name.len() as int))
    } else {
        None
    }
}

/// The image extensions taken as wallpaper, compared case-sensitively:
/// `jpg`, `jpeg`, `png` and `bmp` (written below as ASCII codes).
pub open spec fn is_image_extension(e: Seq<u8>) -> bool {
    ||| e == seq![106u8, 112u8, 103u8]
    ||| e == seq![106u8, 112u8, 101u8, 103u8]
    ||| e == seq![112u8, 110u8, 103u8]
    ||| e == seq![98u8, 109u8, 112u8]
}

/// A file name whose extension is one of the image extensions.
pub open spec fn has_image_extension(name: Seq<u8>) -> bool {
    match extension_of(name) {
        Some(e) => is_image_extension(e),
        None => false,
    }
}

/// The path of entry `name` inside directory `dir`: a `/` goes between them
/// unless `dir` is empty or already ends with one.
pub open spec fn join_path(dir: Seq<u8>, name: Seq<u8>) -> Seq<u8> {
    if dir.len() > 0 && dir.last() != SLASH {
        dir + seq![SLASH] + name
    } else {
        dir + name
    }
}

/// One entry of a directory listing: its file name, and whether it is a
/// regular file (symbolic links followed).
pub struct ListedEntry {
    pub name: Vec<u8>,
    pub is_file: bool,
}

/// Entry `e` of directory `dir` is a candidate with path `p`.
pub open spec fn admits(dir: Seq<u8>, e: ListedEntry, p: Seq<u8>) -> bool {
    &&& e.is_file
    &&& has_image_extension(e.name@)
    &&& p == join_path(dir, e.name@)
}

/// The candidate paths that the first `n` entries give.
pub open spec fn admitted(dir: Seq<u8>, entries: Seq<ListedEntry>, n: int) -> Set<Seq<u8>> {
    Set::new(|p: Seq<u8>| exists|i: int| 0 <= i < n && #[trigger] admits(dir, entries[i], p))
}

/// Tells whether `e` is one of the image extensions.
fn is_image_ext(e: &[u8]) -> (r: bool)
    ensures
        r == is_image_extension(e@),
{
    let ghost jpg = seq![106u8, 112u8, 103u8];
    let ghost jpeg = seq![106u8, 112u8, 101u8, 103u8];
    let ghost png = seq![112u8, 110u8, 103u8];
    let ghost bmp = seq![98u8, 109u8, 112u8];
    if e.len() == 3 {
        let r = (e[0] == 106u8 && e[1] == 112u8 && e[2] == 103u8)
            || (e[0] == 112u8 && e[1] == 110u8 && e[2] == 103u8)
            || (e[0] == 98u8 && e[1] == 109u8 && e[2] == 112u8);
        proof {
            if e@ == jpg {
                assert(e@[0] == 106u8 && e@[1] == 112u8 && e@[2] == 103u8);
            } else if e@ == png {
                assert(e@[0] == 112u8 && e@[1] == 110u8 && e@[2] == 103u8);
            } else if e@ == bmp {
                assert(e@[0] == 98u8 && e@[1] == 109u8 && e@[2] == 112u8);
            }
            if r {
                if e[0] == 106u8 {
                    assert(e@ =~= jpg);
                } else if e[0] == 112u8 {
                    assert(e@ =~= png);
                } else {
                    assert(e@ =~= bmp);
                }
            }
            assert(jpeg.len() == 4);
        }
        r
    } else if e.len() == 4 {
        let r = e[0] == 106u8 && e[1] == 112u8 && e[2] == 101u8 && e[3] == 103u8;
        proof {
            if r {
                assert(e@ =~= jpeg);
            }
            if e@ == jpeg {
                assert(e@[2] == 101u8);
            }
        }
        r
    } else {
        false
    }
}

/// Tells whether the file name `name` carries one of the image extensions,
/// judged by what follows its last `.`.
pub fn has_wallpaper_extension(name: &[u8]) -> (r: bool)
    ensures
        r == has_image_extension(name@),
{
    let mut k: usize = name.len();
    assert(name@.subrange(0, k as int) =~= name@);
    while k > 0 && name[k - 1] != DOT
        invariant
            0 <= k <= name@.len(),
            last_dot(name@) == last_dot(name@.subrange(0, k as int)),
        decreases k,
    {
        assert(name@.subrange(0, k - 1) =~= name@.subrange(0, k as int).drop_last());
        k = k - 1;
    }
    if k <= 1 {
        proof {
            if k == 1 {
                assert(name@.subrange(0, 1).last() == DOT);
            } else {
                assert(last_dot(name@.subrange(0, 0)) == -1);
            }
        }
        return false;
    }
    assert(name@.subrange(0, k as int).last() == DOT);
    let ext = vstd::slice::slice_subrange(name, k, name.len());
    is_image_ext(ext)
}

/// The path of entry `name` inside directory `dir`.
pub fn join_entry(dir: &Vec<u8>, name: &Vec<u8>) -> (r: Vec<u8>)
    ensures
        r@ == join_path(dir@, name@),
{
    let mut r: Vec<u8> = Vec::new();
    let mut i: usize = 0;
    while i < dir.len()
        invariant
            0 <= i <= dir@.len(),
            r@ == dir@.subrange(0, i as int),
        decreases dir@.len() - i,
    {
        r.push(dir[i]);
        assert(r@ =~= dir@.subrange(0, i + 1));
        i = i + 1;
    }
    assert(r@ =~= dir@);
    if dir.len() > 0 && dir[dir.len() - 1] != SLASH {
        r.push(SLASH);
    }
    let ghost base = r@;
    let mut j: usize = 0;
    while j < name.len()
        invariant
            0 <= j <= name@.len(),
            r@ == base + name@.subrange(0, j as int),
        decreases name@.len() - j,
    {
        r.push(name[j]);
        assert(r@ =~= base + name@.subrange(0, j + 1));
        j = j + 1;
    }
    assert(name@.subrange(0, name@.len() as int) =~= name@);
    r
}

/// The candidates among the entries of directory `dir`: the regular files
/// whose name carries an image extension, each as its path inside `dir`.
pub fn scan_entries(dir: &Vec<u8>, entries: &Vec<ListedEntry>) -> (r: CandidateSet)
    ensures
        r.wf(),
        r.members() == admitted(dir@, entries@, entries@.len() as int),
{
    let mut set = CandidateSet::new();
    proof {
        assert(set.members() =~= admitted(dir@, entries@, 0));
    }
    let mut i: usize = 0;
    while i < entries.len()
        invariant
            0 <= i <= entries@.len(),
            set.wf(),
            set.members() == admitted(dir@, entries@, i as int),
        decreases entries@.len() - i,
    {
        let e = &entries[i];
        if e.is_file && has_wallpaper_extension(e.name.as_slice()) {
            let p = join_entry(dir, &e.name);
            let ghost pv = p@;
            set.insert(p);
            proof {
                assert(admits(dir@, entries@[i as int], pv));
                assert(set.members() =~= admitted(dir@, entries@, i + 1));
            }
        } else {
            proof {
                assert forall|p: Seq<u8>| !admits(dir@, entries@[i as int], p) by {}
                assert(set.members() =~= admitted(dir@, entries@, i + 1));
            }
        }
        i = i + 1;
    }
    set
}

} // verus!
