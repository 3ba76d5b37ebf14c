//! Rules around the desktop: reading the screensaver's answer, naming the
//! picture, judging the result of applying it.

use vstd::prelude::*;
use crate::error::WallpaperError;

verus! {

/// The ASCII text `is active`, which the screensaver prints while the screen
/// is locked.
pub open spec fn active_phrase() -> Seq<u8> {
    seq![105u8, 115u8, 32u8, 97u8, 99u8, 116u8, 105u8, 118u8, 101u8]
}

/// The ASCII text `file://`, the scheme of a local picture URI.
pub open spec fn file_scheme() -> Seq<u8> {
    seq![102u8, 105u8, 108u8, 101u8, 58u8, 47u8, 47u8]
}

/// `needle` occurs as a contiguous run of bytes in `hay`.
pub open spec fn occurs_in(hay: Seq<u8>, needle: Seq<u8>) -> bool {
    exists|i: int| 0 <= i && i + needle.len() <= hay.len() && #[trigger] hay.subrange(i, i + needle.len()) == needle
}

/// Tells whether `needle` stands in `hay` from position `at` on.
fn matches_at(hay: &Vec<u8>, at: usize, needle: &Vec<u8>) -> (r: bool)
    requires
        at + needle@.len() <= hay@.len(),
    ensures
        r == (hay@.subrange(at as int, at + needle@.len()) == needle@),
{
    let hay_len = hay.len();
    let mut j: usize = 0;
    while j < needle.len()
        invariant
            0 <= j <= needle@.len(),
            hay_len == hay@.len(),
            at + needle@.len() <= hay@.len(),
            forall|k: int| 0 <= k < j ==> hay@[at + k] == needle@[k],
        decreases needle@.len() - j,
    {
        if hay[at + j] != needle[j] {
            assert(hay@.subrange(at as int, at + needle@.len())[j as int] != needle@[j as int]);
            return false;
        }
        j = j + 1;
    }
    assert(hay@.subrange(at as int, at + needle@.len()) =~= needle@);
    true
}

/// Tells from the screensaver's output whether the screen is locked: it is
/// when the output holds the text `is active`.
pub fn is_locked_output(stdout: &Vec<u8>) -> (r: bool)
    ensures
        r == occurs_in(stdout@, active_phrase()),
{
    let needle: Vec<u8> = vec![105u8, 115u8, 32u8, 97u8, 99u8, 116u8, 105u8, 118u8, 101u8];
    assert(needle@ =~= active_phrase());
    if stdout.len() < needle.len() {
        return false;
    }
    let len = stdout.len();
    let last = len - needle.len();
    let mut i: usize = 0;
    while i <= last
        invariant
            needle@ == active_phrase(),
            last + needle@.len() == stdout@.len(),
            len == stdout@.len(),
            0 <= i <= last + 1,
            forall|k: int| 0 <= k < i ==> #[trigger] stdout@.subrange(k, k + needle@.len()) != needle@,
        decreases last + 1 - i,
    {
        if matches_at(stdout, i, &needle) {
            return true;
        }
        i = i + 1;
    }
    false
}

/// The URI handed to the desktop for the picture at `path`: `file://`
/// followed by the path's bytes.
pub fn picture_uri(path: &Vec<u8>) -> (r: Vec<u8>)
    ensures
        r@ == file_scheme() + path@,
{
    let mut r: Vec<u8> = vec![102u8, 105u8, 108u8, 101u8, 58u8, 47u8, 47u8];
    assert(r@ =~= file_scheme());
    let mut i: usize = 0;
    while i < path.len()
        invariant
            0 <= i <= path@.len(),
            r@ == file_scheme() + path@.subrange(0, i as int),
        decreases path@.len() - i,
    {
        r.push(path[i]);
        assert(r@ =~= file_scheme() + path@.subrange(0, i + 1));
        i = i + 1;
    }
    assert(path@.subrange(0, path@.len() as int) =~= path@);
    r
}

/// The outcome of applying a wallpaper, from whether the desktop command
/// succeeded and the exit code it gave, if any.
pub fn apply_status(success: bool, code: Option<i32>) -> (r: Result<(), WallpaperError>)
    ensures
        success ==> r == Ok::<(), WallpaperError>(()),
        !success ==> r == Err::<(), WallpaperError>(WallpaperError::ApplyFailed(code)),
{
    if success {
        Ok(())
    } else {
        Err(WallpaperError::ApplyFailed(code))
    }
}

} // verus!
