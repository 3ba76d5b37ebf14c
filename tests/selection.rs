use qmwc::candidates::CandidateSet;
use qmwc::error::WallpaperError;
use qmwc::select::{next_wallpaper, select_next};
use qmwc::scan::ListedEntry;

fn set_of(paths: &[&str]) -> CandidateSet {
    let mut s = CandidateSet::new();
    for p in paths {
        s.insert(p.as_bytes().to_vec());
    }
    s
}

fn pick(s: &CandidateSet, current: Option<&str>) -> Result<String, WallpaperError> {
    let current = current.map(|c| c.as_bytes().to_vec());
    select_next(s, &current).map(|v| String::from_utf8(v).unwrap())
}

fn entry(name: &str, is_file: bool) -> ListedEntry {
    ListedEntry { name: name.as_bytes().to_vec(), is_file }
}

#[test]
fn first_run_takes_smallest() {
    let s = set_of(&["a.png", "b.jpg", "c.bmp"]);
    assert_eq!(pick(&s, None), Ok("a.png".to_string()));
}

#[test]
fn advances_past_current() {
    let s = set_of(&["a.png", "b.jpg", "c.bmp"]);
    assert_eq!(pick(&s, Some("b.jpg")), Ok("c.bmp".to_string()));
}

#[test]
fn wraps_after_last() {
    let s = set_of(&["a.png", "b.jpg", "c.bmp"]);
    assert_eq!(pick(&s, Some("c.bmp")), Ok("a.png".to_string()));
}

#[test]
fn stale_current_advances_by_value() {
    let s = set_of(&["a.png", "c.bmp"]);
    assert_eq!(pick(&s, Some("b.jpg")), Ok("c.bmp".to_string()));
}

#[test]
fn stale_current_beyond_all_wraps() {
    let s = set_of(&["a.png", "c.bmp"]);
    assert_eq!(pick(&s, Some("z.png")), Ok("a.png".to_string()));
}

#[test]
fn empty_set_has_no_candidates() {
    let s = CandidateSet::new();
    assert_eq!(pick(&s, None), Err(WallpaperError::NoCandidates));
    assert_eq!(pick(&s, Some("a.png")), Err(WallpaperError::NoCandidates));
}

#[test]
fn single_candidate_always_chosen() {
    let s = set_of(&["only.png"]);
    assert_eq!(pick(&s, None), Ok("only.png".to_string()));
    assert_eq!(pick(&s, Some("only.png")), Ok("only.png".to_string()));
    assert_eq!(pick(&s, Some("a.png")), Ok("only.png".to_string()));
    assert_eq!(pick(&s, Some("z.png")), Ok("only.png".to_string()));
}

#[test]
fn insertion_sorts_and_deduplicates() {
    let s = set_of(&["c.bmp", "a.png", "b.jpg", "a.png"]);
    assert_eq!(s.len(), 3);
    assert_eq!(s.get(0).as_slice(), b"a.png");
    assert_eq!(s.get(1).as_slice(), b"b.jpg");
    assert_eq!(s.get(2).as_slice(), b"c.bmp");
    assert!(!s.is_empty());
}

#[test]
fn order_is_bytewise_and_case_sensitive() {
    let s = set_of(&["b.png", "B.png", "a.png", "ab.png", "a"]);
    let expected: [&[u8]; 5] = [b"B.png", b"a", b"a.png", b"ab.png", b"b.png"];
    for (i, e) in expected.iter().enumerate() {
        assert_eq!(s.get(i).as_slice(), *e);
    }
}

#[test]
fn repeated_selection_visits_each_once() {
    let s = set_of(&["d.png", "a.png", "c.bmp", "b.jpg"]);
    let mut current: Option<Vec<u8>> = None;
    let mut seen = Vec::new();
    for _ in 0..4 {
        let next = select_next(&s, &current).unwrap();
        seen.push(String::from_utf8(next.clone()).unwrap());
        current = Some(next);
    }
    assert_eq!(seen, vec!["a.png", "b.jpg", "c.bmp", "d.png"]);
    assert_eq!(select_next(&s, &current).unwrap(), b"a.png".to_vec());
}

#[test]
fn listing_filters_by_extension() {
    let entries = vec![entry("a.png", true), entry("b.gif", true), entry("c.txt", true)];
    let s = qmwc::scan::scan_entries(&b"walls".to_vec(), &entries);
    assert_eq!(s.len(), 1);
    assert_eq!(s.get(0).as_slice(), b"walls/a.png");
}

#[test]
fn listing_skips_non_files_and_hidden_names() {
    let entries = vec![
        entry("dir.jpg", false),
        entry(".png", true),
        entry("upper.PNG", true),
        entry("photo.jpeg", true),
        entry("x.tar.bmp", true),
        entry("noext", true),
    ];
    let s = qmwc::scan::scan_entries(&b"/w/".to_vec(), &entries);
    assert_eq!(s.len(), 2);
    assert_eq!(s.get(0).as_slice(), b"/w/photo.jpeg");
    assert_eq!(s.get(1).as_slice(), b"/w/x.tar.bmp");
}

#[test]
fn next_from_listing() {
    let entries = vec![entry("c.bmp", true), entry("a.png", true), entry("b.gif", true)];
    let dir = b"/pics".to_vec();
    assert_eq!(next_wallpaper(&dir, &entries, &None), Ok(b"/pics/a.png".to_vec()));
    let current = Some(b"/pics/a.png".to_vec());
    assert_eq!(next_wallpaper(&dir, &entries, &current), Ok(b"/pics/c.bmp".to_vec()));
    let current = Some(b"/pics/c.bmp".to_vec());
    assert_eq!(next_wallpaper(&dir, &entries, &current), Ok(b"/pics/a.png".to_vec()));
}

#[test]
fn next_from_listing_without_images() {
    let entries = vec![entry("b.gif", true), entry("c.txt", true)];
    assert_eq!(
        next_wallpaper(&b"/pics".to_vec(), &entries, &None),
        Err(WallpaperError::NoCandidates)
    );
}
