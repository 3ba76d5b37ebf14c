use qmwc::desktop::{apply_status, is_locked_output, picture_uri};
use qmwc::error::WallpaperError;
use qmwc::order::bytes_less;
use qmwc::scan::{has_wallpaper_extension, join_entry};
use qmwc::verbosity::{log_level, LogLevel};

#[test]
fn extensions_recognised() {
    assert!(has_wallpaper_extension(b"a.jpg"));
    assert!(has_wallpaper_extension(b"a.jpeg"));
    assert!(has_wallpaper_extension(b"a.png"));
    assert!(has_wallpaper_extension(b"a.bmp"));
    assert!(has_wallpaper_extension(b"a.b.png"));
    assert!(!has_wallpaper_extension(b"a.gif"));
    assert!(!has_wallpaper_extension(b"a.JPG"));
    assert!(!has_wallpaper_extension(b"png"));
    assert!(!has_wallpaper_extension(b".png"));
    assert!(!has_wallpaper_extension(b"a.png.txt"));
    assert!(!has_wallpaper_extension(b"a.pn"));
    assert!(!has_wallpaper_extension(b""));
}

#[test]
fn join_adds_separator_once() {
    assert_eq!(join_entry(&b"/w".to_vec(), &b"a.png".to_vec()), b"/w/a.png".to_vec());
    assert_eq!(join_entry(&b"/w/".to_vec(), &b"a.png".to_vec()), b"/w/a.png".to_vec());
    assert_eq!(join_entry(&b"".to_vec(), &b"a.png".to_vec()), b"a.png".to_vec());
}

#[test]
fn byte_order() {
    assert!(bytes_less(b"a", b"b"));
    assert!(bytes_less(b"a", b"ab"));
    assert!(bytes_less(b"", b"a"));
    assert!(bytes_less(b"Z", b"a"));
    assert!(!bytes_less(b"b", b"a"));
    assert!(!bytes_less(b"ab", b"ab"));
    assert!(!bytes_less(b"ab", b"a"));
}

#[test]
fn locked_when_active() {
    assert!(is_locked_output(&b"The screensaver is active\n".to_vec()));
    assert!(is_locked_output(&b"is active".to_vec()));
    assert!(!is_locked_output(&b"The screensaver is inactive\n".to_vec()));
    assert!(!is_locked_output(&b"is activ".to_vec()));
    assert!(!is_locked_output(&Vec::new()));
}

#[test]
fn uri_prefixes_scheme() {
    assert_eq!(picture_uri(&b"/home/u/a.png".to_vec()), b"file:///home/u/a.png".to_vec());
    assert_eq!(picture_uri(&Vec::new()), b"file://".to_vec());
}

#[test]
fn apply_outcome() {
    assert_eq!(apply_status(true, Some(0)), Ok(()));
    assert_eq!(apply_status(false, Some(2)), Err(WallpaperError::ApplyFailed(Some(2))));
    assert_eq!(apply_status(false, None), Err(WallpaperError::ApplyFailed(None)));
}

#[test]
fn verbosity_levels() {
    assert_eq!(log_level(0, 0), LogLevel::Warn);
    assert_eq!(log_level(1, 0), LogLevel::Info);
    assert_eq!(log_level(2, 0), LogLevel::Debug);
    assert_eq!(log_level(3, 0), LogLevel::Trace);
    assert_eq!(log_level(9, 1), LogLevel::Trace);
    assert_eq!(log_level(0, 1), LogLevel::Error);
    assert_eq!(log_level(0, 2), LogLevel::Off);
    assert_eq!(log_level(3, 3), LogLevel::Warn);
}
