//! Cycles a desktop wallpaper through a directory of images: the directory
//! scan, the choice of the next image and the small rules around them.

pub mod order;
pub mod candidates;
pub mod scan;
pub mod error;
pub mod select;
pub mod desktop;
pub mod verbosity;
