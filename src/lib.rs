//! Discovery of the icons that a web page names for itself: favicons, Apple
//! touch icons, Open Graph images and Windows tile images.
//!
//! The library scans markup for candidate references, resolves them against
//! the page's address, keeps one of each address, and reads pixel sizes from
//! the first bytes of each image. Fetching pages and image prefixes is left
//! to the caller.

pub mod image;
pub mod laws;
pub mod markup;
pub mod resolve;

pub use image::{IconError, ImageLink};
pub use imagesize::ImageType;
pub use markup::{analyze_content, analyze_location, check_start_elem, extract, Attribute, Element};
pub use resolve::{page_url, probe_targets, resolve_candidates};
