//! Two errands of a review pane: opening a link in the user's browser, and listing the files of a
//! directory that is not in any repository.
//!
//! The library decides and computes; starting programs and reading directories is left to the
//! caller, which answers what the library asks.
//!
//! - `browser` guards URLs and builds the command line of a configured opener, with `editor`,
//!   `markdown` and `text` below it; `launch` holds the steps of opening a URL.
//! - `walk` holds the steps of listing a directory, with `path`, `path_set`, `git` and `order`
//!   below it.
//! - `text_laws`, `editor_laws`, `browser_laws`, `launch_laws`, `path_laws`, `order_laws`,
//!   `walk_laws` and `listing_laws` state what holds of every call: of what comes out in terms of
//!   what went in, and of several calls together.
pub mod browser;
pub mod browser_laws;
pub mod editor;
pub mod editor_laws;
pub mod git;
pub mod launch;
pub mod launch_laws;
pub mod listing_laws;
pub mod markdown;
pub mod order;
pub mod order_laws;
pub mod path;
pub mod path_laws;
pub mod path_set;
pub mod text;
pub mod text_laws;
pub mod walk;
pub mod walk_laws;
