//! A Typst-driven static site generator: the build's data model, its
//! plugin seams, and the first-party plugins.
use vstd::prelude::*;

pub mod config;
pub mod encrypt;
pub mod feed;
pub mod keyed;
pub mod manifest;
pub mod markup;
pub mod plugin;
pub mod site;
pub mod sitemap;
pub mod spoiler;
pub mod stdlib;
pub mod taxonomies;
pub mod text;

verus! {

} // verus!
