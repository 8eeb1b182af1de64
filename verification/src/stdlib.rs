//! The core Typst stdlib that every build carries.
//!
//! Its source is materialized into a project's `lib/` directory so entries
//! can import it by relative path, which keeps plain `typst compile`,
//! Tinymist and offline builds working; builds also carry it in the
//! in-memory overlay.
use vstd::prelude::*;

use crate::plugin::{lemma_library_paths_are_simple, overlay_add, TypstOverlay};

verus! {

/// Where the stdlib lives, relative to the project root.
pub const STDLIB_PATH: &'static str = "lib/typost.typ";

/// The stdlib source, materialized into [`STDLIB_PATH`].
pub const STDLIB_TYP: &'static str = r#"/// typost's core helpers: the site and page markers every site is built from.
///
/// Each helper wraps its descriptor in a `metadata((typost: (...)))` value;
/// the build collects them before rendering.

/// Declare the site. Its `title` becomes the site title.
///
/// ```typst
/// #site(title: "Example")
/// ```
#let site(title: none) = metadata((typost: (kind: "site", title: title)))

/// The content region of a page: the part that content-scoped plugins
/// (encryption, feeds) work on. Theme chrome stays outside it.
#let content-region(body) = html.elem("main", body, attrs: (id: "typost-content"))

/// A page of the site, used as a selectorless show rule:
///
/// ```typst
/// #show: page.with(route: "blog/hello/index.html", title: "Hello", date: "2026-01-01")
/// ...content flows...
/// ```
///
/// `route` is the output path. The layout, if given, is called as
/// `layout(route, data, content)` with the content already wrapped in the
/// content region. Every other named argument, with `title` and `tags`,
/// becomes the page's front matter.
#let page(route: none, title: none, layout: none, tags: (), ..args, body) = {
  assert(route != none, message: "page: a `route` is required")
  let data = args.named() + (title: title, tags: tags)
  let region = content-region(body)
  document(route, title: title, {
    metadata((typost: (kind: "page", route: route, data: data)))
    if layout == none { region } else { layout(route, data, region) }
  })
}
"#;

/// Add the stdlib to an overlay, under [`STDLIB_PATH`].
pub fn add_to(overlay: &mut TypstOverlay)
    ensures
        final(overlay)@ == overlay_add(old(overlay)@, STDLIB_PATH@, STDLIB_TYP@),
{
    proof {
        lemma_library_paths_are_simple();
    }
    overlay.add(STDLIB_PATH, STDLIB_TYP);
}

} // verus!
