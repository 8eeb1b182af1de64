//! Multi-taxonomy support (tags, categories, difficulty, ...).
//!
//! Each page declares its values in front matter under the matching key; the
//! site declares which keys are taxonomies and the contributed Typst module
//! emits an index and a term page for each of them at evaluation time.
use vstd::prelude::*;

use crate::plugin::{lemma_library_paths_are_simple, overlay_add, Plugin, PluginError, RenderOutput, TypstOverlay};
use crate::manifest::SiteManifest;

verus! {

/// The multi-taxonomy Typst module, materialized into
/// `lib/typost/taxonomies.typ`.
pub const TAXONOMIES_TYP: &'static str = r#"// Multi-taxonomy support (tags, categories, difficulty, ...).
//
// A page's taxonomies live in its front matter. The site declares the
// taxonomies it wants as `(key, route, title)` records and calls
// `render-taxonomies` from its entry; the theme uses `term-links` to render a
// page's terms.

/// Slugify a term for use in a route.
#let slug(name) = lower(name).replace(" ", "-")

/// Coerce a front-matter value into an array of terms.
#let as-terms(value) = {
  if value == none { () }
  else if type(value) == array { value }
  else { (value,) }
}

/// The links for one page's terms, as an array of `(route, name)` records.
#let term-links(data, specs) = {
  let items = ()
  for spec in specs {
    for term in as-terms(data.at(spec.key, default: none)) {
      items += ((route: spec.route + "/" + slug(term) + "/", name: term),)
    }
  }
  items
}

/// Emit the index and term pages for every declared taxonomy.
///
/// `specs` is an array of `(key, route, title)` records. `render` is called as
/// `render(route, title, body)`.
#let render-taxonomies(specs, render) = context {
  let pages = query(metadata).filter(m => {
    let v = m.value
    type(v) == dictionary and "typost" in v and v.typost.kind == "page"
  }).map(m => m.value.typost)

  for spec in specs {
    // Group the pages by this taxonomy's terms.
    let groups = (:)
    for page in pages {
      for term in as-terms(page.data.at(spec.key, default: none)) {
        groups.insert(term, groups.at(term, default: ()) + (page,))
      }
    }
    let names = groups.keys().sorted()

    // The taxonomy index lists every term and its page count.
    render(spec.route + "/index.html", spec.title, html.elem(
      "ul",
      attrs: (class: "taxonomy-terms"),
      [
        #for name in names [
          #html.elem("li", [
            #html.elem("a", attrs: (href: "/" + spec.route + "/" + slug(name) + "/"), [#name])
            #html.elem("span", attrs: (class: "count"), [#groups.at(name).len()])
          ])
        ]
      ],
    ))

    // One page per term, listing the pages that carry it.
    for name in names {
      render(spec.route + "/" + slug(name) + "/index.html", name, html.elem(
        "ul",
        attrs: (class: "content-list"),
        [
          #for page in groups.at(name) [
            #html.elem("li", attrs: (class: "title-list"), [
              #html.elem("a", attrs: (href: "/" + page.route, class: "content-link"), [
                #page.data.at("title", default: "")
              ])
            ])
          ]
        ],
      ))
    }
  }
}
"#;

/// Contributes the multi-taxonomy Typst module.
pub struct Taxonomies;

impl Taxonomies {
    /// Create the plugin.
    pub fn new() -> (r: Self) {
        Taxonomies
    }
}

impl Default for Taxonomies {
    fn default() -> (r: Self)
        ensures
            r == Taxonomies,
    {
        Taxonomies
    }
}

impl Plugin for Taxonomies {
    open spec fn typst_effect(
        &self,
        before: Seq<(Seq<char>, Seq<char>)>,
        after: Seq<(Seq<char>, Seq<char>)>,
        r: Result<(), PluginError>,
    ) -> bool {
        r is Ok && after == overlay_add(before, "lib/typost/taxonomies.typ"@, TAXONOMIES_TYP@)
    }

    fn prepare(&self, manifest: &mut SiteManifest) -> (r: Result<(), PluginError>) {
        Ok(())
    }

    fn post(&self, out: &mut RenderOutput, manifest: &SiteManifest) -> (r: Result<(), PluginError>) {
        Ok(())
    }

    fn name(&self) -> (r: &str)
        ensures
            r@ == "taxonomies"@,
    {
        "taxonomies"
    }

    fn typst(&self, overlay: &mut TypstOverlay) -> (r: Result<(), PluginError>)
        ensures
            r is Ok,
            final(overlay)@ == overlay_add(old(overlay)@, "lib/typost/taxonomies.typ"@, TAXONOMIES_TYP@),
    {
        proof {
            lemma_library_paths_are_simple();
        }
        overlay.add("lib/typost/taxonomies.typ", TAXONOMIES_TYP);
        Ok(())
    }
}

} // verus!
