# typost

A static site generator that treats Typst as the site's authoring and
structure language, with compile-time Rust plugins. The library is verified
with Verus; the command-line program around it is ordinary Rust.

## Layout

- `src/` — the verified library.
  - `manifest.rs`: front matter, the site manifest, and collecting it from
    evaluated content.
  - `plugin.rs`: the Typst overlay (sources keyed by normalised path), the
    render output (files in path order), and the `Plugin` trait.
  - `site.rs`: build options, the plugin stages, turning exported files into
    the render output, and endnote relocation.
  - `config.rs`: `typost.toml` and the plugin list it selects.
  - `stdlib.rs`: the core Typst stdlib and where it goes in the overlay.
  - `encrypt.rs`, `feed.rs`, `sitemap.rs`, `spoiler.rs`, `taxonomies.rs`: the
    first-party plugins.
  - `text.rs`, `markup.rs`, `keyed.rs`: string search, escaping, and
    key-ordered sequences shared by the rest.
- `tests/` — tests of the library.
- `app/` — the `typost` program: the command line, reading `typost.toml`, the
  Typst world, evaluation and rendering, and writing files.

## Pipeline

```
Config ─▶ typst(plugins) ─▶ eval-only ─▶ prepare(plugins) ─▶ render Bundle ─▶ post(plugins) ─▶ emit
```

Plugins run in registration order at each seam; the first failure stops the
build. Every plugin implements all three stages, each with a relation that
says exactly what it does there; a plugin with nothing to do at a stage
returns `Ok(())` and keeps the provided relation (succeed, change nothing).
The stage runners state that each plugin that ran did what its relation
says, in order, so no plugin can be skipped.

## Collections

The path-keyed maps of the build are kept as sequences whose model Verus can
reason about:

- `RenderOutput` holds the rendered files as a `Vec` of `(path, bytes)` pairs
  in increasing path order, with no path twice: the order and lookups of a
  `BTreeMap<String, _>`. vstd specifies no `String`-keyed map whose contents
  Verus can follow through an insert.
- `TypstOverlay` holds the Typst sources as a `Vec` of `(path, source)`
  pairs with distinct keys, in insertion order. The keys are typst's
  normalised virtual paths, read back as strings; a `VirtualPath` is an
  outside type whose contents Verus cannot see, so it cannot key a map in
  the library.
- A front-matter dictionary is a `Vec` of `(key, value)` bindings in source
  order; a later binding of a key shadows an earlier one, as when a map is
  built from the pairs in order. Lookups follow that rule; the derived `==`
  compares the bindings as written.
