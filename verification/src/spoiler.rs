//! Hover-to-reveal spoilers.
//!
//! Contributes `lib/typost/spoiler.typ` with `#spoiler[...]`, and injects the
//! (small) stylesheet into every page that uses one. The style is themed
//! through CSS variables so a site can restyle it without touching the plugin.
use vstd::prelude::*;
use vstd::utf8::{decode_utf8, encode_utf8, valid_utf8};

use crate::manifest::SiteManifest;
use crate::plugin::{lemma_library_paths_are_simple, overlay_add, Plugin, PluginError, RenderOutput, TypstOverlay};
use crate::text::{
    append_range, append_str, chars_of, contains, contains_in, decode_utf8_chars,
    encode_utf8_chars, ends_with, ends_with_in, lemma_contains_at, lemma_encode_decode, lemma_rfind,
    occurs_at, rfind, rfind_in,
};

verus! {

broadcast use vstd::seq::group_seq_axioms;

/// The plugin's Typst helper, materialized into `lib/typost/spoiler.typ`.
pub const SPOILER_TYP: &'static str = r#"
/// Hide `body` behind a spoiler, revealed on hover or keyboard focus.
///
/// ```typst
/// The butler did it: #spoiler[Colonel Mustard, in the library].
/// ```
///
/// Pass `block: true` to hide a block (paragraphs, lists, ...) rather than an
/// inline run.
#let spoiler(body, block: false) = html.elem(
  if block { "div" } else { "span" },
  body,
  attrs: (class: "typost-spoiler", tabindex: "0"),
)
"#;

/// The stylesheet injected into pages that use a spoiler. The variables fall
/// back to gruvbox-material values so the plugin works on any theme.
pub const SPOILER_CSS: &'static str = ".typost-spoiler{color:transparent;background:var(--spoiler-bg,rgba(146,131,116,.3));border-radius:.25em;padding:0 .3em;cursor:help;transition:color .15s ease,background-color .15s ease;-webkit-user-select:none;user-select:none}.typost-spoiler:hover,.typost-spoiler:focus-visible{color:inherit;background:var(--spoiler-bg-revealed,transparent);-webkit-user-select:text;user-select:text}";

/// The class put on the rendered spoiler element.
pub open spec fn spoiler_class() -> Seq<char> {
    "typost-spoiler"@
}

/// The class put on the injected `<style>`, which keeps the plugin
/// idempotent.
pub open spec fn style_class() -> Seq<char> {
    "typost-spoiler-style"@
}

/// The injected `<style>` element.
pub open spec fn style_block() -> Seq<char> {
    "<style class=\""@ + style_class() + "\">"@ + SPOILER_CSS@ + "</style>"@
}

/// A page uses a spoiler, has no injected style yet, and has a `</head>`.
pub open spec fn page_needs_style(h: Seq<char>) -> bool {
    &&& contains(h, spoiler_class())
    &&& !contains(h, style_class())
    &&& rfind(h, "</head>"@) is Some
}

/// The page with the style inserted before its last `</head>`.
pub open spec fn with_spoiler_style(h: Seq<char>) -> Seq<char> {
    let at = rfind(h, "</head>"@)->0;
    h.take(at) + style_block() + h.skip(at)
}

/// One output file after the plugin ran: HTML pages that use a spoiler get
/// the stylesheet; everything else is left as it was.
pub open spec fn spoiler_file(path: Seq<char>, bytes: Seq<u8>) -> Seq<u8> {
    if ends_with(path, ".html"@) && valid_utf8(bytes) && page_needs_style(decode_utf8(bytes)) {
        encode_utf8(with_spoiler_style(decode_utf8(bytes)))
    } else {
        bytes
    }
}

/// The output files after the plugin ran.
pub open spec fn spoiler_files(files: Seq<(Seq<char>, Seq<u8>)>) -> Seq<(Seq<char>, Seq<u8>)> {
    files.map_values(|e: (Seq<char>, Seq<u8>)| (e.0, spoiler_file(e.0, e.1)))
}

/// A styled page holds the style class, so it is not styled again.
pub proof fn lemma_styled_page_is_final(h: Seq<char>)
    requires
        page_needs_style(h),
    ensures
        !page_needs_style(with_spoiler_style(h)),
{
    lemma_rfind(h, "</head>"@);
    let at = rfind(h, "</head>"@)->0;
    let g = with_spoiler_style(h);
    reveal_strlit("<style class=\"");
    let prefix_len = "<style class=\""@.len();
    assert(g.subrange(at + prefix_len, at + prefix_len + style_class().len()) =~= style_class());
    lemma_contains_at(g, style_class(), at + prefix_len);
}

/// Running the plugin twice gives what running it once gives.
pub proof fn lemma_spoiler_idempotent(files: Seq<(Seq<char>, Seq<u8>)>)
    ensures
        spoiler_files(spoiler_files(files)) == spoiler_files(files),
{
    let once = spoiler_files(files);
    assert forall|i: int| 0 <= i < once.len() implies spoiler_file(
        (#[trigger] once[i]).0,
        once[i].1,
    ) == once[i].1 by {
        let (p, b) = files[i];
        if ends_with(p, ".html"@) && valid_utf8(b) && page_needs_style(decode_utf8(b)) {
            let h = decode_utf8(b);
            lemma_encode_decode(with_spoiler_style(h));
            lemma_styled_page_is_final(h);
        }
    }
    assert(spoiler_files(once) =~= once);
}

/// The plugin styles exactly the HTML pages that use a spoiler: a `.html`
/// file that is UTF-8, mentions `typost-spoiler` anywhere, holds no
/// `typost-spoiler-style` yet and has a `</head>` gets the spoiler style
/// sheet right before its last `</head>`; every other file keeps its bytes.
pub proof fn lemma_spoiler_styles_pages(path: Seq<char>, bytes: Seq<u8>)
    ensures
        ({
            let h = decode_utf8(bytes);
            if ends_with(path, ".html"@) && valid_utf8(bytes) && contains(h, "typost-spoiler"@) && !contains(
                h,
                "typost-spoiler-style"@,
            ) && rfind(h, "</head>"@) is Some {
                let at = rfind(h, "</head>"@)->0;
                spoiler_file(path, bytes) == encode_utf8(
                    h.take(at) + "<style class=\"typost-spoiler-style\">"@ + SPOILER_CSS@ + "</style>"@ + h.skip(at),
                )
            } else {
                spoiler_file(path, bytes) == bytes
            }
        }),
{
    reveal_strlit("<style class=\"typost-spoiler-style\">");
    reveal_strlit("<style class=\"");
    reveal_strlit("typost-spoiler-style");
    reveal_strlit("\">");
    assert("<style class=\"typost-spoiler-style\">"@ =~= "<style class=\""@ + style_class() + "\">"@);
    let h = decode_utf8(bytes);
    if rfind(h, "</head>"@) is Some {
        let at = rfind(h, "</head>"@)->0;
        assert(h.take(at) + "<style class=\"typost-spoiler-style\">"@ + SPOILER_CSS@ + "</style>"@ + h.skip(at)
            =~= h.take(at) + style_block() + h.skip(at));
    }
}

/// Pages the plugin styles are exactly those it is run on: running it over
/// all output files styles each file as the previous law says and keeps
/// every path.
pub proof fn lemma_spoiler_files_by_file(files: Seq<(Seq<char>, Seq<u8>)>, i: int)
    requires
        0 <= i < files.len(),
    ensures
        spoiler_files(files).len() == files.len(),
        spoiler_files(files)[i] == (files[i].0, spoiler_file(files[i].0, files[i].1)),
{
}

/// A plugin that hides content until it is hovered (or focused).
pub struct Spoiler;

impl Spoiler {
    /// Create the plugin.
    pub fn new() -> (r: Self) {
        Spoiler
    }
}

impl Default for Spoiler {
    fn default() -> (r: Self)
        ensures
            r == Spoiler,
    {
        Spoiler
    }
}

/// The page with the stylesheet, if it needs one.
fn style_page(h: &[char]) -> (r: Option<Vec<char>>)
    ensures
        r matches Some(v) ==> page_needs_style(h@) && v@ == with_spoiler_style(h@),
        r is None ==> !page_needs_style(h@),
{
    let class = chars_of("typost-spoiler");
    let style = chars_of("typost-spoiler-style");
    let head = chars_of("</head>");
    if !contains_in(h, &class) || contains_in(h, &style) {
        return None;
    }
    let at = match rfind_in(h, &head) {
        Some(at) => at,
        None => return None,
    };
    proof {
        lemma_rfind(h@, head@);
    }
    let mut v: Vec<char> = Vec::new();
    append_range(&mut v, h, 0, at);
    append_str(&mut v, "<style class=\"");
    append_str(&mut v, "typost-spoiler-style");
    append_str(&mut v, "\">");
    append_str(&mut v, SPOILER_CSS);
    append_str(&mut v, "</style>");
    append_range(&mut v, h, at, h.len());
    assert(v@ =~= with_spoiler_style(h@));
    Some(v)
}

impl Plugin for Spoiler {
    open spec fn typst_effect(
        &self,
        before: Seq<(Seq<char>, Seq<char>)>,
        after: Seq<(Seq<char>, Seq<char>)>,
        r: Result<(), PluginError>,
    ) -> bool {
        r is Ok && after == overlay_add(before, "lib/typost/spoiler.typ"@, SPOILER_TYP@)
    }

    open spec fn post_effect(
        &self,
        before: Seq<(Seq<char>, Seq<u8>)>,
        manifest: SiteManifest,
        after: Seq<(Seq<char>, Seq<u8>)>,
        r: Result<(), PluginError>,
    ) -> bool {
        r is Ok && after == spoiler_files(before)
    }

    fn prepare(&self, manifest: &mut SiteManifest) -> (r: Result<(), PluginError>) {
        Ok(())
    }

    fn name(&self) -> (r: &str)
        ensures
            r@ == "spoiler"@,
    {
        "spoiler"
    }

    fn typst(&self, overlay: &mut TypstOverlay) -> (r: Result<(), PluginError>)
        ensures
            r is Ok,
            final(overlay)@ == overlay_add(old(overlay)@, "lib/typost/spoiler.typ"@, SPOILER_TYP@),
    {
        proof {
            lemma_library_paths_are_simple();
        }
        overlay.add("lib/typost/spoiler.typ", SPOILER_TYP);
        Ok(())
    }

    fn post(&self, out: &mut RenderOutput, manifest: &SiteManifest) -> (r: Result<(), PluginError>)
        ensures
            r is Ok,
            final(out)@ == spoiler_files(old(out)@),
    {
        let html = chars_of(".html");
        let ghost before = out@;
        let n = out.len();
        let mut i: usize = 0;
        while i < n
            invariant
                n == before.len(),
                i <= n,
                html@ == ".html"@,
                out@.len() == n,
                forall|j: int| 0 <= j < i ==> #[trigger] out@[j] == spoiler_files(before)[j],
                forall|j: int| i <= j < n ==> #[trigger] out@[j] == before[j],
            decreases n - i,
        {
            let path = chars_of(out.path_at(i));
            let mut replacement: Option<Vec<u8>> = None;
            if ends_with_in(&path, &html) {
                if let Some(h) = decode_utf8_chars(out.bytes_at(i)) {
                    if let Some(styled) = style_page(&h) {
                        replacement = Some(encode_utf8_chars(&styled));
                    }
                }
            }
            match replacement {
                Some(bytes) => {
                    out.set_bytes_at(i, bytes);
                },
                None => {},
            }
            assert(out@[i as int] == spoiler_files(before)[i as int]);
            i = i + 1;
        }
        assert(out@ =~= spoiler_files(before));
        Ok(())
    }
}

} // verus!
