//! A `sitemap.xml` plugin.
use vstd::prelude::*;
use vstd::utf8::encode_utf8;

use crate::keyed::insert_sorted;
use crate::manifest::SiteManifest;
use crate::markup::{push_xml_escaped, xml_escape};
use crate::plugin::{Plugin, PluginError, RenderOutput, TypstOverlay};
use crate::text::{
    append_chars, append_str, chars_of, contains, encode_utf8_chars, ends_with, ends_with_in,
    lemma_contains_at, trim_end, trim_end_in, trim_start, trim_start_in,
};

verus! {

broadcast use vstd::seq::group_seq_axioms;

/// The opening of the sitemap document.
pub open spec fn sitemap_head() -> Seq<char> {
    "<?xml version=\"1.0\" encoding=\"UTF-8\"?>\n<urlset xmlns=\"http://www.sitemaps.org/schemas/sitemap/0.9\">\n"@
}

/// The `<url>` line of one output path.
pub open spec fn url_line(base: Seq<char>, path: Seq<char>) -> Seq<char> {
    "  <url><loc>"@ + xml_escape(base + "/"@ + trim_start(path, '/')) + "</loc></url>\n"@
}

/// One `<url>` line per HTML page among `files`, in path order.
pub open spec fn url_lines(files: Seq<(Seq<char>, Seq<u8>)>, base: Seq<char>) -> Seq<char>
    decreases files.len(),
{
    if files.len() == 0 {
        Seq::empty()
    } else {
        url_lines(files.drop_last(), base) + if ends_with(files.last().0, ".html"@) {
            url_line(base, files.last().0)
        } else {
            Seq::empty()
        }
    }
}

/// The sitemap of the rendered files for a site at `base_url`.
pub open spec fn sitemap_xml(files: Seq<(Seq<char>, Seq<u8>)>, base_url: Seq<char>) -> Seq<char> {
    sitemap_head() + url_lines(files, trim_end(base_url, '/')) + "</urlset>\n"@
}

/// The lines of a prefix are a prefix of the lines.
proof fn lemma_url_lines_prefix(files: Seq<(Seq<char>, Seq<u8>)>, base: Seq<char>, k: int)
    requires
        0 <= k <= files.len(),
    ensures
        url_lines(files, base).subrange(0, url_lines(files.take(k), base).len() as int) == url_lines(
            files.take(k),
            base,
        ),
        url_lines(files.take(k), base).len() <= url_lines(files, base).len(),
    decreases files.len() - k,
{
    if k < files.len() {
        lemma_url_lines_prefix(files, base, k + 1);
        assert(files.take(k + 1).drop_last() =~= files.take(k));
        let a = url_lines(files.take(k), base);
        let b = url_lines(files.take(k + 1), base);
        assert(b.subrange(0, a.len() as int) =~= a);
    } else {
        assert(files.take(k) =~= files);
    }
}

/// Every rendered HTML page gets a `<url>` line in the sitemap.
pub proof fn lemma_every_page_listed(files: Seq<(Seq<char>, Seq<u8>)>, base_url: Seq<char>, i: int)
    requires
        0 <= i < files.len(),
        ends_with(files[i].0, ".html"@),
    ensures
        contains(sitemap_xml(files, base_url), url_line(trim_end(base_url, '/'), files[i].0)),
{
    let base = trim_end(base_url, '/');
    lemma_url_lines_prefix(files, base, i + 1);
    assert(files.take(i + 1).drop_last() =~= files.take(i));
    assert(files.take(i + 1).last() == files[i]);
    let a = url_lines(files.take(i), base);
    let line = url_line(base, files[i].0);
    let all = url_lines(files, base);
    let b = url_lines(files.take(i + 1), base);
    assert(b =~= a + line);
    assert(all.subrange(0, b.len() as int) == b);
    assert forall|j: int| 0 <= j < line.len() implies all[a.len() + j] == line[j] by {
        assert(all.subrange(0, b.len() as int)[a.len() + j] == b[a.len() + j]);
    }
    assert(all.subrange(a.len() as int, (a.len() + line.len()) as int) =~= line);
    let x = sitemap_xml(files, base_url);
    let at: int = (sitemap_head().len() + a.len()) as int;
    assert(x.subrange(at, at + line.len()) =~= line);
    lemma_contains_at(x, line, at);
}

/// The sitemap lists a file exactly when its path ends with `.html`, in
/// file order: with no files it lists nothing; one more file whose path does
/// not end with `.html` adds nothing; one more whose path does adds its
/// `<url>` line, and only that, after the others.
pub proof fn lemma_sitemap_lists_html_only(
    files: Seq<(Seq<char>, Seq<u8>)>,
    path: Seq<char>,
    bytes: Seq<u8>,
    base: Seq<char>,
)
    ensures
        url_lines(Seq::empty(), base) == Seq::<char>::empty(),
        !ends_with(path, ".html"@) ==> url_lines(files.push((path, bytes)), base) == url_lines(files, base),
        ends_with(path, ".html"@) ==> url_lines(files.push((path, bytes)), base) == url_lines(files, base)
            + "  <url><loc>"@ + xml_escape(base + "/"@ + trim_start(path, '/')) + "</loc></url>\n"@,
{
    let f = files.push((path, bytes));
    assert(f.drop_last() =~= files);
    assert(f.last() == (path, bytes));
    if !ends_with(path, ".html"@) {
        assert(url_lines(files, base) + Seq::<char>::empty() =~= url_lines(files, base));
    } else {
        assert(url_lines(files, base) + url_line(base, path) =~= url_lines(files, base) + "  <url><loc>"@
            + xml_escape(base + "/"@ + trim_start(path, '/')) + "</loc></url>\n"@);
    }
}

/// A sitemap over files none of whose paths ends with `.html` lists no page.
pub proof fn lemma_sitemap_without_pages(files: Seq<(Seq<char>, Seq<u8>)>, base: Seq<char>)
    requires
        forall|i: int| 0 <= i < files.len() ==> !ends_with(#[trigger] files[i].0, ".html"@),
    ensures
        url_lines(files, base) == Seq::<char>::empty(),
    decreases files.len(),
{
    if files.len() > 0 {
        let t = files.drop_last();
        assert forall|i: int| 0 <= i < t.len() implies !ends_with(#[trigger] t[i].0, ".html"@) by {
            assert(t[i] == files[i]);
        }
        lemma_sitemap_without_pages(t, base);
        assert(!ends_with(files[files.len() - 1].0, ".html"@));
        assert(Seq::<char>::empty() + Seq::<char>::empty() =~= Seq::<char>::empty());
    }
}

/// Emits `sitemap.xml` listing every rendered HTML page.
///
/// This is a `post`-stage plugin. It reads the routes out of the rendered
/// output rather than the manifest so that pages produced during render (for
/// example the ones the taxonomy module generates inside a `context`) are
/// included too.
pub struct Sitemap {
    base_url: String,
}

impl View for Sitemap {
    type V = Seq<char>;

    /// The site's base URL.
    closed spec fn view(&self) -> Seq<char> {
        self.base_url@
    }
}

impl Sitemap {
    /// Create a sitemap plugin with the site's base URL (no trailing slash
    /// needed).
    pub fn new(base_url: &str) -> (r: Self)
        ensures
            r@ == base_url@,
    {
        Sitemap { base_url: base_url.to_owned() }
    }
}

impl Plugin for Sitemap {
    open spec fn post_effect(
        &self,
        before: Seq<(Seq<char>, Seq<u8>)>,
        manifest: SiteManifest,
        after: Seq<(Seq<char>, Seq<u8>)>,
        r: Result<(), PluginError>,
    ) -> bool {
        r is Ok && after == insert_sorted(before, "sitemap.xml"@, encode_utf8(sitemap_xml(before, self@)))
    }

    fn typst(&self, overlay: &mut TypstOverlay) -> (r: Result<(), PluginError>) {
        Ok(())
    }

    fn prepare(&self, manifest: &mut SiteManifest) -> (r: Result<(), PluginError>) {
        Ok(())
    }

    fn name(&self) -> (r: &str)
        ensures
            r@ == "sitemap"@,
    {
        "sitemap"
    }

    fn post(&self, out: &mut RenderOutput, manifest: &SiteManifest) -> (r: Result<(), PluginError>)
        ensures
            r is Ok,
            final(out)@ == insert_sorted(
                old(out)@,
                "sitemap.xml"@,
                encode_utf8(sitemap_xml(old(out)@, self@)),
            ),
    {
        let base = trim_end_in(&chars_of(self.base_url.as_str()), '/');
        let html = chars_of(".html");
        let slash = chars_of("/");
        let mut xml: Vec<char> = Vec::new();
        append_str(&mut xml, "<?xml version=\"1.0\" encoding=\"UTF-8\"?>\n<urlset xmlns=\"http://www.sitemaps.org/schemas/sitemap/0.9\">\n");
        let n = out.len();
        let ghost files = out@;
        let mut i: usize = 0;
        assert(files.take(0) =~= Seq::<(Seq<char>, Seq<u8>)>::empty());
        while i < n
            invariant
                n == files.len(),
                files == out@,
                i <= n,
                html@ == ".html"@,
                slash@ == "/"@,
                base@ == trim_end(self@, '/'),
                xml@ == sitemap_head() + url_lines(files.take(i as int), base@),
            decreases n - i,
        {
            let path = chars_of(out.path_at(i));
            assert(files.take(i as int + 1).drop_last() =~= files.take(i as int));
            if ends_with_in(&path, &html) {
                let mut loc: Vec<char> = Vec::new();
                append_chars(&mut loc, &base);
                append_chars(&mut loc, &slash);
                let rest = trim_start_in(&path, '/');
                append_chars(&mut loc, &rest);
                append_str(&mut xml, "  <url><loc>");
                push_xml_escaped(&mut xml, &loc);
                append_str(&mut xml, "</loc></url>\n");
            }
            i = i + 1;
        }
        append_str(&mut xml, "</urlset>\n");
        assert(files.take(n as int) =~= files);
        let bytes = encode_utf8_chars(&xml);
        out.insert("sitemap.xml", bytes);
        Ok(())
    }
}

} // verus!
