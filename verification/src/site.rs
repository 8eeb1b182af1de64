//! The pipeline's own decisions: build options, the plugin stages, turning
//! exported files into the render output, and typost's HTML normalization.
use vstd::prelude::*;
use vstd::utf8::{decode_utf8, encode_utf8, valid_utf8};

use crate::keyed::{insert_sorted, lemma_insert_sorted, lookup, sorted_by_key};
use crate::manifest::{ManifestView, SiteManifest};
use crate::plugin::{Plugin, PluginError, RenderOutput, TypstOverlay};
use crate::text::{
    append_range, append_str, chars_of, decode_utf8_chars, encode_utf8_chars, ends_with, ends_with_in, find,
    find_from, lemma_find_from_nonneg, lemma_occurrence_found, lemma_rfind, matches_at, occurs_at, rfind, rfind_in,
    string_of, trim_start, trim_start_in,
};

verus! {

broadcast use vstd::seq::group_seq_axioms;

/// `PathBuf::from`.
#[verifier::external_body]
fn path_buf(s: &str) -> std::path::PathBuf {
    std::path::PathBuf::from(s)
}

/// Inputs for a build.
#[derive(Debug, Clone)]
pub struct BuildOptions {
    /// The project root.
    pub root: std::path::PathBuf,
    /// The entry file, relative to the root.
    pub entry: String,
    /// The output directory.
    pub out: std::path::PathBuf,
}

impl Default for BuildOptions {
    /// Root `.`, entry `home.typ`, output `dist`.
    fn default() -> (r: Self)
        ensures
            r.entry@ == "home.typ"@,
    {
        BuildOptions { root: path_buf("."), entry: "home.typ".to_owned(), out: path_buf("dist") }
    }
}

/// A configured site: build options plus a compile-time plugin list.
///
/// Plugins run in registration order, at each of their three seams.
pub struct Site {
    options: BuildOptions,
    plugins: Vec<Box<dyn Plugin>>,
}

impl Site {
    /// The build options.
    pub closed spec fn spec_options(&self) -> BuildOptions {
        self.options
    }

    /// The registered plugins, in registration order.
    pub closed spec fn spec_plugins(&self) -> Seq<Box<dyn Plugin>> {
        self.plugins@
    }

    /// Create a site with the given build options and no plugins.
    pub fn new(options: BuildOptions) -> (r: Self)
        ensures
            r.spec_options() == options,
            r.spec_plugins().len() == 0,
    {
        Site { options, plugins: Vec::new() }
    }

    /// Register a plugin. Plugins run in registration order.
    pub fn plugin<P: Plugin + 'static>(self, plugin: P) -> (r: Self)
        ensures
            r.spec_options() == self.spec_options(),
            r.spec_plugins().len() == self.spec_plugins().len() + 1,
            r.spec_plugins().take(self.spec_plugins().len() as int) == self.spec_plugins(),
    {
        let Site { options, mut plugins } = self;
        let ghost before = plugins@;
        let boxed: Box<dyn Plugin> = Box::new(plugin);
        plugins.push(boxed);
        assert(plugins@ == before.push(boxed));
        proof {
            // Sequences of trait objects get these facts only by name.
            let n = before.len() as int;
            vstd::seq::axiom_seq_push_len(before, boxed);
            vstd::seq::axiom_seq_subrange_len(plugins@, 0, n);
            assert forall|i: int| 0 <= i < n implies plugins@.take(n)[i] == before[i] by {
                vstd::seq::axiom_seq_subrange_index(plugins@, 0, n, i);
                vstd::seq::axiom_seq_push_index_different(before, boxed, i);
            }
            vstd::seq::axiom_seq_ext_equal(plugins@.take(n), before);
        }
        Site { options, plugins }
    }

    /// The build options.
    pub fn options(&self) -> (r: &BuildOptions)
        ensures
            *r == self.spec_options(),
    {
        &self.options
    }

    /// The registered plugins, in registration order.
    pub fn plugins(&self) -> (r: &[Box<dyn Plugin>])
        ensures
            r@ == self.spec_plugins(),
    {
        self.plugins.as_slice()
    }
}

impl Default for Site {
    /// The default build options and no plugins.
    fn default() -> (r: Self)
        ensures
            r.spec_options().entry@ == "home.typ"@,
            r.spec_plugins().len() == 0,
    {
        Site::new(BuildOptions::default())
    }
}

/// The three plugin seams of the pipeline.
#[derive(Debug, Clone, Copy, PartialEq, Eq)]
pub enum Stage {
    /// Contributing Typst sources before evaluation.
    Typst,
    /// Mutating the manifest before rendering.
    Prepare,
    /// Transforming the rendered files.
    Post,
}

/// A plugin failed in one of its stages.
#[derive(Debug)]
pub struct StageError {
    /// The failing plugin's position in registration order.
    pub index: usize,
    /// The failing plugin's name.
    pub plugin: String,
    /// The stage it failed in.
    pub stage: Stage,
    /// What it reported.
    pub error: PluginError,
}

/// The name of a stage.
pub open spec fn stage_name(stage: Stage) -> Seq<char> {
    match stage {
        Stage::Typst => "typst"@,
        Stage::Prepare => "prepare"@,
        Stage::Post => "post"@,
    }
}

/// What a stage failure says, before the plugin's own message.
pub open spec fn stage_message(e: StageError) -> Seq<char> {
    "plugin `"@ + e.plugin@ + "` failed in its `"@ + stage_name(e.stage) + "` stage"@
}

impl StageError {
    /// What the failure says, before the plugin's own message.
    pub fn message(&self) -> (r: String)
        ensures
            r@ == stage_message(*self),
    {
        let mut v: Vec<char> = Vec::new();
        append_str(&mut v, "plugin `");
        append_str(&mut v, self.plugin.as_str());
        append_str(&mut v, "` failed in its `");
        match self.stage {
            Stage::Typst => append_str(&mut v, "typst"),
            Stage::Prepare => append_str(&mut v, "prepare"),
            Stage::Post => append_str(&mut v, "post"),
        }
        append_str(&mut v, "` stage");
        string_of(&v)
    }
}

/// How a stage ended, given what the plugins that ran returned: `Ok` when
/// all `n` plugins ran and succeeded, otherwise the error of the last one
/// that ran, with its position.
pub open spec fn stage_outcome(n: nat, results: Seq<Result<(), PluginError>>, stage: Stage, r: Result<(), StageError>) -> bool {
    match r {
        Ok(_) => results.len() == n && forall|k: int| 0 <= k < n ==> (#[trigger] results[k]) is Ok,
        Err(e) => {
            &&& e.stage == stage
            &&& e.index + 1 == results.len()
            &&& results[e.index as int] == Err::<(), PluginError>(e.error)
        },
    }
}

/// Plugins ran one after another and stopped at the first failure: each of
/// the first `results.len()` plugins ran on what the one before left,
/// returned its result, and every one but the last succeeded.
pub open spec fn ran_in_order(n: nat, results: Seq<Result<(), PluginError>>) -> bool {
    &&& results.len() <= n
    &&& forall|k: int| 0 <= k < results.len() - 1 ==> (#[trigger] results[k]) is Ok
}

/// A stage that succeeds ran every plugin, each succeeding; a stage that
/// fails at the plugin at `index` ran exactly the plugins up to it, every one
/// before it succeeding, and no plugin after it.
pub proof fn lemma_stage_stops_at_first_failure(
    n: nat,
    results: Seq<Result<(), PluginError>>,
    stage: Stage,
    r: Result<(), StageError>,
)
    requires
        ran_in_order(n, results),
        stage_outcome(n, results, stage, r),
    ensures
        r is Ok ==> results.len() == n && forall|k: int| 0 <= k < n ==> (#[trigger] results[k]) is Ok,
        r matches Err(e) ==> {
            &&& e.stage == stage
            &&& e.index < n
            &&& results.len() == e.index + 1
            &&& forall|k: int| 0 <= k < e.index ==> (#[trigger] results[k]) is Ok
            &&& results[e.index as int] is Err
        },
{
}

/// A run of the `typst` stage over `plugins` from `before` to `after`,
/// through the overlays `states`, the plugins returning `results`.
pub open spec fn typst_trace(
    plugins: Seq<Box<dyn Plugin>>,
    before: Seq<(Seq<char>, Seq<char>)>,
    after: Seq<(Seq<char>, Seq<char>)>,
    states: Seq<Seq<(Seq<char>, Seq<char>)>>,
    results: Seq<Result<(), PluginError>>,
    r: Result<(), StageError>,
) -> bool {
    &&& ran_in_order(plugins.len(), results)
    &&& states.len() == results.len() + 1
    &&& states[0] == before
    &&& states[results.len() as int] == after
    &&& forall|k: int|
        #![trigger results[k]]
        0 <= k < results.len() ==> (*plugins[k]).typst_effect(states[k], states[k + 1], results[k])
    &&& stage_outcome(plugins.len(), results, Stage::Typst, r)
}

/// Let every plugin contribute Typst sources, in registration order, stopping
/// at the first failure.
pub fn run_typst_stage(plugins: &[Box<dyn Plugin>], overlay: &mut TypstOverlay) -> (r: Result<(), StageError>)
    ensures
        exists|states: Seq<Seq<(Seq<char>, Seq<char>)>>, results: Seq<Result<(), PluginError>>|
            #[trigger] typst_trace(plugins@, old(overlay)@, final(overlay)@, states, results, r),
        r matches Err(e) ==> e.stage == Stage::Typst && e.index < plugins@.len(),
        plugins@.len() == 0 ==> r is Ok,
{
    let ghost start = overlay@;
    let ghost mut states: Seq<Seq<(Seq<char>, Seq<char>)>> = seq![overlay@];
    let ghost mut results: Seq<Result<(), PluginError>> = Seq::empty();
    let mut i: usize = 0;
    while i < plugins.len()
        invariant
            start == old(overlay)@,
            i <= plugins@.len(),
            results.len() == i,
            states.len() == i + 1,
            states[0] == start,
            states[i as int] == overlay@,
            forall|k: int| 0 <= k < i ==> (#[trigger] results[k]) is Ok,
            forall|k: int|
                #![trigger results[k]]
                0 <= k < i ==> (*plugins@[k]).typst_effect(states[k], states[k + 1], results[k]),
        decreases plugins@.len() - i,
    {
        let plugin = &plugins[i];
        let ghost before = overlay@;
        let res = plugin.typst(overlay);
        proof {
            results = results.push(res);
            states = states.push(overlay@);
            assert(states[i as int] == before);
            assert(states[i + 1] == overlay@);
            assert(results[i as int] == res);
            assert(*plugin == plugins@[i as int]);
        }
        match res {
            Ok(()) => {},
            Err(error) => {
                let e = StageError { index: i, plugin: plugin.name().to_owned(), stage: Stage::Typst, error };
                assert(typst_trace(plugins@, start, overlay@, states, results, Err::<(), StageError>(e)));
                return Err(e);
            },
        }
        i = i + 1;
    }
    assert(typst_trace(plugins@, start, overlay@, states, results, Ok::<(), StageError>(())));
    Ok(())
}

/// A run of the `prepare` stage over `plugins` from `before` to `after`,
/// through the manifests `states`, the plugins returning `results`.
pub open spec fn prepare_trace(
    plugins: Seq<Box<dyn Plugin>>,
    before: ManifestView,
    after: ManifestView,
    states: Seq<ManifestView>,
    results: Seq<Result<(), PluginError>>,
    r: Result<(), StageError>,
) -> bool {
    &&& ran_in_order(plugins.len(), results)
    &&& states.len() == results.len() + 1
    &&& states[0] == before
    &&& states[results.len() as int] == after
    &&& forall|k: int|
        #![trigger results[k]]
        0 <= k < results.len() ==> (*plugins[k]).prepare_effect(states[k], states[k + 1], results[k])
    &&& stage_outcome(plugins.len(), results, Stage::Prepare, r)
}

/// Let every plugin mutate the manifest, in registration order, stopping at
/// the first failure.
pub fn run_prepare_stage(plugins: &[Box<dyn Plugin>], manifest: &mut SiteManifest) -> (r: Result<(), StageError>)
    ensures
        exists|states: Seq<ManifestView>, results: Seq<Result<(), PluginError>>|
            #[trigger] prepare_trace(plugins@, old(manifest)@, final(manifest)@, states, results, r),
        r matches Err(e) ==> e.stage == Stage::Prepare && e.index < plugins@.len(),
        plugins@.len() == 0 ==> r is Ok,
{
    let ghost start = manifest@;
    let ghost mut states: Seq<ManifestView> = seq![manifest@];
    let ghost mut results: Seq<Result<(), PluginError>> = Seq::empty();
    let mut i: usize = 0;
    while i < plugins.len()
        invariant
            start == old(manifest)@,
            i <= plugins@.len(),
            results.len() == i,
            states.len() == i + 1,
            states[0] == start,
            states[i as int] == manifest@,
            forall|k: int| 0 <= k < i ==> (#[trigger] results[k]) is Ok,
            forall|k: int|
                #![trigger results[k]]
                0 <= k < i ==> (*plugins@[k]).prepare_effect(states[k], states[k + 1], results[k]),
        decreases plugins@.len() - i,
    {
        let plugin = &plugins[i];
        let ghost before = manifest@;
        let res = plugin.prepare(manifest);
        proof {
            results = results.push(res);
            states = states.push(manifest@);
            assert(states[i as int] == before);
            assert(states[i + 1] == manifest@);
            assert(results[i as int] == res);
            assert(*plugin == plugins@[i as int]);
        }
        match res {
            Ok(()) => {},
            Err(error) => {
                let e = StageError { index: i, plugin: plugin.name().to_owned(), stage: Stage::Prepare, error };
                assert(prepare_trace(plugins@, start, manifest@, states, results, Err::<(), StageError>(e)));
                return Err(e);
            },
        }
        i = i + 1;
    }
    assert(prepare_trace(plugins@, start, manifest@, states, results, Ok::<(), StageError>(())));
    Ok(())
}

/// A run of the `post` stage over `plugins` with `manifest`, from `before`
/// to `after`, through the file sets `states`, the plugins returning
/// `results`.
pub open spec fn post_trace(
    plugins: Seq<Box<dyn Plugin>>,
    manifest: SiteManifest,
    before: Seq<(Seq<char>, Seq<u8>)>,
    after: Seq<(Seq<char>, Seq<u8>)>,
    states: Seq<Seq<(Seq<char>, Seq<u8>)>>,
    results: Seq<Result<(), PluginError>>,
    r: Result<(), StageError>,
) -> bool {
    &&& ran_in_order(plugins.len(), results)
    &&& states.len() == results.len() + 1
    &&& states[0] == before
    &&& states[results.len() as int] == after
    &&& forall|k: int|
        #![trigger results[k]]
        0 <= k < results.len() ==> (*plugins[k]).post_effect(states[k], manifest, states[k + 1], results[k])
    &&& stage_outcome(plugins.len(), results, Stage::Post, r)
}

/// Let every plugin transform the rendered files, in registration order,
/// stopping at the first failure.
pub fn run_post_stage(plugins: &[Box<dyn Plugin>], out: &mut RenderOutput, manifest: &SiteManifest) -> (r: Result<(), StageError>)
    ensures
        exists|states: Seq<Seq<(Seq<char>, Seq<u8>)>>, results: Seq<Result<(), PluginError>>|
            #[trigger] post_trace(plugins@, *manifest, old(out)@, final(out)@, states, results, r),
        r matches Err(e) ==> e.stage == Stage::Post && e.index < plugins@.len(),
        plugins@.len() == 0 ==> r is Ok,
{
    let ghost start = out@;
    let ghost mut states: Seq<Seq<(Seq<char>, Seq<u8>)>> = seq![out@];
    let ghost mut results: Seq<Result<(), PluginError>> = Seq::empty();
    let mut i: usize = 0;
    while i < plugins.len()
        invariant
            start == old(out)@,
            i <= plugins@.len(),
            results.len() == i,
            states.len() == i + 1,
            states[0] == start,
            states[i as int] == out@,
            forall|k: int| 0 <= k < i ==> (#[trigger] results[k]) is Ok,
            forall|k: int|
                #![trigger results[k]]
                0 <= k < i ==> (*plugins@[k]).post_effect(states[k], *manifest, states[k + 1], results[k]),
        decreases plugins@.len() - i,
    {
        let plugin = &plugins[i];
        let ghost before = out@;
        let res = plugin.post(out, manifest);
        proof {
            results = results.push(res);
            states = states.push(out@);
            assert(states[i as int] == before);
            assert(states[i + 1] == out@);
            assert(results[i as int] == res);
            assert(*plugin == plugins@[i as int]);
        }
        match res {
            Ok(()) => {},
            Err(error) => {
                let e = StageError { index: i, plugin: plugin.name().to_owned(), stage: Stage::Post, error };
                assert(post_trace(plugins@, *manifest, start, out@, states, results, Err::<(), StageError>(e)));
                return Err(e);
            },
        }
        i = i + 1;
    }
    assert(post_trace(plugins@, *manifest, start, out@, states, results, Ok::<(), StageError>(())));
    Ok(())
}

/// The character after a tag name starting at `at` is a space, `>` or `/`.
pub open spec fn tag_boundary_at(h: Seq<char>, at: int, tag_len: int) -> bool {
    &&& 0 <= at + tag_len < h.len()
    &&& (h[at + tag_len] == ' ' || h[at + tag_len] == '>' || h[at + tag_len] == '/')
}

/// Scanning from `pos` with `depth` sections open, the index just past the
/// `</section>` that closes the outermost one.
pub open spec fn section_end_from(h: Seq<char>, pos: int, depth: nat) -> Option<int>
    decreases h.len() + 1 - pos,
{
    if pos < 0 {
        None
    } else {
        match find_from(h, "<"@, pos) {
            None => None,
            Some(at) => {
                proof {
                    lemma_find_from_nonneg(h, "<"@, pos);
                }
                if occurs_at(h, "</section"@, at) && tag_boundary_at(h, at, "</section"@.len() as int) {
                    if depth == 0 {
                        None
                    } else if depth == 1 {
                        match find_from(h, ">"@, at) {
                            Some(g) => Some(g + 1),
                            None => None,
                        }
                    } else {
                        section_end_from(h, at + 1, (depth - 1) as nat)
                    }
                } else if occurs_at(h, "<section"@, at) && tag_boundary_at(h, at, "<section"@.len() as int) {
                    section_end_from(h, at + 1, depth + 1)
                } else {
                    section_end_from(h, at + 1, depth)
                }
            },
        }
    }
}

pub proof fn lemma_section_end_bounds(h: Seq<char>, pos: int, depth: nat)
    ensures
        section_end_from(h, pos, depth) matches Some(e) ==> 0 <= pos < e <= h.len(),
    decreases h.len() + 1 - pos,
{
    if pos >= 0 {
        lemma_find_from_nonneg(h, "<"@, pos);
        match find_from(h, "<"@, pos) {
            None => {},
            Some(at) => {
                if occurs_at(h, "</section"@, at) && tag_boundary_at(h, at, "</section"@.len() as int) {
                    if depth == 1 {
                        lemma_find_from_nonneg(h, ">"@, at);
                        reveal_strlit(">");
                    } else if depth > 1 {
                        lemma_section_end_bounds(h, at + 1, (depth - 1) as nat);
                    }
                } else if occurs_at(h, "<section"@, at) && tag_boundary_at(h, at, "<section"@.len() as int) {
                    lemma_section_end_bounds(h, at + 1, depth + 1);
                } else {
                    lemma_section_end_bounds(h, at + 1, depth);
                }
            },
        }
    }
}

/// Whether the character after the tag name `tag` at `at` is a space, `>`
/// or `/`.
fn is_tag_boundary(text: &[char], at: usize, tag: &[char]) -> (r: bool)
    ensures
        r == tag_boundary_at(text@, at as int, tag@.len() as int),
{
    if at > text.len() || tag.len() >= text.len() - at {
        return false;
    }
    let c = text[at + tag.len()];
    c == ' ' || c == '>' || c == '/'
}

/// The index just past the `</section>` matching the `<section>` at
/// `start`, accounting for nesting.
fn find_section_end(html: &[char], start: usize) -> (r: Option<usize>)
    ensures
        r matches Some(e) ==> section_end_from(html@, start as int, 0) == Some(e as int),
        r is None ==> section_end_from(html@, start as int, 0) is None,
{
    let lt = chars_of("<");
    let gt = chars_of(">");
    let open = chars_of("<section");
    let close = chars_of("</section");
    let mut depth: usize = 0;
    let mut pos = start;
    let n = html.len();
    loop
        invariant
            n == html@.len(),
            lt@ == "<"@,
            gt@ == ">"@,
            open@ == "<section"@,
            close@ == "</section"@,
            start <= pos,
            depth <= pos,
            pos <= html@.len() + start,
            section_end_from(html@, start as int, 0) == section_end_from(html@, pos as int, depth as nat),
        decreases html@.len() + 1 - pos,
    {
        proof {
            lemma_find_from_nonneg(html@, "<"@, pos as int);
            reveal_strlit("<");
        }
        let at = match find(html, &lt, pos) {
            Some(at) => at,
            None => return None,
        };
        if matches_at(html, &close, at) && is_tag_boundary(html, at, &close) {
            if depth == 0 {
                return None;
            }
            depth = depth - 1;
            if depth == 0 {
                proof {
                    lemma_find_from_nonneg(html@, ">"@, at as int);
                    reveal_strlit(">");
                }
                return match find(html, &gt, at) {
                    Some(g) => Some(g + 1),
                    None => None,
                };
            }
        } else if matches_at(html, &open, at) && is_tag_boundary(html, at, &open) {
            depth = depth + 1;
        }
        pos = at + 1;
    }
}

/// The `<section role="doc-endnotes">` opening tag.
pub open spec fn endnotes_open() -> Seq<char> {
    "<section role=\"doc-endnotes\">"@
}

/// The closing tag of the content region.
pub open spec fn content_close() -> Seq<char> {
    "</main>"@
}

/// Typst's footnote container moved to the end of the content region: the
/// first `<section role="doc-endnotes">` block is cut out and put back just
/// before the last `</main>`. `None` when there is no such block, it is not
/// closed, or the page has no `</main>`.
pub open spec fn relocate_endnotes_spec(h: Seq<char>) -> Option<Seq<char>> {
    match find_from(h, endnotes_open(), 0) {
        None => None,
        Some(start) => match section_end_from(h, start, 0) {
            None => None,
            Some(end) => {
                let block = h.subrange(start, end);
                let without = h.take(start) + h.skip(end);
                match rfind(without, content_close()) {
                    None => None,
                    Some(close) => Some(without.take(close) + block + without.skip(close)),
                }
            },
        },
    }
}

/// Move Typst's footnote container into the content region.
///
/// Typst's HTML exporter appends `<section role="doc-endnotes">` to the very
/// end of `<body>`, after any layout chrome such as a footer. Footnotes belong
/// to the page's content, so they are moved to the end of
/// `<main id="typost-content">`.
pub fn relocate_endnotes(html: &str) -> (r: Option<String>)
    ensures
        r matches Some(s) ==> relocate_endnotes_spec(html@) == Some(s@),
        r is None ==> relocate_endnotes_spec(html@) is None,
{
    let h = chars_of(html);
    let open = chars_of("<section role=\"doc-endnotes\">");
    let close_tag = chars_of("</main>");
    let start = match find(&h, &open, 0) {
        Some(s) => s,
        None => return None,
    };
    proof {
        lemma_find_from_nonneg(h@, open@, 0);
    }
    let end = match find_section_end(&h, start) {
        Some(e) => e,
        None => return None,
    };
    proof {
        lemma_section_end_bounds(h@, start as int, 0);
    }
    let mut without: Vec<char> = Vec::new();
    append_range(&mut without, &h, 0, start);
    append_range(&mut without, &h, end, h.len());
    assert(without@ =~= h@.take(start as int) + h@.skip(end as int));
    let close = match rfind_in(&without, &close_tag) {
        Some(c) => c,
        None => return None,
    };
    proof {
        lemma_rfind(without@, close_tag@);
    }
    let mut fixed: Vec<char> = Vec::new();
    append_range(&mut fixed, &without, 0, close);
    append_range(&mut fixed, &h, start, end);
    append_range(&mut fixed, &without, close, without.len());
    assert(fixed@ =~= without@.take(close as int) + h@.subrange(start as int, end as int)
        + without@.skip(close as int));
    Some(string_of(&fixed))
}

/// A search that ends inside a stretch of `h` finds the same occurrence in
/// any text that holds the stretch at an offset.
proof fn lemma_find_shifted(h: Seq<char>, h2: Seq<char>, nd: Seq<char>, from: int, lim: int, off: int)
    requires
        0 <= from,
        from + off >= 0,
        lim <= h.len(),
        lim + off <= h2.len(),
        forall|j: int| from <= j < lim ==> h2[j + off] == #[trigger] h[j],
        find_from(h, nd, from) matches Some(at) && at + nd.len() <= lim,
    ensures
        find_from(h2, nd, from + off) == Some(find_from(h, nd, from)->0 + off),
{
    let at = find_from(h, nd, from)->0;
    lemma_find_from_nonneg(h, nd, from);
    assert(h2.subrange(at + off, at + off + nd.len()) =~= h.subrange(at, at + nd.len()));
    assert forall|j: int| from + off <= j < at + off implies !occurs_at(h2, nd, j) by {
        if occurs_at(h2, nd, j) {
            assert(h.subrange(j - off, j - off + nd.len()) =~= h2.subrange(j, j + nd.len()));
            assert(occurs_at(h, nd, j - off));
        }
    }
    lemma_occurrence_found(h2, nd, from + off, at + off);
    lemma_find_from_nonneg(h2, nd, from + off);
}

/// A closed section reaches at least ten characters past the first `<` of
/// the scan.
proof fn lemma_section_end_reach(h: Seq<char>, pos: int, depth: nat)
    requires
        pos >= 0,
        section_end_from(h, pos, depth) is Some,
    ensures
        find_from(h, "<"@, pos) matches Some(at) && at + 10 <= section_end_from(h, pos, depth)->0,
    decreases h.len() + 1 - pos,
{
    lemma_find_from_nonneg(h, "<"@, pos);
    let at = find_from(h, "<"@, pos)->0;
    reveal_strlit("<");
    if occurs_at(h, "</section"@, at) && tag_boundary_at(h, at, "</section"@.len() as int) {
        if depth == 1 {
            lemma_find_from_nonneg(h, ">"@, at);
            reveal_strlit(">");
            reveal_strlit("</section");
            let g = find_from(h, ">"@, at)->0;
            if g < at + 9 {
                assert(h[g] == h.subrange(at, at + 9)[g - at]);
                assert(h.subrange(g, g + 1)[0] == h[g]);
            }
        } else {
            lemma_section_end_reach(h, at + 1, (depth - 1) as nat);
            lemma_find_from_nonneg(h, "<"@, at + 1);
        }
    } else if occurs_at(h, "<section"@, at) && tag_boundary_at(h, at, "<section"@.len() as int) {
        lemma_section_end_reach(h, at + 1, depth + 1);
        lemma_find_from_nonneg(h, "<"@, at + 1);
    } else {
        lemma_section_end_reach(h, at + 1, depth);
        lemma_find_from_nonneg(h, "<"@, at + 1);
    }
}

/// The end of a section depends only on the text it spans, wherever that
/// text stands.
proof fn lemma_section_end_shifted(h: Seq<char>, h2: Seq<char>, pos: int, depth: nat, off: int)
    requires
        pos >= 0,
        pos + off >= 0,
        section_end_from(h, pos, depth) is Some,
        section_end_from(h, pos, depth)->0 + off <= h2.len(),
        forall|j: int| pos <= j < section_end_from(h, pos, depth)->0 ==> h2[j + off] == #[trigger] h[j],
    ensures
        section_end_from(h2, pos + off, depth) == Some(section_end_from(h, pos, depth)->0 + off),
    decreases h.len() + 1 - pos,
{
    let e = section_end_from(h, pos, depth)->0;
    lemma_section_end_bounds(h, pos, depth);
    lemma_section_end_reach(h, pos, depth);
    let at = find_from(h, "<"@, pos)->0;
    reveal_strlit("<");
    lemma_find_shifted(h, h2, "<"@, pos, e, off);
    lemma_find_from_nonneg(h, "<"@, pos);
    reveal_strlit("</section");
    reveal_strlit("<section");
    assert(h2.subrange(at + off, at + off + 9) =~= h.subrange(at, at + 9));
    assert(h2.subrange(at + off, at + off + 8) =~= h.subrange(at, at + 8));
    assert(h2[at + 9 + off] == h[at + 9]);
    assert(h2[at + 8 + off] == h[at + 8]);
    if occurs_at(h, "</section"@, at) && tag_boundary_at(h, at, "</section"@.len() as int) {
        if depth == 1 {
            reveal_strlit(">");
            lemma_find_from_nonneg(h, ">"@, at);
            lemma_find_shifted(h, h2, ">"@, at, e, off);
        } else {
            lemma_section_end_shifted(h, h2, at + 1, (depth - 1) as nat, off);
        }
    } else if occurs_at(h, "<section"@, at) && tag_boundary_at(h, at, "<section"@.len() as int) {
        lemma_section_end_shifted(h, h2, at + 1, depth + 1, off);
    } else {
        lemma_section_end_shifted(h, h2, at + 1, depth, off);
    }
}

/// An endnotes block holds at least its opening tag.
proof fn lemma_endnotes_block_len(h: Seq<char>, start: int)
    requires
        occurs_at(h, endnotes_open(), start),
        section_end_from(h, start, 0) is Some,
    ensures
        start + endnotes_open().len() <= section_end_from(h, start, 0)->0,
{
    reveal_strlit("<section role=\"doc-endnotes\">");
    reveal_strlit("<");
    reveal_strlit("</section");
    reveal_strlit("<section");
    let open = endnotes_open();
    assert(h.subrange(start, start + 1) =~= "<"@) by {
        assert(h[start] == h.subrange(start, start + open.len())[0]);
    }
    assert(find_from(h, "<"@, start) == Some(start));
    assert(h.subrange(start, start + 8) =~= "<section"@) by {
        assert forall|k: int| 0 <= k < 8 implies h[start + k] == #[trigger] "<section"@[k] by {
            assert(h[start + k] == h.subrange(start, start + open.len())[k]);
        }
    }
    assert(h[start + 8] == h.subrange(start, start + open.len())[8]);
    assert(h[start + 1] == h.subrange(start, start + open.len())[1]);
    assert(!occurs_at(h, "</section"@, start)) by {
        if occurs_at(h, "</section"@, start) {
            assert(h.subrange(start, start + 9)[1] == h[start + 1]);
        }
    }
    assert(section_end_from(h, start, 0) == section_end_from(h, start + 1, 1));
    lemma_section_end_reach(h, start + 1, 1);
    lemma_find_from_nonneg(h, "<"@, start + 1);
    let at = find_from(h, "<"@, start + 1)->0;
    if at < start + open.len() {
        assert(h[at] == h.subrange(start, start + open.len())[at - start]);
        assert(h.subrange(at, at + 1)[0] == h[at]);
    }
}

/// Relocating an already relocated page changes nothing, when its endnotes
/// block is the only one on the page.
pub proof fn lemma_relocate_endnotes_idempotent(h: Seq<char>)
    requires
        relocate_endnotes_spec(h) is Some,
        forall|i: int, j: int|
            #[trigger] occurs_at(relocate_endnotes_spec(h)->0, endnotes_open(), i) && #[trigger] occurs_at(
                relocate_endnotes_spec(h)->0,
                endnotes_open(),
                j,
            ) ==> i == j,
    ensures
        relocate_endnotes_spec(relocate_endnotes_spec(h)->0) == relocate_endnotes_spec(h),
{
    let open = endnotes_open();
    let start = find_from(h, open, 0)->0;
    lemma_find_from_nonneg(h, open, 0);
    let end = section_end_from(h, start, 0)->0;
    lemma_section_end_bounds(h, start, 0);
    lemma_endnotes_block_len(h, start);
    let block = h.subrange(start, end);
    let without = h.take(start) + h.skip(end);
    let close = rfind(without, content_close())->0;
    lemma_rfind(without, content_close());
    reveal_strlit("</main>");
    let r = without.take(close) + block + without.skip(close);
    assert(r == relocate_endnotes_spec(h)->0);
    let len = end - start;
    // The block opens with the endnotes tag, now at `close`.
    assert(r.subrange(close, close + open.len()) =~= h.subrange(start, start + open.len()));
    assert(occurs_at(r, open, close));
    lemma_occurrence_found(r, open, 0, close);
    lemma_find_from_nonneg(r, open, 0);
    assert(find_from(r, open, 0) == Some(close));
    // Its section ends where the block does.
    assert forall|j: int| start <= j < end implies r[j + (close - start)] == #[trigger] h[j] by {
        assert(r[j + (close - start)] == block[j - start]);
    }
    lemma_section_end_shifted(h, r, start, 0, close - start);
    assert(section_end_from(r, close, 0) == Some(close + len));
    // Cutting it out gives back the page without it, whose last `</main>`
    // is where the block was put.
    assert(r.take(close) + r.skip(close + len) =~= without);
    assert(r.subrange(close, close + len) =~= block);
}

/// The endnotes block of a relocated page sits right before a `</main>`,
/// and relocating keeps the page's length.
pub proof fn lemma_endnotes_inside_content(h: Seq<char>)
    requires
        relocate_endnotes_spec(h) is Some,
    ensures
        ({
            let start = find_from(h, endnotes_open(), 0)->0;
            let end = section_end_from(h, start, 0)->0;
            let f = relocate_endnotes_spec(h)->0;
            let close = rfind(h.take(start) + h.skip(end), content_close())->0;
            &&& f.len() == h.len()
            &&& occurs_at(h, endnotes_open(), start)
            &&& f.subrange(close, close + (end - start)) == h.subrange(start, end)
            &&& occurs_at(f, content_close(), close + (end - start))
        }),
{
    let start = find_from(h, endnotes_open(), 0)->0;
    lemma_find_from_nonneg(h, endnotes_open(), 0);
    let end = section_end_from(h, start, 0)->0;
    lemma_section_end_bounds(h, start, 0);
    let block = h.subrange(start, end);
    let without = h.take(start) + h.skip(end);
    let close = rfind(without, content_close())->0;
    lemma_rfind(without, content_close());
    let f = without.take(close) + block + without.skip(close);
    reveal_strlit("</main>");
    assert(f.subrange(close, close + (end - start)) =~= block);
    assert(f.subrange(close + (end - start), close + (end - start) + content_close().len())
        =~= without.subrange(close, close + content_close().len()));
}

/// typost's HTML normalization of one page's bytes: endnotes relocated when
/// the page is UTF-8 and relocation applies, the bytes unchanged otherwise.
pub open spec fn normalize_html_spec(bytes: Seq<u8>) -> Seq<u8> {
    if valid_utf8(bytes) {
        match relocate_endnotes_spec(decode_utf8(bytes)) {
            Some(fixed) => encode_utf8(fixed),
            None => bytes,
        }
    } else {
        bytes
    }
}

/// Apply typost's light HTML normalizations.
pub fn normalize_html(bytes: &[u8]) -> (r: Vec<u8>)
    ensures
        r@ == normalize_html_spec(bytes@),
{
    match decode_utf8_chars(bytes) {
        Some(h) => {
            let html = string_of(&h);
            match relocate_endnotes(html.as_str()) {
                Some(fixed) => {
                    let v = chars_of(fixed.as_str());
                    encode_utf8_chars(&v)
                },
                None => vstd::slice::slice_to_vec(bytes),
            }
        },
        None => vstd::slice::slice_to_vec(bytes),
    }
}

/// The output path of an exported file: its virtual path without leading
/// slashes.
pub open spec fn export_path(vpath: Seq<char>) -> Seq<char> {
    trim_start(vpath, '/')
}

/// The stored bytes of an exported file: HTML pages are normalized.
pub open spec fn export_bytes(path: Seq<char>, bytes: Seq<u8>) -> Seq<u8> {
    if ends_with(path, ".html"@) {
        normalize_html_spec(bytes)
    } else {
        bytes
    }
}

/// The render output holding the exported files, in export order (a later
/// file replaces an earlier one with the same path).
pub open spec fn export_output(files: Seq<(Seq<char>, Seq<u8>)>) -> Seq<(Seq<char>, Seq<u8>)>
    decreases files.len(),
{
    if files.len() == 0 {
        Seq::empty()
    } else {
        let last = files.last();
        insert_sorted(
            export_output(files.drop_last()),
            export_path(last.0),
            export_bytes(export_path(last.0), last.1),
        )
    }
}

pub proof fn lemma_export_output_sorted(files: Seq<(Seq<char>, Seq<u8>)>)
    ensures
        sorted_by_key(export_output(files)),
    decreases files.len(),
{
    if files.len() > 0 {
        lemma_export_output_sorted(files.drop_last());
        let last = files.last();
        lemma_insert_sorted(
            export_output(files.drop_last()),
            export_path(last.0),
            export_bytes(export_path(last.0), last.1),
        );
    }
}

/// Every exported file is stored under its output path; the last file
/// exported to a path wins; a file whose output path ends with `.html` is
/// stored normalised (its endnotes moved into the content region where that
/// applies), and any other file is stored as exported.
pub proof fn lemma_export_stores_html_normalised(files: Seq<(Seq<char>, Seq<u8>)>, i: int)
    requires
        0 <= i < files.len(),
        forall|j: int| i < j < files.len() ==> export_path(#[trigger] files[j].0) != export_path(files[i].0),
    ensures
        lookup(export_output(files), export_path(files[i].0)) == Some(
            if ends_with(export_path(files[i].0), ".html"@) {
                normalize_html_spec(files[i].1)
            } else {
                files[i].1
            },
        ),
    decreases files.len(),
{
    let t = files.drop_last();
    let last = files.last();
    lemma_export_output_sorted(t);
    lemma_insert_sorted(export_output(t), export_path(last.0), export_bytes(export_path(last.0), last.1));
    if i < files.len() - 1 {
        assert forall|j: int| i < j < t.len() implies export_path(#[trigger] t[j].0) != export_path(t[i].0) by {
            assert(t[j] == files[j] && t[i] == files[i]);
        }
        lemma_export_stores_html_normalised(t, i);
        assert(t[i] == files[i]);
        assert(export_path(files[files.len() - 1].0) != export_path(files[i].0));
    }
}

/// Nothing is stored but under the output path of some exported file.
pub proof fn lemma_export_stores_only_exported(files: Seq<(Seq<char>, Seq<u8>)>, k: Seq<char>)
    requires
        forall|j: int| 0 <= j < files.len() ==> export_path(#[trigger] files[j].0) != k,
    ensures
        lookup(export_output(files), k) is None,
    decreases files.len(),
{
    if files.len() > 0 {
        let t = files.drop_last();
        let last = files.last();
        assert forall|j: int| 0 <= j < t.len() implies export_path(#[trigger] t[j].0) != k by {
            assert(t[j] == files[j]);
        }
        lemma_export_stores_only_exported(t, k);
        lemma_export_output_sorted(t);
        lemma_insert_sorted(export_output(t), export_path(last.0), export_bytes(export_path(last.0), last.1));
        assert(export_path(files[files.len() - 1].0) != k);
    }
}

/// Turn the exported files (virtual path with its leading slash, bytes) into
/// the render output.
pub fn collect_export(files: Vec<(String, Vec<u8>)>) -> (r: RenderOutput)
    ensures
        r@ == export_output(files@.map_values(|e: (String, Vec<u8>)| (e.0@, e.1@))),
{
    let ghost view = files@.map_values(|e: (String, Vec<u8>)| (e.0@, e.1@));
    let html = chars_of(".html");
    let mut output = RenderOutput::new();
    let mut i: usize = 0;
    assert(view.take(0) =~= Seq::<(Seq<char>, Seq<u8>)>::empty());
    while i < files.len()
        invariant
            i <= files@.len(),
            html@ == ".html"@,
            view == files@.map_values(|e: (String, Vec<u8>)| (e.0@, e.1@)),
            output@ == export_output(view.take(i as int)),
        decreases files@.len() - i,
    {
        let vpath = chars_of(files[i].0.as_str());
        let path_chars = trim_start_in(&vpath, '/');
        let path = string_of(&path_chars);
        let bytes = if ends_with_in(&path_chars, &html) {
            normalize_html(files[i].1.as_slice())
        } else {
            files[i].1.clone()
        };
        output.insert(path.as_str(), bytes);
        assert(view.take(i as int + 1).drop_last() =~= view.take(i as int));
        i = i + 1;
    }
    assert(view.take(files@.len() as int) =~= view);
    output
}

} // verus!
