//! The typed site manifest, known before rendering.
//!
//! The manifest holds no plugin-specific fields: plugins interpret
//! [`PageMeta::data`] and [`MetadataEntry::data`] as they see fit.
use vstd::prelude::*;

use crate::text::{chars_of, same_chars};

verus! {

broadcast use vstd::seq::group_seq_axioms;

#[verifier::external_type_specification]
#[verifier::external_body]
pub struct ExPathBuf(std::path::PathBuf);

/// `PathBuf::clone`: nothing is claimed of the copy.
pub assume_specification[ <std::path::PathBuf as std::clone::Clone>::clone ](p: &std::path::PathBuf) -> std::path::PathBuf;

/// A typed, Rust-owned decode of a Typst front-matter value.
#[derive(Debug, PartialEq)]
pub enum FrontMatter {
    /// The absence of a value.
    Null,
    /// A boolean.
    Bool(bool),
    /// An integer.
    Int(i64),
    /// A float, held as its IEEE-754 bit pattern.
    Float(u64),
    /// A string.
    Str(String),
    /// An array.
    Array(Vec<FrontMatter>),
    /// A dictionary, as `(key, value)` bindings; a later binding of a key
    /// shadows an earlier one, as when a map is built from the pairs in order.
    Dict(Vec<(String, FrontMatter)>),
}

impl Clone for FrontMatter {
    #[verifier::loop_isolation(false)]
    fn clone(&self) -> (r: Self)
        decreases self,
    {
        match self {
            FrontMatter::Null => FrontMatter::Null,
            FrontMatter::Bool(b) => FrontMatter::Bool(*b),
            FrontMatter::Int(i) => FrontMatter::Int(*i),
            FrontMatter::Float(f) => FrontMatter::Float(*f),
            FrontMatter::Str(s) => FrontMatter::Str(s.clone()),
            FrontMatter::Array(v) => {
                let mut out: Vec<FrontMatter> = Vec::new();
                let mut i: usize = 0;
                while i < v.len()
                    invariant
                        i <= v@.len(),
                    decreases v@.len() - i,
                {
                    proof {
                        vstd::std_specs::vec::axiom_vec_index_decreases(*v, i as int);
                        assert(decreases_to!(*self => self->Array_0));
                        assert(decreases_to!(*self => v[i as int]));
                    }
                    out.push(v[i].clone());
                    i = i + 1;
                }
                FrontMatter::Array(out)
            },
            FrontMatter::Dict(v) => {
                let mut out: Vec<(String, FrontMatter)> = Vec::new();
                let mut i: usize = 0;
                while i < v.len()
                    invariant
                        i <= v@.len(),
                    decreases v@.len() - i,
                {
                    proof {
                        vstd::std_specs::vec::axiom_vec_index_decreases(*v, i as int);
                        assert(decreases_to!(*self => self->Dict_0));
                        assert(decreases_to!(v[i as int] => v[i as int].1));
                        assert(decreases_to!(*self => v[i as int].1));
                    }
                    out.push((v[i].0.clone(), v[i].1.clone()));
                    i = i + 1;
                }
                FrontMatter::Dict(out)
            },
        }
    }
}

impl Default for FrontMatter {
    fn default() -> (r: Self)
        ensures
            r == FrontMatter::Null,
    {
        FrontMatter::Null
    }
}

/// The value bound to `key` among `entries`: the last binding wins.
pub open spec fn dict_lookup(entries: Seq<(String, FrontMatter)>, key: Seq<char>) -> Option<FrontMatter>
    decreases entries.len(),
{
    if entries.len() == 0 {
        None
    } else if entries.last().0@ == key {
        Some(entries.last().1)
    } else {
        dict_lookup(entries.drop_last(), key)
    }
}

/// The value under `key`, if `fm` is a dictionary holding it.
pub open spec fn fm_get(fm: FrontMatter, key: Seq<char>) -> Option<FrontMatter> {
    match fm {
        FrontMatter::Dict(entries) => dict_lookup(entries@, key),
        _ => None,
    }
}

/// The characters of a string value.
pub open spec fn fm_str(fm: Option<FrontMatter>) -> Option<Seq<char>> {
    match fm {
        Some(FrontMatter::Str(s)) => Some(s@),
        _ => None,
    }
}

/// The elements of an array value.
pub open spec fn fm_array(fm: Option<FrontMatter>) -> Option<Seq<FrontMatter>> {
    match fm {
        Some(FrontMatter::Array(v)) => Some(v@),
        _ => None,
    }
}

/// The last index of `entries` binding `key`.
pub open spec fn last_binding(entries: Seq<(String, FrontMatter)>, key: Seq<char>) -> Option<int>
    decreases entries.len(),
{
    if entries.len() == 0 {
        None
    } else if entries.last().0@ == key {
        Some(entries.len() - 1)
    } else {
        last_binding(entries.drop_last(), key)
    }
}

pub proof fn lemma_last_binding(entries: Seq<(String, FrontMatter)>, key: Seq<char>)
    ensures
        last_binding(entries, key) matches Some(i) ==> {
            &&& 0 <= i < entries.len()
            &&& entries[i].0@ == key
            &&& dict_lookup(entries, key) == Some(entries[i].1)
        },
        last_binding(entries, key) is None ==> dict_lookup(entries, key) is None,
    decreases entries.len(),
{
    if entries.len() > 0 && entries.last().0@ != key {
        lemma_last_binding(entries.drop_last(), key);
    }
}

impl FrontMatter {
    /// The index of the last binding of `key`, if this is a dictionary.
    fn find_binding(entries: &Vec<(String, FrontMatter)>, key: &str) -> (r: Option<usize>)
        ensures
            r matches Some(i) ==> last_binding(entries@, key@) == Some(i as int),
            r is None ==> last_binding(entries@, key@) is None,
    {
        let k = chars_of(key);
        let mut n: usize = entries.len();
        assert(entries@.take(n as int) =~= entries@);
        while n > 0
            invariant
                n <= entries@.len(),
                k@ == key@,
                last_binding(entries@, key@) == last_binding(entries@.take(n as int), key@),
            decreases n,
        {
            let here = chars_of(entries[n - 1].0.as_str());
            assert(entries@.take(n as int).last() == entries@[n - 1]);
            if same_chars(&here, &k) {
                return Some(n - 1);
            }
            assert(entries@.take(n as int).drop_last() == entries@.take(n - 1));
            n = n - 1;
        }
        assert(entries@.take(0).len() == 0);
        None
    }

    /// Look up a key in a dictionary, if this is one.
    pub fn get(&self, key: &str) -> (r: Option<&FrontMatter>)
        ensures
            r matches Some(v) ==> fm_get(*self, key@) == Some(*v),
            r is None ==> fm_get(*self, key@) is None,
    {
        match self {
            FrontMatter::Dict(entries) => {
                proof {
                    assert(entries@.take(entries@.len() as int) == entries@);
                    lemma_last_binding(entries@, key@);
                }
                match Self::find_binding(entries, key) {
                    Some(i) => Some(&entries[i].1),
                    None => None,
                }
            },
            _ => None,
        }
    }

    /// Borrow the value as a string, if it is one.
    pub fn as_str(&self) -> (r: Option<&str>)
        ensures
            r matches Some(s) ==> fm_str(Some(*self)) == Some(s@),
            r is None ==> fm_str(Some(*self)) is None,
    {
        match self {
            FrontMatter::Str(v) => Some(v.as_str()),
            _ => None,
        }
    }

    /// Borrow the value as a boolean, if it is one.
    pub fn as_bool(&self) -> (r: Option<bool>)
        ensures
            r == match *self {
                FrontMatter::Bool(b) => Some(b),
                _ => None,
            },
    {
        match self {
            FrontMatter::Bool(v) => Some(*v),
            _ => None,
        }
    }

    /// Borrow the value as an array, if it is one.
    pub fn as_array(&self) -> (r: Option<&[FrontMatter]>)
        ensures
            r matches Some(a) ==> fm_array(Some(*self)) == Some(a@),
            r is None ==> fm_array(Some(*self)) is None,
    {
        match self {
            FrontMatter::Array(v) => Some(v.as_slice()),
            _ => None,
        }
    }
}

/// One page of the site.
#[derive(Debug, Clone, PartialEq)]
pub struct PageMeta {
    /// The output path, relative to the site root (e.g. `hello/index.html`).
    pub route: String,
    /// The Typst source that produced this page, if known.
    pub src: Option<std::path::PathBuf>,
    /// The decoded front matter from the page's `typost` binding.
    pub data: FrontMatter,
}

/// The site structure, known before rendering.
#[derive(Debug, Clone, PartialEq)]
pub struct SiteManifest {
    /// The site title, if declared.
    pub title: Option<String>,
    /// All pages, in declaration order.
    pub pages: Vec<PageMeta>,
    /// Generic, plugin-defined entries collected from `typost` metadata
    /// elements, in document order.
    pub entries: Vec<MetadataEntry>,
}

impl Default for SiteManifest {
    fn default() -> (r: Self)
        ensures
            r.title is None,
            r.pages@.len() == 0,
            r.entries@.len() == 0,
    {
        SiteManifest { title: None, pages: Vec::new(), entries: Vec::new() }
    }
}

/// A plugin-defined metadata entry.
#[derive(Debug, Clone, PartialEq)]
pub struct MetadataEntry {
    /// The `typost.kind` of the entry, e.g. `"tags"`.
    pub kind: String,
    /// The route of the enclosing document, when the entry was emitted inside
    /// one.
    pub route: Option<String>,
    /// The entry's `typost` dictionary (including `kind`).
    pub data: FrontMatter,
}

/// The model of a manifest: its title, its pages and its entries.
pub type ManifestView = (Option<String>, Seq<PageMeta>, Seq<MetadataEntry>);

impl View for SiteManifest {
    type V = ManifestView;

    open spec fn view(&self) -> ManifestView {
        (self.title, self.pages@, self.entries@)
    }
}

/// The `typost` dictionary of a metadata value, if it has one.
pub open spec fn marker_typost(value: FrontMatter) -> Option<FrontMatter> {
    match fm_get(value, "typost"@) {
        Some(FrontMatter::Dict(d)) => Some(FrontMatter::Dict(d)),
        _ => None,
    }
}

/// The manifest after recording one `metadata((typost: (...)))` value
/// emitted inside the document at `route`, if any.
///
/// `kind: "site"` sets the site title (when it is a string), `kind: "page"`
/// adds a page (when its route is a string), and any other kind is kept
/// verbatim as an entry tagged with `route`. Values without a `typost`
/// dictionary or without a string `kind` change nothing.
pub open spec fn record_metadata(m: ManifestView, value: FrontMatter, route: Option<String>) -> ManifestView {
    match marker_typost(value) {
        None => m,
        Some(t) => match fm_get(t, "kind"@) {
            Some(FrontMatter::Str(kind)) => if kind@ == "site"@ {
                match fm_get(t, "title"@) {
                    Some(FrontMatter::Str(title)) => (Some(title), m.1, m.2),
                    _ => m,
                }
            } else if kind@ == "page"@ {
                match fm_get(t, "route"@) {
                    Some(FrontMatter::Str(r)) => (
                        m.0,
                        m.1.push(
                            PageMeta {
                                route: r,
                                src: None,
                                data: match fm_get(t, "data"@) {
                                    Some(d) => d,
                                    None => FrontMatter::Null,
                                },
                            },
                        ),
                        m.2,
                    ),
                    _ => m,
                }
            } else {
                (m.0, m.1, m.2.push(MetadataEntry { kind, route, data: t }))
            },
            _ => m,
        },
    }
}

/// The string bound to `key` in a dictionary.
fn string_binding(entries: &Vec<(String, FrontMatter)>, key: &str) -> (r: Option<String>)
    ensures
        r matches Some(s) ==> dict_lookup(entries@, key@) == Some(FrontMatter::Str(s)),
        r is None ==> !(dict_lookup(entries@, key@) matches Some(FrontMatter::Str(_))),
{
    proof {
        lemma_last_binding(entries@, key@);
    }
    match FrontMatter::find_binding(entries, key) {
        Some(i) => match &entries[i].1 {
            FrontMatter::Str(s) => Some(s.clone()),
            _ => None,
        },
        None => None,
    }
}

/// The route an entry is tagged with.
pub open spec fn owned_route(route: Option<&String>) -> Option<String> {
    match route {
        Some(r) => Some(*r),
        None => None,
    }
}

/// Record one `metadata((typost: (...)))` value, emitted inside the document
/// at `route` (if any), into the manifest.
///
/// `kind: "site"` sets the site title, `kind: "page"` adds a page, and any
/// other kind is kept verbatim as a [`MetadataEntry`]. Values without a
/// `typost` dictionary or without a string `kind` are ignored.
pub fn parse_metadata(value: FrontMatter, route: Option<&String>, manifest: &mut SiteManifest)
    ensures
        final(manifest)@ == record_metadata(old(manifest)@, value, owned_route(route)),
{
    let mut outer = match value {
        FrontMatter::Dict(outer) => outer,
        _ => return ,
    };
    proof {
        lemma_last_binding(outer@, "typost"@);
    }
    let at = match FrontMatter::find_binding(&outer, "typost") {
        Some(at) => at,
        None => return ,
    };
    let (_, typost) = outer.remove(at);
    let mut inner = match typost {
        FrontMatter::Dict(inner) => inner,
        _ => return ,
    };
    let kind = match string_binding(&inner, "kind") {
        Some(kind) => kind,
        None => return ,
    };
    let kind_chars = chars_of(kind.as_str());
    let site = chars_of("site");
    let page = chars_of("page");
    if same_chars(&kind_chars, &site) {
        if let Some(title) = string_binding(&inner, "title") {
            manifest.title = Some(title);
        }
    } else if same_chars(&kind_chars, &page) {
        let page_route = match string_binding(&inner, "route") {
            Some(r) => r,
            None => return ,
        };
        proof {
            lemma_last_binding(inner@, "data"@);
        }
        let data = match FrontMatter::find_binding(&inner, "data") {
            Some(d) => {
                let (_, data) = inner.remove(d);
                data
            },
            None => FrontMatter::Null,
        };
        manifest.pages.push(PageMeta { route: page_route, src: None, data });
    } else {
        let stored = match route {
            Some(r) => Some(r.clone()),
            None => None,
        };
        manifest.entries.push(MetadataEntry { kind, route: stored, data: FrontMatter::Dict(inner) });
    }
}

/// Evaluated Typst content, as far as collecting the manifest reads it.
pub struct ContentNode {
    /// The value of a `metadata` element.
    pub metadata: Option<FrontMatter>,
    /// The route of a `document` element; its body is then the only child.
    pub document: Option<String>,
    /// The content below this node, in document order: a document's body,
    /// or the content in the element's fields, arrays flattened.
    pub children: Vec<ContentNode>,
}

/// The manifest after collecting the metadata of `node`, inside the
/// document at `route`: the node's own metadata first, then its children
/// in order, tagged with the node's route if it is a document.
pub open spec fn collect_node(node: ContentNode, route: Option<String>, m: ManifestView) -> ManifestView
    decreases node,
{
    let recorded = match node.metadata {
        Some(v) => record_metadata(m, v, route),
        None => m,
    };
    let inner = match node.document {
        Some(r) => Some(r),
        None => route,
    };
    collect_nodes(node.children@, inner, recorded)
}

/// The manifest after collecting the metadata of `nodes` in order.
pub open spec fn collect_nodes(nodes: Seq<ContentNode>, route: Option<String>, m: ManifestView) -> ManifestView
    decreases nodes,
{
    if nodes.len() == 0 {
        m
    } else {
        proof {
            assert(decreases_to!(nodes => nodes.subrange(0, nodes.len() - 1)));
        }
        collect_node(nodes.last(), route, collect_nodes(nodes.drop_last(), route, m))
    }
}

/// Collect the metadata of evaluated content, emitted inside the document at
/// `route` (if any), into the manifest. Entries inside a `document` are
/// tagged with that document's route.
pub fn walk(node: ContentNode, route: Option<&String>, manifest: &mut SiteManifest)
    ensures
        final(manifest)@ == collect_node(node, owned_route(route), old(manifest)@),
    decreases node,
{
    let ghost whole = node;
    let ghost start = manifest@;
    let ContentNode { metadata, document, mut children } = node;
    if let Some(value) = metadata {
        parse_metadata(value, route, manifest);
    }
    let ghost recorded = manifest@;
    let inner: Option<&String> = match &document {
        Some(r) => Some(r),
        None => route,
    };
    let n = children.len();
    let mut i: usize = 0;
    assert(whole.children@.take(0) =~= Seq::<ContentNode>::empty());
    while i < n
        invariant
            whole == node,
            n == whole.children@.len(),
            children@.len() == n,
            i <= n,
            forall|j: int| i <= j < n ==> #[trigger] children@[j] == whole.children@[j],
            manifest@ == collect_nodes(whole.children@.take(i as int), owned_route(inner), recorded),
        decreases n - i,
    {
        let mut child = ContentNode { metadata: None, document: None, children: Vec::new() };
        children.set_and_swap(i, &mut child);
        proof {
            vstd::std_specs::vec::axiom_vec_index_decreases(whole.children, i as int);
            assert(decreases_to!(whole => whole.children));
            assert(whole.children@.take(i as int + 1).drop_last() =~= whole.children@.take(i as int));
        }
        walk(child, inner, manifest);
        i = i + 1;
    }
    assert(whole.children@.take(n as int) =~= whole.children@);
}

/// The manifest of an evaluated entry: the metadata of its content,
/// collected outside any document.
pub fn collect_manifest(content: ContentNode) -> (m: SiteManifest)
    ensures
        m@ == collect_node(content, None, (None, Seq::empty(), Seq::empty())),
{
    let mut manifest = SiteManifest::default();
    assert(manifest@ =~= (None, Seq::<PageMeta>::empty(), Seq::<MetadataEntry>::empty()));
    walk(content, None, &mut manifest);
    manifest
}

/// `later` keeps everything `earlier` holds, in order, and adds at the end.
pub open spec fn extends<A>(earlier: Seq<A>, later: Seq<A>) -> bool {
    earlier.len() <= later.len() && later.take(earlier.len() as int) == earlier
}

/// Recording metadata only appends pages and entries.
pub proof fn lemma_record_extends(m: ManifestView, value: FrontMatter, route: Option<String>)
    ensures
        extends(m.1, record_metadata(m, value, route).1),
        extends(m.2, record_metadata(m, value, route).2),
{
    assert(m.1.push(arbitrary::<PageMeta>()).take(m.1.len() as int) =~= m.1);
    let r = record_metadata(m, value, route);
    assert(r.1.len() >= m.1.len());
    assert(r.1.take(m.1.len() as int) =~= m.1);
    assert(r.2.take(m.2.len() as int) =~= m.2);
}

/// Collecting content only appends pages and entries, in document order:
/// the pages and entries collected before stay as they were.
pub proof fn lemma_collect_node_extends(node: ContentNode, route: Option<String>, m: ManifestView)
    ensures
        extends(m.1, collect_node(node, route, m).1),
        extends(m.2, collect_node(node, route, m).2),
    decreases node,
{
    let recorded = match node.metadata {
        Some(v) => record_metadata(m, v, route),
        None => m,
    };
    if let Some(v) = node.metadata {
        lemma_record_extends(m, v, route);
    }
    let inner = match node.document {
        Some(r) => Some(r),
        None => route,
    };
    lemma_collect_nodes_extends(node.children@, inner, recorded);
    let r = collect_node(node, route, m);
    assert(r.1.take(m.1.len() as int) =~= recorded.1.take(m.1.len() as int)) by {
        assert(r.1.take(recorded.1.len() as int).take(m.1.len() as int) =~= r.1.take(m.1.len() as int));
    }
    assert(r.2.take(m.2.len() as int) =~= recorded.2.take(m.2.len() as int)) by {
        assert(r.2.take(recorded.2.len() as int).take(m.2.len() as int) =~= r.2.take(m.2.len() as int));
    }
}

/// Collecting a sequence of content only appends pages and entries.
pub proof fn lemma_collect_nodes_extends(nodes: Seq<ContentNode>, route: Option<String>, m: ManifestView)
    ensures
        extends(m.1, collect_nodes(nodes, route, m).1),
        extends(m.2, collect_nodes(nodes, route, m).2),
    decreases nodes,
{
    if nodes.len() > 0 {
        assert(decreases_to!(nodes => nodes.subrange(0, nodes.len() - 1)));
        lemma_collect_nodes_extends(nodes.drop_last(), route, m);
        let mid = collect_nodes(nodes.drop_last(), route, m);
        lemma_collect_node_extends(nodes.last(), route, mid);
        let r = collect_nodes(nodes, route, m);
        assert(r == collect_node(nodes.last(), route, mid));
        assert(r.1.take(m.1.len() as int) =~= mid.1.take(m.1.len() as int)) by {
            assert(r.1.take(mid.1.len() as int).take(m.1.len() as int) =~= r.1.take(m.1.len() as int));
        }
        assert(r.2.take(m.2.len() as int) =~= mid.2.take(m.2.len() as int)) by {
            assert(r.2.take(mid.2.len() as int).take(m.2.len() as int) =~= r.2.take(m.2.len() as int));
        }
    } else {
        assert(m.1.take(m.1.len() as int) =~= m.1);
        assert(m.2.take(m.2.len() as int) =~= m.2);
    }
}

} // verus!
