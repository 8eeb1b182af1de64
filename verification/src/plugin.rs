//! The plugin interface and the two values plugins work on: the Typst
//! overlay contributed before evaluation, and the rendered output.
use vstd::prelude::*;

use crate::keyed::{insert_sorted, lemma_insert_sorted, lemma_insert_sorted_split, lookup, sorted_by_key};
use crate::manifest::{ManifestView, SiteManifest};
use crate::encrypt::encrypt_message;
use crate::text::{chars_of, less_chars, lemma_seq_less_total, same_chars, seq_less, string_of};

verus! {

broadcast use vstd::seq::group_seq_axioms;

/// The segments of `p` between its `/`s.
pub open spec fn path_segments(p: Seq<char>) -> Seq<Seq<char>>
    decreases p.len(),
{
    if p.len() == 0 {
        seq![Seq::empty()]
    } else {
        let s = path_segments(p.drop_last());
        if p.last() == '/' {
            s.push(Seq::empty())
        } else {
            s.update(s.len() - 1, s[s.len() - 1].push(p.last()))
        }
    }
}

/// The segments kept, in order: empty and `.` segments are dropped and `..`
/// drops the segment kept before it; `None` where a `..` would climb above
/// the root or a segment holds a backslash.
pub open spec fn resolve_segments(segs: Seq<Seq<char>>) -> Option<Seq<Seq<char>>>
    decreases segs.len(),
{
    if segs.len() == 0 {
        Some(Seq::empty())
    } else {
        match resolve_segments(segs.drop_last()) {
            None => None,
            Some(kept) => {
                let s = segs.last();
                if s.len() == 0 || s == "."@ {
                    Some(kept)
                } else if s == ".."@ {
                    if kept.len() == 0 {
                        None
                    } else {
                        Some(kept.drop_last())
                    }
                } else if s.contains('\\') {
                    None
                } else {
                    Some(kept.push(s))
                }
            },
        }
    }
}

/// The segments joined by `/`.
pub open spec fn join_segments(segs: Seq<Seq<char>>) -> Seq<char>
    decreases segs.len(),
{
    if segs.len() == 0 {
        Seq::empty()
    } else if segs.len() == 1 {
        segs[0]
    } else {
        join_segments(segs.drop_last()) + "/"@ + segs.last()
    }
}

/// The normalised form of a project-relative path, without its leading
/// slash, as typst's virtual paths give it; `None` where typst refuses the
/// path.
pub open spec fn virtual_path(path: Seq<char>) -> Option<Seq<char>> {
    match resolve_segments(path_segments(path)) {
        Some(kept) => Some(join_segments(kept)),
        None => None,
    }
}

/// A path typst keeps as it is: non-empty, relative, without a backslash,
/// without an empty segment and without a segment that starts with a dot.
pub open spec fn simple_path(p: Seq<char>) -> bool {
    &&& p.len() > 0
    &&& p[0] != '/'
    &&& p[0] != '.'
    &&& p[p.len() - 1] != '/'
    &&& forall|i: int| 0 <= i < p.len() ==> #[trigger] p[i] != '\\'
    &&& forall|i: int| 0 <= i < p.len() - 1 && #[trigger] p[i] == '/' ==> p[i + 1] != '/' && p[i + 1] != '.'
}

/// A segment typst keeps as it is: not empty, not starting with a dot, and
/// without a backslash.
spec fn plain_segment(s: Seq<char>) -> bool {
    &&& s.len() > 0
    &&& s[0] != '.'
    &&& forall|j: int| 0 <= j < s.len() ==> #[trigger] s[j] != '\\'
}

/// Splitting at `/` and joining with `/` gives the path back.
proof fn lemma_join_path_segments(p: Seq<char>)
    ensures
        path_segments(p).len() >= 1,
        join_segments(path_segments(p)) == p,
    decreases p.len(),
{
    reveal_strlit("/");
    if p.len() > 0 {
        let q = p.drop_last();
        lemma_join_path_segments(q);
        let s = path_segments(q);
        if p.last() == '/' {
            assert(s.push(Seq::empty()).drop_last() =~= s);
            assert(p =~= q + "/"@ + Seq::<char>::empty());
        } else {
            let t = s.update(s.len() - 1, s[s.len() - 1].push(p.last()));
            if s.len() == 1 {
                assert(p =~= s[0].push(p.last()));
            } else {
                assert(t.drop_last() =~= s.drop_last());
                assert(q == join_segments(s.drop_last()) + "/"@ + s.last());
                assert(p =~= q.push(p.last()));
                assert(p =~= join_segments(s.drop_last()) + "/"@ + s.last().push(p.last()));
                assert(t.last() == s.last().push(p.last()));
            }
        }
    }
}

/// In a path without a backslash, a `//` or a `/.`, that neither starts with
/// `/` nor with `.`, every segment but the last is plain, and the last is
/// plain unless the path ends with `/`, where it is empty.
proof fn lemma_segments_plain(p: Seq<char>)
    requires
        p.len() > 0,
        p[0] != '/',
        p[0] != '.',
        forall|i: int| 0 <= i < p.len() ==> #[trigger] p[i] != '\\',
        forall|i: int| 0 <= i < p.len() - 1 && #[trigger] p[i] == '/' ==> p[i + 1] != '/' && p[i + 1] != '.',
    ensures
        forall|k: int| 0 <= k < path_segments(p).len() - 1 ==> plain_segment(#[trigger] path_segments(p)[k]),
        p.last() == '/' ==> path_segments(p).last().len() == 0,
        p.last() != '/' ==> plain_segment(path_segments(p).last()),
    decreases p.len(),
{
    lemma_join_path_segments(p);
    let q = p.drop_last();
    let c = p.last();
    if q.len() == 0 {
        assert(path_segments(q) =~= seq![Seq::<char>::empty()]);
        assert(path_segments(p)[0] =~= seq![c]);
    } else {
        assert forall|i: int| 0 <= i < q.len() - 1 && #[trigger] q[i] == '/' implies q[i + 1] != '/' && q[i + 1]
            != '.' by {
            assert(p[i] == q[i] && p[i + 1] == q[i + 1]);
        }
        assert forall|i: int| 0 <= i < q.len() implies #[trigger] q[i] != '\\' by {
            assert(p[i] == q[i]);
        }
        lemma_segments_plain(q);
        lemma_join_path_segments(q);
        let s = path_segments(q);
        assert(q.last() == p[p.len() - 2]);
        if c == '/' {
            assert(q.last() != '/');
        } else {
            let t = s.update(s.len() - 1, s[s.len() - 1].push(c));
            assert(path_segments(p) == t);
            let last = s[s.len() - 1].push(c);
            if q.last() == '/' {
                assert(c != '.');
                assert(last =~= seq![c]);
            }
            assert(plain_segment(last)) by {
                assert(last[0] == s[s.len() - 1].push(c)[0]);
                assert forall|j: int| 0 <= j < last.len() implies #[trigger] last[j] != '\\' by {
                    if j < s[s.len() - 1].len() {
                        assert(last[j] == s[s.len() - 1][j]);
                    }
                }
            }
            assert forall|k: int| 0 <= k < t.len() - 1 implies plain_segment(#[trigger] t[k]) by {
                assert(t[k] == s[k]);
            }
        }
    }
}

/// Plain segments are all kept.
proof fn lemma_plain_segments_kept(segs: Seq<Seq<char>>)
    requires
        forall|k: int| 0 <= k < segs.len() ==> plain_segment(#[trigger] segs[k]),
    ensures
        resolve_segments(segs) == Some(segs),
    decreases segs.len(),
{
    reveal_strlit(".");
    reveal_strlit("..");
    if segs.len() > 0 {
        let rest = segs.drop_last();
        assert forall|k: int| 0 <= k < rest.len() implies plain_segment(#[trigger] rest[k]) by {
            assert(rest[k] == segs[k]);
        }
        lemma_plain_segments_kept(rest);
        let last = segs.last();
        assert(plain_segment(segs[segs.len() - 1]));
        assert(last != "."@) by {
            if last == "."@ {
                assert(last[0] == '.');
            }
        }
        assert(last != ".."@) by {
            if last == ".."@ {
                assert(last[0] == '.');
            }
        }
        assert(!last.contains('\\'));
        assert(rest.push(last) =~= segs);
    }
}

/// A simple path is its own normal form.
proof fn lemma_simple_path_kept(p: Seq<char>)
    requires
        simple_path(p),
    ensures
        virtual_path(p) == Some(p),
{
    lemma_segments_plain(p);
    lemma_join_path_segments(p);
    let segs = path_segments(p);
    assert forall|k: int| 0 <= k < segs.len() implies plain_segment(#[trigger] segs[k]) by {
        if k == segs.len() - 1 {
            assert(segs[k] == segs.last());
        }
    }
    lemma_plain_segments_kept(segs);
}

/// The library's own Typst files sit at simple paths.
pub proof fn lemma_library_paths_are_simple()
    ensures
        simple_path("lib/typost.typ"@),
        simple_path("lib/typost/encrypted.typ"@),
        simple_path("lib/typost/spoiler.typ"@),
        simple_path("lib/typost/taxonomies.typ"@),
{
    reveal_strlit("lib/typost.typ");
    reveal_strlit("lib/typost/encrypted.typ");
    reveal_strlit("lib/typost/spoiler.typ");
    reveal_strlit("lib/typost/taxonomies.typ");
}

/// `typst::syntax::VirtualPath::new`, read back with `get_without_slash`:
/// the path normalised as `virtual_path` says, or `None` where typst refuses
/// it. Its source splits the path at `/`, reads an empty or `.` segment as
/// staying in place (a leading empty one as the root, where nothing has been
/// kept yet), a `..` as dropping the last kept segment and as an error where
/// none is kept, and any other segment with a backslash as an error; it
/// keeps the rest, joined by `/` after a leading `/` that
/// `get_without_slash` leaves off.
#[verifier::external_body]
fn normalize_path(path: &str) -> (r: Option<String>)
    ensures
        r matches Some(k) ==> virtual_path(path@) == Some(k@),
        r is None ==> virtual_path(path@) is None,
{
    match typst::syntax::VirtualPath::new(path) {
        Ok(vpath) => Some(vpath.get_without_slash().to_owned()),
        Err(_) => None,
    }
}

/// Extra Typst sources made visible to the compiler before evaluation,
/// keyed by normalised project-relative path (e.g. `lib/tags.typ`).
pub struct TypstOverlay {
    files: Vec<(String, String)>,
}

/// The first index holding key `k`.
pub open spec fn index_of_key<V>(s: Seq<(Seq<char>, V)>, k: Seq<char>) -> Option<int>
    decreases s.len(),
{
    if s.len() == 0 {
        None
    } else if s[0].0 == k {
        Some(0)
    } else {
        match index_of_key(s.drop_first(), k) {
            Some(i) => Some(i + 1),
            None => None,
        }
    }
}

/// No key occurs twice.
pub open spec fn distinct_keys<V>(s: Seq<(Seq<char>, V)>) -> bool {
    forall|i: int, j: int| 0 <= i < j < s.len() ==> (#[trigger] s[i]).0 != (#[trigger] s[j]).0
}

/// Adding a source: an existing path gets the new source in place, a new path
/// is appended.
pub open spec fn overlay_add(s: Seq<(Seq<char>, Seq<char>)>, path: Seq<char>, source: Seq<char>) -> Seq<(Seq<char>, Seq<char>)> {
    match index_of_key(s, path) {
        Some(i) => s.update(i, (path, source)),
        None => s.push((path, source)),
    }
}

/// The source held for `path`.
pub open spec fn overlay_source(s: Seq<(Seq<char>, Seq<char>)>, path: Seq<char>) -> Option<Seq<char>> {
    match index_of_key(s, path) {
        Some(i) => Some(s[i].1),
        None => None,
    }
}

pub proof fn lemma_index_of_key<V>(s: Seq<(Seq<char>, V)>, k: Seq<char>)
    ensures
        index_of_key(s, k) matches Some(i) ==> 0 <= i < s.len() && s[i].0 == k && forall|j: int|
            0 <= j < i ==> (#[trigger] s[j]).0 != k,
        index_of_key(s, k) is None ==> forall|j: int| 0 <= j < s.len() ==> (#[trigger] s[j]).0 != k,
    decreases s.len(),
{
    if s.len() > 0 && s[0].0 != k {
        lemma_index_of_key(s.drop_first(), k);
        assert forall|j: int| 0 < j < s.len() implies (#[trigger] s[j]).0 == s.drop_first()[j - 1].0 by {}
    }
}

/// Reading a path after adding it gives the added source; other paths keep
/// their sources; keys stay distinct.
pub proof fn lemma_overlay_add(s: Seq<(Seq<char>, Seq<char>)>, path: Seq<char>, source: Seq<char>)
    requires
        distinct_keys(s),
    ensures
        distinct_keys(overlay_add(s, path, source)),
        overlay_source(overlay_add(s, path, source), path) == Some(source),
        forall|p: Seq<char>| p != path ==> overlay_source(overlay_add(s, path, source), p) == overlay_source(s, p),
{
    let r = overlay_add(s, path, source);
    lemma_index_of_key(s, path);
    lemma_index_of_key(r, path);
    assert forall|p: Seq<char>| p != path implies overlay_source(r, p) == overlay_source(s, p) by {
        lemma_index_of_key(s, p);
        lemma_index_of_key(r, p);
        match index_of_key(s, p) {
            Some(i) => {
                assert(r[i].0 == p);
                match index_of_key(r, p) {
                    Some(j) => {
                        if j < i {
                            assert(r[j] == s[j]);
                        } else if j > i {
                            assert(r[i].0 == p);
                        }
                    },
                    None => {},
                }
            },
            None => {
                match index_of_key(r, p) {
                    Some(j) => {
                        if j < s.len() {
                            assert(r[j] == s[j]);
                        }
                    },
                    None => {},
                }
            },
        }
    }
    match index_of_key(r, path) {
        Some(j) => {},
        None => {
            match index_of_key(s, path) {
                Some(i) => assert(r[i].0 == path),
                None => assert(r[s.len() as int].0 == path),
            }
        },
    }
    match index_of_key(s, path) {
        Some(i) => {
            match index_of_key(r, path) {
                Some(j) => {
                    if j < i {
                        assert(r[j] == s[j]);
                    }
                },
                None => {},
            }
        },
        None => {
            match index_of_key(r, path) {
                Some(j) => {
                    if j < s.len() {
                        assert(r[j] == s[j]);
                    }
                },
                None => {},
            }
        },
    }
}

impl View for TypstOverlay {
    type V = Seq<(Seq<char>, Seq<char>)>;

    closed spec fn view(&self) -> Seq<(Seq<char>, Seq<char>)> {
        self.files@.map_values(|e: (String, String)| (e.0@, e.1@))
    }
}

impl TypstOverlay {
    #[verifier::type_invariant]
    closed spec fn wf(self) -> bool {
        distinct_keys(self@)
    }

    /// Create an empty overlay.
    pub fn new() -> (r: Self)
        ensures
            r@ == Seq::<(Seq<char>, Seq<char>)>::empty(),
    {
        let r = TypstOverlay { files: Vec::new() };
        assert(r@ =~= Seq::<(Seq<char>, Seq<char>)>::empty());
        r
    }

    /// Add a Typst source file at the given project-relative path, replacing
    /// any source already held for the same normalised path. typst must
    /// accept the path; a simple path always qualifies.
    pub fn add(&mut self, path: &str, source: &str)
        requires
            simple_path(path@) || virtual_path(path@) is Some,
        ensures
            virtual_path(path@) is Some,
            simple_path(path@) ==> virtual_path(path@) == Some(path@),
            final(self)@ == overlay_add(old(self)@, virtual_path(path@)->0, source@),
            overlay_source(final(self)@, virtual_path(path@)->0) == Some(source@),
    {
        proof {
            if simple_path(path@) {
                lemma_simple_path_kept(path@);
            }
        }
        let key = match normalize_path(path) {
            Some(k) => k,
            None => return ,
        };
        self.insert_key(key.as_str(), source);
    }

    /// Add a Typst source file where typst accepts its path; `false`, with
    /// the overlay unchanged, where it does not.
    pub fn try_add(&mut self, path: &str, source: &str) -> (r: bool)
        ensures
            r == virtual_path(path@) is Some,
            simple_path(path@) ==> r && virtual_path(path@) == Some(path@),
            r ==> final(self)@ == overlay_add(old(self)@, virtual_path(path@)->0, source@),
            !r ==> final(self)@ == old(self)@,
    {
        proof {
            if simple_path(path@) {
                lemma_simple_path_kept(path@);
            }
        }
        match normalize_path(path) {
            Some(k) => {
                self.insert_key(k.as_str(), source);
                true
            },
            None => false,
        }
    }

    /// Put `source` under the normalised `path`.
    fn insert_key(&mut self, path: &str, source: &str)
        ensures
            final(self)@ == overlay_add(old(self)@, path@, source@),
            overlay_source(final(self)@, path@) == Some(source@),
    {
        proof {
            use_type_invariant(&*self);
            lemma_index_of_key(self@, path@);
            lemma_overlay_add(self@, path@, source@);
        }
        let key = chars_of(path);
        let mut i: usize = 0;
        while i < self.files.len()
            invariant
                i <= self.files@.len(),
                key@ == path@,
                self@.len() == self.files@.len(),
                forall|j: int| 0 <= j < i ==> (#[trigger] self@[j]).0 != path@,
            ensures
                i <= self.files@.len(),
                forall|j: int| 0 <= j < i ==> (#[trigger] self@[j]).0 != path@,
                i < self.files@.len() ==> self@[i as int].0 == path@,
            decreases self.files@.len() - i,
        {
            let here = chars_of(self.files[i].0.as_str());
            assert(here@ == self@[i as int].0);
            if same_chars(&here, &key) {
                break;
            }
            i = i + 1;
        }
        let mut files: Vec<(String, String)> = Vec::new();
        std::mem::swap(&mut files, &mut self.files);
        let ghost before = files@.map_values(|e: (String, String)| (e.0@, e.1@));
        if i < files.len() {
            files.set(i, (path.to_owned(), source.to_owned()));
            proof {
                assert(index_of_key(before, path@) == Some(i as int));
                assert(files@.map_values(|e: (String, String)| (e.0@, e.1@)) =~= before.update(
                    i as int,
                    (path@, source@),
                ));
            }
        } else {
            files.push((path.to_owned(), source.to_owned()));
            proof {
                assert(index_of_key(before, path@) is None);
                assert(files@.map_values(|e: (String, String)| (e.0@, e.1@)) =~= before.push(
                    (path@, source@),
                ));
            }
        }
        self.files = files;
    }

    /// The source held for the normalised `path`; `None` also where typst
    /// refuses the path.
    pub fn get(&self, path: &str) -> (r: Option<&str>)
        ensures
            r matches Some(s) ==> virtual_path(path@) matches Some(k) && overlay_source(self@, k) == Some(s@),
            r is None ==> virtual_path(path@) is None || overlay_source(self@, virtual_path(path@)->0) is None,
    {
        match normalize_path(path) {
            Some(k) => self.get_key(k.as_str()),
            None => None,
        }
    }

    /// The source held under the normalised `path`.
    fn get_key(&self, path: &str) -> (r: Option<&str>)
        ensures
            r matches Some(s) ==> overlay_source(self@, path@) == Some(s@),
            r is None ==> overlay_source(self@, path@) is None,
    {
        proof {
            lemma_index_of_key(self@, path@);
        }
        let key = chars_of(path);
        let mut i: usize = 0;
        while i < self.files.len()
            invariant
                i <= self.files@.len(),
                key@ == path@,
                self@.len() == self.files@.len(),
                forall|j: int| 0 <= j < i ==> (#[trigger] self@[j]).0 != path@,
            decreases self.files@.len() - i,
        {
            let here = chars_of(self.files[i].0.as_str());
            assert(self@[i as int] == (self.files@[i as int].0@, self.files@[i as int].1@));
            if same_chars(&here, &key) {
                proof {
                    lemma_index_of_key(self@, path@);
                    match index_of_key(self@, path@) {
                        Some(k) => {
                            if k < i {
                                assert(self@[k].0 != path@);
                            }
                        },
                        None => {},
                    }
                }
                return Some(self.files[i].1.as_str());
            }
            i = i + 1;
        }
        None
    }

    /// The number of files.
    pub fn len(&self) -> (n: usize)
        ensures
            n == self@.len(),
            distinct_keys(self@),
    {
        proof {
            use_type_invariant(self);
        }
        self.files.len()
    }

    /// The path of the `i`-th file.
    pub fn path_at(&self, i: usize) -> (r: &str)
        requires
            i < self@.len(),
        ensures
            r@ == self@[i as int].0,
    {
        self.files[i].0.as_str()
    }

    /// The source of the `i`-th file.
    pub fn source_at(&self, i: usize) -> (r: &str)
        requires
            i < self@.len(),
        ensures
            r@ == self@[i as int].1,
    {
        self.files[i].1.as_str()
    }
}

/// The result of rendering: output files keyed by path relative to the site
/// root (no leading slash), in increasing path order.
pub struct RenderOutput {
    files: Vec<(String, Vec<u8>)>,
}

impl View for RenderOutput {
    type V = Seq<(Seq<char>, Seq<u8>)>;

    closed spec fn view(&self) -> Seq<(Seq<char>, Seq<u8>)> {
        self.files@.map_values(|e: (String, Vec<u8>)| (e.0@, e.1@))
    }
}

impl RenderOutput {
    #[verifier::type_invariant]
    closed spec fn wf(self) -> bool {
        sorted_by_key(self@)
    }

    /// Create an empty output.
    pub fn new() -> (r: Self)
        ensures
            r@ == Seq::<(Seq<char>, Seq<u8>)>::empty(),
    {
        let r = RenderOutput { files: Vec::new() };
        assert(r@ =~= Seq::<(Seq<char>, Seq<u8>)>::empty());
        r
    }

    /// Insert or replace a file.
    pub fn insert(&mut self, path: &str, bytes: Vec<u8>)
        ensures
            final(self)@ == insert_sorted(old(self)@, path@, bytes@),
            lookup(final(self)@, path@) == Some(bytes@),
            forall|p: Seq<char>| p != path@ ==> lookup(final(self)@, p) == lookup(old(self)@, p),
            sorted_by_key(final(self)@),
    {
        proof {
            use_type_invariant(&*self);
            lemma_insert_sorted(self@, path@, bytes@);
        }
        let key = chars_of(path);
        let mut i: usize = 0;
        while i < self.files.len()
            invariant
                i <= self.files@.len(),
                key@ == path@,
                self@.len() == self.files@.len(),
                forall|j: int| 0 <= j < i ==> seq_less(#[trigger] self@[j].0, path@),
            ensures
                i <= self.files@.len(),
                forall|j: int| 0 <= j < i ==> seq_less(#[trigger] self@[j].0, path@),
                i < self.files@.len() ==> !seq_less(self@[i as int].0, path@),
            decreases self.files@.len() - i,
        {
            let here = chars_of(self.files[i].0.as_str());
            assert(here@ == self@[i as int].0);
            if !less_chars(&here, &key) {
                break;
            }
            i = i + 1;
        }
        let ghost before = self@;
        proof {
            lemma_insert_sorted_split(before, path@, bytes@, i as int);
        }
        let mut files: Vec<(String, Vec<u8>)> = Vec::new();
        std::mem::swap(&mut files, &mut self.files);
        let replace = if i < files.len() {
            let here = chars_of(files[i].0.as_str());
            same_chars(&here, &key)
        } else {
            false
        };
        let ghost bytes_view = bytes@;
        if replace {
            files.set(i, (path.to_owned(), bytes));
            proof {
                assert(files@.map_values(|e: (String, Vec<u8>)| (e.0@, e.1@)) =~= before.take(
                    i as int,
                ) + seq![(path@, bytes_view)] + before.skip(i as int + 1));
            }
        } else {
            files.insert(i, (path.to_owned(), bytes));
            proof {
                assert(files@.map_values(|e: (String, Vec<u8>)| (e.0@, e.1@)) =~= before.take(
                    i as int,
                ) + seq![(path@, bytes_view)] + before.skip(i as int));
            }
        }
        self.files = files;
    }

    /// Get a file's bytes.
    pub fn get(&self, path: &str) -> (r: Option<&[u8]>)
        ensures
            r matches Some(b) ==> lookup(self@, path@) == Some(b@),
            r is None ==> lookup(self@, path@) is None,
    {
        proof {
            use_type_invariant(self);
        }
        let key = chars_of(path);
        let mut i: usize = 0;
        while i < self.files.len()
            invariant
                i <= self.files@.len(),
                key@ == path@,
                self@.len() == self.files@.len(),
                sorted_by_key(self@),
                forall|j: int| 0 <= j < i ==> (#[trigger] self@[j]).0 != path@,
            decreases self.files@.len() - i,
        {
            let here = chars_of(self.files[i].0.as_str());
            if same_chars(&here, &key) {
                proof {
                    crate::keyed::lemma_lookup_index(self@, i as int);
                }
                return Some(self.files[i].1.as_slice());
            }
            i = i + 1;
        }
        proof {
            crate::keyed::lemma_lookup_none(self@, path@);
        }
        None
    }

    /// The number of files.
    pub fn len(&self) -> (n: usize)
        ensures
            n == self@.len(),
            sorted_by_key(self@),
    {
        proof {
            use_type_invariant(self);
        }
        self.files.len()
    }

    /// The path of the `i`-th file in path order.
    pub fn path_at(&self, i: usize) -> (r: &str)
        requires
            i < self@.len(),
        ensures
            r@ == self@[i as int].0,
    {
        self.files[i].0.as_str()
    }

    /// The bytes of the `i`-th file in path order.
    pub fn bytes_at(&self, i: usize) -> (r: &[u8])
        requires
            i < self@.len(),
        ensures
            r@ == self@[i as int].1,
    {
        self.files[i].1.as_slice()
    }

    /// Replace the bytes of the `i`-th file, keeping its path.
    pub fn set_bytes_at(&mut self, i: usize, bytes: Vec<u8>)
        requires
            i < old(self)@.len(),
        ensures
            final(self)@ == old(self)@.update(i as int, (old(self)@[i as int].0, bytes@)),
    {
        proof {
            use_type_invariant(&*self);
        }
        let ghost before = self@;
        let ghost bytes_view = bytes@;
        let mut files: Vec<(String, Vec<u8>)> = Vec::new();
        std::mem::swap(&mut files, &mut self.files);
        let mut entry = (String::new(), Vec::new());
        files.set_and_swap(i, &mut entry);
        let (path, _) = entry;
        files.set(i, (path, bytes));
        proof {
            assert(files@.map_values(|e: (String, Vec<u8>)| (e.0@, e.1@)) =~= before.update(
                i as int,
                (before[i as int].0, bytes_view),
            ));
            let after = before.update(i as int, (before[i as int].0, bytes_view));
            assert forall|a: int, b: int| 0 <= a < b < after.len() implies seq_less(
                #[trigger] after[a].0,
                #[trigger] after[b].0,
            ) by {
                assert(after[a].0 == before[a].0);
                assert(after[b].0 == before[b].0);
            }
        }
        self.files = files;
    }
}

/// The failure of a plugin stage.
#[derive(Debug)]
pub enum PluginError {
    /// The encryption plugin could not lock a page.
    Encrypt(crate::encrypt::EncryptError),
    /// A plugin-defined failure.
    Message(String),
}

/// What a plugin failure says.
pub open spec fn plugin_message(e: PluginError) -> Seq<char> {
    match e {
        PluginError::Encrypt(x) => encrypt_message(x),
        PluginError::Message(m) => m@,
    }
}

impl PluginError {
    /// What the failure says.
    pub fn message(&self) -> (r: String)
        ensures
            r@ == plugin_message(*self),
    {
        match self {
            PluginError::Encrypt(e) => e.message(),
            PluginError::Message(m) => string_of(&chars_of(m.as_str())),
        }
    }
}

/// A compile-time plugin. Plugins run in registration order at each of the
/// three seams of the pipeline.
///
/// Each stage has a relation that says what the plugin does there: how the
/// value it works on changes and what it returns. Every plugin implements all
/// three stages; the provided relation, for a plugin with nothing to do at a
/// stage, is to succeed and change nothing, and a stage method does exactly
/// what its relation says.
pub trait Plugin: Send + Sync {
    /// What the `typst` stage may do: turn the overlay `before` into `after`
    /// and return `r`.
    open spec fn typst_effect(
        &self,
        before: Seq<(Seq<char>, Seq<char>)>,
        after: Seq<(Seq<char>, Seq<char>)>,
        r: Result<(), PluginError>,
    ) -> bool {
        r is Ok && after == before
    }

    /// What the `prepare` stage may do: turn the manifest `before` into
    /// `after` and return `r`.
    open spec fn prepare_effect(&self, before: ManifestView, after: ManifestView, r: Result<(), PluginError>) -> bool {
        r is Ok && after == before
    }

    /// What the `post` stage may do with `manifest`: turn the rendered files
    /// `before` into `after` and return `r`.
    open spec fn post_effect(
        &self,
        before: Seq<(Seq<char>, Seq<u8>)>,
        manifest: SiteManifest,
        after: Seq<(Seq<char>, Seq<u8>)>,
        r: Result<(), PluginError>,
    ) -> bool {
        r is Ok && after == before
    }

    /// The plugin's name, for diagnostics.
    fn name(&self) -> &str;

    /// Contribute Typst modules or data before evaluation.
    fn typst(&self, overlay: &mut TypstOverlay) -> (r: Result<(), PluginError>)
        ensures
            self.typst_effect(old(overlay)@, final(overlay)@, r),
    ;

    /// Mutate the site structure after evaluation, before rendering.
    fn prepare(&self, manifest: &mut SiteManifest) -> (r: Result<(), PluginError>)
        ensures
            self.prepare_effect(old(manifest)@, final(manifest)@, r),
    ;

    /// Transform the exported files after rendering.
    fn post(&self, out: &mut RenderOutput, manifest: &SiteManifest) -> (r: Result<(), PluginError>)
        ensures
            self.post_effect(old(out)@, *manifest, final(out)@, r),
    ;
}

} // verus!
