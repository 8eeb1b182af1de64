//! An Atom feed plugin.
//!
//! Generates an Atom 1.0 feed from the manifest's dated pages (by default the
//! `post` section), newest first, and links it from every page's `<head>`.
//!
//! This is a `post` plugin: it reads the rendered HTML to embed each entry's
//! content. Register it after `Encrypt` so that encrypted posts contribute
//! ciphertext rather than plaintext.
use vstd::prelude::*;
use vstd::utf8::{decode_utf8, encode_utf8, valid_utf8};

use crate::keyed::{insert_sorted, lemma_insert_sorted, lookup, sorted_by_key};
use crate::manifest::{fm_array, fm_get, fm_str, FrontMatter, PageMeta, SiteManifest};
use crate::markup::{push_xml_escaped, xml_escape};
use crate::plugin::{Plugin, PluginError, RenderOutput, TypstOverlay};
use crate::text::{
    append_chars, append_range, append_str, chars_of, contains, contains_in, decode_utf8_chars,
    encode_utf8_chars, ends_with, ends_with_in, find, find_from, lemma_contains_at,
    lemma_encode_decode, lemma_find_from_nonneg, lemma_rfind, less_chars, matches_at, occurs_at,
    rfind, rfind_in, same_chars, seq_less, string_of, trim_end, trim_end_in, trim_start,
    trim_start_in, lemma_seq_less_asymmetric, lemma_seq_less_irreflexive, lemma_seq_less_total, lemma_seq_less_transitive,
};

verus! {

broadcast use vstd::seq::group_seq_axioms;

// ---------------------------------------------------------------------------
// Which pages make the feed.
// ---------------------------------------------------------------------------

/// The page's `date`, if it is a string.
pub open spec fn date_of(p: PageMeta) -> Option<Seq<char>> {
    fm_str(fm_get(p.data, "date"@))
}

/// The page belongs to `section` and carries a date.
pub open spec fn dated_in_section(p: PageMeta, section: Seq<char>) -> bool {
    fm_str(fm_get(p.data, "section"@)) == Some(section) && date_of(p) is Some
}

/// The dated pages of `section`, in declaration order.
pub open spec fn select_pages(pages: Seq<PageMeta>, section: Seq<char>) -> Seq<PageMeta>
    decreases pages.len(),
{
    if pages.len() == 0 {
        Seq::empty()
    } else {
        let r = select_pages(pages.drop_last(), section);
        if dated_in_section(pages.last(), section) {
            r.push(pages.last())
        } else {
            r
        }
    }
}

/// `a` is strictly older than `b`.
pub open spec fn older(a: PageMeta, b: PageMeta) -> bool {
    seq_less(date_of(a).unwrap_or(Seq::empty()), date_of(b).unwrap_or(Seq::empty()))
}

/// `x` inserted into a newest-first list after every page at least as new.
pub open spec fn insert_by_date(sorted: Seq<PageMeta>, x: PageMeta) -> Seq<PageMeta>
    decreases sorted.len(),
{
    if sorted.len() == 0 {
        seq![x]
    } else if older(sorted[0], x) {
        seq![x] + sorted
    } else {
        seq![sorted[0]] + insert_by_date(sorted.drop_first(), x)
    }
}

/// The pages ordered newest first; pages with equal dates keep their order.
pub open spec fn newest_first(s: Seq<PageMeta>) -> Seq<PageMeta>
    decreases s.len(),
{
    if s.len() == 0 {
        Seq::empty()
    } else {
        insert_by_date(newest_first(s.drop_last()), s.last())
    }
}

/// The feed's entries: the section's dated pages, newest first, at most
/// `limit` of them.
pub open spec fn feed_entries(pages: Seq<PageMeta>, section: Seq<char>, limit: usize) -> Seq<PageMeta> {
    let s = newest_first(select_pages(pages, section));
    if limit < s.len() {
        s.take(limit as int)
    } else {
        s
    }
}

/// The newest date among the pages.
pub open spec fn max_date(s: Seq<PageMeta>) -> Option<Seq<char>>
    decreases s.len(),
{
    if s.len() == 0 {
        None
    } else {
        let d = date_of(s.last()).unwrap_or(Seq::empty());
        match max_date(s.drop_last()) {
            None => Some(d),
            Some(m) => if seq_less(m, d) {
                Some(d)
            } else {
                Some(m)
            },
        }
    }
}

/// No page is older than a page after it.
pub open spec fn is_newest_first(s: Seq<PageMeta>) -> bool {
    forall|i: int, j: int| 0 <= i < j < s.len() ==> !older(#[trigger] s[i], #[trigger] s[j])
}

/// A page at least as new as `x` and as every page of `s` is at least as new
/// as every page of `s` with `x` inserted.
proof fn lemma_insert_by_date_bound(s: Seq<PageMeta>, x: PageMeta, y: PageMeta)
    requires
        !older(y, x),
        forall|i: int| 0 <= i < s.len() ==> !older(y, #[trigger] s[i]),
    ensures
        forall|k: int| 0 <= k < insert_by_date(s, x).len() ==> !older(y, #[trigger] insert_by_date(s, x)[k]),
    decreases s.len(),
{
    if s.len() > 0 && !older(s[0], x) {
        let t = s.drop_first();
        assert forall|i: int| 0 <= i < t.len() implies !older(y, #[trigger] t[i]) by {
            assert(t[i] == s[i + 1]);
        }
        lemma_insert_by_date_bound(t, x, y);
        let r = insert_by_date(s, x);
        assert forall|k: int| 0 <= k < r.len() implies !older(y, #[trigger] r[k]) by {
            if k > 0 {
                assert(r[k] == insert_by_date(t, x)[k - 1]);
            }
        }
    }
}

/// Inserting by date keeps a newest-first list newest first, and adds `x`.
proof fn lemma_insert_by_date_sorted(s: Seq<PageMeta>, x: PageMeta)
    requires
        is_newest_first(s),
    ensures
        is_newest_first(insert_by_date(s, x)),
        insert_by_date(s, x).to_multiset() == s.to_multiset().insert(x),
    decreases s.len(),
{
    broadcast use vstd::seq_lib::group_to_multiset_ensures;
    broadcast use vstd::multiset::group_multiset_axioms;

    let r = insert_by_date(s, x);
    if s.len() == 0 {
        assert(r =~= Seq::<PageMeta>::empty().push(x));
        assert(s =~= Seq::<PageMeta>::empty());
    } else if older(s[0], x) {
        assert forall|i: int, j: int| 0 <= i < j < r.len() implies !older(#[trigger] r[i], #[trigger] r[j]) by {
            if i == 0 {
                let d0 = date_of(s[0]).unwrap_or(Seq::empty());
                let dx = date_of(x).unwrap_or(Seq::empty());
                let dj = date_of(r[j]).unwrap_or(Seq::empty());
                assert(r[j] == s[j - 1]);
                if j - 1 > 0 {
                    assert(!older(s[0], s[j - 1]));
                    lemma_seq_less_total(d0, dj);
                }
                if older(x, r[j]) {
                    if dj == d0 {
                        lemma_seq_less_asymmetric(d0, dx);
                    } else {
                        lemma_seq_less_transitive(dx, dj, d0);
                        lemma_seq_less_asymmetric(d0, dx);
                    }
                }
            } else {
                assert(r[i] == s[i - 1]);
                assert(r[j] == s[j - 1]);
            }
        }
        assert(r =~= s.insert(0, x));
    } else {
        let t = s.drop_first();
        assert(is_newest_first(t)) by {
            assert forall|i: int, j: int| 0 <= i < j < t.len() implies !older(#[trigger] t[i], #[trigger] t[j]) by {
                assert(t[i] == s[i + 1]);
                assert(t[j] == s[j + 1]);
            }
        }
        lemma_insert_by_date_sorted(t, x);
        assert forall|i: int| 0 <= i < t.len() implies !older(s[0], #[trigger] t[i]) by {
            assert(t[i] == s[i + 1]);
        }
        lemma_insert_by_date_bound(t, x, s[0]);
        let rt = insert_by_date(t, x);
        assert forall|i: int, j: int| 0 <= i < j < r.len() implies !older(#[trigger] r[i], #[trigger] r[j]) by {
            assert(r[j] == rt[j - 1]);
            if i > 0 {
                assert(r[i] == rt[i - 1]);
            }
        }
        assert(s =~= t.insert(0, s[0]));
        assert(r =~= rt.insert(0, s[0]));
        assert(t.to_multiset().insert(x).insert(s[0]) =~= t.to_multiset().insert(s[0]).insert(x));
    }
}

/// `newest_first` orders the pages newest first and keeps every page.
pub proof fn lemma_newest_first(s: Seq<PageMeta>)
    ensures
        is_newest_first(newest_first(s)),
        newest_first(s).to_multiset() == s.to_multiset(),
    decreases s.len(),
{
    broadcast use vstd::seq_lib::group_to_multiset_ensures;

    if s.len() == 0 {
        assert(newest_first(s) =~= s);
    } else {
        lemma_newest_first(s.drop_last());
        lemma_insert_by_date_sorted(newest_first(s.drop_last()), s.last());
        assert(s =~= s.drop_last().push(s.last()));
    }
}

/// The date a page is ordered by (none counts as the empty string).
pub open spec fn date_key(p: PageMeta) -> Seq<char> {
    date_of(p).unwrap_or(Seq::empty())
}

/// The pages of `s` dated `d`, in order.
pub open spec fn dated_on(s: Seq<PageMeta>, d: Seq<char>) -> Seq<PageMeta>
    decreases s.len(),
{
    if s.len() == 0 {
        Seq::empty()
    } else if date_key(s.last()) == d {
        dated_on(s.drop_last(), d).push(s.last())
    } else {
        dated_on(s.drop_last(), d)
    }
}

proof fn lemma_dated_on_add(a: Seq<PageMeta>, b: Seq<PageMeta>, d: Seq<char>)
    ensures
        dated_on(a + b, d) == dated_on(a, d) + dated_on(b, d),
    decreases b.len(),
{
    if b.len() == 0 {
        assert(a + b =~= a);
    } else {
        lemma_dated_on_add(a, b.drop_last(), d);
        assert((a + b).drop_last() =~= a + b.drop_last());
        assert((a + b).last() == b.last());
    }
}

proof fn lemma_dated_on_none(s: Seq<PageMeta>, d: Seq<char>)
    requires
        forall|i: int| 0 <= i < s.len() ==> date_key(#[trigger] s[i]) != d,
    ensures
        dated_on(s, d) == Seq::<PageMeta>::empty(),
    decreases s.len(),
{
    if s.len() > 0 {
        assert forall|i: int| 0 <= i < s.len() - 1 implies date_key(#[trigger] s.drop_last()[i]) != d by {
            assert(s.drop_last()[i] == s[i]);
        }
        lemma_dated_on_none(s.drop_last(), d);
        assert(date_key(s[s.len() - 1]) != d);
    }
}

proof fn lemma_dated_on_single(x: PageMeta, d: Seq<char>)
    ensures
        dated_on(seq![x], d) == if date_key(x) == d { seq![x] } else { Seq::<PageMeta>::empty() },
{
    let s = seq![x];
    assert(s.drop_last() =~= Seq::<PageMeta>::empty());
    assert(s.last() == x);
    assert(dated_on(Seq::<PageMeta>::empty(), d) == Seq::<PageMeta>::empty());
    assert(Seq::<PageMeta>::empty().push(x) =~= s);
}

/// Inserting a page into a newest-first list puts it after every page of
/// its date.
proof fn lemma_insert_by_date_dated_on(t: Seq<PageMeta>, x: PageMeta, d: Seq<char>)
    requires
        is_newest_first(t),
    ensures
        dated_on(insert_by_date(t, x), d) == dated_on(t, d) + if date_key(x) == d {
            seq![x]
        } else {
            Seq::<PageMeta>::empty()
        },
    decreases t.len(),
{
    lemma_dated_on_single(x, d);
    if t.len() == 0 {
        assert(t + seq![x] =~= seq![x]);
    } else if older(t[0], x) {
        lemma_dated_on_add(seq![x], t, d);
        if date_key(x) == d {
            assert forall|i: int| 0 <= i < t.len() implies date_key(#[trigger] t[i]) != d by {
                if date_key(t[i]) == d && i > 0 {
                    assert(!older(t[0], t[i]));
                    lemma_seq_less_total(date_key(t[0]), date_key(t[i]));
                    lemma_seq_less_irreflexive(date_key(x));
                }
                if i == 0 {
                    lemma_seq_less_irreflexive(date_key(x));
                }
            }
            lemma_dated_on_none(t, d);
            assert(seq![x] + dated_on(t, d) =~= dated_on(t, d) + seq![x]);
        } else {
            assert(Seq::<PageMeta>::empty() + dated_on(t, d) =~= dated_on(t, d) + Seq::<PageMeta>::empty());
        }
    } else {
        let rest = t.drop_first();
        assert(is_newest_first(rest)) by {
            assert forall|i: int, j: int| 0 <= i < j < rest.len() implies !older(#[trigger] rest[i], #[trigger] rest[j]) by {
                assert(rest[i] == t[i + 1] && rest[j] == t[j + 1]);
            }
        }
        lemma_insert_by_date_dated_on(rest, x, d);
        lemma_dated_on_add(seq![t[0]], insert_by_date(rest, x), d);
        lemma_dated_on_add(seq![t[0]], rest, d);
        assert(seq![t[0]] + rest =~= t);
        lemma_dated_on_single(t[0], d);
        let extra = if date_key(x) == d { seq![x] } else { Seq::<PageMeta>::empty() };
        assert(dated_on(seq![t[0]], d) + (dated_on(rest, d) + extra) =~= dated_on(seq![t[0]], d) + dated_on(
            rest,
            d,
        ) + extra);
    }
}

/// Ordering newest first is stable: the pages of any one date keep their
/// order.
pub proof fn lemma_newest_first_stable(s: Seq<PageMeta>, d: Seq<char>)
    ensures
        dated_on(newest_first(s), d) == dated_on(s, d),
    decreases s.len(),
{
    if s.len() > 0 {
        lemma_newest_first_stable(s.drop_last(), d);
        lemma_newest_first(s.drop_last());
        lemma_insert_by_date_dated_on(newest_first(s.drop_last()), s.last(), d);
        if date_key(s.last()) != d {
            assert(dated_on(s.drop_last(), d) + Seq::<PageMeta>::empty() =~= dated_on(s.drop_last(), d));
        }
    }
}

/// The selected pages are exactly the section's dated pages.
pub proof fn lemma_select_pages(pages: Seq<PageMeta>, section: Seq<char>)
    ensures
        forall|p: PageMeta|
            #[trigger] select_pages(pages, section).contains(p) <==> (pages.contains(p) && dated_in_section(p, section)),
    decreases pages.len(),
{
    if pages.len() > 0 {
        lemma_select_pages(pages.drop_last(), section);
        let r = select_pages(pages.drop_last(), section);
        assert forall|p: PageMeta|
            #[trigger] select_pages(pages, section).contains(p) <==> (pages.contains(p) && dated_in_section(p, section)) by {
            if pages.contains(p) {
                let i = choose|i: int| 0 <= i < pages.len() && pages[i] == p;
                if i < pages.len() - 1 {
                    assert(pages.drop_last()[i] == p);
                }
            }
            if pages.drop_last().contains(p) {
                let i = choose|i: int| 0 <= i < pages.drop_last().len() && pages.drop_last()[i] == p;
                assert(pages[i] == p);
            }
            if dated_in_section(pages.last(), section) {
                if r.push(pages.last()).contains(p) {
                    let i = choose|i: int| 0 <= i < r.push(pages.last()).len() && r.push(pages.last())[i] == p;
                    if i < r.len() {
                        assert(r[i] == p);
                    }
                }
                if r.contains(p) {
                    let i = choose|i: int| 0 <= i < r.len() && r[i] == p;
                    assert(r.push(pages.last())[i] == p);
                }
                assert(r.push(pages.last())[r.len() as int] == pages.last());
            }
        }
    }
}

/// The feed lists dated pages of its section, newest first, at most `limit`
/// of them; only when the section has more dated pages than that are some
/// left out, and a page left out is no newer than any page listed.
pub proof fn lemma_feed_entries(pages: Seq<PageMeta>, section: Seq<char>, limit: usize)
    ensures
        ({
            let e = feed_entries(pages, section, limit);
            let sel = select_pages(pages, section);
            &&& e.len() == if sel.len() < limit { sel.len() } else { limit as nat }
            &&& forall|i: int| 0 <= i < e.len() ==> pages.contains(#[trigger] e[i]) && dated_in_section(e[i], section)
            &&& is_newest_first(e)
            &&& forall|p: PageMeta|
                pages.contains(p) && dated_in_section(p, section) && !(#[trigger] e.contains(p)) ==> {
                    &&& sel.len() > limit
                    &&& forall|i: int| 0 <= i < e.len() ==> !older(#[trigger] e[i], p)
                }
        }),
{
    broadcast use vstd::seq_lib::group_to_multiset_ensures;

    let sel = select_pages(pages, section);
    let sorted = newest_first(sel);
    let e = feed_entries(pages, section, limit);
    lemma_newest_first(sel);
    lemma_select_pages(pages, section);
    assert(sorted.len() == sel.len()) by {
        assert(sorted.to_multiset().len() == sel.to_multiset().len());
    }
    assert forall|i: int| 0 <= i < e.len() implies pages.contains(#[trigger] e[i]) && dated_in_section(e[i], section) by {
        assert(e[i] == sorted[i]);
        assert(sorted.contains(sorted[i]));
        assert(sorted.to_multiset().count(sorted[i]) > 0);
        assert(sel.contains(sorted[i]));
    }
    assert forall|p: PageMeta|
        pages.contains(p) && dated_in_section(p, section) && !(#[trigger] e.contains(p)) implies {
            &&& sel.len() > limit
            &&& forall|i: int| 0 <= i < e.len() ==> !older(#[trigger] e[i], p)
        } by {
        assert(sel.contains(p));
        assert(sel.to_multiset().count(p) > 0);
        assert(sorted.contains(p));
        let j = choose|j: int| 0 <= j < sorted.len() && sorted[j] == p;
        if j < e.len() {
            assert(e[j] == p);
        }
        assert forall|i: int| 0 <= i < e.len() implies !older(#[trigger] e[i], p) by {
            assert(e[i] == sorted[i]);
        }
    }
}

// ---------------------------------------------------------------------------
// Text of the feed.
// ---------------------------------------------------------------------------

/// A front-matter date (`YYYY-MM-DD`, ten bytes) as RFC 3339; any other
/// text is kept as it is.
pub open spec fn rfc3339_spec(date: Seq<char>) -> Seq<char> {
    if encode_utf8(date).len() == 10 {
        date + "T00:00:00Z"@
    } else {
        date
    }
}

/// `s` without `suffix`, if it ends with it.
pub open spec fn strip_suffix(s: Seq<char>, suffix: Seq<char>) -> Seq<char> {
    if ends_with(s, suffix) {
        s.take(s.len() - suffix.len())
    } else {
        s
    }
}

/// The absolute URL of a page, using a directory URL for `index.html`.
pub open spec fn page_url_spec(base: Seq<char>, route: Seq<char>) -> Seq<char> {
    base + "/"@ + trim_start(strip_suffix(route, "index.html"@), '/')
}

/// `<tag>value</tag>` at the given indent.
pub open spec fn text_line(indent: Seq<char>, tag: Seq<char>, value: Seq<char>) -> Seq<char> {
    indent + "<"@ + tag + ">"@ + xml_escape(value) + "</"@ + tag + ">\n"@
}

/// `<link …/>` at the given indent.
pub open spec fn link_line(indent: Seq<char>, href: Seq<char>, rel: Seq<char>) -> Seq<char> {
    indent + "<link href=\""@ + xml_escape(href) + "\" rel=\""@ + rel + "\"/>\n"@
}

/// The attributes whose root-relative URLs are made absolute.
pub open spec fn url_attr(k: int) -> Seq<char> {
    if k == 0 {
        "href=\""@
    } else if k == 1 {
        "src=\""@
    } else if k == 2 {
        "poster=\""@
    } else {
        "xlink:href=\""@
    }
}

/// The earliest occurrence at or after `pos` of one of the attributes
/// `k..4`, as (position, attribute); the first listed wins a tie.
pub open spec fn earliest_attr(h: Seq<char>, pos: int, k: int) -> Option<(int, int)>
    decreases 4 - k,
{
    if k >= 4 || k < 0 {
        None
    } else {
        let rest = earliest_attr(h, pos, k + 1);
        match find_from(h, url_attr(k), pos) {
            None => rest,
            Some(p) => match rest {
                None => Some((p, k)),
                Some((q, _)) => if p <= q {
                    Some((p, k))
                } else {
                    rest
                },
            },
        }
    }
}

pub proof fn lemma_earliest_attr(h: Seq<char>, pos: int, k: int)
    requires
        pos >= 0,
    ensures
        earliest_attr(h, pos, k) matches Some((p, a)) ==> {
            &&& 0 <= a < 4
            &&& pos <= p
            &&& occurs_at(h, url_attr(a), p)
            &&& p + url_attr(a).len() <= h.len()
        },
    decreases 4 - k,
{
    if 0 <= k < 4 {
        lemma_earliest_attr(h, pos, k + 1);
        lemma_find_from_nonneg(h, url_attr(k), pos);
    }
}

/// The lengths of the attribute names.
pub proof fn lemma_url_attr_len(k: int)
    ensures
        url_attr(k).len() > 0,
{
    reveal_strlit("href=\"");
    reveal_strlit("src=\"");
    reveal_strlit("poster=\"");
    reveal_strlit("xlink:href=\"");
}

/// `h[pos..]` with `="/path"` (but not `="//host"`) attribute values
/// turned into absolute URLs under `base`.
pub open spec fn absolutize_from(h: Seq<char>, pos: int, base: Seq<char>) -> Seq<char>
    decreases h.len() - pos,
{
    if pos < 0 || pos > h.len() {
        Seq::empty()
    } else {
        match earliest_attr(h, pos, 0) {
            None => h.subrange(pos, h.len() as int),
            Some((at, a)) => {
                proof {
                    lemma_earliest_attr(h, pos, 0);
                    lemma_url_attr_len(a);
                    reveal_strlit("/");
                }
                let after = at + url_attr(a).len();
                let head = h.subrange(pos, after);
                if occurs_at(h, "//"@, after) {
                    head + absolutize_from(h, after, base)
                } else if occurs_at(h, "/"@, after) {
                    head + base + "/"@ + absolutize_from(h, after + 1, base)
                } else {
                    head + absolutize_from(h, after, base)
                }
            },
        }
    }
}

/// The attribute names hold `"` only as their last character, and no `/`.
proof fn lemma_url_attr_chars(k: int)
    requires
        0 <= k < 4,
    ensures
        url_attr(k).len() >= 5,
        url_attr(k)[url_attr(k).len() - 1] == '"',
        forall|i: int| 0 <= i < url_attr(k).len() - 1 ==> #[trigger] url_attr(k)[i] != '"',
        forall|i: int| 0 <= i < url_attr(k).len() ==> #[trigger] url_attr(k)[i] != '/',
{
    reveal_strlit("href=\"");
    reveal_strlit("src=\"");
    reveal_strlit("poster=\"");
    reveal_strlit("xlink:href=\"");
}

/// No attribute occurs between `pos` and the earliest one found; none at all
/// when none is found.
proof fn lemma_earliest_attr_first(h: Seq<char>, pos: int, k: int)
    requires
        pos >= 0,
        0 <= k <= 4,
    ensures
        earliest_attr(h, pos, k) matches Some((p, a)) ==> forall|k2: int, j: int|
            k <= k2 < 4 && pos <= j < p ==> !#[trigger] occurs_at(h, url_attr(k2), j),
        earliest_attr(h, pos, k) is None ==> forall|k2: int, j: int|
            k <= k2 < 4 && pos <= j ==> !#[trigger] occurs_at(h, url_attr(k2), j),
    decreases 4 - k,
{
    if k < 4 {
        lemma_earliest_attr_first(h, pos, k + 1);
        lemma_earliest_attr(h, pos, k + 1);
        lemma_find_from_nonneg(h, url_attr(k), pos);
    }
}

/// The first two characters of a page survive making its URLs absolute.
proof fn lemma_absolutize_keeps_start(h: Seq<char>, pos: int, base: Seq<char>)
    requires
        0 <= pos <= h.len(),
    ensures
        occurs_at(absolutize_from(h, pos, base), "/"@, 0) == occurs_at(h, "/"@, pos),
        occurs_at(absolutize_from(h, pos, base), "//"@, 0) == occurs_at(h, "//"@, pos),
{
    reveal_strlit("/");
    reveal_strlit("//");
    lemma_earliest_attr(h, pos, 0);
    let o = absolutize_from(h, pos, base);
    match earliest_attr(h, pos, 0) {
        None => {
            assert(o == h.subrange(pos, h.len() as int));
            assert(o.len() >= 2 ==> o.subrange(0, 2) =~= h.subrange(pos, pos + 2));
            assert(o.len() >= 1 ==> o.subrange(0, 1) =~= h.subrange(pos, pos + 1));
        },
        Some((at, a)) => {
            lemma_url_attr_chars(a);
            let after = at + url_attr(a).len();
            let head = h.subrange(pos, after);
            assert(o.subrange(0, 2) =~= head.subrange(0, 2));
            assert(o.subrange(0, 1) =~= head.subrange(0, 1));
            assert(head.subrange(0, 2) =~= h.subrange(pos, pos + 2));
            assert(head.subrange(0, 1) =~= h.subrange(pos, pos + 1));
        },
    }
}

/// With an empty base, making URLs absolute changes nothing.
proof fn lemma_absolutize_empty_base(h: Seq<char>, pos: int)
    requires
        0 <= pos <= h.len(),
    ensures
        absolutize_from(h, pos, Seq::empty()) == h.subrange(pos, h.len() as int),
    decreases h.len() - pos,
{
    reveal_strlit("/");
    reveal_strlit("//");
    lemma_earliest_attr(h, pos, 0);
    match earliest_attr(h, pos, 0) {
        None => {},
        Some((at, a)) => {
            lemma_url_attr_chars(a);
            let after = at + url_attr(a).len();
            if occurs_at(h, "//"@, after) {
                lemma_absolutize_empty_base(h, after);
                assert(h.subrange(pos, after) + h.subrange(after, h.len() as int) =~= h.subrange(pos, h.len() as int));
            } else if occurs_at(h, "/"@, after) {
                lemma_absolutize_empty_base(h, after + 1);
                assert(h.subrange(after, after + 1) =~= "/"@);
                assert(h.subrange(pos, after) + Seq::<char>::empty() + "/"@ + h.subrange(after + 1, h.len() as int)
                    =~= h.subrange(pos, h.len() as int));
            } else {
                lemma_absolutize_empty_base(h, after);
                assert(h.subrange(pos, after) + h.subrange(after, h.len() as int) =~= h.subrange(pos, h.len() as int));
            }
        },
    }
}

/// No attribute value in `s`, from `pos` on, starts with a single `/`.
pub open spec fn settled_from(s: Seq<char>, pos: int) -> bool {
    forall|j: int, k: int|
        0 <= k < 4 && pos <= j && #[trigger] occurs_at(s, url_attr(k), j) ==> !(occurs_at(
            s,
            "/"@,
            j + url_attr(k).len(),
        ) && !occurs_at(s, "//"@, j + url_attr(k).len()))
}

/// A settled page is left as it is.
proof fn lemma_settled_is_fixed(s: Seq<char>, pos: int, base: Seq<char>)
    requires
        0 <= pos <= s.len(),
        settled_from(s, pos),
    ensures
        absolutize_from(s, pos, base) == s.subrange(pos, s.len() as int),
    decreases s.len() - pos,
{
    lemma_earliest_attr(s, pos, 0);
    match earliest_attr(s, pos, 0) {
        None => {},
        Some((at, a)) => {
            lemma_url_attr_chars(a);
            let after = at + url_attr(a).len();
            lemma_settled_is_fixed(s, after, base);
            assert(s.subrange(pos, after) + s.subrange(after, s.len() as int) =~= s.subrange(pos, s.len() as int));
        },
    }
}

/// A base that can stand in front of a root-relative path without making
/// it root-relative again: it holds no `"`, and does not start with a single
/// `/`.
pub open spec fn settling_base(base: Seq<char>) -> bool {
    &&& forall|i: int| 0 <= i < base.len() ==> #[trigger] base[i] != '"'
    &&& base.len() > 0 && base[0] == '/' ==> (base + "/"@)[1] == '/'
}

/// With a non-empty settling base, a page with its URLs made absolute holds
/// no root-relative attribute value.
proof fn lemma_absolutized_is_settled(h: Seq<char>, pos: int, base: Seq<char>)
    requires
        0 <= pos <= h.len(),
        base.len() > 0,
        settling_base(base),
    ensures
        settled_from(absolutize_from(h, pos, base), 0),
    decreases h.len() - pos,
{
    reveal_strlit("/");
    reveal_strlit("//");
    lemma_earliest_attr(h, pos, 0);
    lemma_earliest_attr_first(h, pos, 0);
    let o = absolutize_from(h, pos, base);
    match earliest_attr(h, pos, 0) {
        None => {
            assert forall|j: int, k: int| 0 <= k < 4 && 0 <= j implies !#[trigger] occurs_at(o, url_attr(k), j) by {
                if occurs_at(o, url_attr(k), j) {
                    assert(h.subrange(pos + j, pos + j + url_attr(k).len()) =~= o.subrange(j, j + url_attr(k).len()));
                    assert(occurs_at(h, url_attr(k), pos + j));
                }
            }
        },
        Some((at, a)) => {
            lemma_url_attr_chars(a);
            let after = at + url_attr(a).len();
            let head = h.subrange(pos, after);
            let hl = head.len() as int;
            let (m, next) = if occurs_at(h, "//"@, after) {
                (Seq::<char>::empty(), after)
            } else if occurs_at(h, "/"@, after) {
                (base + "/"@, after + 1)
            } else {
                (Seq::<char>::empty(), after)
            };
            let rest = absolutize_from(h, next, base);
            assert(o == head + m + rest);
            lemma_absolutized_is_settled(h, next, base);
            lemma_absolutize_keeps_start(h, next, base);
            assert(head[hl - 1] == '"') by {
                assert(head[hl - 1] == h.subrange(at, after)[url_attr(a).len() - 1]);
            }
            assert forall|j: int, k: int|
                0 <= k < 4 && 0 <= j && #[trigger] occurs_at(o, url_attr(k), j) implies !(occurs_at(
                o,
                "/"@,
                j + url_attr(k).len(),
            ) && !occurs_at(o, "//"@, j + url_attr(k).len())) by {
                lemma_url_attr_chars(k);
                let len = url_attr(k).len() as int;
                let e = j + len;
                if e <= hl {
                    // Inside the head: it can only end where the found one does.
                    assert(h.subrange(pos + j, pos + e) =~= o.subrange(j, e));
                    assert(occurs_at(h, url_attr(k), pos + j));
                    assert(pos + j >= at);
                    if e < hl {
                        assert(h.subrange(at, after) == url_attr(a));
                        assert(url_attr(k)[len - 1] == o[e - 1]);
                        assert(o[e - 1] == h[pos + e - 1]);
                        assert(h[pos + e - 1] == url_attr(a)[pos + e - 1 - at]);
                    }
                    assert(e == hl);
                    assert(o.subrange(hl, o.len() as int) =~= m + rest);
                    if m.len() == 0 {
                        if rest.len() >= 1 {
                            assert(o.subrange(hl, hl + 1) =~= rest.subrange(0, 1));
                        }
                        if rest.len() >= 2 {
                            assert(o.subrange(hl, hl + 2) =~= rest.subrange(0, 2));
                        }
                    } else {
                        assert(o[hl] == base[0]);
                        assert(o.subrange(hl, hl + 1)[0] == o[hl]);
                        if base[0] == '/' {
                            assert(o[hl + 1] == (base + "/"@)[1]);
                            assert(o.subrange(hl, hl + 2) =~= "//"@);
                        }
                    }
                } else if j < hl {
                    // Across the end of the head: the `"` there would be inside the name.
                    assert(url_attr(k)[hl - 1 - j] == o[hl - 1]);
                    assert(o[hl - 1] == head[hl - 1]);
                } else if j < hl + m.len() {
                    // Inside the inserted base, or across its `/`.
                    if e <= hl + m.len() {
                        assert(url_attr(k)[len - 1] == o[e - 1]);
                        assert(o[e - 1] == m[e - 1 - hl]);
                        if e - 1 - hl < base.len() {
                            assert(m[e - 1 - hl] == base[e - 1 - hl]);
                        }
                    } else {
                        let slash = hl + m.len() - 1;
                        assert(url_attr(k)[slash - j] == o[slash]);
                        assert(o[slash] == m[m.len() - 1]);
                    }
                } else {
                    // Inside the rest, which is settled.
                    let d = hl + m.len();
                    assert(rest.subrange(j - d, e - d) =~= o.subrange(j, e));
                    assert(occurs_at(rest, url_attr(k), j - d));
                    if e + 2 <= o.len() {
                        assert(rest.subrange(e - d, e - d + 2) =~= o.subrange(e, e + 2));
                    }
                    if e + 1 <= o.len() {
                        assert(rest.subrange(e - d, e - d + 1) =~= o.subrange(e, e + 1));
                    }
                }
            }
        },
    }
}

/// Making a page's URLs absolute twice gives what doing it once gives, for
/// a base that holds no `"` and does not start with a single `/`.
pub proof fn lemma_absolutize_idempotent(h: Seq<char>, base: Seq<char>)
    requires
        settling_base(base),
    ensures
        absolutize_from(absolutize_from(h, 0, base), 0, base) == absolutize_from(h, 0, base),
{
    let o = absolutize_from(h, 0, base);
    if base.len() == 0 {
        assert(base =~= Seq::<char>::empty());
        lemma_absolutize_empty_base(h, 0);
        assert(o =~= h);
    } else {
        lemma_absolutized_is_settled(h, 0, base);
        lemma_settled_is_fixed(o, 0, base);
        assert(o.subrange(0, o.len() as int) =~= o);
    }
}

/// The content-region marker emitted by the stdlib.
pub open spec fn content_marker() -> Seq<char> {
    "id=\"typost-content\""@
}

/// A page's content region with its root-relative URLs made absolute.
pub open spec fn content_of_spec(files: Seq<(Seq<char>, Seq<u8>)>, route: Seq<char>, base: Seq<char>) -> Option<Seq<char>> {
    match lookup(files, route) {
        None => None,
        Some(bytes) => if !valid_utf8(bytes) {
            None
        } else {
            let h = decode_utf8(bytes);
            match find_from(h, content_marker(), 0) {
                None => None,
                Some(marker) => match find_from(h, ">"@, marker) {
                    None => None,
                    Some(gt) => match find_from(h, "</main>"@, gt + 1) {
                        None => None,
                        Some(close) => Some(absolutize_from(h.subrange(gt + 1, close), 0, base)),
                    },
                },
            }
        },
    }
}

/// One `<category>` line per string tag.
pub open spec fn category_lines(tags: Seq<FrontMatter>) -> Seq<char>
    decreases tags.len(),
{
    if tags.len() == 0 {
        Seq::empty()
    } else {
        category_lines(tags.drop_last()) + match tags.last() {
            FrontMatter::Str(t) => "    <category term=\""@ + xml_escape(t@) + "\"/>\n"@,
            _ => Seq::empty(),
        }
    }
}

/// The lines of an entry from its title to its dates.
pub open spec fn entry_head(p: PageMeta, base: Seq<char>) -> Seq<char> {
    let url = page_url_spec(base, p.route@);
    let date = date_of(p).unwrap_or(Seq::empty());
    let title = fm_str(fm_get(p.data, "title"@)).unwrap_or(p.route@);
    text_line("    "@, "title"@, title) + link_line("    "@, url, "alternate"@) + text_line(
        "    "@,
        "id"@,
        url,
    ) + text_line("    "@, "updated"@, rfc3339_spec(date)) + text_line(
        "    "@,
        "published"@,
        rfc3339_spec(date),
    )
}

/// The `<summary>` line of an entry, if the page has a summary.
pub open spec fn entry_summary(p: PageMeta) -> Seq<char> {
    match fm_str(fm_get(p.data, "summary"@)) {
        Some(s) => text_line("    "@, "summary"@, s),
        None => Seq::empty(),
    }
}

/// The `<category>` lines of an entry.
pub open spec fn entry_categories(p: PageMeta) -> Seq<char> {
    match fm_array(fm_get(p.data, "tags"@)) {
        Some(tags) => category_lines(tags),
        None => Seq::empty(),
    }
}

/// The `<content>` line of an entry, if the page's content region is found.
pub open spec fn entry_content(p: PageMeta, base: Seq<char>, files: Seq<(Seq<char>, Seq<u8>)>) -> Seq<char> {
    match content_of_spec(files, p.route@, base) {
        Some(c) => "    <content type=\"html\">"@ + xml_escape(c) + "</content>\n"@,
        None => Seq::empty(),
    }
}

/// The `<entry>` of one page.
pub open spec fn entry_xml(p: PageMeta, base: Seq<char>, files: Seq<(Seq<char>, Seq<u8>)>) -> Seq<char> {
    "  <entry>\n"@ + entry_head(p, base) + entry_summary(p) + entry_categories(p) + entry_content(
        p,
        base,
        files,
    ) + "  </entry>\n"@
}

/// The entries of the feed, in order.
pub open spec fn entries_xml(s: Seq<PageMeta>, base: Seq<char>, files: Seq<(Seq<char>, Seq<u8>)>) -> Seq<char>
    decreases s.len(),
{
    if s.len() == 0 {
        Seq::empty()
    } else {
        entries_xml(s.drop_last(), base, files) + entry_xml(s.last(), base, files)
    }
}

/// The feed's title: its own, else the site's, else `Feed`.
pub open spec fn feed_title(own: Option<Seq<char>>, site: Option<String>) -> Seq<char> {
    match own {
        Some(t) => t,
        None => match site {
            Some(t) => t@,
            None => "Feed"@,
        },
    }
}

/// The feed's `<updated>`: the newest entry date, or the epoch.
pub open spec fn feed_updated(entries: Seq<PageMeta>) -> Seq<char> {
    match max_date(entries) {
        Some(d) => rfc3339_spec(d),
        None => "1970-01-01T00:00:00Z"@,
    }
}

/// Some page of `s` carries the date `d`, and no page of `s` is dated after
/// it.
proof fn lemma_max_date_is_newest(s: Seq<PageMeta>)
    ensures
        s.len() == 0 <==> max_date(s) is None,
        max_date(s) matches Some(d) ==> (exists|i: int| 0 <= i < s.len() && #[trigger] date_key(s[i]) == d) && forall|
            j: int,
        | 0 <= j < s.len() ==> !seq_less(d, #[trigger] date_key(s[j])),
    decreases s.len(),
{
    if s.len() > 0 {
        let t = s.drop_last();
        lemma_max_date_is_newest(t);
        let d = date_key(s.last());
        assert(date_key(s[s.len() - 1]) == d);
        match max_date(t) {
            None => {
                lemma_seq_less_irreflexive(d);
            },
            Some(m) => {
                let i0 = choose|i: int| 0 <= i < t.len() && #[trigger] date_key(t[i]) == m;
                assert(date_key(s[i0]) == m);
                if seq_less(m, d) {
                    lemma_seq_less_irreflexive(d);
                    assert forall|j: int| 0 <= j < s.len() implies !seq_less(d, #[trigger] date_key(s[j])) by {
                        if j < t.len() {
                            assert(s[j] == t[j]);
                            if seq_less(d, date_key(s[j])) {
                                lemma_seq_less_transitive(m, d, date_key(s[j]));
                            }
                        }
                    }
                } else {
                    assert forall|j: int| 0 <= j < s.len() implies !seq_less(m, #[trigger] date_key(s[j])) by {
                        if j < t.len() {
                            assert(s[j] == t[j]);
                        }
                    }
                }
            },
        }
    }
}

/// The feed's `<updated>` is the newest entry date: the RFC 3339 form of
/// the date of some entry that no entry is dated after; the epoch when there
/// are no entries.
pub proof fn lemma_feed_updated_is_newest(entries: Seq<PageMeta>)
    ensures
        entries.len() == 0 ==> feed_updated(entries) == "1970-01-01T00:00:00Z"@,
        entries.len() > 0 ==> exists|i: int|
            0 <= i < entries.len() && feed_updated(entries) == rfc3339_spec(#[trigger] date_key(entries[i]))
                && forall|j: int| 0 <= j < entries.len() ==> !seq_less(date_key(entries[i]), #[trigger] date_key(entries[j])),
{
    lemma_max_date_is_newest(entries);
    if entries.len() > 0 {
        let d = max_date(entries)->0;
        let i = choose|i: int| 0 <= i < entries.len() && #[trigger] date_key(entries[i]) == d;
        assert(feed_updated(entries) == rfc3339_spec(date_key(entries[i])));
    }
}

/// The feed document carries its `<updated>` line, whose value the previous
/// law pins to the newest entry date.
pub proof fn lemma_feed_carries_updated(
    base: Seq<char>,
    path: Seq<char>,
    title: Seq<char>,
    description: Option<Seq<char>>,
    author: Option<Seq<char>>,
    entries: Seq<PageMeta>,
    files: Seq<(Seq<char>, Seq<u8>)>,
)
    ensures
        contains(
            feed_xml(base, path, title, description, author, entries, files),
            "  <updated>"@ + xml_escape(feed_updated(entries)) + "</updated>\n"@,
        ),
{
    reveal_strlit("  <updated>");
    reveal_strlit("</updated>\n");
    reveal_strlit("  ");
    reveal_strlit("<");
    reveal_strlit("updated");
    reveal_strlit(">");
    reveal_strlit("</");
    reveal_strlit(">\n");
    let line = text_line("  "@, "updated"@, feed_updated(entries));
    assert(line =~= "  <updated>"@ + xml_escape(feed_updated(entries)) + "</updated>\n"@);
    let pre = "<?xml version=\"1.0\" encoding=\"UTF-8\"?>\n"@ + "<feed xmlns=\"http://www.w3.org/2005/Atom\">\n"@
        + text_line("  "@, "title"@, title) + match description {
        Some(d) => text_line("  "@, "subtitle"@, d),
        None => Seq::empty(),
    } + text_line("  "@, "id"@, base + "/"@);
    let x = feed_xml(base, path, title, description, author, entries, files);
    let rest = x.skip((pre.len() + line.len()) as int);
    assert(x =~= pre + line + rest);
    assert(x.subrange(pre.len() as int, (pre.len() + line.len()) as int) =~= line);
    lemma_contains_at(x, line, pre.len() as int);
}

/// The whole feed document.
pub open spec fn feed_xml(
    base: Seq<char>,
    path: Seq<char>,
    title: Seq<char>,
    description: Option<Seq<char>>,
    author: Option<Seq<char>>,
    entries: Seq<PageMeta>,
    files: Seq<(Seq<char>, Seq<u8>)>,
) -> Seq<char> {
    "<?xml version=\"1.0\" encoding=\"UTF-8\"?>\n"@ + "<feed xmlns=\"http://www.w3.org/2005/Atom\">\n"@
        + text_line("  "@, "title"@, title) + match description {
        Some(d) => text_line("  "@, "subtitle"@, d),
        None => Seq::empty(),
    } + text_line("  "@, "id"@, base + "/"@) + text_line("  "@, "updated"@, feed_updated(entries))
        + link_line("  "@, base + "/"@ + trim_start(path, '/'), "self"@) + link_line(
        "  "@,
        base + "/"@,
        "alternate"@,
    ) + match author {
        Some(a) => "  <author>\n"@ + text_line("    "@, "name"@, a) + "  </author>\n"@,
        None => Seq::empty(),
    } + text_line("  "@, "generator"@, "typost"@) + entries_xml(entries, base, files) + "</feed>\n"@
}

// ---------------------------------------------------------------------------
// Linking the feed from every page.
// ---------------------------------------------------------------------------

/// The media type that marks a page as already linking a feed.
pub open spec fn atom_type() -> Seq<char> {
    "application/atom+xml"@
}

/// The `<link rel="alternate">` element pointing at the feed.
pub open spec fn feed_link_tag(href: Seq<char>, title: Seq<char>) -> Seq<char> {
    "<link rel=\"alternate\" type=\""@ + atom_type() + "\" title=\""@ + xml_escape(title) + "\" href=\""@
        + xml_escape(href) + "\">"@
}

/// A page that links no feed yet and has a `</head>`.
pub open spec fn needs_feed_link(h: Seq<char>) -> bool {
    !contains(h, atom_type()) && rfind(h, "</head>"@) is Some
}

/// The page with `tag` inserted before its last `</head>`.
pub open spec fn with_head_tag(h: Seq<char>, tag: Seq<char>) -> Seq<char> {
    let at = rfind(h, "</head>"@)->0;
    h.take(at) + tag + h.skip(at)
}

/// One output file with the feed linked from its head, when it is an HTML
/// page that needs it.
pub open spec fn linked_file(path: Seq<char>, bytes: Seq<u8>, tag: Seq<char>) -> Seq<u8> {
    if ends_with(path, ".html"@) && valid_utf8(bytes) && needs_feed_link(decode_utf8(bytes)) {
        encode_utf8(with_head_tag(decode_utf8(bytes), tag))
    } else {
        bytes
    }
}

/// All output files with the feed linked.
pub open spec fn linked_files(files: Seq<(Seq<char>, Seq<u8>)>, tag: Seq<char>) -> Seq<(Seq<char>, Seq<u8>)> {
    files.map_values(|e: (Seq<char>, Seq<u8>)| (e.0, linked_file(e.0, e.1, tag)))
}

/// Linking keeps the paths, and each file's bytes become its linked bytes.
proof fn lemma_lookup_linked(files: Seq<(Seq<char>, Seq<u8>)>, tag: Seq<char>, k: Seq<char>)
    ensures
        lookup(linked_files(files, tag), k) == match lookup(files, k) {
            Some(b) => Some(linked_file(k, b, tag)),
            None => None,
        },
    decreases files.len(),
{
    if files.len() > 0 {
        assert(linked_files(files, tag).drop_first() =~= linked_files(files.drop_first(), tag));
        lemma_lookup_linked(files.drop_first(), tag, k);
    }
}

/// The feed writes its own file and touches no other file but to link the
/// feed from an HTML page that needs the link; no file is removed.
pub proof fn lemma_feed_writes_only_its_file(
    files: Seq<(Seq<char>, Seq<u8>)>,
    path: Seq<char>,
    xml: Seq<u8>,
    tag: Seq<char>,
)
    requires
        sorted_by_key(files),
    ensures
        ({
            let after = insert_sorted(linked_files(files, tag), path, xml);
            &&& sorted_by_key(after)
            &&& lookup(after, path) == Some(xml)
            &&& forall|k: Seq<char>|
                k != path ==> #[trigger] lookup(after, k) == match lookup(files, k) {
                    Some(b) => Some(linked_file(k, b, tag)),
                    None => None,
                }
        }),
{
    let linked = linked_files(files, tag);
    assert(sorted_by_key(linked)) by {
        assert forall|i: int, j: int| 0 <= i < j < linked.len() implies seq_less(
            #[trigger] linked[i].0,
            #[trigger] linked[j].0,
        ) by {
            assert(linked[i].0 == files[i].0 && linked[j].0 == files[j].0);
        }
    }
    lemma_insert_sorted(linked, path, xml);
    assert forall|k: Seq<char>| k != path implies #[trigger] lookup(insert_sorted(linked, path, xml), k)
        == match lookup(files, k) {
        Some(b) => Some(linked_file(k, b, tag)),
        None => None,
    } by {
        lemma_lookup_linked(files, tag, k);
    }
}

/// A page that got the feed link is not linked again.
pub proof fn lemma_linked_page_is_final(h: Seq<char>, href: Seq<char>, title: Seq<char>)
    requires
        needs_feed_link(h),
    ensures
        !needs_feed_link(with_head_tag(h, feed_link_tag(href, title))),
{
    lemma_rfind(h, "</head>"@);
    let at = rfind(h, "</head>"@)->0;
    let tag = feed_link_tag(href, title);
    let g = with_head_tag(h, tag);
    reveal_strlit("<link rel=\"alternate\" type=\"");
    let prefix_len = "<link rel=\"alternate\" type=\""@.len();
    assert(g.subrange(at + prefix_len, at + prefix_len + atom_type().len()) =~= atom_type());
    lemma_contains_at(g, atom_type(), at + prefix_len);
}

/// Linking the feed twice gives what linking it once gives.
pub proof fn lemma_feed_link_idempotent(files: Seq<(Seq<char>, Seq<u8>)>, href: Seq<char>, title: Seq<char>)
    ensures
        ({
            let tag = feed_link_tag(href, title);
            linked_files(linked_files(files, tag), tag) == linked_files(files, tag)
        }),
{
    let tag = feed_link_tag(href, title);
    let once = linked_files(files, tag);
    assert forall|i: int| 0 <= i < once.len() implies linked_file(
        (#[trigger] once[i]).0,
        once[i].1,
        tag,
    ) == once[i].1 by {
        let (p, b) = files[i];
        if ends_with(p, ".html"@) && valid_utf8(b) && needs_feed_link(decode_utf8(b)) {
            let h = decode_utf8(b);
            lemma_encode_decode(with_head_tag(h, tag));
            lemma_linked_page_is_final(h, href, title);
        }
    }
    assert(linked_files(once, tag) =~= once);
}

// ---------------------------------------------------------------------------
// Building the text.
// ---------------------------------------------------------------------------

/// Append `<tag>value</tag>` at the given indent.
fn text(xml: &mut Vec<char>, indent: &str, tag: &str, value: &[char])
    ensures
        final(xml)@ == old(xml)@ + text_line(indent@, tag@, value@),
{
    append_str(xml, indent);
    append_str(xml, "<");
    append_str(xml, tag);
    append_str(xml, ">");
    push_xml_escaped(xml, value);
    append_str(xml, "</");
    append_str(xml, tag);
    append_str(xml, ">\n");
    assert(xml@ =~= old(xml)@ + text_line(indent@, tag@, value@));
}

/// Append a `<link …/>` at the given indent.
fn link(xml: &mut Vec<char>, indent: &str, href: &[char], rel: &str)
    ensures
        final(xml)@ == old(xml)@ + link_line(indent@, href@, rel@),
{
    append_str(xml, indent);
    append_str(xml, "<link href=\"");
    push_xml_escaped(xml, href);
    append_str(xml, "\" rel=\"");
    append_str(xml, rel);
    append_str(xml, "\"/>\n");
    assert(xml@ =~= old(xml)@ + link_line(indent@, href@, rel@));
}

/// Format a front-matter date (`YYYY-MM-DD`) as RFC 3339.
pub fn rfc3339(date: &str) -> (r: String)
    ensures
        r@ == rfc3339_spec(date@),
{
    if date.as_bytes().len() == 10 {
        let mut v = chars_of(date);
        append_str(&mut v, "T00:00:00Z");
        string_of(&v)
    } else {
        date.to_owned()
    }
}

/// The absolute URL of a page, using a directory URL for `index.html`.
pub fn page_url(base: &[char], route: &[char]) -> (r: Vec<char>)
    ensures
        r@ == page_url_spec(base@, route@),
{
    let index = chars_of("index.html");
    let mut stripped: Vec<char> = Vec::new();
    if ends_with_in(route, &index) {
        append_range(&mut stripped, route, 0, route.len() - index.len());
        assert(stripped@ =~= route@.take(route@.len() - index@.len()));
    } else {
        append_chars(&mut stripped, route);
    }
    let path = trim_start_in(&stripped, '/');
    let mut url: Vec<char> = Vec::new();
    append_chars(&mut url, base);
    append_str(&mut url, "/");
    append_chars(&mut url, &path);
    url
}

/// The earliest of the four URL attributes at or after `pos`.
fn earliest(h: &[char], pos: usize, a0: &[char], a1: &[char], a2: &[char], a3: &[char]) -> (r: Option<(usize, usize)>)
    requires
        a0@ == url_attr(0),
        a1@ == url_attr(1),
        a2@ == url_attr(2),
        a3@ == url_attr(3),
    ensures
        r matches Some((p, k)) ==> earliest_attr(h@, pos as int, 0) == Some((p as int, k as int)),
        r is None ==> earliest_attr(h@, pos as int, 0) is None,
{
    let mut best: Option<(usize, usize)> = None;
    assert(earliest_attr(h@, pos as int, 4) is None);
    let found = find(h, a3, pos);
    match found {
        Some(p) => best = Some((p, 3)),
        None => {},
    }
    assert(best matches Some((p, k)) ==> earliest_attr(h@, pos as int, 3) == Some((p as int, k as int)));
    assert(best is None ==> earliest_attr(h@, pos as int, 3) is None);
    let found = find(h, a2, pos);
    match found {
        Some(p) => match best {
            None => best = Some((p, 2)),
            Some((q, _)) => if p <= q {
                best = Some((p, 2));
            },
        },
        None => {},
    }
    assert(best matches Some((p, k)) ==> earliest_attr(h@, pos as int, 2) == Some((p as int, k as int)));
    assert(best is None ==> earliest_attr(h@, pos as int, 2) is None);
    let found = find(h, a1, pos);
    match found {
        Some(p) => match best {
            None => best = Some((p, 1)),
            Some((q, _)) => if p <= q {
                best = Some((p, 1));
            },
        },
        None => {},
    }
    assert(best matches Some((p, k)) ==> earliest_attr(h@, pos as int, 1) == Some((p as int, k as int)));
    assert(best is None ==> earliest_attr(h@, pos as int, 1) is None);
    let found = find(h, a0, pos);
    match found {
        Some(p) => match best {
            None => best = Some((p, 0)),
            Some((q, _)) => if p <= q {
                best = Some((p, 0));
            },
        },
        None => {},
    }
    best
}

/// Turn `="` + `/path` (but not `="//host"`) into an absolute URL.
pub fn absolutize(html: &[char], base: &[char]) -> (r: Vec<char>)
    ensures
        r@ == absolutize_from(html@, 0, base@),
{
    let a0 = chars_of("href=\"");
    let a1 = chars_of("src=\"");
    let a2 = chars_of("poster=\"");
    let a3 = chars_of("xlink:href=\"");
    let double = chars_of("//");
    let single = chars_of("/");
    let mut out: Vec<char> = Vec::new();
    let mut pos: usize = 0;
    let n = html.len();
    loop
        invariant
            n == html@.len(),
            a0@ == url_attr(0),
            a1@ == url_attr(1),
            a2@ == url_attr(2),
            a3@ == url_attr(3),
            double@ == "//"@,
            single@ == "/"@,
            pos <= html@.len(),
            absolutize_from(html@, 0, base@) == out@ + absolutize_from(html@, pos as int, base@),
        decreases html@.len() - pos,
    {
        proof {
            lemma_earliest_attr(html@, pos as int, 0);
            reveal_strlit("/");
        }
        match earliest(html, pos, &a0, &a1, &a2, &a3) {
            None => {
                append_range(&mut out, html, pos, html.len());
                return out;
            },
            Some((at, k)) => {
                let attr_len = if k == 0 {
                    a0.len()
                } else if k == 1 {
                    a1.len()
                } else if k == 2 {
                    a2.len()
                } else {
                    a3.len()
                };
                proof {
                    lemma_url_attr_len(k as int);
                }
                let after = at + attr_len;
                append_range(&mut out, html, pos, after);
                if matches_at(html, &double, after) {
                    pos = after;
                } else if matches_at(html, &single, after) {
                    append_chars(&mut out, base);
                    append_str(&mut out, "/");
                    pos = after + 1;
                } else {
                    pos = after;
                }
            },
        }
    }
}

/// Read a page's content region and make its root-relative URLs absolute.
fn content_of(out: &RenderOutput, route: &str, base: &[char]) -> (r: Option<Vec<char>>)
    ensures
        r matches Some(c) ==> content_of_spec(out@, route@, base@) == Some(c@),
        r is None ==> content_of_spec(out@, route@, base@) is None,
{
    let bytes = match out.get(route) {
        Some(b) => b,
        None => return None,
    };
    let h = match decode_utf8_chars(bytes) {
        Some(h) => h,
        None => return None,
    };
    let marker_text = chars_of("id=\"typost-content\"");
    let gt_text = chars_of(">");
    let close_text = chars_of("</main>");
    let marker = match find(&h, &marker_text, 0) {
        Some(m) => m,
        None => return None,
    };
    proof {
        lemma_find_from_nonneg(h@, marker_text@, 0);
    }
    let gt = match find(&h, &gt_text, marker) {
        Some(g) => g,
        None => return None,
    };
    proof {
        lemma_find_from_nonneg(h@, gt_text@, marker as int);
        reveal_strlit(">");
    }
    assert(h@.len() == h.len());
    let close = match find(&h, &close_text, gt + 1) {
        Some(c) => c,
        None => return None,
    };
    proof {
        lemma_find_from_nonneg(h@, close_text@, gt + 1);
    }
    let mut region: Vec<char> = Vec::new();
    append_range(&mut region, &h, gt + 1, close);
    Some(absolutize(&region, base))
}

// ---------------------------------------------------------------------------
// Choosing the entries.
// ---------------------------------------------------------------------------

/// The pages at the given indices.
pub open spec fn pages_at(pages: Seq<PageMeta>, idx: Seq<usize>) -> Seq<PageMeta> {
    idx.map_values(|k: usize| pages[k as int])
}

/// The string under `key` in a page's front matter, as characters.
fn string_field(p: &PageMeta, key: &str) -> (r: Option<Vec<char>>)
    ensures
        r matches Some(v) ==> fm_str(fm_get(p.data, key@)) == Some(v@),
        r is None ==> fm_str(fm_get(p.data, key@)) is None,
{
    match p.data.get(key) {
        Some(v) => match v.as_str() {
            Some(s) => Some(chars_of(s)),
            None => None,
        },
        None => None,
    }
}

/// `insert_by_date` places `x` before the first strictly older page.
proof fn lemma_insert_by_date_split(q: Seq<PageMeta>, x: PageMeta, j: int)
    requires
        0 <= j <= q.len(),
        forall|m: int| 0 <= m < j ==> !older(#[trigger] q[m], x),
        j < q.len() ==> older(q[j], x),
    ensures
        insert_by_date(q, x) == q.take(j) + seq![x] + q.skip(j),
    decreases j,
{
    if j == 0 {
        if q.len() == 0 {
            assert(q.take(0) + seq![x] + q.skip(0) =~= seq![x]);
        } else {
            assert(q.take(0) + seq![x] + q.skip(0) =~= seq![x] + q);
        }
    } else {
        let t = q.drop_first();
        assert forall|m: int| 0 <= m < j - 1 implies !older(#[trigger] t[m], x) by {
            assert(t[m] == q[m + 1]);
        }
        if j - 1 < t.len() {
            assert(t[j - 1] == q[j]);
        }
        lemma_insert_by_date_split(t, x, j - 1);
        assert(seq![q[0]] + (t.take(j - 1) + seq![x] + t.skip(j - 1)) =~= q.take(j) + seq![x]
            + q.skip(j));
    }
}

/// The indices of the feed's entries: the section's dated pages, newest
/// first, at most `limit` of them.
fn select_entries(pages: &Vec<PageMeta>, section: &[char], limit: usize) -> (r: Vec<usize>)
    ensures
        pages_at(pages@, r@) == feed_entries(pages@, section@, limit),
        forall|j: int| 0 <= j < r@.len() ==> #[trigger] r@[j] < pages@.len(),
{
    let mut sorted: Vec<usize> = Vec::new();
    let mut i: usize = 0;
    assert(pages@.take(0) =~= Seq::<PageMeta>::empty());
    assert(pages_at(pages@, sorted@) =~= Seq::<PageMeta>::empty());
    while i < pages.len()
        invariant
            i <= pages@.len(),
            forall|j: int| 0 <= j < sorted@.len() ==> #[trigger] sorted@[j] < pages@.len(),
            pages_at(pages@, sorted@) == newest_first(select_pages(pages@.take(i as int), section@)),
        decreases pages@.len() - i,
    {
        let ghost before = pages_at(pages@, sorted@);
        assert(pages@.take(i as int + 1).drop_last() =~= pages@.take(i as int));
        assert(pages@.take(i as int + 1).last() == pages@[i as int]);
        let page = &pages[i];
        let sec = string_field(page, "section");
        let date = string_field(page, "date");
        let chosen = match (&sec, &date) {
            (Some(s), Some(_)) => same_chars(s, section),
            _ => false,
        };
        let ghost x = pages@[i as int];
        let ghost sel = select_pages(pages@.take(i as int), section@);
        assert(chosen == dated_in_section(x, section@));
        if chosen {
            assert(select_pages(pages@.take(i as int + 1), section@) == sel.push(x));
            assert(sel.push(x).drop_last() =~= sel);
            assert(newest_first(sel.push(x)) == insert_by_date(newest_first(sel), x));
            let d = match date {
                Some(d) => d,
                None => Vec::new(),
            };
            let mut j: usize = 0;
            while j < sorted.len()
                invariant
                    j <= sorted@.len(),
                    i < pages@.len(),
                    d@ == date_of(pages@[i as int]).unwrap_or(Seq::empty()),
                    forall|k: int| 0 <= k < sorted@.len() ==> #[trigger] sorted@[k] < pages@.len(),
                    forall|m: int| 0 <= m < j ==> !older(#[trigger] pages_at(pages@, sorted@)[m], pages@[i as int]),
                ensures
                    j <= sorted@.len(),
                    forall|m: int| 0 <= m < j ==> !older(#[trigger] pages_at(pages@, sorted@)[m], pages@[i as int]),
                    j < sorted@.len() ==> older(pages_at(pages@, sorted@)[j as int], pages@[i as int]),
                decreases sorted@.len() - j,
            {
                let other = match string_field(&pages[sorted[j]], "date") {
                    Some(o) => o,
                    None => Vec::new(),
                };
                if less_chars(&other, &d) {
                    break;
                }
                j = j + 1;
            }
            proof {
                lemma_insert_by_date_split(before, pages@[i as int], j as int);
            }
            sorted.insert(j, i);
            assert(pages_at(pages@, sorted@) =~= before.take(j as int) + seq![pages@[i as int]]
                + before.skip(j as int));
        } else {
            assert(select_pages(pages@.take(i as int + 1), section@) == sel);
        }
        i = i + 1;
    }
    assert(pages@.take(pages@.len() as int) =~= pages@);
    let ghost all = pages_at(pages@, sorted@);
    sorted.truncate(limit);
    assert(pages_at(pages@, sorted@) =~= if limit < all.len() { all.take(limit as int) } else { all });
    sorted
}

/// The newest date among the chosen entries, as RFC 3339, or the epoch.
fn updated_of(pages: &Vec<PageMeta>, entries: &Vec<usize>) -> (r: Vec<char>)
    requires
        forall|j: int| 0 <= j < entries@.len() ==> #[trigger] entries@[j] < pages@.len(),
    ensures
        r@ == feed_updated(pages_at(pages@, entries@)),
{
    let ghost all = pages_at(pages@, entries@);
    let mut best: Option<Vec<char>> = None;
    let mut k: usize = 0;
    assert(all.take(0) =~= Seq::<PageMeta>::empty());
    while k < entries.len()
        invariant
            k <= entries@.len(),
            all == pages_at(pages@, entries@),
            forall|j: int| 0 <= j < entries@.len() ==> #[trigger] entries@[j] < pages@.len(),
            match best {
                Some(b) => max_date(all.take(k as int)) == Some(b@),
                None => max_date(all.take(k as int)) is None,
            },
        decreases entries@.len() - k,
    {
        assert(all.take(k as int + 1).drop_last() =~= all.take(k as int));
        assert(all.take(k as int + 1).last() == pages@[entries@[k as int] as int]);
        let d = match string_field(&pages[entries[k]], "date") {
            Some(d) => d,
            None => Vec::new(),
        };
        let replace = match &best {
            None => true,
            Some(b) => less_chars(b, &d),
        };
        if replace {
            best = Some(d);
        }
        k = k + 1;
    }
    assert(all.take(entries@.len() as int) =~= all);
    match best {
        Some(b) => {
            let s = string_of(&b);
            chars_of(rfc3339(s.as_str()).as_str())
        },
        None => chars_of("1970-01-01T00:00:00Z"),
    }
}

/// Append one `<category>` line per string tag.
fn categories(xml: &mut Vec<char>, tags: &[FrontMatter])
    ensures
        final(xml)@ == old(xml)@ + category_lines(tags@),
{
    let ghost start = xml@;
    let mut k: usize = 0;
    assert(tags@.take(0) =~= Seq::<FrontMatter>::empty());
    while k < tags.len()
        invariant
            k <= tags@.len(),
            xml@ == start + category_lines(tags@.take(k as int)),
        decreases tags@.len() - k,
    {
        assert(tags@.take(k as int + 1).drop_last() =~= tags@.take(k as int));
        assert(tags@.take(k as int + 1).last() == tags@[k as int]);
        match tags[k].as_str() {
            Some(tag) => {
                let t = chars_of(tag);
                append_str(xml, "    <category term=\"");
                push_xml_escaped(xml, &t);
                append_str(xml, "\"/>\n");
            },
            None => {},
        }
        k = k + 1;
    }
    assert(tags@.take(tags@.len() as int) =~= tags@);
}

/// Append the lines of an entry from its title to its dates.
fn entry_head_into(xml: &mut Vec<char>, page: &PageMeta, base: &[char])
    ensures
        final(xml)@ == old(xml)@ + entry_head(*page, base@),
{
    let route = chars_of(page.route.as_str());
    let url = page_url(base, &route);
    let date = match string_field(page, "date") {
        Some(d) => d,
        None => Vec::new(),
    };
    let title = match string_field(page, "title") {
        Some(t) => t,
        None => chars_of(page.route.as_str()),
    };
    let date_text = string_of(&date);
    let stamp = chars_of(rfc3339(date_text.as_str()).as_str());
    text(xml, "    ", "title", &title);
    link(xml, "    ", &url, "alternate");
    text(xml, "    ", "id", &url);
    text(xml, "    ", "updated", &stamp);
    text(xml, "    ", "published", &stamp);
    assert(xml@ =~= old(xml)@ + entry_head(*page, base@));
}

/// Append the `<summary>` line of an entry, if the page has a summary.
fn entry_summary_into(xml: &mut Vec<char>, page: &PageMeta)
    ensures
        final(xml)@ == old(xml)@ + entry_summary(*page),
{
    match string_field(page, "summary") {
        Some(summary) => text(xml, "    ", "summary", &summary),
        None => {
            assert(xml@ =~= old(xml)@ + entry_summary(*page));
        },
    }
}

/// Append the `<category>` lines of an entry.
fn entry_categories_into(xml: &mut Vec<char>, page: &PageMeta)
    ensures
        final(xml)@ == old(xml)@ + entry_categories(*page),
{
    match page.data.get("tags") {
        Some(tags) => match tags.as_array() {
            Some(list) => categories(xml, list),
            None => {
                assert(xml@ =~= old(xml)@ + entry_categories(*page));
            },
        },
        None => {
            assert(xml@ =~= old(xml)@ + entry_categories(*page));
        },
    }
}

/// Append the `<content>` line of an entry, if its content region is found.
fn entry_content_into(xml: &mut Vec<char>, page: &PageMeta, base: &[char], out: &RenderOutput)
    ensures
        final(xml)@ == old(xml)@ + entry_content(*page, base@, out@),
{
    match content_of(out, page.route.as_str(), base) {
        Some(content) => {
            append_str(xml, "    <content type=\"html\">");
            push_xml_escaped(xml, &content);
            append_str(xml, "</content>\n");
            assert(xml@ =~= old(xml)@ + entry_content(*page, base@, out@));
        },
        None => {
            assert(xml@ =~= old(xml)@ + entry_content(*page, base@, out@));
        },
    }
}

/// Append the `<entry>` of one page.
fn entry(xml: &mut Vec<char>, page: &PageMeta, base: &[char], out: &RenderOutput)
    ensures
        final(xml)@ == old(xml)@ + entry_xml(*page, base@, out@),
{
    let ghost start = xml@;
    append_str(xml, "  <entry>\n");
    entry_head_into(xml, page, base);
    entry_summary_into(xml, page);
    entry_categories_into(xml, page);
    entry_content_into(xml, page, base, out);
    append_str(xml, "  </entry>\n");
    assert(xml@ =~= start + entry_xml(*page, base@, out@));
}

// ---------------------------------------------------------------------------
// Linking the feed from the pages.
// ---------------------------------------------------------------------------

/// The page with the feed link, if it needs one.
fn link_page(h: &[char], tag: &[char]) -> (r: Option<Vec<char>>)
    ensures
        r matches Some(v) ==> needs_feed_link(h@) && v@ == with_head_tag(h@, tag@),
        r is None ==> !needs_feed_link(h@),
{
    let atom = chars_of("application/atom+xml");
    let head = chars_of("</head>");
    if contains_in(h, &atom) {
        return None;
    }
    let at = match rfind_in(h, &head) {
        Some(at) => at,
        None => return None,
    };
    proof {
        lemma_rfind(h@, head@);
    }
    let mut v: Vec<char> = Vec::new();
    append_range(&mut v, h, 0, at);
    append_chars(&mut v, tag);
    append_range(&mut v, h, at, h.len());
    assert(v@ =~= with_head_tag(h@, tag@));
    Some(v)
}

/// Add `<link rel="alternate">` to every HTML page's `<head>`.
fn inject_head_link(out: &mut RenderOutput, href: &[char], title: &[char])
    ensures
        final(out)@ == linked_files(old(out)@, feed_link_tag(href@, title@)),
{
    let mut tag: Vec<char> = Vec::new();
    append_str(&mut tag, "<link rel=\"alternate\" type=\"");
    append_str(&mut tag, "application/atom+xml");
    append_str(&mut tag, "\" title=\"");
    push_xml_escaped(&mut tag, title);
    append_str(&mut tag, "\" href=\"");
    push_xml_escaped(&mut tag, href);
    append_str(&mut tag, "\">");
    assert(tag@ =~= feed_link_tag(href@, title@));
    let html = chars_of(".html");
    let ghost before = out@;
    let n = out.len();
    let mut i: usize = 0;
    while i < n
        invariant
            n == before.len(),
            i <= n,
            html@ == ".html"@,
            tag@ == feed_link_tag(href@, title@),
            out@.len() == n,
            forall|j: int| 0 <= j < i ==> #[trigger] out@[j] == linked_files(before, tag@)[j],
            forall|j: int| i <= j < n ==> #[trigger] out@[j] == before[j],
        decreases n - i,
    {
        let path = chars_of(out.path_at(i));
        let mut replacement: Option<Vec<u8>> = None;
        if ends_with_in(&path, &html) {
            if let Some(h) = decode_utf8_chars(out.bytes_at(i)) {
                if let Some(linked) = link_page(&h, &tag) {
                    replacement = Some(encode_utf8_chars(&linked));
                }
            }
        }
        match replacement {
            Some(bytes) => {
                out.set_bytes_at(i, bytes);
            },
            None => {},
        }
        assert(out@[i as int] == linked_files(before, tag@)[i as int]);
        i = i + 1;
    }
    assert(out@ =~= linked_files(before, tag@));
}

// ---------------------------------------------------------------------------
// The plugin.
// ---------------------------------------------------------------------------

/// The characters of an optional string.
pub open spec fn opt_view(s: Option<String>) -> Option<Seq<char>> {
    match s {
        Some(t) => Some(t@),
        None => None,
    }
}

/// Generates an Atom feed.
pub struct Feed {
    base_url: String,
    path: String,
    limit: usize,
    section: String,
    title: Option<String>,
    description: Option<String>,
    author: Option<String>,
}

impl Feed {
    /// The site's base URL.
    pub closed spec fn spec_base_url(&self) -> Seq<char> {
        self.base_url@
    }

    /// The feed's output path.
    pub closed spec fn spec_path(&self) -> Seq<char> {
        self.path@
    }

    /// The maximum number of entries.
    pub closed spec fn spec_limit(&self) -> usize {
        self.limit
    }

    /// The front-matter section included.
    pub closed spec fn spec_section(&self) -> Seq<char> {
        self.section@
    }

    /// The feed's own title, if set.
    pub closed spec fn spec_title(&self) -> Option<Seq<char>> {
        opt_view(self.title)
    }

    /// The feed's subtitle, if set.
    pub closed spec fn spec_description(&self) -> Option<Seq<char>> {
        opt_view(self.description)
    }

    /// The feed's author, if set.
    pub closed spec fn spec_author(&self) -> Option<Seq<char>> {
        opt_view(self.author)
    }

    /// Create a feed plugin for a site rooted at `base_url` (trailing slash
    /// optional), writing up to 20 entries of the `post` section to
    /// `atom.xml`.
    pub fn new(base_url: &str) -> (r: Self)
        ensures
            r.spec_base_url() == base_url@,
            r.spec_path() == "atom.xml"@,
            r.spec_limit() == 20,
            r.spec_section() == "post"@,
            r.spec_title() is None,
            r.spec_description() is None,
            r.spec_author() is None,
    {
        Feed {
            base_url: base_url.to_owned(),
            path: "atom.xml".to_owned(),
            limit: 20,
            section: "post".to_owned(),
            title: None,
            description: None,
            author: None,
        }
    }

    /// Set the feed's output path (default `atom.xml`).
    pub fn path(self, path: &str) -> (r: Self)
        ensures
            r.spec_path() == path@,
            r.spec_base_url() == self.spec_base_url(),
            r.spec_limit() == self.spec_limit(),
            r.spec_section() == self.spec_section(),
            r.spec_title() == self.spec_title(),
            r.spec_description() == self.spec_description(),
            r.spec_author() == self.spec_author(),
    {
        Feed { path: path.to_owned(), ..self }
    }

    /// Set the maximum number of entries (default 20).
    pub fn limit(self, limit: usize) -> (r: Self)
        ensures
            r.spec_limit() == limit,
            r.spec_base_url() == self.spec_base_url(),
            r.spec_path() == self.spec_path(),
            r.spec_section() == self.spec_section(),
            r.spec_title() == self.spec_title(),
            r.spec_description() == self.spec_description(),
            r.spec_author() == self.spec_author(),
    {
        Feed { limit, ..self }
    }

    /// Set the front-matter `section` to include (default `post`).
    pub fn section(self, section: &str) -> (r: Self)
        ensures
            r.spec_section() == section@,
            r.spec_base_url() == self.spec_base_url(),
            r.spec_path() == self.spec_path(),
            r.spec_limit() == self.spec_limit(),
            r.spec_title() == self.spec_title(),
            r.spec_description() == self.spec_description(),
            r.spec_author() == self.spec_author(),
    {
        Feed { section: section.to_owned(), ..self }
    }

    /// Override the feed title (defaults to the site title).
    pub fn title(self, title: &str) -> (r: Self)
        ensures
            r.spec_title() == Some(title@),
            r.spec_base_url() == self.spec_base_url(),
            r.spec_path() == self.spec_path(),
            r.spec_limit() == self.spec_limit(),
            r.spec_section() == self.spec_section(),
            r.spec_description() == self.spec_description(),
            r.spec_author() == self.spec_author(),
    {
        Feed { title: Some(title.to_owned()), ..self }
    }

    /// Set the feed subtitle.
    pub fn description(self, description: &str) -> (r: Self)
        ensures
            r.spec_description() == Some(description@),
            r.spec_base_url() == self.spec_base_url(),
            r.spec_path() == self.spec_path(),
            r.spec_limit() == self.spec_limit(),
            r.spec_section() == self.spec_section(),
            r.spec_title() == self.spec_title(),
            r.spec_author() == self.spec_author(),
    {
        Feed { description: Some(description.to_owned()), ..self }
    }

    /// Set the feed author name.
    pub fn author(self, author: &str) -> (r: Self)
        ensures
            r.spec_author() == Some(author@),
            r.spec_base_url() == self.spec_base_url(),
            r.spec_path() == self.spec_path(),
            r.spec_limit() == self.spec_limit(),
            r.spec_section() == self.spec_section(),
            r.spec_title() == self.spec_title(),
            r.spec_description() == self.spec_description(),
    {
        Feed { author: Some(author.to_owned()), ..self }
    }

    /// The feed document for the manifest and the rendered files.
    #[verifier::spinoff_prover]
    #[verifier::rlimit(40)]
    fn feed_document(&self, out: &RenderOutput, manifest: &SiteManifest, base: &[char], title: &[char]) -> (r: Vec<char>)
        ensures
            r@ == feed_xml(
                base@,
                self.spec_path(),
                title@,
                self.spec_description(),
                self.spec_author(),
                feed_entries(manifest.pages@, self.spec_section(), self.spec_limit()),
                out@,
            ),
    {
        let section = chars_of(self.section.as_str());
        let entries = select_entries(&manifest.pages, &section, self.limit);
        let ghost chosen = pages_at(manifest.pages@, entries@);
        let updated = updated_of(&manifest.pages, &entries);
        let mut root: Vec<char> = Vec::new();
        append_chars(&mut root, base);
        append_str(&mut root, "/");
        let mut self_url: Vec<char> = Vec::new();
        append_chars(&mut self_url, &root);
        let path_rest = trim_start_in(&chars_of(self.path.as_str()), '/');
        append_chars(&mut self_url, &path_rest);
        let mut xml: Vec<char> = Vec::new();
        append_str(&mut xml, "<?xml version=\"1.0\" encoding=\"UTF-8\"?>\n");
        append_str(&mut xml, "<feed xmlns=\"http://www.w3.org/2005/Atom\">\n");
        text(&mut xml, "  ", "title", title);
        let ghost upto_title = xml@;
        match &self.description {
            Some(d) => text(&mut xml, "  ", "subtitle", &chars_of(d.as_str())),
            None => {},
        }
        let ghost upto_subtitle = xml@;
        text(&mut xml, "  ", "id", &root);
        text(&mut xml, "  ", "updated", &updated);
        link(&mut xml, "  ", &self_url, "self");
        link(&mut xml, "  ", &root, "alternate");
        let ghost upto_links = xml@;
        match &self.author {
            Some(a) => {
                append_str(&mut xml, "  <author>\n");
                text(&mut xml, "    ", "name", &chars_of(a.as_str()));
                append_str(&mut xml, "  </author>\n");
            },
            None => {},
        }
        let ghost upto_author = xml@;
        text(&mut xml, "  ", "generator", &chars_of("typost"));
        let ghost upto_generator = xml@;
        let mut k: usize = 0;
        assert(chosen.take(0) =~= Seq::<PageMeta>::empty());
        while k < entries.len()
            invariant
                k <= entries@.len(),
                chosen == pages_at(manifest.pages@, entries@),
                forall|j: int| 0 <= j < entries@.len() ==> #[trigger] entries@[j] < manifest.pages@.len(),
                xml@ == upto_generator + entries_xml(chosen.take(k as int), base@, out@),
            decreases entries@.len() - k,
        {
            assert(chosen.take(k as int + 1).drop_last() =~= chosen.take(k as int));
            assert(chosen.take(k as int + 1).last() == manifest.pages@[entries@[k as int] as int]);
            entry(&mut xml, &manifest.pages[entries[k]], base, out);
            k = k + 1;
        }
        assert(chosen.take(entries@.len() as int) =~= chosen);
        append_str(&mut xml, "</feed>\n");
        proof {
            reveal_strlit("/");
        }
        assert(xml@ =~= feed_xml(
            base@,
            self.spec_path(),
            title@,
            self.spec_description(),
            self.spec_author(),
            chosen,
            out@,
        ));
        xml
    }
}

impl Plugin for Feed {
    open spec fn post_effect(
        &self,
        before: Seq<(Seq<char>, Seq<u8>)>,
        manifest: SiteManifest,
        after: Seq<(Seq<char>, Seq<u8>)>,
        r: Result<(), PluginError>,
    ) -> bool {
        &&& r is Ok
        &&& after == insert_sorted(
            linked_files(before, feed_link_tag("/"@ + trim_start(self.spec_path(), '/'), feed_title(self.spec_title(), manifest.title))),
            self.spec_path(),
            encode_utf8(
                feed_xml(
                    trim_end(self.spec_base_url(), '/'),
                    self.spec_path(),
                    feed_title(self.spec_title(), manifest.title),
                    self.spec_description(),
                    self.spec_author(),
                    feed_entries(manifest.pages@, self.spec_section(), self.spec_limit()),
                    before,
                ),
            ),
        )
    }

    fn typst(&self, overlay: &mut TypstOverlay) -> (r: Result<(), PluginError>) {
        Ok(())
    }

    fn prepare(&self, manifest: &mut SiteManifest) -> (r: Result<(), PluginError>) {
        Ok(())
    }

    fn name(&self) -> (r: &str)
        ensures
            r@ == "feed"@,
    {
        "feed"
    }

    fn post(&self, out: &mut RenderOutput, manifest: &SiteManifest) -> (r: Result<(), PluginError>)
        ensures
            r is Ok,
            ({
                let base = trim_end(self.spec_base_url(), '/');
                let title = feed_title(self.spec_title(), manifest.title);
                let xml = feed_xml(
                    base,
                    self.spec_path(),
                    title,
                    self.spec_description(),
                    self.spec_author(),
                    feed_entries(manifest.pages@, self.spec_section(), self.spec_limit()),
                    old(out)@,
                );
                let href = "/"@ + trim_start(self.spec_path(), '/');
                final(out)@ == insert_sorted(
                    linked_files(old(out)@, feed_link_tag(href, title)),
                    self.spec_path(),
                    encode_utf8(xml),
                )
            }),
    {
        let base = trim_end_in(&chars_of(self.base_url.as_str()), '/');
        let title = match &self.title {
            Some(t) => chars_of(t.as_str()),
            None => match &manifest.title {
                Some(t) => chars_of(t.as_str()),
                None => chars_of("Feed"),
            },
        };
        let xml = self.feed_document(out, manifest, &base, &title);
        let mut href: Vec<char> = Vec::new();
        append_str(&mut href, "/");
        append_chars(&mut href, &trim_start_in(&chars_of(self.path.as_str()), '/'));
        inject_head_link(out, &href, &title);
        out.insert(self.path.as_str(), encode_utf8_chars(&xml));
        Ok(())
    }
}

} // verus!
