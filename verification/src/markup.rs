//! Escaping text for XML and HTML output.
use vstd::prelude::*;

use crate::text::{append_str, chars_of, string_of};

verus! {

broadcast use vstd::seq::group_seq_axioms;

/// The XML escape of one character (`&apos;` for the apostrophe).
pub open spec fn xml_escape_char(c: char) -> Seq<char> {
    if c == '&' {
        "&amp;"@
    } else if c == '<' {
        "&lt;"@
    } else if c == '>' {
        "&gt;"@
    } else if c == '"' {
        "&quot;"@
    } else if c == '\'' {
        "&apos;"@
    } else {
        seq![c]
    }
}

/// Text escaped for XML text and attribute values.
pub open spec fn xml_escape(s: Seq<char>) -> Seq<char>
    decreases s.len(),
{
    if s.len() == 0 {
        Seq::empty()
    } else {
        xml_escape(s.drop_last()) + xml_escape_char(s.last())
    }
}

/// The HTML escape of one character (`&#39;` for the apostrophe).
pub open spec fn html_escape_char(c: char) -> Seq<char> {
    if c == '&' {
        "&amp;"@
    } else if c == '<' {
        "&lt;"@
    } else if c == '>' {
        "&gt;"@
    } else if c == '"' {
        "&quot;"@
    } else if c == '\'' {
        "&#39;"@
    } else {
        seq![c]
    }
}

/// Text escaped for inclusion in HTML.
pub open spec fn html_escape(s: Seq<char>) -> Seq<char>
    decreases s.len(),
{
    if s.len() == 0 {
        Seq::empty()
    } else {
        html_escape(s.drop_last()) + html_escape_char(s.last())
    }
}

/// No markup-significant character survives escaping other than `&` opening
/// an entity.
pub open spec fn free_of_markup(s: Seq<char>) -> bool {
    forall|i: int| 0 <= i < s.len() ==> #[trigger] s[i] != '<' && s[i] != '>' && s[i] != '"' && s[i] != '\''
}

proof fn lemma_entities_free_of_markup()
    ensures
        free_of_markup("&amp;"@),
        free_of_markup("&lt;"@),
        free_of_markup("&gt;"@),
        free_of_markup("&quot;"@),
        free_of_markup("&apos;"@),
        free_of_markup("&#39;"@),
{
    reveal_strlit("&amp;");
    reveal_strlit("&lt;");
    reveal_strlit("&gt;");
    reveal_strlit("&quot;");
    reveal_strlit("&apos;");
    reveal_strlit("&#39;");
}

/// Escaped text holds no `<`, `>`, `"` or `'`.
pub proof fn lemma_xml_escape_free_of_markup(s: Seq<char>)
    ensures
        free_of_markup(xml_escape(s)),
    decreases s.len(),
{
    if s.len() > 0 {
        lemma_xml_escape_free_of_markup(s.drop_last());
        lemma_entities_free_of_markup();
        let a = xml_escape(s.drop_last());
        let b = xml_escape_char(s.last());
        assert forall|i: int| 0 <= i < (a + b).len() implies #[trigger] (a + b)[i] != '<' && (a
            + b)[i] != '>' && (a + b)[i] != '"' && (a + b)[i] != '\'' by {
            if i >= a.len() {
                assert((a + b)[i] == b[i - a.len()]);
            }
        }
    }
}

/// Escaped HTML text holds no `<`, `>`, `"` or `'`.
pub proof fn lemma_html_escape_free_of_markup(s: Seq<char>)
    ensures
        free_of_markup(html_escape(s)),
    decreases s.len(),
{
    if s.len() > 0 {
        lemma_html_escape_free_of_markup(s.drop_last());
        lemma_entities_free_of_markup();
        let a = html_escape(s.drop_last());
        let b = html_escape_char(s.last());
        assert forall|i: int| 0 <= i < (a + b).len() implies #[trigger] (a + b)[i] != '<' && (a
            + b)[i] != '>' && (a + b)[i] != '"' && (a + b)[i] != '\'' by {
            if i >= a.len() {
                assert((a + b)[i] == b[i - a.len()]);
            }
        }
    }
}

/// Appends the XML escape of `s` to `v`.
pub fn push_xml_escaped(v: &mut Vec<char>, s: &[char])
    ensures
        final(v)@ == old(v)@ + xml_escape(s@),
{
    let ghost start = v@;
    let mut i: usize = 0;
    assert(s@.take(0) =~= Seq::<char>::empty());
    while i < s.len()
        invariant
            i <= s@.len(),
            v@ == start + xml_escape(s@.take(i as int)),
        decreases s@.len() - i,
    {
        let c = s[i];
        if c == '&' {
            append_str(v, "&amp;");
        } else if c == '<' {
            append_str(v, "&lt;");
        } else if c == '>' {
            append_str(v, "&gt;");
        } else if c == '"' {
            append_str(v, "&quot;");
        } else if c == '\'' {
            append_str(v, "&apos;");
        } else {
            v.push(c);
        }
        assert(s@.take(i as int + 1).drop_last() =~= s@.take(i as int));
        i = i + 1;
    }
    assert(s@.take(s@.len() as int) =~= s@);
}

/// Appends the HTML escape of `s` to `v`.
pub fn push_html_escaped(v: &mut Vec<char>, s: &[char])
    ensures
        final(v)@ == old(v)@ + html_escape(s@),
{
    let ghost start = v@;
    let mut i: usize = 0;
    assert(s@.take(0) =~= Seq::<char>::empty());
    while i < s.len()
        invariant
            i <= s@.len(),
            v@ == start + html_escape(s@.take(i as int)),
        decreases s@.len() - i,
    {
        let c = s[i];
        if c == '&' {
            append_str(v, "&amp;");
        } else if c == '<' {
            append_str(v, "&lt;");
        } else if c == '>' {
            append_str(v, "&gt;");
        } else if c == '"' {
            append_str(v, "&quot;");
        } else if c == '\'' {
            append_str(v, "&#39;");
        } else {
            v.push(c);
        }
        assert(s@.take(i as int + 1).drop_last() =~= s@.take(i as int));
        i = i + 1;
    }
    assert(s@.take(s@.len() as int) =~= s@);
}

/// Escape text for XML text and attribute values.
pub fn escape_xml(text: &str) -> (r: String)
    ensures
        r@ == xml_escape(text@),
{
    let mut v: Vec<char> = Vec::new();
    let s = chars_of(text);
    push_xml_escaped(&mut v, &s);
    string_of(&v)
}

/// Escape text for safe inclusion in HTML.
pub fn escape_html(text: &str) -> (r: String)
    ensures
        r@ == html_escape(text@),
{
    let mut v: Vec<char> = Vec::new();
    let s = chars_of(text);
    push_html_escaped(&mut v, &s);
    string_of(&v)
}

} // verus!
