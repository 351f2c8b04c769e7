//! A parsed HTML tree, and the utilities the converter and the post reader
//! need on it: text extraction, attribute lookup and class matching.
//!
//! Parsing itself is done by the `select` crate behind a trusted wrapper;
//! everything that reads the resulting tree is verified.

use vstd::prelude::*;

use crate::text::chars_of;
use crate::text::is_space;
use crate::text::is_space_char;
use crate::text::string_eq;

verus! {

/// One node of a parsed HTML tree: a text node, a comment, or an element
/// with its attributes and children.
pub enum HtmlNode {
    Text { text: String },
    Comment,
    Element { name: String, attrs: Vec<(String, String)>, children: Vec<HtmlNode> },
}

#[verifier::external_type_specification]
#[verifier::external_body]
pub struct ExNode<'a>(select::node::Node<'a>);

/// The tree that select's HTML parser produces for a text.
pub uninterp spec fn parsed_dom(s: Seq<char>) -> HtmlNode;

/// Relies on select's `Document::from`, which parses HTML with html5ever.
/// The returned tree is rooted at the document's first node: the `html`
/// element that the parser synthesizes around any input.
#[verifier::external_body]
pub(crate) fn parse_html(html: &str) -> (r: HtmlNode)
    ensures
        r == parsed_dom(html@),
{
    let doc = select::document::Document::from(html);
    match doc.nth(0) {
        Some(node) => node_tree(node),
        None => HtmlNode::Text { text: String::new() },
    }
}

/// Helper for `parse_html`: converts one of select's nodes and its
/// descendants, relying on `Node`'s accessors `as_text`, `as_comment`,
/// `name`, `attrs` and `children`.
#[verifier::external_body]
fn node_tree(node: select::node::Node<'_>) -> HtmlNode {
    if let Some(t) = node.as_text() {
        HtmlNode::Text { text: t.to_string() }
    } else if node.as_comment().is_some() {
        HtmlNode::Comment
    } else {
        HtmlNode::Element {
            name: node.name().unwrap_or("").to_string(),
            attrs: node.attrs().map(|(k, v)| (k.to_string(), v.to_string())).collect(),
            children: node.children().map(node_tree).collect(),
        }
    }
}

/// The models of an attribute list.
pub open spec fn attrs_view(s: Seq<(String, String)>) -> Seq<(Seq<char>, Seq<char>)> {
    s.map_values(|p: (String, String)| (p.0@, p.1@))
}

/// The value of the first attribute named `key`.
pub open spec fn attr_value(attrs: Seq<(Seq<char>, Seq<char>)>, key: Seq<char>) -> Option<
    Seq<char>,
>
    decreases attrs.len(),
{
    if attrs.len() == 0 {
        None
    } else if attrs[0].0 == key {
        Some(attrs[0].1)
    } else {
        attr_value(attrs.drop_first(), key)
    }
}

/// Look up the first attribute named `key`.
pub fn find_attr<'a>(attrs: &'a Vec<(String, String)>, key: &str) -> (r: Option<&'a String>)
    ensures
        match r {
            Some(v) => attr_value(attrs_view(attrs@), key@) == Some(v@),
            None => attr_value(attrs_view(attrs@), key@) is None,
        },
{
    let ghost av = attrs_view(attrs@);
    let mut i: usize = 0;
    proof {
        assert(av.skip(0) =~= av);
    }
    while i < attrs.len()
        invariant
            av == attrs_view(attrs@),
            0 <= i <= attrs@.len(),
            attr_value(av, key@) == attr_value(av.skip(i as int), key@),
        decreases attrs@.len() - i,
    {
        proof {
            assert(av.skip(i as int)[0] == av[i as int]);
            assert(av.skip(i as int).drop_first() =~= av.skip(i + 1));
        }
        if string_eq(&attrs[i].0, key) {
            return Some(&attrs[i].1);
        }
        i = i + 1;
    }
    proof {
        assert(av.skip(i as int) =~= Seq::<(Seq<char>, Seq<char>)>::empty());
    }
    None
}

/// The concatenated text of all text nodes under `n`, in document order.
pub open spec fn node_text(n: HtmlNode) -> Seq<char>
    decreases n,
{
    match n {
        HtmlNode::Text { text } => text@,
        HtmlNode::Comment => Seq::empty(),
        HtmlNode::Element { name, attrs, children } => nodes_text(children@),
    }
}

/// The concatenated text of a forest of nodes.
pub open spec fn nodes_text(cs: Seq<HtmlNode>) -> Seq<char>
    decreases cs,
{
    if cs.len() == 0 {
        Seq::empty()
    } else {
        node_text(cs[0]) + nodes_text(cs.drop_first())
    }
}

pub proof fn lemma_nodes_text_append(a: Seq<HtmlNode>, b: Seq<HtmlNode>)
    ensures
        nodes_text(a + b) == nodes_text(a) + nodes_text(b),
    decreases a.len(),
{
    if a.len() == 0 {
        assert(a + b =~= b);
        assert(nodes_text(a) + nodes_text(b) =~= nodes_text(b));
    } else {
        assert((a + b)[0] == a[0]);
        assert((a + b).drop_first() =~= a.drop_first() + b);
        lemma_nodes_text_append(a.drop_first(), b);
        assert(node_text(a[0]) + (nodes_text(a.drop_first()) + nodes_text(b)) =~= (node_text(a[0])
            + nodes_text(a.drop_first())) + nodes_text(b));
    }
}

pub proof fn lemma_nodes_text_take(cs: Seq<HtmlNode>, i: int)
    requires
        0 <= i < cs.len(),
    ensures
        nodes_text(cs.take(i + 1)) == nodes_text(cs.take(i)) + node_text(cs[i]),
{
    assert(cs.take(i + 1) =~= cs.take(i) + seq![cs[i]]);
    lemma_nodes_text_append(cs.take(i), seq![cs[i]]);
    assert(seq![cs[i]][0] == cs[i]);
    assert(seq![cs[i]].drop_first() =~= Seq::<HtmlNode>::empty());
    assert(nodes_text(seq![cs[i]]) == node_text(cs[i]) + nodes_text(Seq::<HtmlNode>::empty()));
    assert(node_text(cs[i]) + Seq::<char>::empty() =~= node_text(cs[i]));
}

/// Append the text under `n` to `out`.
pub fn extract_text(n: &HtmlNode, out: &mut String)
    ensures
        final(out)@ == old(out)@ + node_text(*n),
    decreases *n,
{
    match n {
        HtmlNode::Text { text } => {
            out.append(text.as_str());
        },
        HtmlNode::Comment => {
            proof {
                assert(out@ =~= out@ + Seq::<char>::empty());
            }
        },
        HtmlNode::Element { name, attrs, children } => {
            let ghost entry = out@;
            let mut i: usize = 0;
            proof {
                assert(out@ =~= entry + nodes_text(children@.take(0)));
            }
            while i < children.len()
                invariant
                    *n == (HtmlNode::Element { name: *name, attrs: *attrs, children: *children }),
                    0 <= i <= children@.len(),
                    out@ == entry + nodes_text(children@.take(i as int)),
                decreases children@.len() - i,
            {
                proof {
                    assert(n->Element_children == *children);
                    assert(decreases_to!(*n => n->Element_children));
                    assert(decreases_to!(*children => children@[i as int]));
                }
                extract_text(&children[i], out);
                proof {
                    lemma_nodes_text_take(children@, i as int);
                }
                i = i + 1;
            }
            proof {
                assert(children@.take(children@.len() as int) =~= children@);
            }
        },
    }
}

/// First position at or after `i` in `s` that is not whitespace.
pub open spec fn ws_end(s: Seq<char>, i: int) -> int
    decreases s.len() - i
        when 0 <= i <= s.len()
{
    if i < s.len() && is_space_char(s[i]) {
        ws_end(s, i + 1)
    } else {
        i
    }
}

/// First position at or after `i` in `s` that is whitespace.
pub open spec fn word_end(s: Seq<char>, i: int) -> int
    decreases s.len() - i
        when 0 <= i <= s.len()
{
    if i < s.len() && !is_space_char(s[i]) {
        word_end(s, i + 1)
    } else {
        i
    }
}

pub proof fn lemma_ws_end_char(s: Seq<char>, i: int)
    requires
        0 <= i <= s.len(),
    ensures
        i <= ws_end(s, i) <= s.len(),
        forall|m: int| i <= m < ws_end(s, i) ==> is_space_char(s[m]),
        ws_end(s, i) < s.len() ==> !is_space_char(s[ws_end(s, i)]),
    decreases s.len() - i,
{
    if i < s.len() && is_space_char(s[i]) {
        lemma_ws_end_char(s, i + 1);
    }
}

pub proof fn lemma_word_end_char(s: Seq<char>, i: int)
    requires
        0 <= i <= s.len(),
    ensures
        i <= word_end(s, i) <= s.len(),
        forall|m: int| i <= m < word_end(s, i) ==> !is_space_char(s[m]),
        word_end(s, i) < s.len() ==> is_space_char(s[word_end(s, i)]),
    decreases s.len() - i,
{
    if i < s.len() && !is_space_char(s[i]) {
        lemma_word_end_char(s, i + 1);
    }
}

pub proof fn lemma_word_end_unique(s: Seq<char>, i: int, e: int)
    requires
        0 <= i <= e <= s.len(),
        forall|m: int| i <= m < e ==> !is_space_char(s[m]),
        e < s.len() ==> is_space_char(s[e]),
    ensures
        word_end(s, i) == e,
    decreases e - i,
{
    if i < e {
        lemma_word_end_unique(s, i + 1, e);
    }
}

/// The whitespace-separated words of `s` from position `i` on.
pub open spec fn words_from(s: Seq<char>, i: int) -> Seq<Seq<char>>
    decreases s.len() - i
        when 0 <= i <= s.len()
        via words_from_decreases
{
    if i >= s.len() {
        Seq::empty()
    } else if is_space_char(s[i]) {
        words_from(s, i + 1)
    } else {
        seq![s.subrange(i, word_end(s, i))] + words_from(s, word_end(s, i))
    }
}

#[via_fn]
proof fn words_from_decreases(s: Seq<char>, i: int) {
    if i < s.len() && !is_space_char(s[i]) {
        lemma_word_end_char(s, i);
        assert(word_end(s, i) == word_end(s, i + 1));
    }
}

/// `w` occurs in `s` as a whitespace-separated word, as
/// `str::split_whitespace` splits it.
pub open spec fn has_word(s: Seq<char>, w: Seq<char>) -> bool {
    words_from(s, 0).contains(w)
}

/// Whether two character vectors hold the same text.
fn chars_eq(a: &Vec<char>, b: &Vec<char>) -> (r: bool)
    ensures
        r == (a@ == b@),
{
    if a.len() != b.len() {
        return false;
    }
    let mut i: usize = 0;
    while i < a.len()
        invariant
            0 <= i <= a@.len() == b@.len(),
            forall|j: int| 0 <= j < i ==> a@[j] == b@[j],
        decreases a@.len() - i,
    {
        if a[i] != b[i] {
            return false;
        }
        i = i + 1;
    }
    proof {
        assert(a@ =~= b@);
    }
    true
}

/// Whether `cls` occurs as a whitespace-separated word of `classes`.
pub fn contains_word(classes: &str, cls: &str) -> (r: bool)
    ensures
        r == has_word(classes@, cls@),
{
    let s = chars_of(classes);
    let w = chars_of(cls);
    let ghost t = classes@;
    let ghost all = words_from(t, 0);
    let mut i: usize = 0;
    let ghost mut c: int = 0;
    proof {
        assert(all =~= all.take(0) + words_from(t, 0));
    }
    while i < s.len()
        invariant
            s@ == t,
            t == classes@,
            w@ == cls@,
            0 <= i <= t.len(),
            all == words_from(t, 0),
            0 <= c <= all.len(),
            all == all.take(c) + words_from(t, i as int),
            forall|q: int| 0 <= q < c ==> all[q] != cls@,
        decreases t.len() - i,
    {
        if is_space(s[i]) {
            i = i + 1;
        } else {
            let ws = i;
            let mut j: usize = i;
            while j < s.len() && !is_space(s[j])
                invariant
                    s@ == t,
                    ws <= j <= t.len(),
                    forall|m: int| ws <= m < j ==> !is_space_char(t[m]),
                decreases t.len() - j,
            {
                j = j + 1;
            }
            proof {
                lemma_word_end_unique(t, ws as int, j as int);
            }
            let word = crate::text::subvec_chars(&s, ws, j);
            let ghost wrd = t.subrange(ws as int, j as int);
            proof {
                assert(words_from(t, ws as int) =~= seq![wrd] + words_from(t, j as int));
                assert(all[c] == wrd);
                assert(all.take(c + 1) =~= all.take(c) + seq![wrd]);
                assert(all =~= all.take(c + 1) + words_from(t, j as int));
            }
            if chars_eq(&word, &w) {
                proof {
                    assert(0 <= c < all.len());
                    assert(word@ == wrd);
                    assert(all[c] == cls@);
                    assert(all.contains(cls@));
                    assert(has_word(classes@, cls@));
                }
                return true;
            }
            proof {
                c = c + 1;
            }
            i = j;
        }
    }
    proof {
        assert(words_from(t, i as int) =~= Seq::<Seq<char>>::empty());
        assert(all =~= all.take(c));
        if all.contains(cls@) {
            let q = choose|q: int| 0 <= q < all.len() && all[q] == cls@;
            assert(false);
        }
    }
    false
}

/// `n` is an element whose `class` attribute contains the word `cls`.
pub open spec fn has_class(n: HtmlNode, cls: Seq<char>) -> bool {
    match n {
        HtmlNode::Element { name, attrs, children } => match attr_value(
            attrs_view(attrs@),
            "class"@,
        ) {
            Some(classes) => has_word(classes, cls),
            None => false,
        },
        _ => false,
    }
}

/// Whether `n` is an element with the word `cls` in its `class` attribute.
pub fn node_has_class(n: &HtmlNode, cls: &str) -> (r: bool)
    ensures
        r == has_class(*n, cls@),
{
    match n {
        HtmlNode::Element { name, attrs, children } => {
            match find_attr(attrs, "class") {
                Some(classes) => contains_word(classes.as_str(), cls),
                None => false,
            }
        },
        _ => false,
    }
}

} // verus!
