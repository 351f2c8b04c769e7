//! Reading a discussion post out of a fetched forum page.
//!
//! A page's first comment is the element with class `unminimized-comment`;
//! inside it, the author is the first `a` element with class `author`, and
//! the body is the first element with an empty `data-paste-markdown-skip`
//! attribute and class `js-translation-source`.  Author and body fall back
//! to fixed sentinels when absent.

use vstd::prelude::*;

use crate::dom::attr_value;
use crate::dom::attrs_view;
use crate::dom::extract_text;
use crate::dom::find_attr;
use crate::dom::has_class;
use crate::dom::node_has_class;
use crate::dom::node_text;
use crate::dom::parse_html;
use crate::dom::parsed_dom;
use crate::dom::HtmlNode;
use crate::errors::SyncError;
use crate::links::DiscussionLink;
use crate::markdown::markdown_of;
use crate::markdown::MarkdownWalker;
use crate::text::string_eq;
use crate::text::trim_spec;
use crate::text::trim_string;

verus! {

/// What the post reader looks for inside a fetched discussion page.
#[derive(Clone, Copy, Debug, PartialEq, Eq, Structural)]
pub enum NodeQuery {
    /// The page's first comment: class word `unminimized-comment`.
    FirstComment,
    /// The comment author: an `a` element with class word `author`.
    AuthorLink,
    /// The comment body: an element with an empty
    /// `data-paste-markdown-skip` attribute and class word
    /// `js-translation-source`.
    CommentBody,
}

/// `n` is an element named `name`.
pub open spec fn is_element_named(n: HtmlNode, name: Seq<char>) -> bool {
    match n {
        HtmlNode::Element { name: en, attrs, children } => en@ == name,
        _ => false,
    }
}

/// `n` is an element whose first attribute named `key` has value `val`.
pub open spec fn attr_is(n: HtmlNode, key: Seq<char>, val: Seq<char>) -> bool {
    match n {
        HtmlNode::Element { name, attrs, children } => attr_value(attrs_view(attrs@), key)
            == Some(val),
        _ => false,
    }
}

/// Whether the node `n` answers the query `q`.
pub open spec fn query_matches(q: NodeQuery, n: HtmlNode) -> bool {
    match q {
        NodeQuery::FirstComment => has_class(n, "unminimized-comment"@),
        NodeQuery::AuthorLink => is_element_named(n, "a"@) && has_class(n, "author"@),
        NodeQuery::CommentBody => attr_is(n, "data-paste-markdown-skip"@, ""@) && has_class(
            n,
            "js-translation-source"@,
        ),
    }
}

/// Runtime test matching `query_matches`.
pub fn query_matches_exec(q: &NodeQuery, n: &HtmlNode) -> (r: bool)
    ensures
        r == query_matches(*q, *n),
{
    match q {
        NodeQuery::FirstComment => node_has_class(n, "unminimized-comment"),
        NodeQuery::AuthorLink => {
            match n {
                HtmlNode::Element { name, attrs, children } => string_eq(name, "a")
                    && node_has_class(n, "author"),
                _ => false,
            }
        },
        NodeQuery::CommentBody => {
            match n {
                HtmlNode::Element { name, attrs, children } => {
                    let has_attr = match find_attr(attrs, "data-paste-markdown-skip") {
                        Some(v) => {
                            let e = v.as_str().is_empty();
                            proof {
                                reveal_strlit("");
                                if v@.len() == 0 {
                                    assert(v@ =~= ""@);
                                }
                            }
                            e
                        },
                        None => false,
                    };
                    has_attr && node_has_class(n, "js-translation-source")
                },
                _ => false,
            }
        },
    }
}

/// The first node under `n` (including `n` itself) that answers `q`, in
/// depth-first document order.
pub open spec fn find_node(n: HtmlNode, q: NodeQuery) -> Option<HtmlNode>
    decreases n,
{
    if query_matches(q, n) {
        Some(n)
    } else {
        match n {
            HtmlNode::Element { name, attrs, children } => find_in(children@, q),
            _ => None,
        }
    }
}

/// The first node in the forest `cs` that answers `q`.
pub open spec fn find_in(cs: Seq<HtmlNode>, q: NodeQuery) -> Option<HtmlNode>
    decreases cs,
{
    if cs.len() == 0 {
        None
    } else {
        match find_node(cs[0], q) {
            Some(m) => Some(m),
            None => find_in(cs.drop_first(), q),
        }
    }
}

/// Search `n` and its descendants for the first node answering `q`.
pub fn find_first<'a>(n: &'a HtmlNode, q: &NodeQuery) -> (r: Option<&'a HtmlNode>)
    ensures
        match r {
            Some(m) => find_node(*n, *q) == Some(*m),
            None => find_node(*n, *q) is None,
        },
    decreases *n, 1int,
{
    if query_matches_exec(q, n) {
        return Some(n);
    }
    match n {
        HtmlNode::Element { name, attrs, children } => {
            proof {
                assert(n->Element_children == *children);
                assert(decreases_to!(*n => n->Element_children));
            }
            find_first_in(children, q)
        },
        _ => None,
    }
}

/// Search the forest `children` for the first node answering `q`.
pub fn find_first_in<'a>(children: &'a Vec<HtmlNode>, q: &NodeQuery) -> (r: Option<&'a HtmlNode>)
    ensures
        match r {
            Some(m) => find_in(children@, *q) == Some(*m),
            None => find_in(children@, *q) is None,
        },
    decreases children@, 0int,
{
    let ghost cs = children@;
    let mut i: usize = 0;
    proof {
        assert(cs.skip(0) =~= cs);
    }
    while i < children.len()
        invariant
            cs == children@,
            0 <= i <= cs.len(),
            find_in(cs, *q) == find_in(cs.skip(i as int), *q),
        decreases cs.len() - i,
    {
        proof {
            assert(cs.skip(i as int)[0] == cs[i as int]);
            assert(cs.skip(i as int).drop_first() =~= cs.skip(i + 1));
            assert(decreases_to!(cs => cs[i as int]));
        }
        let found = find_first(&children[i], q);
        match found {
            Some(m) => {
                return Some(m);
            },
            None => {},
        }
        i = i + 1;
    }
    proof {
        assert(cs.skip(cs.len() as int) =~= Seq::<HtmlNode>::empty());
    }
    None
}

/// The author shown for a comment: the trimmed text of its author link,
/// or a sentinel when none is found.
pub open spec fn post_author(comment: HtmlNode) -> Seq<char> {
    match comment {
        HtmlNode::Element { name, attrs, children } => match find_in(
            children@,
            NodeQuery::AuthorLink,
        ) {
            Some(a) => trim_spec(node_text(a)),
            None => "Unknown Author"@,
        },
        _ => "Unknown Author"@,
    }
}

/// The content shown for a comment: its body converted to markdown, or a
/// sentinel when no body is found.
pub open spec fn post_content(comment: HtmlNode) -> Seq<char> {
    match comment {
        HtmlNode::Element { name, attrs, children } => match find_in(
            children@,
            NodeQuery::CommentBody,
        ) {
            Some(b) => trim_spec(markdown_of(b, false)),
            None => "Unable to find content for this post!!!"@,
        },
        _ => "Unable to find content for this post!!!"@,
    }
}

/// One discussion post, ready to forward: markdown content, author name,
/// and the link it was fetched from.
#[derive(Clone, Debug)]
pub struct DiscussionPost {
    content: String,
    author: String,
    url: DiscussionLink,
}

impl DiscussionPost {
    /// The post's markdown content.
    pub closed spec fn content_spec(&self) -> Seq<char> {
        self.content@
    }

    /// The post's author name.
    pub closed spec fn author_spec(&self) -> Seq<char> {
        self.author@
    }

    /// The model of the link the post came from.
    pub closed spec fn link_spec(&self) -> (Seq<char>, u16) {
        self.url@
    }

    /// Creates a new discussion post with `content` and location `link`.
    /// This does not fetch or verify the `content` using `link`.
    pub fn new(content: String, author: String, link: DiscussionLink) -> (r: DiscussionPost)
        ensures
            r.content_spec() == content@,
            r.author_spec() == author@,
            r.link_spec() == link@,
    {
        DiscussionPost { content, author, url: link }
    }

    /// Create a post from the `html` of the page that `link` points to.
    /// Fails exactly when the page holds no comment; a missing author or
    /// body falls back to its sentinel.
    pub fn pull_from(link: DiscussionLink, html: &str) -> (r: Result<DiscussionPost, SyncError>)
        ensures
            r is Ok <==> find_node(parsed_dom(html@), NodeQuery::FirstComment) is Some,
            r is Err ==> r->Err_0 == SyncError::ContentNotFound,
            r is Ok ==> r->Ok_0.author_spec() == post_author(
                find_node(parsed_dom(html@), NodeQuery::FirstComment)->Some_0,
            ) && r->Ok_0.content_spec() == post_content(
                find_node(parsed_dom(html@), NodeQuery::FirstComment)->Some_0,
            ) && r->Ok_0.link_spec() == link@,
    {
        let tree = parse_html(html);
        let first_comment = match find_first(&tree, &NodeQuery::FirstComment) {
            Some(c) => c,
            None => {
                return Err(SyncError::ContentNotFound);
            },
        };
        let author: String = match first_comment {
            HtmlNode::Element { name, attrs, children } => {
                match find_first_in(children, &NodeQuery::AuthorLink) {
                    Some(a) => {
                        let mut text = String::new();
                        extract_text(a, &mut text);
                        proof {
                            assert(text@ =~= node_text(*a));
                        }
                        trim_string(text.as_str())
                    },
                    None => String::from_str("Unknown Author"),
                }
            },
            _ => String::from_str("Unknown Author"),
        };
        let content: String = match first_comment {
            HtmlNode::Element { name, attrs, children } => {
                match find_first_in(children, &NodeQuery::CommentBody) {
                    Some(b) => {
                        let mut walker = MarkdownWalker::new();
                        walker.visit_node(b);
                        walker.get_content()
                    },
                    None => String::from_str("Unable to find content for this post!!!"),
                }
            },
            _ => String::from_str("Unable to find content for this post!!!"),
        };
        Ok(DiscussionPost::new(content, author, link))
    }

    /// Get the markdown content of this post.
    pub fn get_content(&self) -> (r: &str)
        ensures
            r@ == self.content_spec(),
    {
        self.content.as_str()
    }

    /// Get the publicly-shown name of the author of this post.
    pub fn get_author(&self) -> (r: &str)
        ensures
            r@ == self.author_spec(),
    {
        self.author.as_str()
    }

    /// Gets the `DiscussionLink` that points to this post's content.
    pub fn get_link(&self) -> (r: &DiscussionLink)
        ensures
            r@ == self.link_spec(),
    {
        &self.url
    }
}

} // verus!
