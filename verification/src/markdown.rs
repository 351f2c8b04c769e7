//! Conversion of a parsed HTML tree to a markdown-like string.
//!
//! The walker visits the tree depth first and emits text for each node;
//! the overall output is the concatenation, trimmed of surrounding
//! whitespace.  Headers can be rendered either as true heading markers or
//! as bold text, for renderers that do not support headings.

use vstd::prelude::*;

use crate::dom::attr_value;
use crate::dom::attrs_view;
use crate::dom::find_attr;
use crate::dom::parse_html;
use crate::dom::parsed_dom;
use crate::dom::HtmlNode;
use crate::text::string_eq;
use crate::text::trim_spec;
use crate::text::trim_string;

verus! {

/// Options for what to output.
pub struct MarkdownOptions {
    /// True iff the output markdown should use bold (`**`) text to
    /// represent HTML headers.
    pub use_bold_for_headers: bool,
}

impl Default for MarkdownOptions {
    fn default() -> (r: Self)
        ensures
            r.use_bold_for_headers == false,
    {
        MarkdownOptions { use_bold_for_headers: false }
    }
}

/// What a header with the given nesting level emits around its children's
/// output `inner`.
pub open spec fn header_markdown(inner: Seq<char>, level: u8, bold: bool) -> Seq<char> {
    if bold {
        "\n**"@ + inner + "**\n"@
    } else if level == 1 {
        "\n# "@ + inner + "\n"@
    } else if level == 2 {
        "\n## "@ + inner + "\n"@
    } else {
        "\n### "@ + inner + "\n"@
    }
}

/// What an element named `name` with attributes `attrs` emits around its
/// children's output `inner`.  Unknown elements emit their children's
/// output unchanged.
pub open spec fn element_markdown(
    name: Seq<char>,
    attrs: Seq<(Seq<char>, Seq<char>)>,
    inner: Seq<char>,
    bold: bool,
) -> Seq<char> {
    if name == "p"@ || name == "div"@ || name == "tr"@ {
        inner + "\n"@
    } else if name == "br"@ {
        "\n"@
    } else if name == "a"@ {
        match attr_value(attrs, "href"@) {
            Some(href) => "["@ + inner + "]("@ + href + ") "@,
            None => "["@ + inner + "]"@,
        }
    } else if name == "i"@ || name == "emph"@ {
        "_"@ + inner + "_"@
    } else if name == "b"@ || name == "strong"@ {
        "**"@ + inner + "**"@
    } else if name == "code"@ {
        "`"@ + inner + "`"@
    } else if name == "pre"@ {
        "\n```\n"@ + inner + "\n```\n"@
    } else if name == "h1"@ {
        header_markdown(inner, 1, bold)
    } else if name == "h2"@ {
        header_markdown(inner, 2, bold)
    } else if name == "h3"@ {
        header_markdown(inner, 3, bold)
    } else if name == "quote"@ {
        "\n> "@ + inner + "\n"@
    } else {
        inner
    }
}

/// The markdown emitted for the node `n`.  Text nodes emit their text,
/// comments emit nothing, elements emit their children's output wrapped
/// as `element_markdown` says; a `br` element emits a newline and never
/// visits children.
pub open spec fn markdown_of(n: HtmlNode, bold: bool) -> Seq<char>
    decreases n,
{
    match n {
        HtmlNode::Text { text } => text@,
        HtmlNode::Comment => Seq::empty(),
        HtmlNode::Element { name, attrs, children } => element_markdown(
            name@,
            attrs_view(attrs@),
            markdown_of_seq(children@, bold),
            bold,
        ),
    }
}

/// The concatenated markdown of a forest of nodes.
pub open spec fn markdown_of_seq(cs: Seq<HtmlNode>, bold: bool) -> Seq<char>
    decreases cs,
{
    if cs.len() == 0 {
        Seq::empty()
    } else {
        markdown_of(cs[0], bold) + markdown_of_seq(cs.drop_first(), bold)
    }
}

pub proof fn lemma_markdown_of_seq_append(a: Seq<HtmlNode>, b: Seq<HtmlNode>, bold: bool)
    ensures
        markdown_of_seq(a + b, bold) == markdown_of_seq(a, bold) + markdown_of_seq(b, bold),
    decreases a.len(),
{
    if a.len() == 0 {
        assert(a + b =~= b);
        assert(markdown_of_seq(a, bold) + markdown_of_seq(b, bold) =~= markdown_of_seq(b, bold));
    } else {
        assert((a + b)[0] == a[0]);
        assert((a + b).drop_first() =~= a.drop_first() + b);
        lemma_markdown_of_seq_append(a.drop_first(), b, bold);
        assert(markdown_of(a[0], bold) + (markdown_of_seq(a.drop_first(), bold) + markdown_of_seq(
            b,
            bold,
        )) =~= (markdown_of(a[0], bold) + markdown_of_seq(a.drop_first(), bold))
            + markdown_of_seq(b, bold));
    }
}

pub proof fn lemma_markdown_of_seq_take(cs: Seq<HtmlNode>, i: int, bold: bool)
    requires
        0 <= i < cs.len(),
    ensures
        markdown_of_seq(cs.take(i + 1), bold) == markdown_of_seq(cs.take(i), bold) + markdown_of(
            cs[i],
            bold,
        ),
{
    assert(cs.take(i + 1) =~= cs.take(i) + seq![cs[i]]);
    lemma_markdown_of_seq_append(cs.take(i), seq![cs[i]], bold);
    assert(seq![cs[i]][0] == cs[i]);
    assert(seq![cs[i]].drop_first() =~= Seq::<HtmlNode>::empty());
    assert(markdown_of_seq(seq![cs[i]], bold) == markdown_of(cs[i], bold) + markdown_of_seq(
        Seq::<HtmlNode>::empty(),
        bold,
    ));
    assert(markdown_of(cs[i], bold) + Seq::<char>::empty() =~= markdown_of(cs[i], bold));
}

/// Walks a parsed HTML tree and accumulates its markdown rendering.
pub struct MarkdownWalker {
    buffer: String,
    options: MarkdownOptions,
}

impl MarkdownWalker {
    /// The markdown accumulated so far, untrimmed.
    pub closed spec fn content_spec(&self) -> Seq<char> {
        self.buffer@
    }

    /// Whether headers are rendered as bold text.
    pub closed spec fn bold_headers_spec(&self) -> bool {
        self.options.use_bold_for_headers
    }

    /// Get an empty walker that renders true heading markers.
    pub fn new() -> (r: Self)
        ensures
            r.content_spec() == Seq::<char>::empty(),
            r.bold_headers_spec() == false,
    {
        MarkdownWalker { buffer: String::new(), options: MarkdownOptions { use_bold_for_headers: false } }
    }

    /// Replace the walker's options.
    pub fn configure(&mut self, opts: MarkdownOptions)
        ensures
            final(self).content_spec() == old(self).content_spec(),
            final(self).bold_headers_spec() == opts.use_bold_for_headers,
    {
        self.options = opts;
    }

    /// Adds the given text to the output.
    fn add(&mut self, text: &str)
        ensures
            final(self).content_spec() == old(self).content_spec() + text@,
            final(self).bold_headers_spec() == old(self).bold_headers_spec(),
    {
        self.buffer.append(text);
    }

    /// Visit all nodes of `children` in order.
    fn visit_children(&mut self, children: &Vec<HtmlNode>)
        ensures
            final(self).content_spec() == old(self).content_spec() + markdown_of_seq(
                children@,
                old(self).bold_headers_spec(),
            ),
            final(self).bold_headers_spec() == old(self).bold_headers_spec(),
        decreases children@, 0int,
    {
        let ghost entry = self.content_spec();
        let ghost bold = self.bold_headers_spec();
        let mut i: usize = 0;
        proof {
            assert(entry + markdown_of_seq(children@.take(0), bold) =~= entry);
        }
        while i < children.len()
            invariant
                0 <= i <= children@.len(),
                self.content_spec() == entry + markdown_of_seq(children@.take(i as int), bold),
                self.bold_headers_spec() == bold,
            decreases children@.len() - i,
        {
            proof {
                assert(decreases_to!(children@ => children@[i as int]));
            }
            self.visit(&children[i]);
            proof {
                lemma_markdown_of_seq_take(children@, i as int, bold);
            }
            i = i + 1;
        }
        proof {
            assert(children@.take(children@.len() as int) =~= children@);
        }
    }

    /// Emit a header of the given `level` (between 1 and 3) around the
    /// children's output.
    fn visit_header(&mut self, children: &Vec<HtmlNode>, level: u8)
        requires
            1 <= level <= 3,
        ensures
            final(self).content_spec() == old(self).content_spec() + header_markdown(
                markdown_of_seq(children@, old(self).bold_headers_spec()),
                level,
                old(self).bold_headers_spec(),
            ),
            final(self).bold_headers_spec() == old(self).bold_headers_spec(),
        decreases children@, 1int,
    {
        let ghost entry = self.content_spec();
        let ghost bold = self.bold_headers_spec();
        let ghost inner = markdown_of_seq(children@, bold);
        self.add("\n");
        if !self.options.use_bold_for_headers {
            if level == 1 {
                self.add("# ");
            } else if level == 2 {
                self.add("## ");
            } else {
                self.add("### ");
            }
        } else {
            self.add("**");
        }
        self.visit_children(children);
        if self.options.use_bold_for_headers {
            self.add("**");
        }
        self.add("\n");
        proof {
            if bold {
                assert("\n"@ + "**"@ =~= "\n**"@) by {
                    reveal_strlit("\n");
                    reveal_strlit("**");
                    reveal_strlit("\n**");
                }
                assert("**"@ + "\n"@ =~= "**\n"@) by {
                    reveal_strlit("\n");
                    reveal_strlit("**");
                    reveal_strlit("**\n");
                }
                assert(self.content_spec() =~= entry + ("\n**"@ + inner + "**\n"@));
            } else if level == 1 {
                assert("\n"@ + "# "@ =~= "\n# "@) by {
                    reveal_strlit("\n");
                    reveal_strlit("# ");
                    reveal_strlit("\n# ");
                }
                assert(self.content_spec() =~= entry + ("\n# "@ + inner + "\n"@));
            } else if level == 2 {
                assert("\n"@ + "## "@ =~= "\n## "@) by {
                    reveal_strlit("\n");
                    reveal_strlit("## ");
                    reveal_strlit("\n## ");
                }
                assert(self.content_spec() =~= entry + ("\n## "@ + inner + "\n"@));
            } else {
                assert("\n"@ + "### "@ =~= "\n### "@) by {
                    reveal_strlit("\n");
                    reveal_strlit("### ");
                    reveal_strlit("\n### ");
                }
                assert(self.content_spec() =~= entry + ("\n### "@ + inner + "\n"@));
            }
        }
    }

    /// Emit the markdown for one node.
    fn visit(&mut self, node: &HtmlNode)
        ensures
            final(self).content_spec() == old(self).content_spec() + markdown_of(
                *node,
                old(self).bold_headers_spec(),
            ),
            final(self).bold_headers_spec() == old(self).bold_headers_spec(),
        decreases *node, 2int,
    {
        let ghost entry = self.content_spec();
        let ghost bold = self.bold_headers_spec();
        match node {
            HtmlNode::Text { text } => {
                self.add(text.as_str());
            },
            HtmlNode::Comment => {
                proof {
                    assert(entry + Seq::<char>::empty() =~= entry);
                }
            },
            HtmlNode::Element { name, attrs, children } => {
                proof {
                    assert(node->Element_children == *children);
                    assert(decreases_to!(*node => node->Element_children));
                    assert(decreases_to!(*children => children@));
                }
                let ghost inner = markdown_of_seq(children@, bold);
                if string_eq(name, "p") || string_eq(name, "div") || string_eq(name, "tr") {
                    self.visit_children(children);
                    self.add("\n");
                    proof {
                        assert(self.content_spec() =~= entry + (inner + "\n"@));
                    }
                } else if string_eq(name, "br") {
                    self.add("\n");
                } else if string_eq(name, "a") {
                    self.add("[");
                    self.visit_children(children);
                    self.add("]");
                    match find_attr(attrs, "href") {
                        Some(href) => {
                            self.add("(");
                            let target = href.clone();
                            self.add(target.as_str());
                            self.add(") ");
                            proof {
                                assert(self.content_spec() =~= entry + ("["@ + inner + "]("@
                                    + href@ + ") "@)) by {
                                    reveal_strlit("[");
                                    reveal_strlit("]");
                                    reveal_strlit("(");
                                    reveal_strlit("](");
                                }
                            }
                        },
                        None => {
                            proof {
                                assert(self.content_spec() =~= entry + ("["@ + inner + "]"@));
                            }
                        },
                    }
                } else if string_eq(name, "i") || string_eq(name, "emph") {
                    self.add("_");
                    self.visit_children(children);
                    self.add("_");
                    proof {
                        assert(self.content_spec() =~= entry + ("_"@ + inner + "_"@));
                    }
                } else if string_eq(name, "b") || string_eq(name, "strong") {
                    self.add("**");
                    self.visit_children(children);
                    self.add("**");
                    proof {
                        assert(self.content_spec() =~= entry + ("**"@ + inner + "**"@));
                    }
                } else if string_eq(name, "code") {
                    self.add("`");
                    self.visit_children(children);
                    self.add("`");
                    proof {
                        assert(self.content_spec() =~= entry + ("`"@ + inner + "`"@));
                    }
                } else if string_eq(name, "pre") {
                    self.add("\n```\n");
                    self.visit_children(children);
                    self.add("\n```\n");
                    proof {
                        assert(self.content_spec() =~= entry + ("\n```\n"@ + inner + "\n```\n"@));
                    }
                } else if string_eq(name, "h1") {
                    self.visit_header(children, 1);
                } else if string_eq(name, "h2") {
                    self.visit_header(children, 2);
                } else if string_eq(name, "h3") {
                    self.visit_header(children, 3);
                } else if string_eq(name, "quote") {
                    self.add("\n> ");
                    self.visit_children(children);
                    self.add("\n");
                    proof {
                        assert(self.content_spec() =~= entry + ("\n> "@ + inner + "\n"@));
                    }
                } else {
                    self.visit_children(children);
                }
            },
        }
    }

    /// Walk one already-parsed node, appending its markdown to the
    /// accumulated content.
    pub fn visit_node(&mut self, node: &HtmlNode)
        ensures
            final(self).content_spec() == old(self).content_spec() + markdown_of(
                *node,
                old(self).bold_headers_spec(),
            ),
            final(self).bold_headers_spec() == old(self).bold_headers_spec(),
    {
        self.visit(node);
    }

    /// Parse the given HTML and walk its tree, appending its markdown to
    /// the accumulated content.
    pub fn start(&mut self, html: &str)
        ensures
            final(self).content_spec() == old(self).content_spec() + markdown_of(
                parsed_dom(html@),
                old(self).bold_headers_spec(),
            ),
            final(self).bold_headers_spec() == old(self).bold_headers_spec(),
    {
        let tree = parse_html(html);
        self.visit(&tree);
    }

    /// Get the content this has accumulated, trimmed of leading and
    /// trailing whitespace.
    pub fn get_content(&self) -> (r: String)
        ensures
            r@ == trim_spec(self.content_spec()),
    {
        trim_string(self.buffer.as_str())
    }
}

impl Default for MarkdownWalker {
    fn default() -> (r: Self)
        ensures
            r.content_spec() == Seq::<char>::empty(),
            r.bold_headers_spec() == false,
    {
        MarkdownWalker::new()
    }
}

/// Walks the given `html` using a `MarkdownWalker` and returns the
/// collected content, with true heading markers.
pub fn html_to_md(html: &str) -> (r: String)
    ensures
        r@ == trim_spec(markdown_of(parsed_dom(html@), false)),
{
    let mut walker = MarkdownWalker::new();
    walker.start(html);
    proof {
        assert(Seq::<char>::empty() + markdown_of(parsed_dom(html@), false) =~= markdown_of(
            parsed_dom(html@),
            false,
        ));
    }
    walker.get_content()
}

/// Convert the given html to markdown, rendering headers as bolded text
/// for more minimal markdown renderers.
pub fn html_to_md_minimal(html: &str) -> (r: String)
    ensures
        r@ == trim_spec(markdown_of(parsed_dom(html@), true)),
{
    let mut walker = MarkdownWalker::new();
    walker.configure(MarkdownOptions { use_bold_for_headers: true });
    walker.start(html);
    proof {
        assert(Seq::<char>::empty() + markdown_of(parsed_dom(html@), true) =~= markdown_of(
            parsed_dom(html@),
            true,
        ));
    }
    walker.get_content()
}

} // verus!
