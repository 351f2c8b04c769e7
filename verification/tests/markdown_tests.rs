//! Tests for HTML to markdown conversion.

use opportunities_bot::markdown::html_to_md;
use opportunities_bot::markdown::html_to_md_minimal;
use opportunities_bot::markdown::MarkdownOptions;
use opportunities_bot::markdown::MarkdownWalker;

#[test]
fn test_simple_html2md() {
    let html = r#"
<div>
<h1>This is a test</h1>
<p>Of <i>a</i> thing.</p>
</div>
        "#;
    let md = r#"# This is a test

Of _a_ thing."#;
    let mut walker = MarkdownWalker::new();
    walker.start(&html);

    assert_eq!(walker.get_content(), md);
}

#[test]
fn test_minimal_mode_bolds_headers() {
    assert_eq!(html_to_md_minimal("<h2>T</h2>"), "**T**");
    assert_eq!(html_to_md("<h2>T</h2>"), "## T");
}

#[test]
fn test_configure_walker() {
    let mut walker = MarkdownWalker::new();
    walker.configure(MarkdownOptions { use_bold_for_headers: true });
    walker.start("<h1>Hello</h1>");
    assert_eq!(walker.get_content(), "**Hello**");
}

#[test]
fn test_link_with_href() {
    assert_eq!(html_to_md("<a href=\"x\">t</a>"), "[t](x)");
}

#[test]
fn test_link_without_href() {
    assert_eq!(html_to_md("<a>t</a>"), "[t]");
}

#[test]
fn test_comment_suppressed() {
    assert_eq!(html_to_md("<div>a<!-- hidden -->b</div>"), "ab");
}

#[test]
fn test_line_break() {
    assert_eq!(html_to_md("<p>a<br>b</p>"), "a\nb");
}

#[test]
fn test_inline_markers() {
    assert_eq!(html_to_md("<i>x</i>"), "_x_");
    assert_eq!(html_to_md("<emph>x</emph>"), "_x_");
    assert_eq!(html_to_md("<b>x</b>"), "**x**");
    assert_eq!(html_to_md("<strong>x</strong>"), "**x**");
    assert_eq!(html_to_md("<code>x</code>"), "`x`");
}

#[test]
fn test_pre_block() {
    assert_eq!(html_to_md("<pre>let x;</pre>"), "```\nlet x;\n```");
}

#[test]
fn test_quote_block() {
    assert_eq!(html_to_md("<quote>q</quote>"), "> q");
}

#[test]
fn test_unknown_element_degrades_to_text() {
    assert_eq!(html_to_md("<span>a <u>b</u></span>"), "a b");
}

#[test]
fn test_headers_all_levels() {
    assert_eq!(html_to_md("<h1>a</h1>"), "# a");
    assert_eq!(html_to_md("<h3>c</h3>"), "### c");
}

#[test]
fn test_table_rows_end_lines() {
    assert_eq!(
        html_to_md("<table><tr><td>a</td></tr><tr><td>b</td></tr></table>"),
        "a\nb"
    );
}
