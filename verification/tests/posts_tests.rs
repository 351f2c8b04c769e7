//! Tests for reading a discussion post out of a fetched page.

use opportunities_bot::errors::SyncError;
use opportunities_bot::links::DiscussionLink;
use opportunities_bot::posts::DiscussionPost;

fn page(author: &str, body: &str) -> String {
    format!(
        "<html><body><div class=\"unminimized-comment\">{}{}</div></body></html>",
        author, body
    )
}

#[test]
fn test_post_from_page_html() {
    let html = page(
        "<a class=\"author\">alice</a>",
        "<div data-paste-markdown-skip=\"\" class=\"js-translation-source\"><p>Hello <b>world</b></p></div>",
    );
    let link = DiscussionLink::new("/UWAppDev/opportunities-forwarding-bot/discussions/5".to_string(), 5);
    let post = DiscussionPost::pull_from(link, &html).unwrap();
    assert_eq!(post.get_author(), "alice");
    assert_eq!(post.get_content(), "Hello **world**");
    assert_eq!(post.get_link().get_id(), 5);
}

#[test]
fn test_post_without_comment_is_content_not_found() {
    let link = DiscussionLink::new("/x".to_string(), 1);
    let r = DiscussionPost::pull_from(link, "<html><body><p>nothing</p></body></html>");
    assert!(matches!(r, Err(SyncError::ContentNotFound)));
}

#[test]
fn test_post_author_defaults_when_missing() {
    let html = page(
        "",
        "<div data-paste-markdown-skip=\"\" class=\"js-translation-source\">text</div>",
    );
    let link = DiscussionLink::new("/x".to_string(), 1);
    let post = DiscussionPost::pull_from(link, &html).unwrap();
    assert_eq!(post.get_author(), "Unknown Author");
    assert_eq!(post.get_content(), "text");
}

#[test]
fn test_post_content_defaults_when_missing() {
    let html = page("<a class=\"author\"> bob </a>", "");
    let link = DiscussionLink::new("/x".to_string(), 1);
    let post = DiscussionPost::pull_from(link, &html).unwrap();
    assert_eq!(post.get_author(), "bob");
    assert_eq!(post.get_content(), "Unable to find content for this post!!!");
}

#[test]
fn test_post_new_keeps_fields() {
    let link = DiscussionLink::new("/a/b".to_string(), 9);
    let post = DiscussionPost::new("c".to_string(), "d".to_string(), link);
    assert_eq!(post.get_content(), "c");
    assert_eq!(post.get_author(), "d");
    assert_eq!(post.get_link().get_id(), 9);
}

#[test]
fn test_post_author_class_must_be_on_anchor() {
    // A `div` with class `author` is not an author link.
    let html = page(
        "<div class=\"author\">eve</div>",
        "<div data-paste-markdown-skip=\"\" class=\"js-translation-source\">t</div>",
    );
    let link = DiscussionLink::new("/x".to_string(), 1);
    let post = DiscussionPost::pull_from(link, &html).unwrap();
    assert_eq!(post.get_author(), "Unknown Author");
}
