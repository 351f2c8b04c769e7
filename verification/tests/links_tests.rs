//! Tests for link extraction and URL resolution.

use opportunities_bot::links::DiscussionLink;
use opportunities_bot::links::pull_from;

const BASE: &str = "UWAppDev/opportunities-forwarding-bot/discussions/";

#[test]
fn test_link_scrape_simple() {
    let source = format!("/{}123, /{}/0", BASE, BASE);
    let links = pull_from(&source);

    assert_eq!(links.len(), 2, "Ensure we find two links in {}", source);
    assert_eq!(links[1].get_id(), 123);
    assert_eq!(links[1].get_id(), 123);
    assert_eq!(links[0].get_id(), 0);
    assert_eq!(links[1].get_raw_text(), format!("/{}123", BASE));
}

#[test]
fn test_complete_short_link() {
    let link = DiscussionLink::new("/foo/bar".to_string(), 0);
    assert_eq!(link.get_url(), "https://github.com/foo/bar");
}

#[test]
fn test_complete_full_link() {
    let link = DiscussionLink::new("https://github.com/a/test".to_string(), 1);
    assert_eq!(link.get_url(), "https://github.com/a/test");
}

#[test]
fn test_url_github_prefix() {
    let link = DiscussionLink::new(format!("github.com/{}7", BASE), 7);
    assert_eq!(link.get_url(), format!("https://github.com/{}7", BASE));
}

#[test]
fn test_url_www_prefix() {
    let link = DiscussionLink::new("www.example.com/x".to_string(), 2);
    assert_eq!(link.get_url(), "https://www.example.com/x");
}

#[test]
fn test_url_bare() {
    let link = DiscussionLink::new("something".to_string(), 3);
    assert_eq!(link.get_url(), "https://github.com/something");
}

#[test]
fn test_scrape_sorted_and_deduplicated() {
    let source = format!(
        "see /{b}9 and /{b}2, then /{b}9 again and /{b}5",
        b = BASE
    );
    let links = pull_from(&source);
    let ids: Vec<u16> = links.iter().map(|l| l.get_id()).collect();
    assert_eq!(ids, vec![2, 5, 9]);
}

#[test]
fn test_scrape_first_seen_raw_text_wins() {
    // The same id appears twice with different raw text; the first
    // occurrence's text is kept.
    let source = format!("/{b}/8 then /{b}8", b = BASE);
    let links = pull_from(&source);
    assert_eq!(links.len(), 1);
    assert_eq!(links[0].get_id(), 8);
    assert_eq!(links[0].get_raw_text(), format!("/{}/8", BASE));
}

#[test]
fn test_scrape_unmatched_text_is_empty() {
    assert_eq!(pull_from("no links here").len(), 0);
    assert_eq!(pull_from("").len(), 0);
}

#[test]
fn test_scrape_overflowing_id_is_skipped() {
    let source = format!("/{b}65536 and /{b}65535", b = BASE);
    let links = pull_from(&source);
    assert_eq!(links.len(), 1);
    assert_eq!(links[0].get_id(), 65535);
}

#[test]
fn test_scrape_greedy_digits() {
    let source = format!("/{}123abc", BASE);
    let links = pull_from(&source);
    assert_eq!(links.len(), 1);
    assert_eq!(links[0].get_id(), 123);
    assert_eq!(links[0].get_raw_text(), format!("/{}123", BASE));
}

#[test]
fn test_extract_idempotent_on_rendering() {
    let source = format!("x /{b}12 y https://github.com/{b}3 z /{b}12", b = BASE);
    let links = pull_from(&source);
    let rendered = opportunities_bot::links::render_links(&links);
    let again = pull_from(&rendered);
    assert_eq!(again.len(), links.len());
    for (a, b) in links.iter().zip(again.iter()) {
        assert_eq!(a.get_id(), b.get_id());
        assert_eq!(a.get_raw_text(), b.get_raw_text());
    }
}
