//! Tests for the reconciliation pass: plan, render, and outcome.

use opportunities_bot::channel::resolve_watermark;
use opportunities_bot::channel::ChannelMessage;
use opportunities_bot::errors::SyncError;
use opportunities_bot::links::pull_from;
use opportunities_bot::links::DiscussionLink;
use opportunities_bot::posts::DiscussionPost;
use opportunities_bot::sync::forward_outcome;
use opportunities_bot::sync::links_above_watermark;
use opportunities_bot::sync::plan_forwarding;
use opportunities_bot::sync::render_forward_message;

const BASE: &str = "UWAppDev/opportunities-forwarding-bot/discussions/";

fn msg(author: &str, content: &str, is_self: bool) -> ChannelMessage {
    ChannelMessage { author: author.to_string(), content: content.to_string(), is_self }
}

fn post(id: u16, author: &str, content: &str) -> DiscussionPost {
    let link = DiscussionLink::new(format!("/{}{}", BASE, id), id);
    DiscussionPost::new(content.to_string(), author.to_string(), link)
}

#[test]
fn test_links_above_watermark_filters_and_keeps_order() {
    let links = pull_from(&format!("/{b}0 /{b}3 /{b}5", b = BASE));
    let above = links_above_watermark(&links, 3);
    assert_eq!(above.len(), 1);
    assert_eq!(above[0].get_id(), 5);
}

#[test]
fn test_render_forward_message_exact() {
    let p = post(5, "alice", "content");
    assert_eq!(
        render_forward_message(&p),
        format!(
            "## Forwarded message from https://github.com/{}5:\n**Author:** alice\n\ncontent",
            BASE
        )
    );
}

#[test]
fn test_forwarding_pass_forwards_only_new_ids() {
    // The listing page holds ids 0, 3 and 5; the channel's most recent
    // self message references id 3, so only id 5 is forwarded, as a
    // single new message.
    let listing = format!("<a href=\"/{b}0\"></a> <a href=\"/{b}3\"></a> <a href=\"/{b}5\"></a>", b = BASE);
    let history = vec![
        msg("human", "hi", false),
        msg("bot", &format!("forwarded /{}3 earlier", BASE), true),
    ];
    let plan = plan_forwarding(&history, &listing);
    assert_eq!(plan.len(), 1);
    assert_eq!(plan[0].get_id(), 5);

    let fetched = vec![Ok(post(5, "alice", "c5"))];
    let out = forward_outcome(&fetched);
    assert_eq!(out.messages.len(), 1);
    assert!(out.error.is_none());
    assert_eq!(out.messages[0], render_forward_message(&post(5, "alice", "c5")));
}

#[test]
fn test_fetch_failure_stops_forwarding() {
    let fetched = vec![
        Ok(post(4, "a", "c4")),
        Err(SyncError::NetworkFailure),
        Ok(post(6, "b", "c6")),
    ];
    let out = forward_outcome(&fetched);
    assert_eq!(out.messages.len(), 1);
    assert_eq!(out.error, Some(SyncError::NetworkFailure));
}

#[test]
fn test_watermark_reflects_forwarded_ids_after_failure() {
    // Ids 4 and 5 were due; 4 was forwarded, then 5's fetch failed.  The
    // next pass recomputes the watermark from the sent message and plans
    // only id 5 again: nothing is re-forwarded, nothing is lost.
    let sent = render_forward_message(&post(4, "a", "c4"));
    let history = vec![msg("bot", &sent, true)];
    assert_eq!(resolve_watermark(&history), 4);

    let listing = format!("/{b}4 /{b}5", b = BASE);
    let plan = plan_forwarding(&history, &listing);
    assert_eq!(plan.len(), 1);
    assert_eq!(plan[0].get_id(), 5);
}

#[test]
fn test_forward_outcome_empty() {
    let out = forward_outcome(&vec![]);
    assert_eq!(out.messages.len(), 0);
    assert!(out.error.is_none());
}

#[test]
fn test_forward_outcome_all_ok() {
    let fetched = vec![Ok(post(1, "a", "x")), Ok(post(2, "b", "y"))];
    let out = forward_outcome(&fetched);
    assert_eq!(out.messages.len(), 2);
    assert!(out.error.is_none());
}
