//! Tests for watermark resolution and moderation planning.

use opportunities_bot::channel::classify_incoming;
use opportunities_bot::channel::deleted_message_warning;
use opportunities_bot::channel::is_target_channel;
use opportunities_bot::channel::moderate;
use opportunities_bot::channel::resolve_watermark;
use opportunities_bot::channel::ChannelMessage;
use opportunities_bot::channel::MessageAction;

const BASE: &str = "UWAppDev/opportunities-forwarding-bot/discussions/";

fn msg(author: &str, content: &str, is_self: bool) -> ChannelMessage {
    ChannelMessage { author: author.to_string(), content: content.to_string(), is_self }
}

#[test]
fn test_watermark_empty_history_is_zero() {
    assert_eq!(resolve_watermark(&vec![]), 0);
}

#[test]
fn test_watermark_no_self_message_is_zero() {
    let history = vec![
        msg("a", &format!("/{}9", BASE), false),
        msg("b", "hello", false),
    ];
    assert_eq!(resolve_watermark(&history), 0);
}

#[test]
fn test_watermark_takes_smallest_id_of_most_recent_self_message() {
    let history = vec![
        msg("human", "chatter", false),
        msg(
            "bot",
            &format!("/{b}9 /{b}3 /{b}5", b = BASE),
            true,
        ),
        msg("bot", &format!("/{}200", BASE), true),
    ];
    assert_eq!(resolve_watermark(&history), 3);
}

#[test]
fn test_watermark_stops_at_first_self_message() {
    let history = vec![
        msg("bot", "no references here", true),
        msg("bot", &format!("/{}9", BASE), true),
    ];
    assert_eq!(resolve_watermark(&history), 0);
}

#[test]
fn test_moderate_deletes_only_messages_above_anchor() {
    let history = vec![
        msg("human", "spam", false),
        msg("bot", "anchor", true),
        msg("human", "older-spam", false),
    ];
    let plan = moderate(&history);
    assert_eq!(plan.len(), 1);
    assert_eq!(plan[0].index, 0);
    assert_eq!(plan[0].author, "human");
    assert_eq!(plan[0].notice, deleted_message_warning("spam"));
}

#[test]
fn test_moderate_without_anchor_deletes_nothing() {
    let history = vec![
        msg("human", "one", false),
        msg("human", "two", false),
    ];
    assert_eq!(moderate(&history).len(), 0);
}

#[test]
fn test_deleted_message_warning_text() {
    assert_eq!(
        deleted_message_warning("spam"),
        "I've deleted your message from the opportunities channel. It said: \n\nspam\n\nPlease \
         post opportunities here: https://github.com/UWAppDev/opportunities-forwarding-bot/\
         discussions/categories/opportunities/"
    );
}

#[test]
fn test_is_target_channel() {
    assert!(is_target_channel(&Some("opportunities".to_string())));
    assert!(!is_target_channel(&Some("general".to_string())));
    assert!(!is_target_channel(&None));
}

#[test]
fn test_classify_incoming() {
    assert_eq!(classify_incoming(true, false, true), MessageAction::Ignore);
    assert_eq!(classify_incoming(false, false, true), MessageAction::Block);
    assert_eq!(classify_incoming(false, true, false), MessageAction::ReactQuestion);
    assert_eq!(classify_incoming(false, false, false), MessageAction::Ignore);
}
