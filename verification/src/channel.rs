//! Reading a channel's history: deriving the watermark (the id of the
//! last forwarded discussion) and planning moderation of disallowed human
//! posts.
//!
//! History is always given newest first.  The watermark is recomputed on
//! every pass from the most recent message the system itself authored;
//! nothing is persisted.  Moderation collects every human message above
//! that anchor; without an anchor nothing is ever deleted.

use vstd::prelude::*;

use crate::links::links_view;
use crate::links::min_match_id;
use crate::links::pull_from;
use crate::links::scan;
use crate::text::string_eq;

verus! {

/// One message of a channel's history: its author, its text, and whether
/// the system itself posted it.
pub struct ChannelMessage {
    pub author: String,
    pub content: String,
    pub is_self: bool,
}

/// The watermark a history yields: the smallest id extracted from the
/// most recent self-authored message, or zero when there is no such
/// message or it holds no reference.
pub open spec fn watermark_of(h: Seq<ChannelMessage>) -> u16
    decreases h.len(),
{
    if h.len() == 0 {
        0
    } else if h[0].is_self {
        match min_match_id(scan(h[0].content@)) {
            Some(id) => id,
            None => 0,
        }
    } else {
        watermark_of(h.drop_first())
    }
}

/// Scan `history` (newest first) for the most recent message the system
/// itself posted, and return the smallest discussion id referenced in it;
/// zero when no self-authored message or no reference is found.
pub fn resolve_watermark(history: &Vec<ChannelMessage>) -> (w: u16)
    ensures
        w == watermark_of(history@),
{
    let ghost h = history@;
    let mut i: usize = 0;
    proof {
        assert(h.skip(0) =~= h);
    }
    while i < history.len()
        invariant
            h == history@,
            0 <= i <= h.len(),
            watermark_of(h) == watermark_of(h.skip(i as int)),
        decreases h.len() - i,
    {
        proof {
            assert(h.skip(i as int)[0] == h[i as int]);
            assert(h.skip(i as int).drop_first() =~= h.skip(i + 1));
        }
        if history[i].is_self {
            let links = pull_from(history[i].content.as_str());
            proof {
                crate::links::lemma_extraction_first_is_min(
                    h[i as int].content@,
                    links_view(links@),
                );
            }
            if links.len() > 0 {
                proof {
                    assert(links_view(links@)[0] == links@[0]@);
                }
                return links[0].get_id();
            } else {
                return 0;
            }
        }
        i = i + 1;
    }
    proof {
        assert(h.skip(h.len() as int) =~= Seq::<ChannelMessage>::empty());
    }
    0
}

/// Position of the first self-authored message in `h`; `h.len()` when
/// there is none.
pub open spec fn anchor_index(h: Seq<ChannelMessage>) -> int
    decreases h.len(),
{
    if h.len() == 0 {
        0
    } else if h[0].is_self {
        0
    } else {
        1 + anchor_index(h.drop_first())
    }
}

pub proof fn lemma_anchor_char(h: Seq<ChannelMessage>)
    ensures
        0 <= anchor_index(h) <= h.len(),
        forall|j: int| 0 <= j < anchor_index(h) ==> !h[j].is_self,
        anchor_index(h) < h.len() ==> h[anchor_index(h)].is_self,
    decreases h.len(),
{
    if h.len() > 0 && !h[0].is_self {
        lemma_anchor_char(h.drop_first());
        assert forall|j: int| 0 <= j < anchor_index(h) implies !h[j].is_self by {
            if j > 0 {
                assert(h.drop_first()[j - 1] == h[j]);
            }
        }
        if anchor_index(h) < h.len() {
            assert(h.drop_first()[anchor_index(h) - 1] == h[anchor_index(h)]);
        }
    }
}

/// The text sent to the author of a deleted message.
pub open spec fn warning_text_spec(content: Seq<char>) -> Seq<char> {
    "I've deleted your message from the opportunities channel. It said: \n\n"@ + content
        + "\n\nPlease post opportunities here: "@
        + "https://github.com/UWAppDev/opportunities-forwarding-bot/discussions/categories/opportunities/"@
}

/// Build the explanation sent to the author of a deleted message.
pub fn deleted_message_warning(content: &str) -> (r: String)
    ensures
        r@ == warning_text_spec(content@),
{
    String::from_str("I've deleted your message from the opportunities channel. It said: \n\n")
        .concat(content).concat("\n\nPlease post opportunities here: ").concat(
        "https://github.com/UWAppDev/opportunities-forwarding-bot/discussions/categories/opportunities/",
    )
}

/// One planned moderation step: delete the message at `index` (counted
/// newest first) and send `notice` to its `author`.
pub struct ModerationAction {
    pub index: usize,
    pub author: String,
    pub notice: String,
}

/// Plan moderation of `history` (newest first): collect every human
/// message above the most recent self-authored message.  Without such an
/// anchor nothing is planned, so a channel the system never posted in is
/// left untouched.
pub fn moderate(history: &Vec<ChannelMessage>) -> (plan: Vec<ModerationAction>)
    ensures
        anchor_index(history@) < history@.len() ==> plan@.len() == anchor_index(history@),
        anchor_index(history@) == history@.len() ==> plan@.len() == 0,
        forall|k: int|
            0 <= k < plan@.len() ==> plan@[k].index == k && plan@[k].author@
                == history@[k].author@ && plan@[k].notice@ == warning_text_spec(
                history@[k].content@,
            ),
{
    let ghost h = history@;
    proof {
        lemma_anchor_char(h);
    }
    let mut anchor: usize = 0;
    while anchor < history.len() && !history[anchor].is_self
        invariant
            h == history@,
            0 <= anchor <= h.len(),
            forall|j: int| 0 <= j < anchor ==> !h[j].is_self,
        decreases h.len() - anchor,
    {
        anchor = anchor + 1;
    }
    proof {
        lemma_anchor_char(h);
        if anchor < h.len() {
            assert(anchor_index(h) == anchor) by {
                if anchor_index(h) < anchor {
                    assert(h[anchor_index(h)].is_self);
                } else if anchor_index(h) > anchor {
                    assert(!h[anchor as int].is_self);
                }
            }
        }
    }
    if anchor >= history.len() {
        // No anchor of the system's own: delete nothing.
        let empty: Vec<ModerationAction> = Vec::new();
        return empty;
    }
    let mut plan: Vec<ModerationAction> = Vec::new();
    let mut k: usize = 0;
    while k < anchor
        invariant
            h == history@,
            0 <= k <= anchor < h.len(),
            plan@.len() == k,
            forall|j: int|
                0 <= j < k ==> plan@[j].index == j && plan@[j].author@ == h[j].author@
                    && plan@[j].notice@ == warning_text_spec(h[j].content@),
        decreases anchor - k,
    {
        let notice = deleted_message_warning(history[k].content.as_str());
        let author = history[k].author.clone();
        plan.push(ModerationAction { index: k, author, notice });
        k = k + 1;
    }
    plan
}

/// Whether a channel with the given name is the one this system manages.
pub fn is_target_channel(channel_name: &Option<String>) -> (r: bool)
    ensures
        r == (match channel_name {
            Some(n) => n@ == "opportunities"@,
            None => false,
        }),
{
    match channel_name {
        Some(n) => string_eq(n, "opportunities"),
        None => false,
    }
}

/// What to do with an incoming message.
#[derive(Clone, Copy, Debug, PartialEq, Eq, Structural)]
pub enum MessageAction {
    /// Leave the message alone.
    Ignore,
    /// Delete it and notify its author: a human posted in the managed
    /// channel.
    Block,
    /// React with a question mark: someone messaged the system directly.
    ReactQuestion,
}

/// The decision for an incoming message, from what the platform reports
/// about it.
pub open spec fn incoming_action(is_own: bool, is_private: bool, is_target: bool) -> MessageAction {
    if is_own {
        MessageAction::Ignore
    } else if is_target {
        MessageAction::Block
    } else if is_private {
        MessageAction::ReactQuestion
    } else {
        MessageAction::Ignore
    }
}

/// Decide what to do with an incoming message.
pub fn classify_incoming(is_own: bool, is_private: bool, is_target: bool) -> (r: MessageAction)
    ensures
        r == incoming_action(is_own, is_private, is_target),
{
    if is_own {
        MessageAction::Ignore
    } else if is_target {
        MessageAction::Block
    } else if is_private {
        MessageAction::ReactQuestion
    } else {
        MessageAction::Ignore
    }
}

} // verus!
