//! The reconciliation pass: filtering the listing's references by the
//! watermark, rendering forwarded messages, and folding per-post fetch
//! results into the pass's outcome.
//!
//! A pass runs per channel: moderate, recompute the watermark from the
//! cleaned history, fetch the listing, keep the references above the
//! watermark, then fetch and forward each in ascending id order.  A fetch
//! failure stops forwarding for the pass; already-forwarded items stay.

use vstd::prelude::*;

use crate::channel::watermark_of;
use crate::channel::ChannelMessage;
use crate::errors::SyncError;
use crate::links::first_raw;
use crate::links::has_id;
use crate::links::is_extraction;
use crate::links::links_view;
use crate::links::pull_from;
use crate::links::resolved_url;
use crate::links::scan;
use crate::links::DiscussionLink;
use crate::channel::resolve_watermark;
use crate::posts::DiscussionPost;

verus! {

/// The entries of `s` whose id is above `w`, in their original order.
pub open spec fn above(s: Seq<(Seq<char>, u16)>, w: u16) -> Seq<(Seq<char>, u16)>
    decreases s.len(),
{
    if s.len() == 0 {
        Seq::empty()
    } else {
        let rest = above(s.drop_last(), w);
        if s.last().1 > w {
            rest.push(s.last())
        } else {
            rest
        }
    }
}

proof fn lemma_above_char(s: Seq<(Seq<char>, u16)>, w: u16)
    ensures
        forall|k: int|
            0 <= k < above(s, w).len() ==> s.contains(above(s, w)[k]) && above(s, w)[k].1 > w,
        forall|x: (Seq<char>, u16)| s.contains(x) && x.1 > w ==> above(s, w).contains(x),
    decreases s.len(),
{
    if s.len() > 0 {
        lemma_above_char(s.drop_last(), w);
        let rest = above(s.drop_last(), w);
        assert forall|k: int|
            0 <= k < above(s, w).len() implies s.contains(above(s, w)[k]) && above(s, w)[k].1
            > w by {
            if k < rest.len() {
                assert(rest[k] == above(s, w)[k]);
                assert(s.drop_last().contains(rest[k]));
                let j = choose|j: int| 0 <= j < s.drop_last().len() && s.drop_last()[j] == rest[k];
                assert(s[j] == rest[k]);
            } else {
                assert(above(s, w)[k] == s.last());
            }
        }
        assert forall|x: (Seq<char>, u16)| s.contains(x) && x.1 > w implies above(s, w).contains(
            x,
        ) by {
            let j = choose|j: int| 0 <= j < s.len() && s[j] == x;
            if j < s.len() - 1 {
                assert(s.drop_last()[j] == x);
                assert(s.drop_last().contains(x));
                assert(rest.contains(x));
                let k = choose|k: int| 0 <= k < rest.len() && rest[k] == x;
                assert(above(s, w)[k] == x);
            } else {
                assert(x == s.last());
                assert(above(s, w)[rest.len() as int] == x);
            }
        }
    }
}

proof fn lemma_above_sorted(s: Seq<(Seq<char>, u16)>, w: u16)
    requires
        forall|i: int, j: int| 0 <= i < j < s.len() ==> s[i].1 < s[j].1,
    ensures
        forall|i: int, j: int| 0 <= i < j < above(s, w).len() ==> above(s, w)[i].1 < above(
            s,
            w,
        )[j].1,
    decreases s.len(),
{
    if s.len() > 0 {
        lemma_above_sorted(s.drop_last(), w);
        lemma_above_char(s.drop_last(), w);
        let rest = above(s.drop_last(), w);
        assert forall|i: int, j: int| 0 <= i < j < above(s, w).len() implies above(s, w)[i].1
            < above(s, w)[j].1 by {
            if j < rest.len() {
                assert(above(s, w)[i] == rest[i] && above(s, w)[j] == rest[j]);
            } else {
                assert(above(s, w)[j] == s.last());
                assert(above(s, w)[i] == rest[i]);
                assert(s.drop_last().contains(rest[i]));
                let q = choose|q: int|
                    0 <= q < s.drop_last().len() && s.drop_last()[q] == rest[i];
                assert(s[q] == rest[i]);
                assert(s[q].1 < s.last().1);
            }
        }
    }
}

/// `r` is exactly the forwarding plan for a listing text and watermark:
/// the extracted references whose id lies above the watermark, sorted
/// ascending, first-seen raw text per id.
pub open spec fn is_forward_plan(listing: Seq<char>, w: u16, r: Seq<(Seq<char>, u16)>) -> bool {
    &&& forall|a: int, b: int| 0 <= a < b < r.len() ==> r[a].1 < r[b].1
    &&& forall|id: u16|
        (has_id(scan(listing), id) && id > w) <==> exists|k: int| 0 <= k < r.len() && r[k].1 == id
    &&& forall|k: int|
        0 <= k < r.len() ==> r[k].1 > w && has_id(scan(listing), r[k].1) && r[k].0 == first_raw(
            scan(listing),
            r[k].1,
        )
}

/// Filtering an extraction by a watermark yields the forwarding plan.
pub proof fn lemma_forward_plan(t: Seq<char>, e: Seq<(Seq<char>, u16)>, w: u16)
    requires
        is_extraction(t, e),
    ensures
        is_forward_plan(t, w, above(e, w)),
{
    lemma_above_char(e, w);
    lemma_above_sorted(e, w);
    let r = above(e, w);
    assert forall|id: u16| (has_id(scan(t), id) && id > w) <==> exists|k: int|
        0 <= k < r.len() && r[k].1 == id by {
        if has_id(scan(t), id) && id > w {
            let k0 = choose|k: int| 0 <= k < e.len() && e[k].1 == id;
            assert(e.contains(e[k0]));
            assert(r.contains(e[k0]));
            let k1 = choose|k: int| 0 <= k < r.len() && r[k] == e[k0];
            assert(r[k1].1 == id);
        }
        if exists|k: int| 0 <= k < r.len() && r[k].1 == id {
            let k1 = choose|k: int| 0 <= k < r.len() && r[k].1 == id;
            assert(e.contains(r[k1]));
            let k0 = choose|k: int| 0 <= k < e.len() && e[k] == r[k1];
            assert(e[k0].1 == id);
        }
    }
    assert forall|k: int| 0 <= k < r.len() implies r[k].1 > w && has_id(scan(t), r[k].1)
        && r[k].0 == first_raw(scan(t), r[k].1) by {
        assert(e.contains(r[k]));
        let k0 = choose|q: int| 0 <= q < e.len() && e[q] == r[k];
        assert(has_id(scan(t), e[k0].1));
        assert(e[k0].0 == first_raw(scan(t), e[k0].1));
    }
}

/// Keep the references whose id is above `watermark`, preserving order.
pub fn links_above_watermark(links: &Vec<DiscussionLink>, watermark: u16) -> (r: Vec<
    DiscussionLink,
>)
    ensures
        links_view(r@) == above(links_view(links@), watermark),
{
    let ghost lv = links_view(links@);
    let mut r: Vec<DiscussionLink> = Vec::new();
    let mut i: usize = 0;
    proof {
        assert(lv.take(0) =~= Seq::<(Seq<char>, u16)>::empty());
        assert(links_view(r@) =~= above(lv.take(0), watermark));
    }
    while i < links.len()
        invariant
            lv == links_view(links@),
            0 <= i <= links@.len(),
            links_view(r@) == above(lv.take(i as int), watermark),
        decreases links@.len() - i,
    {
        proof {
            assert(lv.take(i + 1).drop_last() =~= lv.take(i as int));
            assert(lv.take(i + 1).last() == lv[i as int]);
        }
        let ghost old_r = r@;
        if links[i].get_id() > watermark {
            let copy = DiscussionLink::new(
                String::from_str(links[i].get_raw_text()),
                links[i].get_id(),
            );
            r.push(copy);
            proof {
                assert(copy@ == lv[i as int]);
                assert(links_view(r@) =~= links_view(old_r).push(copy@));
            }
        }
        i = i + 1;
    }
    proof {
        assert(lv.take(lv.len() as int) =~= lv);
    }
    r
}

/// Compute this pass's forwarding plan: resolve the watermark from the
/// (already moderated) history, extract the listing's references, and
/// keep those above the watermark, in ascending id order.
pub fn plan_forwarding(history: &Vec<ChannelMessage>, listing_html: &str) -> (r: Vec<
    DiscussionLink,
>)
    ensures
        is_forward_plan(listing_html@, watermark_of(history@), links_view(r@)),
{
    let w = resolve_watermark(history);
    let links = pull_from(listing_html);
    let r = links_above_watermark(&links, w);
    proof {
        lemma_forward_plan(listing_html@, links_view(links@), w);
    }
    r
}

/// The text of a forwarded channel message.
pub open spec fn forward_text_spec(url: Seq<char>, author: Seq<char>, content: Seq<char>) -> Seq<
    char,
> {
    "## Forwarded message from "@ + url + ":\n**Author:** "@ + author + "\n\n"@ + content
}

/// Render the channel message that forwards `post`.
pub fn render_forward_message(post: &DiscussionPost) -> (r: String)
    ensures
        r@ == forward_text_spec(
            resolved_url(post.link_spec().0),
            post.author_spec(),
            post.content_spec(),
        ),
{
    let url = post.get_link().get_url();
    String::from_str("## Forwarded message from ").concat(url.as_str()).concat(
        ":\n**Author:** ",
    ).concat(post.get_author()).concat("\n\n").concat(post.get_content())
}

/// The number of leading successful fetches.
pub open spec fn ok_prefix_len(rs: Seq<Result<DiscussionPost, SyncError>>) -> int
    decreases rs.len(),
{
    if rs.len() == 0 {
        0
    } else if rs[0] is Ok {
        1 + ok_prefix_len(rs.drop_first())
    } else {
        0
    }
}

pub proof fn lemma_ok_prefix_char(rs: Seq<Result<DiscussionPost, SyncError>>)
    ensures
        0 <= ok_prefix_len(rs) <= rs.len(),
        forall|j: int| 0 <= j < ok_prefix_len(rs) ==> rs[j] is Ok,
        ok_prefix_len(rs) < rs.len() ==> rs[ok_prefix_len(rs)] is Err,
    decreases rs.len(),
{
    if rs.len() > 0 && rs[0] is Ok {
        lemma_ok_prefix_char(rs.drop_first());
        assert forall|j: int| 0 <= j < ok_prefix_len(rs) implies rs[j] is Ok by {
            if j > 0 {
                assert(rs.drop_first()[j - 1] == rs[j]);
            }
        }
        if ok_prefix_len(rs) < rs.len() {
            assert(rs.drop_first()[ok_prefix_len(rs) - 1] == rs[ok_prefix_len(rs)]);
        }
    }
}

/// What one pass forwarded: the rendered messages to send, in order, and
/// the error that stopped the pass early, if any.
pub struct ForwardOutcome {
    pub messages: Vec<String>,
    pub error: Option<SyncError>,
}

/// Fold the per-post fetch results of a pass: render a message for each
/// post up to the first failure, then stop.  Posts after a failure are
/// never forwarded in the same pass.
pub fn forward_outcome(fetched: &Vec<Result<DiscussionPost, SyncError>>) -> (out: ForwardOutcome)
    ensures
        out.messages@.len() == ok_prefix_len(fetched@),
        forall|k: int|
            0 <= k < out.messages@.len() ==> fetched@[k] is Ok && out.messages@[k]@
                == forward_text_spec(
                resolved_url(fetched@[k]->Ok_0.link_spec().0),
                fetched@[k]->Ok_0.author_spec(),
                fetched@[k]->Ok_0.content_spec(),
            ),
        ok_prefix_len(fetched@) < fetched@.len() ==> out.error == Some(
            fetched@[ok_prefix_len(fetched@)]->Err_0,
        ),
        ok_prefix_len(fetched@) == fetched@.len() ==> out.error is None,
{
    let ghost rs = fetched@;
    proof {
        lemma_ok_prefix_char(rs);
    }
    let mut messages: Vec<String> = Vec::new();
    let mut i: usize = 0;
    while i < fetched.len()
        invariant
            rs == fetched@,
            0 <= i <= rs.len(),
            messages@.len() == i,
            forall|j: int| 0 <= j < i ==> rs[j] is Ok,
            forall|k: int|
                0 <= k < i ==> messages@[k]@ == forward_text_spec(
                    resolved_url(rs[k]->Ok_0.link_spec().0),
                    rs[k]->Ok_0.author_spec(),
                    rs[k]->Ok_0.content_spec(),
                ),
        decreases rs.len() - i,
    {
        match &fetched[i] {
            Ok(post) => {
                let msg = render_forward_message(post);
                messages.push(msg);
            },
            Err(e) => {
                proof {
                    lemma_ok_prefix_is(rs, i as int);
                }
                return ForwardOutcome { messages, error: Some(*e) };
            },
        }
        i = i + 1;
    }
    proof {
        lemma_ok_prefix_is(rs, rs.len() as int);
    }
    ForwardOutcome { messages, error: None }
}

/// If the first `i` entries are `Ok` and entry `i` (when present) is not,
/// the successful prefix has length exactly `i`.
proof fn lemma_ok_prefix_is(rs: Seq<Result<DiscussionPost, SyncError>>, i: int)
    requires
        0 <= i <= rs.len(),
        forall|j: int| 0 <= j < i ==> rs[j] is Ok,
        i < rs.len() ==> rs[i] is Err,
    ensures
        ok_prefix_len(rs) == i,
    decreases i,
{
    lemma_ok_prefix_char(rs);
    if ok_prefix_len(rs) < i {
        assert(rs[ok_prefix_len(rs)] is Ok);
    }
    if ok_prefix_len(rs) > i {
        assert(rs[i] is Ok);
    }
}

} // verus!
