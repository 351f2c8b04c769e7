//! Extraction of discussion references from raw text.
//!
//! A reference is a path of the form `.../discussions/<digits>` (optionally
//! preceded by a full origin).  Extraction scans the text left to right,
//! collects every match, drops matches whose numeric id does not fit in
//! sixteen bits, keeps the first-seen raw text per id, and returns the
//! references sorted ascending by id.

use vstd::prelude::*;

use crate::text::chars_of;
use crate::text::chars_to_string;
use crate::text::str_has_prefix;
use crate::text::subvec_chars;

verus! {

broadcast use vstd::string::group_string_axioms;

/// Where users should post new opportunities, and where the listing of
/// current opportunities is fetched from.
pub const OPPORTUNITIES_POST_TO_URL: &'static str =
    "https://github.com/UWAppDev/opportunities-forwarding-bot/discussions/categories/opportunities/";

/// The fixed path prefix that every discussion reference starts with.
pub open spec fn link_prefix() -> Seq<char> {
    "/UWAppDev/opportunities-forwarding-bot/discussions/"@
}

pub open spec fn is_digit_char(c: char) -> bool {
    0x30 <= c as u32 && c as u32 <= 0x39
}

pub open spec fn digit_val(c: char) -> nat {
    ((c as u32) - 0x30) as nat
}

/// Value of a run of decimal digits.
pub open spec fn digits_val(ds: Seq<char>) -> nat
    decreases ds.len(),
{
    if ds.len() == 0 {
        0
    } else {
        digits_val(ds.drop_last()) * 10 + digit_val(ds.last())
    }
}

/// The fixed prefix occurs in `t` at position `i`.
pub open spec fn prefix_at(t: Seq<char>, i: int) -> bool {
    &&& 0 <= i
    &&& i + link_prefix().len() <= t.len()
    &&& t.subrange(i, i + link_prefix().len()) == link_prefix()
}

/// First position at or after `i` that does not hold a `/`.
pub open spec fn slash_end(t: Seq<char>, i: int) -> int
    decreases t.len() - i
        when 0 <= i <= t.len()
{
    if i < t.len() && t[i] == '/' {
        slash_end(t, i + 1)
    } else {
        i
    }
}

/// First position at or after `i` that does not hold a decimal digit.
pub open spec fn digit_end(t: Seq<char>, i: int) -> int
    decreases t.len() - i
        when 0 <= i <= t.len()
{
    if i < t.len() && is_digit_char(t[i]) {
        digit_end(t, i + 1)
    } else {
        i
    }
}

/// A match starts at `i`: the prefix, then any further slashes, then at
/// least one digit.
pub open spec fn match_at(t: Seq<char>, i: int) -> bool {
    &&& prefix_at(t, i)
    &&& slash_end(t, i + link_prefix().len()) < t.len()
    &&& is_digit_char(t[slash_end(t, i + link_prefix().len())])
}

/// End of the match starting at `i`: the end of its digit run.
pub open spec fn match_end(t: Seq<char>, i: int) -> int {
    digit_end(t, slash_end(t, i + link_prefix().len()))
}

/// The exact text of the match starting at `i`.
pub open spec fn match_raw(t: Seq<char>, i: int) -> Seq<char> {
    t.subrange(i, match_end(t, i))
}

/// The numeric value of the digit run of the match starting at `i`.
pub open spec fn match_val(t: Seq<char>, i: int) -> nat {
    digits_val(t.subrange(slash_end(t, i + link_prefix().len()), match_end(t, i)))
}

pub proof fn lemma_prefix_len()
    ensures
        link_prefix().len() == 51,
{
    reveal_strlit("/UWAppDev/opportunities-forwarding-bot/discussions/");
}

pub proof fn lemma_slash_end_char(t: Seq<char>, i: int)
    requires
        0 <= i <= t.len(),
    ensures
        i <= slash_end(t, i) <= t.len(),
        forall|m: int| i <= m < slash_end(t, i) ==> t[m] == '/',
        slash_end(t, i) < t.len() ==> t[slash_end(t, i)] != '/',
    decreases t.len() - i,
{
    if i < t.len() && t[i] == '/' {
        lemma_slash_end_char(t, i + 1);
    }
}

pub proof fn lemma_digit_end_char(t: Seq<char>, i: int)
    requires
        0 <= i <= t.len(),
    ensures
        i <= digit_end(t, i) <= t.len(),
        forall|m: int| i <= m < digit_end(t, i) ==> is_digit_char(t[m]),
        digit_end(t, i) < t.len() ==> !is_digit_char(t[digit_end(t, i)]),
    decreases t.len() - i,
{
    if i < t.len() && is_digit_char(t[i]) {
        lemma_digit_end_char(t, i + 1);
    }
}

pub proof fn lemma_slash_end_unique(t: Seq<char>, i: int, e: int)
    requires
        0 <= i <= e <= t.len(),
        forall|m: int| i <= m < e ==> t[m] == '/',
        e < t.len() ==> t[e] != '/',
    ensures
        slash_end(t, i) == e,
    decreases e - i,
{
    if i < e {
        lemma_slash_end_unique(t, i + 1, e);
    }
}

pub proof fn lemma_digit_end_unique(t: Seq<char>, i: int, e: int)
    requires
        0 <= i <= e <= t.len(),
        forall|m: int| i <= m < e ==> is_digit_char(t[m]),
        e < t.len() ==> !is_digit_char(t[e]),
    ensures
        digit_end(t, i) == e,
    decreases e - i,
{
    if i < e {
        lemma_digit_end_unique(t, i + 1, e);
    }
}

pub proof fn lemma_match_end_bounds(t: Seq<char>, i: int)
    requires
        match_at(t, i),
    ensures
        i < match_end(t, i) <= t.len(),
{
    lemma_prefix_len();
    let s = slash_end(t, i + link_prefix().len());
    lemma_slash_end_char(t, i + link_prefix().len());
    lemma_digit_end_char(t, s);
    assert(digit_end(t, s) == digit_end(t, s + 1));
}

/// All matches of `t` from position `i` on, in scan order, each as its raw
/// text and numeric value.  A found match is consumed whole; the scan
/// resumes after it.
pub open spec fn scan_from(t: Seq<char>, i: int) -> Seq<(Seq<char>, nat)>
    decreases t.len() - i
        when 0 <= i <= t.len()
        via scan_from_decreases
{
    if i >= t.len() {
        Seq::empty()
    } else if match_at(t, i) {
        seq![(match_raw(t, i), match_val(t, i))] + scan_from(t, match_end(t, i))
    } else {
        scan_from(t, i + 1)
    }
}

#[via_fn]
proof fn scan_from_decreases(t: Seq<char>, i: int) {
    if i < t.len() && match_at(t, i) {
        lemma_match_end_bounds(t, i);
    }
}

/// All matches of `t`, in scan order.
pub open spec fn scan(t: Seq<char>) -> Seq<(Seq<char>, nat)> {
    scan_from(t, 0)
}

/// Some match in `ms` carries the id `id`.
pub open spec fn has_id(ms: Seq<(Seq<char>, nat)>, id: u16) -> bool {
    exists|k: int| 0 <= k < ms.len() && ms[k].1 == id as nat
}

/// The raw text of the first match in `ms` that carries `id`.
pub open spec fn first_raw(ms: Seq<(Seq<char>, nat)>, id: u16) -> Seq<char>
    decreases ms.len(),
{
    if ms.len() == 0 {
        Seq::empty()
    } else if ms[0].1 == id as nat {
        ms[0].0
    } else {
        first_raw(ms.drop_first(), id)
    }
}

/// `r` is the deduplicated, ascending selection of the matches `ms`: one
/// entry per id that fits in sixteen bits, carrying the first-seen raw
/// text for that id.
pub open spec fn is_selection(ms: Seq<(Seq<char>, nat)>, r: Seq<(Seq<char>, u16)>) -> bool {
    &&& forall|a: int, b: int| 0 <= a < b < r.len() ==> r[a].1 < r[b].1
    &&& forall|id: u16| has_id(ms, id) <==> exists|k: int| 0 <= k < r.len() && r[k].1 == id
    &&& forall|k: int|
        0 <= k < r.len() ==> has_id(ms, r[k].1) && r[k].0 == first_raw(ms, r[k].1)
}

/// `r` is exactly what extraction returns on the text `t`.
pub open spec fn is_extraction(t: Seq<char>, r: Seq<(Seq<char>, u16)>) -> bool {
    is_selection(scan(t), r)
}

/// The models of a sequence of links.
pub open spec fn links_view(s: Seq<DiscussionLink>) -> Seq<(Seq<char>, u16)> {
    s.map_values(|l: DiscussionLink| l@)
}

/// The absolute URL that `resolve` turns a raw reference text into.
pub open spec fn resolved_url(c: Seq<char>) -> Seq<char> {
    if "http"@.is_prefix_of(c) {
        c
    } else if "github"@.is_prefix_of(c) || "www."@.is_prefix_of(c) {
        "https://"@ + c
    } else if "/"@.is_prefix_of(c) {
        "https://github.com"@ + c
    } else {
        "https://github.com/"@ + c
    }
}

/// A reference to one forum discussion: the exact text that was matched,
/// and the discussion's numeric id.
#[derive(Clone, Debug)]
pub struct DiscussionLink {
    content: String,
    id: u16,
}

impl View for DiscussionLink {
    type V = (Seq<char>, u16);

    closed spec fn view(&self) -> (Seq<char>, u16) {
        (self.content@, self.id)
    }
}

impl DiscussionLink {
    /// Make a link from its raw matched text and id.
    pub fn new(full_link_text: String, id: u16) -> (r: DiscussionLink)
        ensures
            r@ == (full_link_text@, id),
    {
        DiscussionLink { content: full_link_text, id }
    }

    /// Get the id associated with the link.
    pub fn get_id(&self) -> (r: u16)
        ensures
            r == self@.1,
    {
        self.id
    }

    /// Get the exact text the link was matched from.
    pub fn get_raw_text(&self) -> (r: &str)
        ensures
            r@ == self@.0,
    {
        self.content.as_str()
    }

    /// Get the full URL (including `https://`) to this link's target.
    pub fn get_url(&self) -> (r: String)
        ensures
            r@ == resolved_url(self@.0),
    {
        if str_has_prefix(self.content.as_str(), "http") {
            self.content.clone()
        } else if str_has_prefix(self.content.as_str(), "github") || str_has_prefix(
            self.content.as_str(),
            "www.",
        ) {
            String::from_str("https://").concat(self.content.as_str())
        } else if str_has_prefix(self.content.as_str(), "/") {
            String::from_str("https://github.com").concat(self.content.as_str())
        } else {
            String::from_str("https://github.com/").concat(self.content.as_str())
        }
    }
}

/// Runtime test matching `is_digit_char`.
fn is_digit_ch(c: char) -> (r: bool)
    ensures
        r == is_digit_char(c),
{
    let u = c as u32;
    0x30 <= u && u <= 0x39
}

/// Whether the fixed prefix occurs in `v` at position `i`.
fn probe_prefix(v: &Vec<char>, i: usize, pre: &Vec<char>) -> (b: bool)
    requires
        pre@ == link_prefix(),
        i <= v@.len(),
    ensures
        b == prefix_at(v@, i as int),
{
    let n = v.len();
    if n - i < pre.len() {
        return false;
    }
    let mut m: usize = 0;
    while m < pre.len()
        invariant
            0 <= m <= pre@.len(),
            i + pre@.len() <= v@.len() <= usize::MAX,
            pre@ == link_prefix(),
            forall|j: int| 0 <= j < m ==> v@[i + j] == link_prefix()[j],
        decreases pre@.len() - m,
    {
        if v[i + m] != pre[m] {
            proof {
                assert(v@.subrange(i as int, i + link_prefix().len())[m as int] == v@[i + m]);
            }
            return false;
        }
        m = m + 1;
    }
    proof {
        assert(v@.subrange(i as int, i + link_prefix().len()) =~= link_prefix());
    }
    true
}

/// An extraction hit as the scanner reports it: the raw matched text, and
/// its id if the digit run fits in sixteen bits.
pub open spec fn hit_matches(m: (Seq<char>, nat), h: (Seq<char>, Option<u16>)) -> bool {
    &&& h.0 == m.0
    &&& (m.1 <= u16::MAX as nat ==> h.1 == Some(m.1 as u16))
    &&& (m.1 > u16::MAX as nat ==> h.1 is None)
}

pub open spec fn hit_view(h: (String, Option<u16>)) -> (Seq<char>, Option<u16>) {
    (h.0@, h.1)
}

/// Scan `v` and report every match, in scan order.
fn scan_text(v: &Vec<char>, pre: &Vec<char>) -> (r: Vec<(String, Option<u16>)>)
    requires
        pre@ == link_prefix(),
    ensures
        r@.len() == scan(v@).len(),
        forall|k: int| 0 <= k < r@.len() ==> hit_matches(scan(v@)[k], hit_view(r@[k])),
{
    let ghost t = v@;
    let mut out: Vec<(String, Option<u16>)> = Vec::new();
    let mut i: usize = 0;
    proof {
        assert(scan(t) =~= scan(t).take(0) + scan_from(t, 0));
    }
    while i < v.len()
        invariant
            pre@ == link_prefix(),
            t == v@,
            0 <= i <= t.len(),
            out@.len() <= scan(t).len(),
            scan(t) == scan(t).take(out@.len() as int) + scan_from(t, i as int),
            forall|k: int| 0 <= k < out@.len() ==> hit_matches(scan(t)[k], hit_view(out@[k])),
        decreases t.len() - i,
    {
        if probe_prefix(v, i, pre) {
            let mut j: usize = i + pre.len();
            while j < v.len() && v[j] == '/'
                invariant
                    t == v@,
                    i + link_prefix().len() <= j <= t.len(),
                    forall|m: int| i + link_prefix().len() <= m < j ==> t[m] == '/',
                decreases t.len() - j,
            {
                j = j + 1;
            }
            proof {
                lemma_slash_end_unique(t, i + link_prefix().len(), j as int);
            }
            if j < v.len() && is_digit_ch(v[j]) {
                let ds = j;
                let mut val: u32 = 0;
                let mut over = false;
                while j < v.len() && is_digit_ch(v[j])
                    invariant
                        t == v@,
                        ds <= j <= t.len(),
                        forall|m: int| ds <= m < j ==> is_digit_char(t[m]),
                        !over ==> val as nat == digits_val(t.subrange(ds as int, j as int))
                            && val <= 0xFFFF,
                        over ==> digits_val(t.subrange(ds as int, j as int)) > 0xFFFF,
                    decreases t.len() - j,
                {
                    let d = (v[j] as u32) - 0x30;
                    proof {
                        assert(t.subrange(ds as int, j + 1).drop_last() =~= t.subrange(
                            ds as int,
                            j as int,
                        ));
                        assert(t.subrange(ds as int, j + 1).last() == t[j as int]);
                        assert(digits_val(t.subrange(ds as int, j + 1)) == digits_val(
                            t.subrange(ds as int, j as int),
                        ) * 10 + digit_val(t[j as int]));
                        assert(digit_val(t[j as int]) == d as nat);
                    }
                    if !over {
                        let nv = val * 10 + d;
                        if nv > 0xFFFF {
                            over = true;
                        } else {
                            val = nv;
                        }
                    }
                    j = j + 1;
                }
                proof {
                    lemma_digit_end_unique(t, ds as int, j as int);
                    assert(match_at(t, i as int));
                    assert(match_end(t, i as int) == j as int);
                }
                let raw_vec = subvec_chars(v, i, j);
                let raw = chars_to_string(&raw_vec);
                let id: Option<u16> = if over {
                    None
                } else {
                    Some(val as u16)
                };
                proof {
                    let n = out@.len() as int;
                    let m = (match_raw(t, i as int), match_val(t, i as int));
                    assert(scan_from(t, i as int) =~= seq![m] + scan_from(t, j as int));
                    assert(scan(t)[n] == m);
                    assert(scan(t).take(n + 1) =~= scan(t).take(n) + seq![m]);
                    assert(scan(t) =~= scan(t).take(n + 1) + scan_from(t, j as int));
                }
                out.push((raw, id));
                i = j;
            } else {
                proof {
                    assert(!match_at(t, i as int));
                }
                i = i + 1;
            }
        } else {
            proof {
                assert(!match_at(t, i as int));
            }
            i = i + 1;
        }
    }
    proof {
        assert(scan(t) =~= scan(t).take(out@.len() as int));
    }
    out
}

proof fn lemma_has_id_push(ms: Seq<(Seq<char>, nat)>, m: (Seq<char>, nat), id: u16)
    ensures
        has_id(ms.push(m), id) <==> (has_id(ms, id) || m.1 == id as nat),
{
    if has_id(ms, id) {
        let k = choose|k: int| 0 <= k < ms.len() && ms[k].1 == id as nat;
        assert(ms.push(m)[k].1 == id as nat);
    }
    if m.1 == id as nat {
        assert(ms.push(m)[ms.len() as int].1 == id as nat);
    }
    if has_id(ms.push(m), id) && !(m.1 == id as nat) {
        let k = choose|k: int| 0 <= k < ms.push(m).len() && ms.push(m)[k].1 == id as nat;
        assert(k < ms.len());
        assert(ms[k].1 == id as nat);
    }
}

proof fn lemma_first_raw_push(ms: Seq<(Seq<char>, nat)>, m: (Seq<char>, nat), id: u16)
    ensures
        has_id(ms, id) ==> first_raw(ms.push(m), id) == first_raw(ms, id),
        !has_id(ms, id) && m.1 == id as nat ==> first_raw(ms.push(m), id) == m.0,
    decreases ms.len(),
{
    if ms.len() == 0 {
        assert(ms.push(m)[0] == m);
        assert(ms.push(m).drop_first() =~= Seq::<(Seq<char>, nat)>::empty());
        assert(!has_id(ms, id));
    } else {
        assert(ms.push(m)[0] == ms[0]);
        if ms[0].1 == id as nat {
            assert(has_id(ms, id));
        } else {
            assert(ms.push(m).drop_first() =~= ms.drop_first().push(m));
            lemma_first_raw_push(ms.drop_first(), m, id);
            if has_id(ms, id) {
                let k = choose|k: int| 0 <= k < ms.len() && ms[k].1 == id as nat;
                assert(k > 0);
                assert(ms.drop_first()[k - 1].1 == id as nat);
                assert(has_id(ms.drop_first(), id));
            }
            if has_id(ms.drop_first(), id) {
                let k = choose|k: int|
                    0 <= k < ms.drop_first().len() && ms.drop_first()[k].1 == id as nat;
                assert(ms[k + 1].1 == id as nat);
                assert(has_id(ms, id));
            }
        }
    }
}

proof fn lemma_selection_skip(
    ms: Seq<(Seq<char>, nat)>,
    m: (Seq<char>, nat),
    r: Seq<(Seq<char>, u16)>,
)
    requires
        is_selection(ms, r),
        m.1 > u16::MAX as nat || (exists|k: int| 0 <= k < r.len() && r[k].1 as nat == m.1),
    ensures
        is_selection(ms.push(m), r),
{
    assert forall|id: u16| has_id(ms.push(m), id) <==> exists|k: int|
        0 <= k < r.len() && r[k].1 == id by {
        lemma_has_id_push(ms, m, id);
        if m.1 == id as nat {
            let k0 = choose|k: int| 0 <= k < r.len() && r[k].1 as nat == m.1;
            assert(r[k0].1 == id);
        }
    }
    assert forall|q: int| 0 <= q < r.len() implies has_id(ms.push(m), r[q].1) && r[q].0
        == first_raw(ms.push(m), r[q].1) by {
        assert(has_id(ms, r[q].1));
        lemma_has_id_push(ms, m, r[q].1);
        lemma_first_raw_push(ms, m, r[q].1);
    }
}

proof fn lemma_selection_insert(
    ms: Seq<(Seq<char>, nat)>,
    m: (Seq<char>, nat),
    ov: Seq<(Seq<char>, u16)>,
    nv: Seq<(Seq<char>, u16)>,
    p: int,
    id: u16,
)
    requires
        is_selection(ms, ov),
        m.1 == id as nat,
        0 <= p <= ov.len(),
        forall|q: int| 0 <= q < p ==> ov[q].1 < id,
        forall|q: int| p <= q < ov.len() ==> ov[q].1 > id,
        nv.len() == ov.len() + 1,
        forall|q: int| 0 <= q < p ==> nv[q] == ov[q],
        nv[p] == (m.0, id),
        forall|q: int| p < q < nv.len() ==> nv[q] == ov[q - 1],
    ensures
        is_selection(ms.push(m), nv),
{
    assert(!has_id(ms, id));
    assert forall|a: int, b: int| 0 <= a < b < nv.len() implies nv[a].1 < nv[b].1 by {
        if b < p {
        } else if b == p {
            assert(nv[a] == ov[a]);
        } else if a == p {
            assert(nv[b] == ov[b - 1]);
        } else if a < p {
            assert(nv[a] == ov[a] && nv[b] == ov[b - 1]);
            assert(ov[a].1 < id);
            assert(ov[b - 1].1 > id);
        } else {
            assert(nv[a] == ov[a - 1] && nv[b] == ov[b - 1]);
        }
    }
    assert forall|id2: u16| has_id(ms.push(m), id2) <==> exists|k: int|
        0 <= k < nv.len() && nv[k].1 == id2 by {
        lemma_has_id_push(ms, m, id2);
        if id2 == id {
            assert(nv[p].1 == id2);
        } else {
            if has_id(ms, id2) {
                let k0 = choose|k: int| 0 <= k < ov.len() && ov[k].1 == id2;
                if k0 < p {
                    assert(nv[k0].1 == id2);
                } else {
                    assert(nv[k0 + 1].1 == id2);
                }
            }
            if exists|k: int| 0 <= k < nv.len() && nv[k].1 == id2 {
                let k1 = choose|k: int| 0 <= k < nv.len() && nv[k].1 == id2;
                if k1 < p {
                    assert(ov[k1].1 == id2);
                } else {
                    assert(k1 != p);
                    assert(ov[k1 - 1].1 == id2);
                }
            }
        }
    }
    assert forall|q: int| 0 <= q < nv.len() implies has_id(ms.push(m), nv[q].1) && nv[q].0
        == first_raw(ms.push(m), nv[q].1) by {
        lemma_has_id_push(ms, m, nv[q].1);
        lemma_first_raw_push(ms, m, nv[q].1);
        if q < p {
            assert(nv[q] == ov[q]);
            assert(has_id(ms, ov[q].1));
        } else if q == p {
            assert(nv[q] == (m.0, id));
        } else {
            assert(nv[q] == ov[q - 1]);
            assert(has_id(ms, ov[q - 1].1));
        }
    }
}

/// Pull and return all discussion references from `text`: deduplicated by
/// id (first-seen raw text wins) and sorted ascending by id.  Matches
/// whose id does not fit in sixteen bits are skipped.
pub fn pull_from(text: &str) -> (r: Vec<DiscussionLink>)
    ensures
        is_extraction(text@, links_view(r@)),
{
    let v = chars_of(text);
    let pre = chars_of("/UWAppDev/opportunities-forwarding-bot/discussions/");
    let hits = scan_text(&v, &pre);
    let ghost ms = scan(text@);
    let mut res: Vec<DiscussionLink> = Vec::new();
    let mut k: usize = 0;
    proof {
        assert(ms.take(0) =~= Seq::<(Seq<char>, nat)>::empty());
    }
    while k < hits.len()
        invariant
            v@ == text@,
            ms == scan(text@),
            0 <= k <= hits@.len(),
            hits@.len() == ms.len(),
            forall|q: int| 0 <= q < ms.len() ==> hit_matches(ms[q], hit_view(hits@[q])),
            is_selection(ms.take(k as int), links_view(res@)),
        decreases hits@.len() - k,
    {
        let ghost msk = ms.take(k as int);
        let ghost m = ms[k as int];
        proof {
            assert(ms.take(k + 1) =~= msk.push(m));
        }
        let hit = &hits[k];
        match hit.1 {
            None => {
                proof {
                    assert(m.1 > u16::MAX as nat);
                    lemma_selection_skip(msk, m, links_view(res@));
                }
            },
            Some(id) => {
                proof {
                    assert(m.1 == id as nat);
                }
                let mut p: usize = 0;
                while p < res.len() && res[p].id < id
                    invariant
                        0 <= p <= res@.len(),
                        forall|q: int| 0 <= q < p ==> links_view(res@)[q].1 < id,
                        forall|a: int, b: int|
                            0 <= a < b < res@.len() ==> links_view(res@)[a].1 < links_view(
                                res@,
                            )[b].1,
                    decreases res@.len() - p,
                {
                    assert(links_view(res@)[p as int].1 == res@[p as int]@.1);
                    p = p + 1;
                }
                if p < res.len() && res[p].id == id {
                    proof {
                        assert(links_view(res@)[p as int].1 == id);
                        lemma_selection_skip(msk, m, links_view(res@));
                    }
                } else {
                    proof {
                        assert(p < res@.len() ==> links_view(res@)[p as int].1 > id);
                        assert forall|q: int| p <= q < res@.len() implies links_view(res@)[q].1
                            > id by {
                            assert(links_view(res@)[p as int].1 > id);
                        }
                    }
                    let link = DiscussionLink::new(hit.0.clone(), id);
                    let ghost old_res = res@;
                    res.insert(p, link);
                    proof {
                        let nv = links_view(res@);
                        let ov = links_view(old_res);
                        assert(res@ == old_res.insert(p as int, link));
                        assert forall|q: int| 0 <= q < p implies nv[q] == ov[q] by {
                            assert(res@[q] == old_res[q]);
                        }
                        assert(res@[p as int] == link);
                        assert(nv[p as int] == (m.0, id));
                        assert forall|q: int| p < q < nv.len() implies nv[q] == ov[q - 1] by {
                            assert(res@[q] == old_res[q - 1]);
                        }
                        lemma_selection_insert(msk, m, ov, nv, p as int, id);
                    }
                }
            },
        }
        k = k + 1;
    }
    proof {
        assert(ms.take(ms.len() as int) =~= ms);
    }
    res
}

/// `w` is exactly one match: the prefix, optional further slashes, and a
/// digit run reaching its end, whose value is `v`.
pub open spec fn is_match_word(w: Seq<char>, v: nat) -> bool {
    &&& match_at(w, 0)
    &&& match_end(w, 0) == w.len()
    &&& v == match_val(w, 0)
}

/// The smallest sixteen-bit id among the matches `ms`, if any match
/// carries one.
pub open spec fn min_match_id(ms: Seq<(Seq<char>, nat)>) -> Option<u16>
    decreases ms.len(),
{
    if ms.len() == 0 {
        None
    } else {
        let rest = min_match_id(ms.drop_first());
        if ms[0].1 <= u16::MAX as nat {
            match rest {
                None => Some(ms[0].1 as u16),
                Some(w) => Some(
                    if ms[0].1 as u16 <= w {
                        ms[0].1 as u16
                    } else {
                        w
                    },
                ),
            }
        } else {
            rest
        }
    }
}

proof fn lemma_has_id_first(ms: Seq<(Seq<char>, nat)>, id: u16)
    requires
        ms.len() > 0,
    ensures
        has_id(ms, id) <==> (ms[0].1 == id as nat || has_id(ms.drop_first(), id)),
{
    if has_id(ms, id) {
        let k = choose|k: int| 0 <= k < ms.len() && ms[k].1 == id as nat;
        if k > 0 {
            assert(ms.drop_first()[k - 1].1 == id as nat);
        }
    }
    if has_id(ms.drop_first(), id) {
        let k = choose|k: int| 0 <= k < ms.drop_first().len() && ms.drop_first()[k].1 == id as nat;
        assert(ms[k + 1].1 == id as nat);
    }
}

/// `min_match_id` returns exactly the least id carried by any match.
pub proof fn lemma_min_match_id(ms: Seq<(Seq<char>, nat)>)
    ensures
        min_match_id(ms) is None <==> (forall|id: u16| !has_id(ms, id)),
        min_match_id(ms) is Some ==> has_id(ms, min_match_id(ms)->Some_0) && (forall|id: u16|
            has_id(ms, id) ==> min_match_id(ms)->Some_0 <= id),
    decreases ms.len(),
{
    if ms.len() == 0 {
        assert forall|id: u16| !has_id(ms, id) by {
            if has_id(ms, id) {
                let k = choose|k: int| 0 <= k < ms.len() && ms[k].1 == id as nat;
            }
        }
    } else {
        lemma_min_match_id(ms.drop_first());
        assert forall|id: u16| has_id(ms, id) <==> (ms[0].1 == id as nat || has_id(
            ms.drop_first(),
            id,
        )) by {
            lemma_has_id_first(ms, id);
        }
        if ms[0].1 <= u16::MAX as nat {
            assert(has_id(ms, ms[0].1 as u16));
        }
        match min_match_id(ms) {
            None => {
            },
            Some(m) => {
                assert(has_id(ms, m));
            },
        }
    }
}

/// The ids of an extraction are unique and sorted ascending.
pub proof fn lemma_extraction_sorted_unique(t: Seq<char>, r: Seq<(Seq<char>, u16)>)
    requires
        is_extraction(t, r),
    ensures
        forall|i: int, j: int| 0 <= i < j < r.len() ==> r[i].1 < r[j].1,
        forall|i: int, j: int| 0 <= i < j < r.len() ==> r[i].1 != r[j].1,
{
}

/// An extraction is empty exactly when the text holds no eligible match,
/// and its first entry carries the smallest matched id.
pub proof fn lemma_extraction_first_is_min(t: Seq<char>, r: Seq<(Seq<char>, u16)>)
    requires
        is_extraction(t, r),
    ensures
        r.len() == 0 <==> min_match_id(scan(t)) is None,
        r.len() > 0 ==> min_match_id(scan(t)) == Some(r[0].1),
{
    lemma_min_match_id(scan(t));
    if r.len() == 0 {
        assert forall|id: u16| !has_id(scan(t), id) by {
            if has_id(scan(t), id) {
                let k = choose|k: int| 0 <= k < r.len() && r[k].1 == id;
            }
        }
    } else {
        assert(has_id(scan(t), r[0].1));
        match min_match_id(scan(t)) {
            None => {
                assert(false);
            },
            Some(m) => {
                assert(m <= r[0].1);
                let k = choose|k: int| 0 <= k < r.len() && r[k].1 == m;
                assert(r[0].1 <= r[k].1);
            },
        }
    }
}

/// The text that renders a list of references: each raw text followed by
/// a newline.
pub open spec fn render_links_spec(ls: Seq<(Seq<char>, u16)>) -> Seq<char>
    decreases ls.len(),
{
    if ls.len() == 0 {
        Seq::empty()
    } else {
        ls[0].0 + "\n"@ + render_links_spec(ls.drop_first())
    }
}

pub proof fn lemma_render_links_append(a: Seq<(Seq<char>, u16)>, b: Seq<(Seq<char>, u16)>)
    ensures
        render_links_spec(a + b) == render_links_spec(a) + render_links_spec(b),
    decreases a.len(),
{
    if a.len() == 0 {
        assert(a + b =~= b);
        assert(render_links_spec(a) + render_links_spec(b) =~= render_links_spec(b));
    } else {
        assert((a + b)[0] == a[0]);
        assert((a + b).drop_first() =~= a.drop_first() + b);
        lemma_render_links_append(a.drop_first(), b);
        assert(a[0].0 + "\n"@ + (render_links_spec(a.drop_first()) + render_links_spec(b)) =~= (
        a[0].0 + "\n"@ + render_links_spec(a.drop_first())) + render_links_spec(b));
    }
}

/// Render a list of references as text, one raw reference per line.
pub fn render_links(links: &Vec<DiscussionLink>) -> (r: String)
    ensures
        r@ == render_links_spec(links_view(links@)),
{
    let ghost lv = links_view(links@);
    let mut r = String::new();
    let mut i: usize = 0;
    proof {
        assert(render_links_spec(lv.take(0)) =~= Seq::<char>::empty());
    }
    while i < links.len()
        invariant
            lv == links_view(links@),
            0 <= i <= links@.len(),
            r@ == render_links_spec(lv.take(i as int)),
        decreases links@.len() - i,
    {
        r.append(links[i].get_raw_text());
        r.append("\n");
        proof {
            assert(lv.take(i + 1) =~= lv.take(i as int) + seq![lv[i as int]]);
            lemma_render_links_append(lv.take(i as int), seq![lv[i as int]]);
            assert(seq![lv[i as int]][0] == lv[i as int]);
            assert(seq![lv[i as int]].drop_first() =~= Seq::<(Seq<char>, u16)>::empty());
            assert(render_links_spec(seq![lv[i as int]]) == lv[i as int].0 + "\n"@
                + render_links_spec(Seq::<(Seq<char>, u16)>::empty()));
            assert(render_links_spec(lv.take(i + 1)) =~= render_links_spec(lv.take(i as int))
                + lv[i as int].0 + "\n"@);
        }
        i = i + 1;
    }
    proof {
        assert(lv.take(lv.len() as int) =~= lv);
    }
    r
}

/// The four branches of URL resolution are mutually exclusive: a raw text
/// can start with at most one of `http`, `github`/`www.` and `/`, and the
/// final branch takes what starts with none of them.
pub proof fn lemma_resolved_url_branches_exclusive(c: Seq<char>)
    ensures
        !("http"@.is_prefix_of(c) && ("github"@.is_prefix_of(c) || "www."@.is_prefix_of(c))),
        !("http"@.is_prefix_of(c) && "/"@.is_prefix_of(c)),
        !(("github"@.is_prefix_of(c) || "www."@.is_prefix_of(c)) && "/"@.is_prefix_of(c)),
{
    reveal_strlit("http");
    reveal_strlit("github");
    reveal_strlit("www.");
    reveal_strlit("/");
    if "http"@.is_prefix_of(c) {
        assert(c.subrange(0, 4)[0] == c[0]);
        assert(c[0] == 'h');
    }
    if "github"@.is_prefix_of(c) {
        assert(c.subrange(0, 6)[0] == c[0]);
        assert(c[0] == 'g');
    }
    if "www."@.is_prefix_of(c) {
        assert(c.subrange(0, 4)[0] == c[0]);
        assert(c[0] == 'w');
    }
    if "/"@.is_prefix_of(c) {
        assert(c.subrange(0, 1)[0] == c[0]);
        assert(c[0] == '/');
    }
}

} // verus!
