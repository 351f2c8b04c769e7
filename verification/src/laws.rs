//! Laws of the extraction scan: how scanning behaves on suffixes and
//! concatenations, that every reported match is itself a match word, and
//! the idempotence of extraction over its own rendering.

use vstd::prelude::*;

use crate::links::digit_end;
use crate::links::first_raw;
use crate::links::has_id;
use crate::links::is_digit_char;
use crate::links::is_extraction;
use crate::links::is_match_word;
use crate::links::lemma_digit_end_char;
use crate::links::lemma_digit_end_unique;
use crate::links::lemma_match_end_bounds;
use crate::links::lemma_slash_end_char;
use crate::links::lemma_slash_end_unique;
use crate::links::link_prefix;
use crate::links::match_at;
use crate::links::match_end;
use crate::links::match_raw;
use crate::links::match_val;
use crate::links::prefix_at;
use crate::links::render_links_spec;
use crate::channel::watermark_of;
use crate::channel::ChannelMessage;
use crate::links::min_match_id;
use crate::links::resolved_url;
use crate::links::scan;
use crate::links::scan_from;
use crate::links::slash_end;
use crate::sync::forward_text_spec;

verus! {

proof fn lemma_prefix_chars()
    ensures
        link_prefix().len() == 51,
        link_prefix()[0] == '/',
        link_prefix()[1] == 'U',
{
    reveal_strlit("/UWAppDev/opportunities-forwarding-bot/discussions/");
}

proof fn lemma_slash_end_shift(t: Seq<char>, i: int, p: int)
    requires
        0 <= i <= t.len(),
        0 <= p <= t.len() - i,
    ensures
        slash_end(t.skip(i), p) == slash_end(t, i + p) - i,
{
    let u = t.skip(i);
    let e = slash_end(t, i + p);
    lemma_slash_end_char(t, i + p);
    assert forall|m: int| p <= m < e - i implies u[m] == '/' by {
        assert(u[m] == t[i + m]);
    }
    if e - i < u.len() {
        assert(u[e - i] == t[e]);
    }
    lemma_slash_end_unique(u, p, e - i);
}

proof fn lemma_digit_end_shift(t: Seq<char>, i: int, p: int)
    requires
        0 <= i <= t.len(),
        0 <= p <= t.len() - i,
    ensures
        digit_end(t.skip(i), p) == digit_end(t, i + p) - i,
{
    let u = t.skip(i);
    let e = digit_end(t, i + p);
    lemma_digit_end_char(t, i + p);
    assert forall|m: int| p <= m < e - i implies is_digit_char(u[m]) by {
        assert(u[m] == t[i + m]);
    }
    if e - i < u.len() {
        assert(u[e - i] == t[e]);
    }
    lemma_digit_end_unique(u, p, e - i);
}

proof fn lemma_match_shift(t: Seq<char>, i: int, p: int)
    requires
        0 <= i <= t.len(),
        0 <= p <= t.len() - i,
    ensures
        match_at(t, i + p) == match_at(t.skip(i), p),
        match_at(t, i + p) ==> match_end(t.skip(i), p) == match_end(t, i + p) - i,
        match_at(t, i + p) ==> match_raw(t.skip(i), p) == match_raw(t, i + p),
        match_at(t, i + p) ==> match_val(t.skip(i), p) == match_val(t, i + p),
{
    let u = t.skip(i);
    let plen = link_prefix().len();
    if i + p + plen <= t.len() {
        assert(u.subrange(p, p + plen) =~= t.subrange(i + p, i + p + plen));
    }
    assert(prefix_at(t, i + p) == prefix_at(u, p));
    if prefix_at(t, i + p) {
        lemma_slash_end_shift(t, i, p + plen);
        let s = slash_end(t, i + p + plen);
        lemma_slash_end_char(t, i + p + plen);
        if s < t.len() {
            assert(u[s - i] == t[s]);
        }
        assert(match_at(t, i + p) == match_at(u, p));
        if match_at(t, i + p) {
            lemma_digit_end_shift(t, i, s - i);
            let e = match_end(t, i + p);
            lemma_match_end_bounds(t, i + p);
            lemma_digit_end_char(t, s);
            assert(match_end(u, p) == e - i);
            assert(match_raw(u, p) =~= match_raw(t, i + p));
            assert(u.subrange(s - i, e - i) =~= t.subrange(s, e));
        }
    }
}

proof fn lemma_scan_from_shift(t: Seq<char>, i: int, j: int)
    requires
        0 <= i,
        0 <= j,
        i + j <= t.len(),
    ensures
        scan_from(t, i + j) == scan_from(t.skip(i), j),
    decreases t.len() - i - j,
{
    let u = t.skip(i);
    lemma_match_shift(t, i, j);
    if i + j >= t.len() {
    } else if match_at(t, i + j) {
        lemma_match_end_bounds(t, i + j);
        let e = match_end(t, i + j);
        lemma_scan_from_shift(t, i, e - i);
    } else {
        lemma_scan_from_shift(t, i, j + 1);
    }
}

/// Scanning from position `i` is scanning the suffix that starts there.
pub proof fn lemma_scan_suffix(t: Seq<char>, i: int)
    requires
        0 <= i <= t.len(),
    ensures
        scan_from(t, i) == scan(t.skip(i)),
{
    lemma_scan_from_shift(t, i, 0);
}

/// A leading segment without slashes contributes no match.
pub proof fn lemma_scan_no_slash_prepend(x: Seq<char>, y: Seq<char>)
    requires
        forall|k: int| 0 <= k < x.len() ==> x[k] != '/',
    ensures
        scan(x + y) == scan(y),
    decreases x.len(),
{
    lemma_prefix_chars();
    if x.len() == 0 {
        assert(x + y =~= y);
    } else {
        let t = x + y;
        assert(t[0] == x[0]);
        if prefix_at(t, 0) {
            assert(t.subrange(0, link_prefix().len() as int)[0] == t[0]);
            assert(t[0] == '/');
        }
        assert(!match_at(t, 0));
        assert(scan(t) == scan_from(t, 1));
        lemma_scan_suffix(t, 1);
        assert(t.skip(1) =~= x.skip(1) + y);
        assert forall|k: int| 0 <= k < x.skip(1).len() implies x.skip(1)[k] != '/' by {
            assert(x.skip(1)[k] == x[k + 1]);
        }
        lemma_scan_no_slash_prepend(x.skip(1), y);
    }
}

/// A position whose next character is not `U` starts no match, whatever
/// stands at the position itself.
proof fn lemma_scan_step_not_u(t: Seq<char>)
    requires
        t.len() > 0,
        t.len() > 1 ==> t[1] != 'U',
    ensures
        scan(t) == scan(t.skip(1)),
{
    lemma_prefix_chars();
    if prefix_at(t, 0) {
        assert(t.subrange(0, link_prefix().len() as int)[1] == t[1]);
        assert(t[1] == 'U');
        assert(false);
    }
    assert(!match_at(t, 0));
    assert(scan(t) == scan_from(t, 1));
    lemma_scan_suffix(t, 1);
}

/// A match word at the front of a text is scanned as one match, and the
/// scan continues after it, provided no digit immediately follows the
/// word.
pub proof fn lemma_scan_match_word_prepend(w: Seq<char>, v: nat, rest: Seq<char>)
    requires
        is_match_word(w, v),
        rest.len() == 0 || !is_digit_char(rest[0]),
    ensures
        scan(w + rest) == seq![(w, v)] + scan(rest),
{
    let t = w + rest;
    let plen = link_prefix().len() as int;
    lemma_prefix_chars();
    lemma_match_end_bounds(w, 0);
    let s = slash_end(w, plen);
    lemma_slash_end_char(w, plen);
    lemma_digit_end_char(w, s);
    assert(w.len() >= plen);
    assert(t.subrange(0, plen as int) =~= w.subrange(0, plen as int));
    assert(prefix_at(t, 0));
    assert forall|m: int| plen <= m < s implies t[m] == '/' by {
        assert(t[m] == w[m]);
    }
    assert(t[s] == w[s]);
    lemma_slash_end_unique(t, plen as int, s);
    assert forall|m: int| s <= m < w.len() implies is_digit_char(t[m]) by {
        assert(t[m] == w[m]);
    }
    if (w.len() as int) < t.len() {
        assert(t[w.len() as int] == rest[0]);
    }
    lemma_digit_end_unique(t, s, w.len() as int);
    assert(match_at(t, 0));
    assert(match_end(t, 0) == w.len());
    assert(match_raw(t, 0) =~= w);
    assert(t.subrange(s, w.len() as int) =~= w.subrange(s, w.len() as int));
    assert(match_val(t, 0) == v);
    assert(scan(t) == seq![(match_raw(t, 0), match_val(t, 0))] + scan_from(t, w.len() as int));
    lemma_scan_suffix(t, w.len() as int);
    assert(t.skip(w.len() as int) =~= rest);
    assert(seq![(match_raw(t, 0), match_val(t, 0))] =~= seq![(w, v)]);
}

proof fn lemma_match_word_take(u: Seq<char>)
    requires
        match_at(u, 0),
    ensures
        is_match_word(u.take(match_end(u, 0)), match_val(u, 0)),
{
    let plen = link_prefix().len() as int;
    let s = slash_end(u, plen);
    let e = match_end(u, 0);
    lemma_prefix_chars();
    lemma_slash_end_char(u, plen);
    lemma_digit_end_char(u, s);
    assert(e == e + 0);
    assert(digit_end(u, s) == digit_end(u, s + 1));
    let w = u.take(e);
    assert(w.subrange(0, plen) =~= u.subrange(0, plen));
    assert(prefix_at(w, 0));
    assert forall|m: int| plen <= m < s implies w[m] == '/' by {
        assert(w[m] == u[m]);
    }
    assert(w[s] == u[s]);
    lemma_slash_end_unique(w, plen, s);
    assert forall|m: int| s <= m < e implies is_digit_char(w[m]) by {
        assert(w[m] == u[m]);
    }
    lemma_digit_end_unique(w, s, e);
    assert(match_at(w, 0));
    assert(match_end(w, 0) == w.len());
    assert(w.subrange(s, e) =~= u.subrange(s, e));
    assert(match_val(w, 0) == match_val(u, 0));
}

/// Every match the scan reports is itself a match word.
pub proof fn lemma_scan_items_match_words(t: Seq<char>, i: int)
    requires
        0 <= i <= t.len(),
    ensures
        forall|k: int|
            0 <= k < scan_from(t, i).len() ==> is_match_word(
                scan_from(t, i)[k].0,
                scan_from(t, i)[k].1,
            ),
    decreases t.len() - i,
{
    if i >= t.len() {
    } else if match_at(t, i) {
        lemma_match_end_bounds(t, i);
        let e = match_end(t, i);
        lemma_scan_items_match_words(t, e);
        lemma_match_shift(t, i, 0);
        let u = t.skip(i);
        lemma_match_word_take(u);
        assert(u.take(match_end(u, 0)) == match_raw(u, 0));
        assert(is_match_word(match_raw(t, i), match_val(t, i)));
        assert forall|k: int| 0 <= k < scan_from(t, i).len() implies is_match_word(
            scan_from(t, i)[k].0,
            scan_from(t, i)[k].1,
        ) by {
            if k == 0 {
                assert(scan_from(t, i)[0] == (match_raw(t, i), match_val(t, i)));
            } else {
                assert(scan_from(t, i)[k] == scan_from(t, e)[k - 1]);
            }
        }
    } else {
        lemma_scan_items_match_words(t, i + 1);
        assert(scan_from(t, i) == scan_from(t, i + 1));
        assert forall|k: int| 0 <= k < scan_from(t, i).len() implies is_match_word(
            scan_from(t, i)[k].0,
            scan_from(t, i)[k].1,
        ) by {
            assert(scan_from(t, i)[k] == scan_from(t, i + 1)[k]);
        }
    }
}

/// The first raw text recorded for an id is the raw text of some match
/// that carries that id.
pub proof fn lemma_first_raw_found(ms: Seq<(Seq<char>, nat)>, id: u16)
    requires
        has_id(ms, id),
    ensures
        exists|k: int|
            0 <= k < ms.len() && ms[k].1 == id as nat && ms[k].0 == first_raw(ms, id),
    decreases ms.len(),
{
    let q = choose|q: int| 0 <= q < ms.len() && ms[q].1 == id as nat;
    if ms[0].1 == id as nat {
        assert(ms[0].0 == first_raw(ms, id));
    } else {
        assert(q > 0);
        assert(ms.drop_first()[q - 1].1 == id as nat);
        assert(has_id(ms.drop_first(), id));
        lemma_first_raw_found(ms.drop_first(), id);
        let k = choose|k: int|
            0 <= k < ms.drop_first().len() && ms.drop_first()[k].1 == id as nat
                && ms.drop_first()[k].0 == first_raw(ms.drop_first(), id);
        assert(ms[k + 1] == ms.drop_first()[k]);
    }
}

/// When the ids before position `k` all differ from `id`, the first raw
/// text for `id` is the one at `k`.
proof fn lemma_first_raw_at(ms: Seq<(Seq<char>, nat)>, k: int, id: u16)
    requires
        0 <= k < ms.len(),
        ms[k].1 == id as nat,
        forall|j: int| 0 <= j < k ==> ms[j].1 != id as nat,
    ensures
        first_raw(ms, id) == ms[k].0,
    decreases k,
{
    if k > 0 {
        assert(ms[0].1 != id as nat);
        assert forall|j: int| 0 <= j < k - 1 implies ms.drop_first()[j].1 != id as nat by {
            assert(ms.drop_first()[j] == ms[j + 1]);
        }
        assert(ms.drop_first()[k - 1] == ms[k]);
        lemma_first_raw_at(ms.drop_first(), k - 1, id);
    }
}

/// Every raw text an extraction returns is a match word carrying its id.
pub proof fn lemma_extraction_raws_match_words(t: Seq<char>, r: Seq<(Seq<char>, u16)>)
    requires
        is_extraction(t, r),
    ensures
        forall|k: int| 0 <= k < r.len() ==> is_match_word(r[k].0, r[k].1 as nat),
{
    lemma_scan_items_match_words(t, 0);
    assert forall|k: int| 0 <= k < r.len() implies is_match_word(r[k].0, r[k].1 as nat) by {
        assert(has_id(scan(t), r[k].1));
        lemma_first_raw_found(scan(t), r[k].1);
        let q = choose|q: int|
            0 <= q < scan(t).len() && scan(t)[q].1 == r[k].1 as nat && scan(t)[q].0 == first_raw(
                scan(t),
                r[k].1,
            );
        assert(is_match_word(scan(t)[q].0, scan(t)[q].1));
    }
}

/// Every raw text a forwarding plan holds is a match word carrying its
/// id, so forwarding it satisfies the watermark law's premises.
pub proof fn lemma_forward_plan_raws_match_words(
    listing: Seq<char>,
    w: u16,
    r: Seq<(Seq<char>, u16)>,
)
    requires
        crate::sync::is_forward_plan(listing, w, r),
    ensures
        forall|k: int| 0 <= k < r.len() ==> is_match_word(r[k].0, r[k].1 as nat),
{
    lemma_scan_items_match_words(listing, 0);
    assert forall|k: int| 0 <= k < r.len() implies is_match_word(r[k].0, r[k].1 as nat) by {
        assert(has_id(scan(listing), r[k].1));
        lemma_first_raw_found(scan(listing), r[k].1);
        let q = choose|q: int|
            0 <= q < scan(listing).len() && scan(listing)[q].1 == r[k].1 as nat && scan(
                listing,
            )[q].0 == first_raw(scan(listing), r[k].1);
        assert(is_match_word(scan(listing)[q].0, scan(listing)[q].1));
    }
}

/// The models of an extraction's entries as scan matches.
pub open spec fn as_matches(r: Seq<(Seq<char>, u16)>) -> Seq<(Seq<char>, nat)> {
    r.map_values(|p: (Seq<char>, u16)| (p.0, p.1 as nat))
}

/// Scanning the rendering of match words reports exactly those words.
proof fn lemma_scan_render(r: Seq<(Seq<char>, u16)>)
    requires
        forall|k: int| 0 <= k < r.len() ==> is_match_word(r[k].0, r[k].1 as nat),
    ensures
        scan(render_links_spec(r)) == as_matches(r),
    decreases r.len(),
{
    reveal_strlit("\n");
    if r.len() == 0 {
        assert(render_links_spec(r).len() == 0);
        assert(scan(render_links_spec(r)) =~= as_matches(r));
    } else {
        let w = r[0].0;
        let v = r[0].1 as nat;
        let tail = "\n"@ + render_links_spec(r.drop_first());
        assert(render_links_spec(r) =~= w + tail);
        assert(tail[0] == '\n');
        assert(!is_digit_char('\n'));
        lemma_scan_match_word_prepend(w, v, tail);
        assert forall|k: int| 0 <= k < "\n"@.len() implies "\n"@[k] != '/' by {
            assert("\n"@[0] == '\n');
        }
        lemma_scan_no_slash_prepend("\n"@, render_links_spec(r.drop_first()));
        assert forall|k: int| 0 <= k < r.drop_first().len() implies is_match_word(
            r.drop_first()[k].0,
            r.drop_first()[k].1 as nat,
        ) by {
            assert(r.drop_first()[k] == r[k + 1]);
        }
        lemma_scan_render(r.drop_first());
        assert(scan(w + tail) == seq![(w, v)] + as_matches(r.drop_first()));
        assert(as_matches(r) =~= seq![(w, v)] + as_matches(r.drop_first()));
    }
}

/// Extraction is idempotent: extracting from a text rendered out of an
/// extraction's own references yields that extraction back, raw texts
/// and ids alike.
pub proof fn lemma_extract_idempotent(t: Seq<char>, r: Seq<(Seq<char>, u16)>)
    requires
        is_extraction(t, r),
    ensures
        is_extraction(render_links_spec(r), r),
{
    lemma_extraction_raws_match_words(t, r);
    lemma_scan_render(r);
    let ms = scan(render_links_spec(r));
    assert(ms == as_matches(r));
    assert forall|id: u16| has_id(ms, id) <==> exists|k: int|
        0 <= k < r.len() && r[k].1 == id by {
        if has_id(ms, id) {
            let q = choose|q: int| 0 <= q < ms.len() && ms[q].1 == id as nat;
            assert(ms[q] == (r[q].0, r[q].1 as nat));
            assert(r[q].1 == id);
        }
        if exists|k: int| 0 <= k < r.len() && r[k].1 == id {
            let k = choose|k: int| 0 <= k < r.len() && r[k].1 == id;
            assert(ms[k] == (r[k].0, r[k].1 as nat));
            assert(has_id(ms, id));
        }
    }
    assert forall|k: int| 0 <= k < r.len() implies has_id(ms, r[k].1) && r[k].0 == first_raw(
        ms,
        r[k].1,
    ) by {
        assert(ms[k] == (r[k].0, r[k].1 as nat));
        assert(has_id(ms, r[k].1));
        assert forall|j: int| 0 <= j < k implies ms[j].1 != r[k].1 as nat by {
            assert(ms[j] == (r[j].0, r[j].1 as nat));
            assert(r[j].1 < r[k].1);
        }
        lemma_first_raw_at(ms, k, r[k].1);
    }
}

spec fn id_in(r: Seq<(Seq<char>, u16)>, id: u16) -> bool {
    exists|k: int| 0 <= k < r.len() && r[k].1 == id
}

proof fn lemma_sorted_same(r1: Seq<(Seq<char>, u16)>, r2: Seq<(Seq<char>, u16)>)
    requires
        forall|a: int, b: int| 0 <= a < b < r1.len() ==> r1[a].1 < r1[b].1,
        forall|a: int, b: int| 0 <= a < b < r2.len() ==> r2[a].1 < r2[b].1,
        forall|id: u16| #[trigger] id_in(r1, id) <==> #[trigger] id_in(r2, id),
        forall|k1: int, k2: int|
            0 <= k1 < r1.len() && 0 <= k2 < r2.len() && r1[k1].1 == r2[k2].1 ==> r1[k1].0
                == r2[k2].0,
    ensures
        r1 =~~= r2,
    decreases r1.len(),
{
    if r1.len() == 0 {
        if r2.len() > 0 {
            assert(id_in(r2, r2[0].1));
            assert(id_in(r1, r2[0].1));
            assert(false);
        }
    } else {
        assert(id_in(r1, r1[0].1));
        assert(id_in(r2, r1[0].1));
        assert(r2.len() > 0);
        let ka = choose|k: int| 0 <= k < r2.len() && r2[k].1 == r1[0].1;
        assert(r2[0].1 <= r1[0].1);
        assert(id_in(r2, r2[0].1));
        assert(id_in(r1, r2[0].1));
        let kb = choose|k: int| 0 <= k < r1.len() && r1[k].1 == r2[0].1;
        assert(r1[0].1 <= r2[0].1);
        assert(r1[0].1 == r2[0].1);
        assert(r1[0].0 == r2[0].0);
        let s1 = r1.drop_first();
        let s2 = r2.drop_first();
        assert forall|a: int, b: int| 0 <= a < b < s1.len() implies s1[a].1 < s1[b].1 by {
            assert(s1[a] == r1[a + 1] && s1[b] == r1[b + 1]);
        }
        assert forall|a: int, b: int| 0 <= a < b < s2.len() implies s2[a].1 < s2[b].1 by {
            assert(s2[a] == r2[a + 1] && s2[b] == r2[b + 1]);
        }
        assert forall|id: u16| #[trigger] id_in(s1, id) <==> #[trigger] id_in(s2, id) by {
            if id_in(s1, id) {
                let k = choose|k: int| 0 <= k < s1.len() && s1[k].1 == id;
                assert(s1[k] == r1[k + 1]);
                assert(r1[0].1 < id);
                assert(id_in(r1, id));
                assert(id_in(r2, id));
                let k2 = choose|k2: int| 0 <= k2 < r2.len() && r2[k2].1 == id;
                assert(k2 > 0);
                assert(s2[k2 - 1] == r2[k2]);
                assert(id_in(s2, id));
            }
            if id_in(s2, id) {
                let k = choose|k: int| 0 <= k < s2.len() && s2[k].1 == id;
                assert(s2[k] == r2[k + 1]);
                assert(r2[0].1 < id);
                assert(id_in(r2, id));
                assert(id_in(r1, id));
                let k1 = choose|k1: int| 0 <= k1 < r1.len() && r1[k1].1 == id;
                assert(k1 > 0);
                assert(s1[k1 - 1] == r1[k1]);
                assert(id_in(s1, id));
            }
        }
        assert forall|k1: int, k2: int|
            0 <= k1 < s1.len() && 0 <= k2 < s2.len() && s1[k1].1 == s2[k2].1 implies s1[k1].0
            == s2[k2].0 by {
            assert(s1[k1] == r1[k1 + 1] && s2[k2] == r2[k2 + 1]);
        }
        lemma_sorted_same(s1, s2);
        assert(r1.len() == r2.len());
        assert forall|k: int| 0 <= k < r1.len() implies r1[k] == r2[k] by {
            if k > 0 {
                assert(s1[k - 1] =~~= s2[k - 1]);
                assert(r1[k] == s1[k - 1] && r2[k] == s2[k - 1]);
            }
        }
    }
}

/// A text has exactly one extraction: any two sequences that both stand
/// in the extraction relation to the same text are equal.
pub proof fn lemma_extraction_unique(
    t: Seq<char>,
    r1: Seq<(Seq<char>, u16)>,
    r2: Seq<(Seq<char>, u16)>,
)
    requires
        is_extraction(t, r1),
        is_extraction(t, r2),
    ensures
        r1 =~~= r2,
{
    assert forall|k1: int, k2: int|
        0 <= k1 < r1.len() && 0 <= k2 < r2.len() && r1[k1].1 == r2[k2].1 implies r1[k1].0
        == r2[k2].0 by {
        assert(r1[k1].0 == first_raw(scan(t), r1[k1].1));
        assert(r2[k2].0 == first_raw(scan(t), r2[k2].1));
    }
    assert forall|id: u16| #[trigger] id_in(r1, id) <==> #[trigger] id_in(r2, id) by {
        if id_in(r1, id) {
            assert(has_id(scan(t), id));
        }
        if id_in(r2, id) {
            assert(has_id(scan(t), id));
        }
    }
    lemma_sorted_same(r1, r2);
}

/// A match word starts with a slash, so URL resolution prefixes it with
/// the forum's origin.
proof fn lemma_match_word_resolved_url(w: Seq<char>, v: nat)
    requires
        is_match_word(w, v),
    ensures
        resolved_url(w) == "https://github.com"@ + w,
{
    lemma_prefix_chars();
    assert(w.subrange(0, link_prefix().len() as int)[0] == w[0]);
    assert(w[0] == '/');
    reveal_strlit("http");
    reveal_strlit("github");
    reveal_strlit("www.");
    reveal_strlit("/");
    if "http"@.is_prefix_of(w) {
        assert(w.subrange(0, 4)[0] == w[0]);
        assert(false);
    }
    if "github"@.is_prefix_of(w) {
        assert(w.subrange(0, 6)[0] == w[0]);
        assert(false);
    }
    if "www."@.is_prefix_of(w) {
        assert(w.subrange(0, 4)[0] == w[0]);
        assert(false);
    }
    assert("/"@ =~= w.subrange(0, 1));
}

/// No character of `s` is a slash.
pub open spec fn slash_free(s: Seq<char>) -> bool {
    forall|k: int| 0 <= k < s.len() ==> s[k] != '/'
}

/// The message that forwards a post references exactly the post's own
/// discussion, when neither the author's name nor the post's content
/// holds a slash.
pub proof fn lemma_forward_message_single_reference(
    raw: Seq<char>,
    id: u16,
    author: Seq<char>,
    content: Seq<char>,
)
    requires
        is_match_word(raw, id as nat),
        slash_free(author),
        slash_free(content),
    ensures
        scan(forward_text_spec(resolved_url(raw), author, content)) == seq![(raw, id as nat)],
{
    lemma_match_word_resolved_url(raw, id as nat);
    reveal_strlit("## Forwarded message from ");
    reveal_strlit("https://github.com");
    reveal_strlit("https:");
    reveal_strlit("//");
    reveal_strlit("github.com");
    reveal_strlit(":\n**Author:** ");
    reveal_strlit("\n\n");
    let x1 = "## Forwarded message from "@;
    let x2 = "https:"@;
    let x3 = "github.com"@;
    let x4 = ":\n**Author:** "@;
    let x5 = "\n\n"@;
    let tail = x4 + (author + (x5 + content));
    let msg = forward_text_spec(resolved_url(raw), author, content);
    assert(msg =~= x1 + (x2 + ("//"@ + (x3 + (raw + tail)))));
    assert forall|k: int| 0 <= k < x1.len() implies x1[k] != '/' by {}
    lemma_scan_no_slash_prepend(x1, x2 + ("//"@ + (x3 + (raw + tail))));
    assert forall|k: int| 0 <= k < x2.len() implies x2[k] != '/' by {}
    lemma_scan_no_slash_prepend(x2, "//"@ + (x3 + (raw + tail)));
    let t2 = "//"@ + (x3 + (raw + tail));
    assert(t2[0] == '/' && t2[1] == '/');
    lemma_scan_step_not_u(t2);
    let t3 = t2.skip(1);
    assert(t3.len() == t2.len() - 1);
    assert(t3[0] == t2[1]);
    assert(t3[1] == t2[2]);
    assert(t2[2] == x3[0]);
    lemma_scan_step_not_u(t3);
    assert(t3.skip(1) =~= x3 + (raw + tail));
    assert forall|k: int| 0 <= k < x3.len() implies x3[k] != '/' by {}
    lemma_scan_no_slash_prepend(x3, raw + tail);
    assert(tail[0] == x4[0]);
    assert(!is_digit_char(':'));
    lemma_scan_match_word_prepend(raw, id as nat, tail);
    assert forall|k: int| 0 <= k < x4.len() implies x4[k] != '/' by {}
    lemma_scan_no_slash_prepend(x4, author + (x5 + content));
    lemma_scan_no_slash_prepend(author, x5 + content);
    assert forall|k: int| 0 <= k < x5.len() implies x5[k] != '/' by {}
    lemma_scan_no_slash_prepend(x5, content);
    lemma_scan_no_slash_prepend(content, Seq::<char>::empty());
    assert(content + Seq::<char>::empty() =~= content);
    assert(scan(Seq::<char>::empty()) =~= Seq::<(Seq<char>, nat)>::empty());
    assert(scan(tail) =~= Seq::<(Seq<char>, nat)>::empty());
    assert(scan(msg) == seq![(raw, id as nat)] + scan(tail));
    assert(seq![(raw, id as nat)] + scan(tail) =~= seq![(raw, id as nat)]);
}

/// After forwarding, the watermark is exactly the id of the newest
/// forwarded post: a history whose most recent message is the system's
/// forwarding of `raw`'s discussion resolves to that discussion's id.
pub proof fn lemma_watermark_after_forward(
    h: Seq<ChannelMessage>,
    raw: Seq<char>,
    id: u16,
    author: Seq<char>,
    content: Seq<char>,
)
    requires
        h.len() > 0,
        h[0].is_self,
        h[0].content@ == forward_text_spec(resolved_url(raw), author, content),
        is_match_word(raw, id as nat),
        slash_free(author),
        slash_free(content),
    ensures
        watermark_of(h) == id,
{
    lemma_forward_message_single_reference(raw, id, author, content);
    let ms = seq![(raw, id as nat)];
    assert(ms[0] == (raw, id as nat));
    assert(ms.drop_first() =~= Seq::<(Seq<char>, nat)>::empty());
    assert(min_match_id(Seq::<(Seq<char>, nat)>::empty()) is None);
    assert(min_match_id(ms) == Some(id));
}

} // verus!
