//! String bodies: the byte strings that can stand between two quotes and be
//! read back as they are.

use crate::bytes::{
    lemma_first_occurrence_is, lemma_occurrence_bytes, occurs_at, starts_with, BACKSLASH, QUOTE,
};
use crate::entry::{
    delimiter_offset, gateway_id, gw_marker, in_string, is_delimiter, local_id_of, portal_prefix,
    string_end, string_end_from, EntryView,
};
use crate::layout::{template_head, template_tail, template_value};
use crate::locate::depth_change;
use crate::runs::{entries_between, normal, reaches};
use crate::scan::{step, Mode, ScanState, Token};
use crate::space::trim;
use vstd::prelude::*;

verus! {

/// Read inside a string from `at` on, in state `st`, the bytes hold no quote
/// that would close the string, and no backslash is left open at their end.
pub open spec fn body_from(body: Seq<u8>, at: int, st: ScanState) -> bool
    decreases body.len() - at,
{
    if 0 <= at < body.len() {
        let r = step(body, at, st);
        r.next.mode == Mode::InString && body_from(body, at + 1, r.next)
    } else {
        st == in_string()
    }
}

/// The bytes can stand between two quotes: every quote among them is escaped,
/// and they do not end in a backslash that would escape the closing quote.
pub open spec fn is_string_body(body: Seq<u8>) -> bool {
    body_from(body, 0, in_string())
}

/// Bytes without quote and backslash are a string body.
pub proof fn lemma_plain_is_body(body: Seq<u8>, at: int)
    requires
        0 <= at <= body.len(),
        forall|k: int| 0 <= k < body.len() ==> body[k] != QUOTE && body[k] != BACKSLASH,
    ensures
        body_from(body, at, in_string()),
    decreases body.len() - at,
{
    if at < body.len() {
        lemma_plain_is_body(body, at + 1);
    }
}

/// A string body followed by a string body is a string body.
pub proof fn lemma_body_concat(a: Seq<u8>, b: Seq<u8>)
    requires
        is_string_body(a),
        is_string_body(b),
    ensures
        is_string_body(a + b),
{
    lemma_body_shift(b, a, 0, in_string());
    lemma_body_concat_from(a, b, 0, in_string());
}

proof fn lemma_body_concat_from(a: Seq<u8>, b: Seq<u8>, at: int, st: ScanState)
    requires
        0 <= at <= a.len(),
        st.mode == Mode::InString,
        body_from(a, at, st),
        body_from(a + b, a.len() as int, in_string()),
    ensures
        body_from(a + b, at, st),
    decreases a.len() - at,
{
    if at < a.len() {
        assert((a + b)[at] == a[at]);
        let r = step(a, at, st);
        assert(step(a + b, at, st) == r);
        lemma_body_concat_from(a, b, at + 1, r.next);
    }
}

/// A string body is one wherever it stands.
proof fn lemma_body_shift(b: Seq<u8>, a: Seq<u8>, at: int, st: ScanState)
    requires
        0 <= at <= b.len(),
        st.mode == Mode::InString,
        body_from(b, at, st),
    ensures
        body_from(a + b, a.len() + at, st),
    decreases b.len() - at,
{
    if at < b.len() {
        assert((a + b)[a.len() + at] == b[at]);
        let r = step(b, at, st);
        assert(step(a + b, a.len() + at, st) == r);
        lemma_body_shift(b, a, at + 1, r.next);
    }
}

/// What follows a string body in front of it is a string body too, if the
/// front holds neither quote nor backslash.
pub proof fn lemma_body_rest(front: Seq<u8>, rest: Seq<u8>)
    requires
        is_string_body(front + rest),
        forall|k: int| 0 <= k < front.len() ==> front[k] != QUOTE && front[k] != BACKSLASH,
    ensures
        is_string_body(rest),
{
    lemma_body_skip_front(front, rest, 0);
    lemma_body_unshift(rest, front, 0, in_string());
}

proof fn lemma_body_skip_front(front: Seq<u8>, rest: Seq<u8>, at: int)
    requires
        0 <= at <= front.len(),
        body_from(front + rest, at, in_string()),
        forall|k: int| 0 <= k < front.len() ==> front[k] != QUOTE && front[k] != BACKSLASH,
    ensures
        body_from(front + rest, front.len() as int, in_string()),
    decreases front.len() - at,
{
    if at < front.len() {
        assert((front + rest)[at] == front[at]);
        lemma_body_skip_front(front, rest, at + 1);
    }
}

proof fn lemma_body_unshift(b: Seq<u8>, a: Seq<u8>, at: int, st: ScanState)
    requires
        0 <= at <= b.len(),
        st.mode == Mode::InString,
        body_from(a + b, a.len() + at, st),
    ensures
        body_from(b, at, st),
    decreases b.len() - at,
{
    if at < b.len() {
        assert((a + b)[a.len() + at] == b[at]);
        let r = step(b, at, st);
        assert(step(a + b, a.len() + at, st) == r);
        lemma_body_unshift(b, a, at + 1, r.next);
    }
}

/// Where a string body stands in a text with a quote behind it, the string
/// ends at that quote, and the scanner passes through it without a report.
pub proof fn lemma_string_run(s: Seq<u8>, start: int, body: Seq<u8>)
    requires
        0 <= start,
        start + body.len() < s.len(),
        s.subrange(start, start + body.len()) == body,
        s[start + body.len()] == QUOTE,
        is_string_body(body),
    ensures
        string_end(s, start) == Some(start + body.len()),
        reaches(s, start, in_string(), start + body.len() + 1, normal()),
        entries_between(s, start, in_string(), start + body.len() + 1) == Seq::<
            EntryView,
        >::empty(),
        forall|k: int| #[trigger]
            depth_change(s, start, in_string(), k) == if k <= start + body.len() + 1 {
                0
            } else {
                depth_change(s, start + body.len() + 1, normal(), k)
            },
{
    lemma_string_run_from(s, start, body, 0, in_string());
}

proof fn lemma_string_run_from(s: Seq<u8>, start: int, body: Seq<u8>, at: int, st: ScanState)
    requires
        0 <= start,
        0 <= at <= body.len(),
        start + body.len() < s.len(),
        s.subrange(start, start + body.len()) == body,
        s[start + body.len()] == QUOTE,
        st.mode == Mode::InString,
        body_from(body, at, st),
    ensures
        string_end_from(s, start + at, st) == Some(start + body.len()),
        reaches(s, start + at, st, start + body.len() + 1, normal()),
        entries_between(s, start + at, st, start + body.len() + 1) == Seq::<EntryView>::empty(),
        forall|k: int| #[trigger]
            depth_change(s, start + at, st, k) == if k <= start + body.len() + 1 {
                0
            } else {
                depth_change(s, start + body.len() + 1, normal(), k)
            },
    decreases body.len() - at,
{
    let stop = start + body.len() + 1;
    let here = start + at;
    if at < body.len() {
        assert(s[here] == body[at]) by {
            assert(s.subrange(start, start + body.len())[at] == s[here]);
        }
        let r = step(body, at, st);
        assert(step(s, here, st) == r);
        lemma_string_run_from(s, start, body, at + 1, r.next);
        assert(entries_between(s, here, st, stop) == Seq::<EntryView>::empty());
        assert forall|k: int| #[trigger] depth_change(s, here, st, k) == if k <= stop {
            0
        } else {
            depth_change(s, stop, normal(), k)
        } by {
            if here < k {
                assert(depth_change(s, here, st, k) == depth_change(s, here + 1, r.next, k));
            }
        }
    } else {
        assert(st == in_string());
        let r = step(s, here, st);
        assert(r.next == normal() && r.width == 1 && r.token == Token::Inert);
        assert(reaches(s, stop, normal(), stop, normal()));
        assert(entries_between(s, stop, normal(), stop) == Seq::<EntryView>::empty());
        assert(entries_between(s, here, st, stop) == Seq::<EntryView>::empty());
        assert forall|k: int| #[trigger] depth_change(s, here, st, k) == if k <= stop {
            0
        } else {
            depth_change(s, stop, normal(), k)
        } by {
            if here < k {
                assert(depth_change(s, here, st, k) == depth_change(s, stop, normal(), k));
            }
        }
    }
}

/// What the scanner found to be a string is a string body.
pub proof fn lemma_scanned_string_is_body(s: Seq<u8>, start: int, end: int)
    requires
        0 <= start,
        string_end(s, start) == Some(end),
    ensures
        start <= end < s.len(),
        is_string_body(s.subrange(start, end)),
{
    lemma_scanned_from(s, start, end, 0, in_string());
}

proof fn lemma_scanned_from(s: Seq<u8>, start: int, end: int, at: int, st: ScanState)
    requires
        0 <= start,
        0 <= at,
        st.mode == Mode::InString,
        string_end_from(s, start + at, st) == Some(end),
    ensures
        start + at <= end < s.len(),
        body_from(s.subrange(start, end), at, st),
    decreases s.len() - (start + at),
{
    let here = start + at;
    let body = s.subrange(start, end);
    let r = step(s, here, st);
    if r.next.mode == Mode::InString {
        lemma_scanned_from(s, start, end, at + 1, r.next);
        assert(body[at] == s[here]);
        assert(step(body, at, st) == r);
    } else {
        assert(end == here);
        assert(st == in_string());
    }
}

/// The local identifier of a key that is a string body is a string body.
pub proof fn lemma_local_id_is_body(key: Seq<u8>)
    requires
        is_string_body(key),
        starts_with(key, portal_prefix()),
    ensures
        is_string_body(local_id_of(key)),
{
    lemma_portal_prefix_plain();
    assert(key.subrange(0, 12) == portal_prefix());
    assert(key =~= portal_prefix() + local_id_of(key));
    lemma_body_rest(portal_prefix(), local_id_of(key));
}

/// The entry prefix has twelve bytes, none of them a quote or a backslash.
pub proof fn lemma_portal_prefix_plain()
    ensures
        portal_prefix().len() == 12,
        forall|k: int|
            0 <= k < portal_prefix().len() ==> portal_prefix()[k] != QUOTE && portal_prefix()[k]
                != BACKSLASH,
{
    reveal_strlit("portal_frag_");
    assert(portal_prefix() =~= seq![
        112u8,
        111u8,
        114u8,
        116u8,
        97u8,
        108u8,
        95u8,
        102u8,
        114u8,
        97u8,
        103u8,
        95u8,
    ]);
}

/// The value that the template makes of a gateway identifier is a string
/// body if the identifier is one.
pub proof fn lemma_template_value_is_body(gw_id: Seq<u8>)
    requires
        is_string_body(gw_id),
    ensures
        is_string_body(template_value(gw_id)),
{
    reveal_strlit("com.ipanel.join.gw_ui_sdk.GwPortalFragment|intent://?es_tabId=");
    reveal_strlit("&es_title=&es_focusStartColor=&es_focusEndColor=&es_focusImg=");
    assert(template_head() =~= seq![
        99u8, 111u8, 109u8, 46u8, 105u8, 112u8, 97u8, 110u8, 101u8, 108u8, 46u8, 106u8, 111u8,
        105u8, 110u8, 46u8, 103u8, 119u8, 95u8, 117u8, 105u8, 95u8, 115u8, 100u8, 107u8, 46u8,
        71u8, 119u8, 80u8, 111u8, 114u8, 116u8, 97u8, 108u8, 70u8, 114u8, 97u8, 103u8, 109u8,
        101u8, 110u8, 116u8, 124u8, 105u8, 110u8, 116u8, 101u8, 110u8, 116u8, 58u8, 47u8, 47u8,
        63u8, 101u8, 115u8, 95u8, 116u8, 97u8, 98u8, 73u8, 100u8, 61u8,
    ]);
    assert(template_tail() =~= seq![
        38u8, 101u8, 115u8, 95u8, 116u8, 105u8, 116u8, 108u8, 101u8, 61u8, 38u8, 101u8, 115u8,
        95u8, 102u8, 111u8, 99u8, 117u8, 115u8, 83u8, 116u8, 97u8, 114u8, 116u8, 67u8, 111u8,
        108u8, 111u8, 114u8, 61u8, 38u8, 101u8, 115u8, 95u8, 102u8, 111u8, 99u8, 117u8, 115u8,
        69u8, 110u8, 100u8, 67u8, 111u8, 108u8, 111u8, 114u8, 61u8, 38u8, 101u8, 115u8, 95u8,
        102u8, 111u8, 99u8, 117u8, 115u8, 73u8, 109u8, 103u8, 61u8,
    ]);
    lemma_plain_is_body(template_head(), 0);
    lemma_plain_is_body(template_tail(), 0);
    lemma_body_concat(template_head(), gw_id);
    lemma_body_concat(template_head() + gw_id, template_tail());
}

/// A gateway identifier can be read back from a template value: it holds
/// something, holds no delimiter, and neither begins nor ends with
/// whitespace.
pub open spec fn is_plain_gw_id(gw_id: Seq<u8>) -> bool {
    &&& gw_id.len() > 0
    &&& forall|k: int| 0 <= k < gw_id.len() ==> !is_delimiter(#[trigger] gw_id[k])
    &&& trim(gw_id) == gw_id
}

/// No delimiter is passed over on the way to the next delimiter.
pub proof fn lemma_delimiter_offset(s: Seq<u8>, from: int, to: int)
    requires
        0 <= from <= to < s.len(),
        forall|k: int| from <= k < to ==> !is_delimiter(#[trigger] s[k]),
        is_delimiter(s[to]),
    ensures
        delimiter_offset(s, from) == to,
    decreases to - from,
{
    if from < to {
        assert(!is_delimiter(s[from]));
        lemma_delimiter_offset(s, from + 1, to);
    }
}

/// The decoder reads from a template value the gateway identifier that the
/// value was made of.
pub proof fn lemma_template_value_is_read_back(gw_id: Seq<u8>)
    requires
        is_plain_gw_id(gw_id),
    ensures
        gateway_id(template_value(gw_id)) == Some(gw_id),
{
    reveal_strlit("com.ipanel.join.gw_ui_sdk.GwPortalFragment|intent://?es_tabId=");
    reveal_strlit("&es_title=&es_focusStartColor=&es_focusEndColor=&es_focusImg=");
    reveal_strlit("es_tabId=");
    let head = template_head();
    let tail = template_tail();
    let marker = gw_marker();
    let value = template_value(gw_id);
    assert(head.len() == 62 && tail.len() == 61 && marker.len() == 9);
    assert(marker =~= seq![101u8, 115u8, 95u8, 116u8, 97u8, 98u8, 73u8, 100u8, 61u8]);
    assert(head.subrange(53, 62) =~= marker);
    assert(value.subrange(53, 62) =~= head.subrange(53, 62));
    assert(occurs_at(value, marker, 53));
    assert forall|k: int| 0 <= k < 61 implies head[k] != 61u8 by {}
    assert forall|b: int| 0 <= b < 53 implies !occurs_at(value, marker, b) by {
        if occurs_at(value, marker, b) {
            lemma_occurrence_bytes(value, marker, b, 8);
            assert(value[b + 8] == head[b + 8]);
        }
    }
    lemma_first_occurrence_is(value, marker, 53);
    let from: int = 62;
    let to: int = gw_id.len() as int + 62;
    assert forall|k: int| from <= k < to implies !is_delimiter(#[trigger] value[k]) by {
        assert(value[k] == gw_id[k - 62]);
    }
    assert(value[to] == tail[0]);
    lemma_delimiter_offset(value, from, to);
    assert(value.subrange(from, to) =~= gw_id);
}

} // verus!
