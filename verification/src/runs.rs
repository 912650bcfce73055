//! Runs of the scanner: what it reports between two offsets, and how the
//! report of a whole span is made up of the reports of its parts.

use crate::bytes::{occurs_at, CLOSE_BRACE, OPEN_BRACE, QUOTE, SLASH, STAR};
use crate::entry::{entries_at, entries_from, quoted_prefix, string_end_from, EntryView};
use crate::locate::{brace_delta, closing_brace, depth_change};
use crate::scan::{lemma_step_basics, step, Mode, ScanState, Token};
use crate::space::is_blank_byte;
use vstd::prelude::*;

verus! {

/// The scanner, continuing at `at` in state `st`, comes to stand at `stop`,
/// and is in state `end` there.
pub open spec fn reaches(s: Seq<u8>, at: int, st: ScanState, stop: int, end: ScanState) -> bool
    decreases s.len() - at,
{
    if at == stop {
        st == end
    } else if 0 <= at < stop && at < s.len() {
        let r = step(s, at, st);
        reaches(s, at + r.width, r.next, stop, end)
    } else {
        false
    }
}

/// The entries that the scanner reports for the bytes below `stop`,
/// continuing at `at` in state `st`.
pub open spec fn entries_between(s: Seq<u8>, at: int, st: ScanState, stop: int) -> Seq<EntryView>
    decreases s.len() - at,
{
    if 0 <= at < stop && at < s.len() {
        let r = step(s, at, st);
        entries_at(s, at, r.token) + entries_between(s, at + r.width, r.next, stop)
    } else {
        seq![]
    }
}

/// The normal state.
pub open spec fn normal() -> ScanState {
    ScanState { mode: Mode::Normal, escape: false }
}

/// A run can be cut at any offset the scanner comes to stand at.
pub proof fn lemma_reaches_chain(
    s: Seq<u8>,
    at: int,
    st: ScanState,
    mid: int,
    st_mid: ScanState,
    stop: int,
    end: ScanState,
)
    requires
        reaches(s, at, st, mid, st_mid),
        reaches(s, mid, st_mid, stop, end),
        mid <= stop,
    ensures
        reaches(s, at, st, stop, end),
        entries_between(s, at, st, stop) == entries_between(s, at, st, mid) + entries_between(
            s,
            mid,
            st_mid,
            stop,
        ),
        forall|k: int|
            mid <= k ==> #[trigger] depth_change(s, at, st, k) == depth_change(s, at, st, mid)
                + depth_change(s, mid, st_mid, k),
    decreases s.len() - at,
{
    if at == mid {
        assert(entries_between(s, at, st, mid) == Seq::<EntryView>::empty());
        assert(depth_change(s, at, st, mid) == 0);
    } else {
        let r = step(s, at, st);
        lemma_step_basics(s, at, st);
        lemma_reaches_bounds(s, at + r.width, r.next, mid, st_mid);
        lemma_reaches_chain(s, at + r.width, r.next, mid, st_mid, stop, end);
        assert(entries_between(s, at, st, stop) == entries_at(s, at, r.token) + (entries_between(
            s,
            at + r.width,
            r.next,
            mid,
        ) + entries_between(s, mid, st_mid, stop)));
        assert forall|k: int| mid <= k implies #[trigger] depth_change(s, at, st, k)
            == depth_change(s, at, st, mid) + depth_change(s, mid, st_mid, k) by {
            assert(depth_change(s, at + r.width, r.next, k) == depth_change(
                s,
                at + r.width,
                r.next,
                mid,
            ) + depth_change(s, mid, st_mid, k));
        }
    }
}

/// A run ends at or after its start, inside the span.
pub proof fn lemma_reaches_bounds(s: Seq<u8>, at: int, st: ScanState, stop: int, end: ScanState)
    requires
        reaches(s, at, st, stop, end),
    ensures
        at <= stop,
        at < stop ==> stop <= s.len(),
    decreases s.len() - at,
{
    if at != stop {
        let r = step(s, at, st);
        lemma_step_basics(s, at, st);
        lemma_reaches_bounds(s, at + r.width, r.next, stop, end);
    }
}

/// What the scanner reports from a start is what it reports up to an offset
/// it comes to stand at, followed by what it reports from there.
pub proof fn lemma_entries_split(s: Seq<u8>, at: int, st: ScanState, stop: int, end: ScanState)
    requires
        reaches(s, at, st, stop, end),
    ensures
        entries_from(s, at, st) == entries_between(s, at, st, stop) + entries_from(s, stop, end),
    decreases s.len() - at,
{
    if at == stop {
        assert(entries_between(s, at, st, stop) == Seq::<EntryView>::empty());
    } else {
        let r = step(s, at, st);
        lemma_entries_split(s, at + r.width, r.next, stop, end);
        assert(entries_from(s, at, st) == entries_at(s, at, r.token) + (entries_between(
            s,
            at + r.width,
            r.next,
            stop,
        ) + entries_from(s, stop, end)));
    }
}

/// As long as the depth stays above zero, the search for the closing brace
/// goes on from any offset the scanner comes to stand at.
pub proof fn lemma_closing_brace_split(
    s: Seq<u8>,
    at: int,
    st: ScanState,
    depth: int,
    stop: int,
    end: ScanState,
)
    requires
        reaches(s, at, st, stop, end),
        depth >= 1,
        forall|k: int| at <= k <= stop ==> depth + #[trigger] depth_change(s, at, st, k) >= 1,
    ensures
        closing_brace(s, at, st, depth) == closing_brace(
            s,
            stop,
            end,
            depth + depth_change(s, at, st, stop),
        ),
    decreases s.len() - at,
{
    if at == stop {
        assert(depth_change(s, at, st, stop) == 0);
    } else {
        let r = step(s, at, st);
        lemma_step_basics(s, at, st);
        let on = at + r.width;
        let deeper = depth + brace_delta(r.token);
        lemma_reaches_bounds(s, on, r.next, stop, end);
        assert(deeper + depth_change(s, on, r.next, on) >= 1) by {
            assert(depth + depth_change(s, at, st, on) >= 1);
            assert(depth_change(s, on, r.next, on) == 0);
        }
        assert forall|k: int| on <= k <= stop implies deeper + #[trigger] depth_change(
            s,
            on,
            r.next,
            k,
        ) >= 1 by {
            assert(depth + depth_change(s, at, st, k) >= 1);
        }
        lemma_closing_brace_split(s, on, r.next, deeper, stop, end);
    }
}

/// A stretch without the quoted entry prefix holds no entry.
pub proof fn lemma_no_prefix_no_entries(s: Seq<u8>, at: int, st: ScanState, stop: int)
    requires
        forall|i: int| at <= i < stop ==> !occurs_at(s, quoted_prefix(), i),
    ensures
        entries_between(s, at, st, stop) == Seq::<EntryView>::empty(),
    decreases s.len() - at,
{
    if 0 <= at < stop && at < s.len() {
        let r = step(s, at, st);
        lemma_step_basics(s, at, st);
        lemma_no_prefix_no_entries(s, at + r.width, r.next, stop);
    }
}

/// In normal mode the byte opens nothing and is no brace.
pub open spec fn is_plain(b: u8) -> bool {
    b != QUOTE && b != SLASH && b != OPEN_BRACE && b != CLOSE_BRACE
}

/// Over a stretch of plain bytes the scanner stays in normal mode and
/// reports nothing.
pub proof fn lemma_plain_stretch(s: Seq<u8>, at: int, stop: int)
    requires
        0 <= at <= stop <= s.len(),
        forall|k: int| at <= k < stop ==> is_plain(#[trigger] s[k]),
    ensures
        reaches(s, at, normal(), stop, normal()),
        entries_between(s, at, normal(), stop) == Seq::<EntryView>::empty(),
        forall|k: int| #[trigger] depth_change(s, at, normal(), k) == if k <= stop {
            0
        } else {
            depth_change(s, stop, normal(), k)
        },
    decreases stop - at,
{
    if at < stop {
        assert(is_plain(s[at]));
        let r = step(s, at, normal());
        assert(r.next == normal() && r.width == 1 && r.token == Token::Inert);
        lemma_plain_stretch(s, at + 1, stop);
        assert forall|k: int| #[trigger] depth_change(s, at, normal(), k) == if k <= stop {
            0
        } else {
            depth_change(s, stop, normal(), k)
        } by {
            if at < k {
                assert(depth_change(s, at, normal(), k) == depth_change(s, at + 1, normal(), k));
            }
        }
    } else {
        assert forall|k: int| #[trigger] depth_change(s, at, normal(), k) == if k <= stop {
            0
        } else {
            depth_change(s, stop, normal(), k)
        } by {}
    }
}

/// Every state the scanner gets into from a well-formed state is well
/// formed.
pub proof fn lemma_reaches_wf(s: Seq<u8>, at: int, st: ScanState, stop: int, end: ScanState)
    requires
        reaches(s, at, st, stop, end),
        st.wf(),
    ensures
        end.wf(),
    decreases s.len() - at,
{
    if at != stop {
        let r = step(s, at, st);
        lemma_step_basics(s, at, st);
        lemma_reaches_wf(s, at + r.width, r.next, stop, end);
    }
}

/// The scanner comes to stand at the closing brace it finds, in normal mode,
/// with one brace open.
pub proof fn lemma_closing_brace_reached(
    s: Seq<u8>,
    at: int,
    st: ScanState,
    depth: int,
    close: int,
)
    requires
        0 <= at,
        depth >= 1,
        st.wf(),
        closing_brace(s, at, st, depth) == Some(close),
    ensures
        reaches(s, at, st, close, normal()),
        depth + depth_change(s, at, st, close) == 1,
        at <= close < s.len(),
        s[close] == CLOSE_BRACE,
    decreases s.len() - at,
{
    lemma_step_basics(s, at, st);
    let r = step(s, at, st);
    if r.token == Token::CloseBrace && depth == 1 {
        assert(depth_change(s, at, st, at) == 0);
    } else {
        lemma_closing_brace_reached(s, at + r.width, r.next, depth + brace_delta(r.token), close);
    }
}

/// Where the scanner stands in normal mode on a closing brace with one brace
/// open, it has found the closing brace.
pub proof fn lemma_closing_brace_here(s: Seq<u8>, at: int)
    requires
        0 <= at < s.len(),
        s[at] == CLOSE_BRACE,
    ensures
        closing_brace(s, at, normal(), 1) == Some(at),
{
    let r = step(s, at, normal());
    assert(r.token == Token::CloseBrace);
}

/// The second byte of every pair that the scanner reads as one.
pub open spec fn may_end_pair(b: u8) -> bool {
    b == SLASH || b == STAR
}

/// Over equal bytes the scanner runs equally from every offset among them.
proof fn lemma_same_run_from(
    a: Seq<u8>,
    pa: int,
    b: Seq<u8>,
    pb: int,
    len: int,
    from: int,
    st: ScanState,
    end: ScanState,
)
    requires
        0 <= pa,
        0 <= pb,
        0 <= from <= len,
        pa + len <= a.len(),
        pb + len <= b.len(),
        a.subrange(pa, pa + len) == b.subrange(pb, pb + len),
        pa + len < a.len() ==> !may_end_pair(a[pa + len]),
        pb + len < b.len() ==> !may_end_pair(b[pb + len]),
    ensures
        reaches(a, pa + from, st, pa + len, end) == reaches(b, pb + from, st, pb + len, end),
        forall|k: int|
            k <= len ==> #[trigger] depth_change(a, pa + from, st, pa + k) == depth_change(
                b,
                pb + from,
                st,
                pb + k,
            ),
    decreases len - from,
{
    if from < len {
        let same = a.subrange(pa, pa + len);
        assert(a[pa + from] == b[pb + from]) by {
            assert(same[from] == a[pa + from]);
            assert(same[from] == b[pb + from]);
        }
        if from + 1 < len {
            assert(a[pa + from + 1] == b[pb + from + 1]) by {
                assert(same[from + 1] == a[pa + from + 1]);
                assert(same[from + 1] == b[pb + from + 1]);
            }
        }
        let r = step(a, pa + from, st);
        assert(step(b, pb + from, st) == r);
        assert(from + r.width <= len);
        lemma_same_run_from(a, pa, b, pb, len, from + r.width, r.next, end);
        assert forall|k: int| k <= len implies #[trigger] depth_change(
            a,
            pa + from,
            st,
            pa + k,
        ) == depth_change(b, pb + from, st, pb + k) by {
            if from < k {
                assert(depth_change(a, pa + from + r.width, r.next, pa + k) == depth_change(
                    b,
                    pb + from + r.width,
                    r.next,
                    pb + k,
                ));
            }
        }
    } else {
        assert forall|k: int| k <= len implies #[trigger] depth_change(
            a,
            pa + from,
            st,
            pa + k,
        ) == depth_change(b, pb + from, st, pb + k) by {}
    }
}

/// Over equal bytes the scanner runs equally, wherever the bytes stand, as
/// long as the byte that follows them cannot end a pair.
pub proof fn lemma_same_bytes_same_run(
    a: Seq<u8>,
    pa: int,
    b: Seq<u8>,
    pb: int,
    len: int,
    st: ScanState,
    end: ScanState,
)
    requires
        0 <= pa,
        0 <= pb,
        0 <= len,
        pa + len <= a.len(),
        pb + len <= b.len(),
        a.subrange(pa, pa + len) == b.subrange(pb, pb + len),
        pa + len < a.len() ==> !may_end_pair(a[pa + len]),
        pb + len < b.len() ==> !may_end_pair(b[pb + len]),
    ensures
        reaches(a, pa, st, pa + len, end) == reaches(b, pb, st, pb + len, end),
        forall|k: int|
            k <= len ==> #[trigger] depth_change(a, pa, st, pa + k) == depth_change(
                b,
                pb,
                st,
                pb + k,
            ),
{
    lemma_same_run_from(a, pa, b, pb, len, 0, st, end);
    assert forall|k: int| k <= len implies #[trigger] depth_change(a, pa, st, pa + k)
        == depth_change(b, pb, st, pb + k) by {
        assert(depth_change(a, pa + 0, st, pa + k) == depth_change(b, pb + 0, st, pb + k));
    }
}

/// The scanner runs one way only: from an offset it stands at on its way,
/// it goes on to where it was going.
pub proof fn lemma_reaches_rest(
    s: Seq<u8>,
    at: int,
    st: ScanState,
    mid: int,
    st_mid: ScanState,
    stop: int,
    end: ScanState,
)
    requires
        reaches(s, at, st, mid, st_mid),
        reaches(s, at, st, stop, end),
        mid <= stop,
    ensures
        reaches(s, mid, st_mid, stop, end),
    decreases s.len() - at,
{
    if at != mid {
        let r = step(s, at, st);
        lemma_reaches_bounds(s, at, st, mid, st_mid);
        lemma_reaches_rest(s, at + r.width, r.next, mid, st_mid, stop, end);
    }
}

/// A string that the scanner is in when it is on its way to an offset in
/// normal mode is closed before that offset.
pub proof fn lemma_string_closes(s: Seq<u8>, at: int, st: ScanState, stop: int)
    requires
        0 <= at,
        st.mode == Mode::InString,
        reaches(s, at, st, stop, normal()),
    ensures
        string_end_from(s, at, st) is Some,
        at <= string_end_from(s, at, st)->Some_0 < stop,
        s[string_end_from(s, at, st)->Some_0] == QUOTE,
        reaches(s, string_end_from(s, at, st)->Some_0 + 1, normal(), stop, normal()),
    decreases s.len() - at,
{
    let r = step(s, at, st);
    lemma_reaches_bounds(s, at, st, stop, normal());
    if r.next.mode == Mode::InString {
        lemma_string_closes(s, at + 1, r.next, stop);
    } else {
        lemma_reaches_bounds(s, at + 1, r.next, stop, normal());
    }
}

/// The end of a string is found by looking at the string only.
pub proof fn lemma_string_end_local(a: Seq<u8>, b: Seq<u8>, at: int, st: ScanState, end: int)
    requires
        0 <= at,
        st.mode == Mode::InString,
        string_end_from(a, at, st) == Some(end),
        end < b.len(),
        forall|k: int| at <= k <= end ==> a[k] == b[k],
    ensures
        string_end_from(b, at, st) == Some(end),
    decreases a.len() - at,
{
    let r = step(a, at, st);
    assert(at <= end) by {
        lemma_string_end_bounds(a, at, st);
    }
    assert(a[at] == b[at]);
    assert(step(b, at, st) == r);
    if r.next.mode == Mode::InString {
        lemma_string_end_local(a, b, at + 1, r.next, end);
    }
}

/// The end of a string lies at or behind the offset it was searched from.
pub proof fn lemma_string_end_bounds(s: Seq<u8>, at: int, st: ScanState)
    requires
        string_end_from(s, at, st) is Some,
    ensures
        at <= string_end_from(s, at, st)->Some_0 < s.len(),
    decreases s.len() - at,
{
    let r = step(s, at, st);
    if r.next.mode == Mode::InString {
        lemma_string_end_bounds(s, at + 1, r.next);
    }
}

/// Over blank bytes the scanner reports nothing, whatever mode it is in.
pub proof fn lemma_blank_stretch(s: Seq<u8>, at: int, st: ScanState, stop: int)
    requires
        0 <= at <= stop <= s.len(),
        forall|k: int| at <= k < stop ==> is_blank_byte(#[trigger] s[k]),
    ensures
        entries_between(s, at, st, stop) == Seq::<EntryView>::empty(),
        forall|k: int| k <= stop ==> #[trigger] depth_change(s, at, st, k) == 0,
    decreases stop - at,
{
    if at < stop {
        assert(is_blank_byte(s[at]));
        let r = step(s, at, st);
        assert(r.width == 1 && r.token == Token::Inert);
        lemma_blank_stretch(s, at + 1, r.next, stop);
        assert forall|k: int| k <= stop implies #[trigger] depth_change(s, at, st, k) == 0 by {
            if at < k {
                assert(depth_change(s, at + 1, r.next, k) == 0);
            }
        }
    }
}

/// If the scanner gets over blank bytes into normal mode, it was in normal
/// mode or in a line comment in front of them.
pub proof fn lemma_mode_before_blanks(s: Seq<u8>, at: int, st: ScanState, stop: int)
    requires
        0 <= at <= stop <= s.len(),
        forall|k: int| at <= k < stop ==> is_blank_byte(#[trigger] s[k]),
        reaches(s, at, st, stop, normal()),
    ensures
        st.mode == Mode::Normal || st.mode == Mode::InLineComment,
    decreases stop - at,
{
    if at < stop {
        assert(is_blank_byte(s[at]));
        let r = step(s, at, st);
        assert(r.width == 1);
        lemma_mode_before_blanks(s, at + 1, r.next, stop);
    }
}

/// The state in which the scanner, continuing at `at` in state `st`, stands
/// at `pos` or, if it steps over `pos`, behind it.
pub open spec fn state_at(s: Seq<u8>, at: int, st: ScanState, pos: int) -> ScanState
    decreases s.len() - at,
{
    if 0 <= at < pos && at < s.len() {
        let r = step(s, at, st);
        state_at(s, at + r.width, r.next, pos)
    } else {
        st
    }
}

/// On its way to an offset, the scanner stands at every offset in between
/// whose byte cannot end a pair.
pub proof fn lemma_stands_at(
    s: Seq<u8>,
    at: int,
    st: ScanState,
    pos: int,
    stop: int,
    end: ScanState,
)
    requires
        0 <= at <= pos <= stop,
        reaches(s, at, st, stop, end),
        pos < s.len() ==> !may_end_pair(s[pos]),
    ensures
        reaches(s, at, st, pos, state_at(s, at, st, pos)),
        reaches(s, pos, state_at(s, at, st, pos), stop, end),
    decreases s.len() - at,
{
    if at < pos {
        let r = step(s, at, st);
        lemma_step_basics(s, at, st);
        lemma_reaches_bounds(s, at + r.width, r.next, stop, end);
        lemma_stands_at(s, at + r.width, r.next, pos, stop, end);
    }
}

/// Up to an offset that the scanner comes to stand at, it runs equally over
/// equal bytes, if in the other text no byte stands there that can end a
/// pair.
pub proof fn lemma_same_run_before(
    a: Seq<u8>,
    b: Seq<u8>,
    at: int,
    st: ScanState,
    stop: int,
    end: ScanState,
)
    requires
        0 <= at <= stop,
        stop <= a.len(),
        stop <= b.len(),
        reaches(a, at, st, stop, end),
        a.subrange(at, stop) == b.subrange(at, stop),
        stop < b.len() ==> !may_end_pair(b[stop]),
    ensures
        reaches(b, at, st, stop, end),
        forall|k: int| k <= stop ==> #[trigger] depth_change(b, at, st, k) == depth_change(
            a,
            at,
            st,
            k,
        ),
    decreases stop - at,
{
    if at < stop {
        let same = a.subrange(at, stop);
        assert(a[at] == b[at]) by {
            assert(same[0] == a[at]);
            assert(same[0] == b[at]);
        }
        let r = step(a, at, st);
        lemma_step_basics(a, at, st);
        lemma_reaches_bounds(a, at + r.width, r.next, stop, end);
        if at + 1 < stop {
            assert(a[at + 1] == b[at + 1]) by {
                assert(same[1] == a[at + 1]);
                assert(same[1] == b[at + 1]);
            }
        }
        assert(step(b, at, st) == r);
        assert(a.subrange(at + r.width, stop) =~= same.subrange(r.width as int, stop - at));
        assert(b.subrange(at + r.width, stop) =~= same.subrange(r.width as int, stop - at));
        lemma_same_run_before(a, b, at + r.width, r.next, stop, end);
        assert forall|k: int| k <= stop implies #[trigger] depth_change(b, at, st, k)
            == depth_change(a, at, st, k) by {
            if at < k {
                assert(depth_change(b, at + r.width, r.next, k) == depth_change(
                    a,
                    at + r.width,
                    r.next,
                    k,
                ));
            }
        }
    } else {
        assert forall|k: int| k <= stop implies #[trigger] depth_change(b, at, st, k)
            == depth_change(a, at, st, k) by {}
    }
}

/// The closing brace is found in the same place, counted from the end, in
/// two texts that end alike.
pub proof fn lemma_closing_brace_moves(
    a: Seq<u8>,
    pa: int,
    b: Seq<u8>,
    pb: int,
    st: ScanState,
    depth: int,
)
    requires
        0 <= pa <= a.len(),
        0 <= pb <= b.len(),
        a.subrange(pa, a.len() as int) == b.subrange(pb, b.len() as int),
    ensures
        closing_brace(b, pb, st, depth) == match closing_brace(a, pa, st, depth) {
            Some(close) => Some(close - pa + pb),
            None => None,
        },
    decreases a.len() - pa,
{
    let same = a.subrange(pa, a.len() as int);
    assert(a.len() - pa == b.len() - pb) by {
        assert(same.len() == b.subrange(pb, b.len() as int).len());
    }
    if pa < a.len() {
        assert(a[pa] == b[pb]) by {
            assert(same[0] == a[pa]);
            assert(same[0] == b[pb]);
        }
        if pa + 1 < a.len() {
            assert(a[pa + 1] == b[pb + 1]) by {
                assert(same[1] == a[pa + 1]);
                assert(same[1] == b[pb + 1]);
            }
        }
        let r = step(a, pa, st);
        lemma_step_basics(a, pa, st);
        assert(step(b, pb, st) == r);
        let w = r.width as int;
        assert(a.subrange(pa + w, a.len() as int) =~= same.subrange(w, same.len() as int));
        assert(b.subrange(pb + w, b.len() as int) =~= same.subrange(w, same.len() as int));
        assert(a.subrange(pa + 1, a.len() as int) =~= same.subrange(1, same.len() as int));
        assert(b.subrange(pb + 1, b.len() as int) =~= same.subrange(1, same.len() as int));
        match r.token {
            Token::OpenBrace => {
                lemma_closing_brace_moves(a, pa + 1, b, pb + 1, r.next, depth + 1);
            },
            Token::CloseBrace => {
                if depth != 1 {
                    lemma_closing_brace_moves(a, pa + 1, b, pb + 1, r.next, depth - 1);
                }
            },
            _ => {
                lemma_closing_brace_moves(a, pa + w, b, pb + w, r.next, depth);
            },
        }
    }
}

} // verus!
