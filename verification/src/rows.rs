//! Blocks that hold entries only, one on a line: what the scanner reads
//! from them, row by row.

use crate::bytes::{starts_with, CLOSE_BRACE, OPEN_BRACE};
use crate::entry::{entries_at, portal_prefix, EntryView};
use crate::layout::entry_text;
use crate::locate::{closing_brace, depth_change};
use crate::quoted::is_string_body;
use crate::rescan::{
    all_plain, lemma_block_parts, lemma_entry_text_parts, lemma_pair_stands, lemma_scan_entry_text,
    written_entry,
};
use crate::runs::{
    entries_between, is_plain, lemma_closing_brace_here, lemma_closing_brace_split,
    lemma_plain_stretch, lemma_reaches_chain, normal, reaches,
};
use crate::scan::{step, ScanState, Token};
use vstd::prelude::*;

verus! {

/// The bytes of a row: what stands in front of the text, the text, and what
/// stands behind it.
pub open spec fn row_parts(pre: Seq<u8>, text: Seq<u8>, post: Seq<u8>) -> Seq<u8> {
    pre + text + post
}

/// The row holds what `held` says: nothing but plain bytes, or the text of
/// one entry between plain bytes. The parts of the entry are string bodies,
/// and its value does not begin with the entry prefix.
pub open spec fn is_row(row: Seq<u8>, held: Option<(Seq<u8>, Seq<u8>)>) -> bool {
    match held {
        None => all_plain(row),
        Some((local_id, value)) => {
            &&& is_string_body(local_id)
            &&& is_string_body(value)
            &&& !starts_with(value, portal_prefix())
            &&& exists|pre: Seq<u8>, post: Seq<u8>|
                all_plain(pre) && all_plain(post) && #[trigger] row_parts(
                    pre,
                    entry_text(local_id, value),
                    post,
                ) == row
        },
    }
}

/// The entry of a row, if it holds one.
pub open spec fn row_entries(held: Option<(Seq<u8>, Seq<u8>)>) -> Seq<EntryView> {
    match held {
        None => seq![],
        Some((local_id, value)) => seq![written_entry(local_id, value)],
    }
}

/// The first `count` rows, one behind the other.
pub open spec fn rows_text(rows: Seq<Seq<u8>>, count: int) -> Seq<u8>
    decreases count,
{
    if count <= 0 {
        seq![]
    } else {
        rows_text(rows, count - 1) + rows[count - 1]
    }
}

/// The entries of the first `count` rows, in order.
pub open spec fn held_entries(held: Seq<Option<(Seq<u8>, Seq<u8>)>>, count: int) -> Seq<EntryView>
    decreases count,
{
    if count <= 0 {
        seq![]
    } else {
        held_entries(held, count - 1) + row_entries(held[count - 1])
    }
}

/// Every row is what `held` says of it.
pub open spec fn are_rows(rows: Seq<Seq<u8>>, held: Seq<Option<(Seq<u8>, Seq<u8>)>>) -> bool {
    &&& rows.len() == held.len()
    &&& forall|i: int| 0 <= i < rows.len() ==> is_row(#[trigger] rows[i], held[i])
}

/// The scanner reads a row as the entry that it holds: from normal mode at
/// its start it comes to stand at its end in normal mode, and reports that
/// entry, if any, and no brace.
pub proof fn lemma_scan_row(s: Seq<u8>, at: int, row: Seq<u8>, held: Option<(Seq<u8>, Seq<u8>)>)
    requires
        0 <= at,
        at + row.len() <= s.len(),
        s.subrange(at, at + row.len()) == row,
        is_row(row, held),
    ensures
        reaches(s, at, normal(), at + row.len(), normal()),
        entries_between(s, at, normal(), at + row.len()) == row_entries(held),
        forall|k: int| #[trigger]
            depth_change(s, at, normal(), k) == if k <= at + row.len() {
                0
            } else {
                depth_change(s, at + row.len(), normal(), k)
            },
{
    let stop = at + row.len();
    assert forall|k: int| at <= k < stop implies s[k] == row[k - at] by {
        assert(s.subrange(at, stop)[k - at] == s[k]);
    }
    match held {
        None => {
            assert forall|k: int| at <= k < stop implies is_plain(#[trigger] s[k]) by {
                assert(s[k] == row[k - at]);
            }
            lemma_plain_stretch(s, at, stop);
        },
        Some((local_id, value)) => {
            let text = entry_text(local_id, value);
            let (pre, post) = choose|pre: Seq<u8>, post: Seq<u8>|
                all_plain(pre) && all_plain(post) && #[trigger] row_parts(pre, text, post)
                    == row;
            let from = at + pre.len();
            let after = from + text.len();
            assert forall|k: int| at <= k < from implies is_plain(#[trigger] s[k]) by {
                assert(s[k] == row[k - at]);
                assert(row[k - at] == pre[k - at]);
            }
            assert forall|k: int| after <= k < stop implies is_plain(#[trigger] s[k]) by {
                assert(s[k] == row[k - at]);
                assert(row[k - at] == post[k - after]);
            }
            assert(s.subrange(from, after) =~= text) by {
                assert forall|k: int| from <= k < after implies s[k] == text[k - from] by {
                    assert(s[k] == row[k - at]);
                }
            }
            lemma_entry_text_parts(local_id, value);
            lemma_pair_stands(s, from, local_id, value);
            lemma_scan_entry_text(s, from, local_id, value);
            lemma_plain_stretch(s, at, from);
            lemma_plain_stretch(s, after, stop);
            lemma_reaches_chain(s, at, normal(), from, normal(), after, normal());
            lemma_reaches_chain(s, at, normal(), after, normal(), stop, normal());
            assert(entries_between(s, at, normal(), stop) =~= row_entries(held));
            assert forall|k: int| #[trigger] depth_change(s, at, normal(), k) == if k <= stop {
                0
            } else {
                depth_change(s, stop, normal(), k)
            } by {
                assert(depth_change(s, at, normal(), from) == 0);
                assert(depth_change(s, at, normal(), after) == 0) by {
                    assert(depth_change(s, from, normal(), after) == 0);
                }
                if k <= from {
                } else if k <= after {
                    assert(depth_change(s, from, normal(), k) == 0);
                } else if k <= stop {
                    assert(depth_change(s, after, normal(), k) == 0);
                } else {
                    assert(depth_change(s, after, normal(), k) == depth_change(
                        s,
                        stop,
                        normal(),
                        k,
                    ));
                }
            }
        },
    }
}

/// The first rows are a prefix of more rows.
pub proof fn lemma_rows_prefix(rows: Seq<Seq<u8>>, fewer: int, more: int)
    requires
        0 <= fewer <= more,
    ensures
        rows_text(rows, fewer).len() <= rows_text(rows, more).len(),
        rows_text(rows, more).subrange(0, rows_text(rows, fewer).len() as int) == rows_text(
            rows,
            fewer,
        ),
    decreases more,
{
    let short = rows_text(rows, fewer);
    if fewer < more {
        lemma_rows_prefix(rows, fewer, more - 1);
        let middle = rows_text(rows, more - 1);
        let long = rows_text(rows, more);
        assert(long.subrange(0, short.len() as int) =~= middle.subrange(0, short.len() as int));
    } else {
        assert(short.subrange(0, short.len() as int) =~= short);
    }
}

/// The scanner reads rows as the entries that they hold, in order.
#[verifier::rlimit(80)]
pub proof fn lemma_scan_rows(
    s: Seq<u8>,
    at: int,
    rows: Seq<Seq<u8>>,
    held: Seq<Option<(Seq<u8>, Seq<u8>)>>,
    count: int,
)
    requires
        0 <= at,
        0 <= count <= rows.len(),
        are_rows(rows, held),
        at + rows_text(rows, rows.len() as int).len() <= s.len(),
        s.subrange(at, at + rows_text(rows, rows.len() as int).len()) == rows_text(
            rows,
            rows.len() as int,
        ),
    ensures
        ({
            let stop = at + rows_text(rows, count).len();
            &&& reaches(s, at, normal(), stop, normal())
            &&& entries_between(s, at, normal(), stop) == held_entries(held, count)
            &&& forall|k: int| #[trigger]
                depth_change(s, at, normal(), k) == if k <= stop {
                    0
                } else {
                    depth_change(s, stop, normal(), k)
                }
        }),
    decreases count,
{
    let all = rows_text(rows, rows.len() as int);
    if count == 0 {
        assert(entries_between(s, at, normal(), at) == Seq::<EntryView>::empty());
        assert forall|k: int| #[trigger] depth_change(s, at, normal(), k) == if k <= at {
            0
        } else {
            depth_change(s, at, normal(), k)
        } by {}
    } else {
        lemma_scan_rows(s, at, rows, held, count - 1);
        let before = rows_text(rows, count - 1);
        let upto = rows_text(rows, count);
        let row = rows[count - 1];
        lemma_rows_prefix(rows, count, rows.len() as int);
        let from = at + before.len();
        let stop = at + upto.len();
        assert(s.subrange(from, stop) =~= row) by {
            assert forall|k: int| from <= k < stop implies s[k] == row[k - from] by {
                assert(s.subrange(at, at + all.len())[k - at] == s[k]);
                assert(all.subrange(0, upto.len() as int)[k - at] == all[k - at]);
                assert(upto[k - at] == row[k - from]);
            }
        }
        lemma_scan_row(s, from, row, held[count - 1]);
        lemma_reaches_chain(s, at, normal(), from, normal(), stop, normal());
        assert forall|k: int| #[trigger] depth_change(s, at, normal(), k) == if k <= stop {
            0
        } else {
            depth_change(s, stop, normal(), k)
        } by {
            assert(depth_change(s, at, normal(), from) == 0);
            if k <= from {
            } else if k <= stop {
                assert(depth_change(s, from, normal(), k) == 0);
            } else {
                assert(depth_change(s, from, normal(), k) == depth_change(s, stop, normal(), k));
            }
        }
    }
}

/// The scanner reads a block of rows as the entries that the rows hold:
/// where an opening brace, the rows, some plain bytes and a closing brace
/// stand one behind the other, that brace closes the block.
#[verifier::rlimit(80)]
pub proof fn lemma_scan_row_block(
    s: Seq<u8>,
    open: int,
    rows: Seq<Seq<u8>>,
    held: Seq<Option<(Seq<u8>, Seq<u8>)>>,
    tail: Seq<u8>,
)
    requires
        0 <= open,
        are_rows(rows, held),
        all_plain(tail),
        open + (seq![OPEN_BRACE] + rows_text(rows, rows.len() as int) + tail + seq![
            CLOSE_BRACE,
        ]).len() <= s.len(),
        s.subrange(
            open,
            open + (seq![OPEN_BRACE] + rows_text(rows, rows.len() as int) + tail + seq![
                CLOSE_BRACE,
            ]).len(),
        ) == seq![OPEN_BRACE] + rows_text(rows, rows.len() as int) + tail + seq![CLOSE_BRACE],
    ensures
        ({
            let close = open + 1 + rows_text(rows, rows.len() as int).len() + tail.len();
            &&& closing_brace(s, open, ScanState::initial(), 0) == Some(close)
            &&& reaches(s, open, ScanState::initial(), close + 1, normal())
            &&& entries_between(s, open, ScanState::initial(), close + 1) == held_entries(
                held,
                held.len() as int,
            )
        }),
{
    let text = rows_text(rows, rows.len() as int);
    let empty = Seq::<u8>::empty();
    let from = open + 1;
    let rows_end = from + text.len();
    let close = rows_end + tail.len();
    assert(seq![OPEN_BRACE] + text + tail + seq![CLOSE_BRACE] =~= seq![OPEN_BRACE] + empty + text
        + tail + seq![CLOSE_BRACE]);
    lemma_block_parts(s, open, empty, text, tail);
    lemma_scan_rows(s, from, rows, held, rows.len() as int);
    assert forall|k: int| rows_end <= k < close implies is_plain(#[trigger] s[k]) by {
        assert(s.subrange(rows_end, close)[k - rows_end] == s[k]);
    }
    lemma_plain_stretch(s, rows_end, close);
    let last = step(s, close, normal());
    assert(last.next == normal() && last.width == 1 && last.token == Token::CloseBrace);
    assert(reaches(s, close + 1, normal(), close + 1, normal()));
    assert(reaches(s, close, normal(), close + 1, normal()));
    assert(entries_between(s, close + 1, normal(), close + 1) == Seq::<EntryView>::empty());
    assert(entries_between(s, close, normal(), close + 1) == Seq::<EntryView>::empty());
    lemma_reaches_chain(s, from, normal(), rows_end, normal(), close, normal());
    lemma_reaches_chain(s, from, normal(), close, normal(), close + 1, normal());
    let first = step(s, open, ScanState::initial());
    assert(first.next == normal() && first.width == 1 && first.token == Token::OpenBrace);
    assert(entries_between(s, open, ScanState::initial(), close + 1) == entries_at(
        s,
        open,
        Token::OpenBrace,
    ) + entries_between(s, from, normal(), close + 1));
    assert(entries_between(s, open, ScanState::initial(), close + 1) =~= held_entries(
        held,
        held.len() as int,
    ));
    assert forall|k: int| from <= k <= close implies 1 + #[trigger] depth_change(
        s,
        from,
        normal(),
        k,
    ) >= 1 by {
        if k > rows_end {
            assert(depth_change(s, from, normal(), k) == depth_change(s, rows_end, normal(), k));
            assert(depth_change(s, rows_end, normal(), k) == 0);
        }
    }
    assert(depth_change(s, from, normal(), close) == 0) by {
        if close > rows_end {
            assert(depth_change(s, from, normal(), close) == depth_change(
                s,
                rows_end,
                normal(),
                close,
            ));
        }
    }
    lemma_closing_brace_split(s, from, normal(), 1, close, normal());
    lemma_closing_brace_here(s, close);
    assert(closing_brace(s, open, ScanState::initial(), 0) == closing_brace(
        s,
        from,
        normal(),
        1,
    ));
}

} // verus!
