//! Reading back what the editor wrote: the scanner finds in the lines of an
//! insert or a replacement exactly the entries that were written.

use crate::bytes::{
    ascii_bytes, contains, lemma_occurrence_bytes, lemma_occurs_inside, occurs_at, starts_with,
    CARRIAGE_RETURN, CLOSE_BRACE, COLON, COMMA, NEWLINE, OPEN_BRACE, QUOTE,
};
use crate::entry::{
    entries_at, entries_from, entry_at, gateway_id, in_string, lemma_string_end_from, local_id_of,
    portal_prefix, quoted_prefix, skip_colon_space, string_end, EntryView, Status,
};
use crate::layout::{
    base_indent, crlf, entry_indent, entry_line, entry_lines, entry_lines_upto, entry_text,
    lemma_line_start_bounds, line_ending, line_start,
};
use crate::lines::{join_lines, lemma_join_occurrence, split_lines};
use crate::locate::{block_span, closing_brace, depth_change, lemma_closing_brace_balances};
use crate::quoted::{
    is_string_body, lemma_body_concat, lemma_local_id_is_body, lemma_plain_is_body,
    lemma_portal_prefix_plain, lemma_scanned_string_is_body, lemma_string_run,
};
use crate::remove::target_key;
use crate::replace::{closed_text, is_entry_line, is_other_line, kept_text, pair_texts};
use crate::runs::{
    entries_between, is_plain, lemma_closing_brace_here, lemma_closing_brace_reached,
    lemma_closing_brace_split, lemma_no_prefix_no_entries, lemma_plain_stretch, lemma_reaches_chain,
    lemma_same_bytes_same_run, may_end_pair, normal, reaches,
};
use crate::scan::{step, ScanState, Token};
use crate::space::{
    is_ascii_space, is_space_byte, lemma_end_trimmed_occurrence, lemma_leading_space_bytes,
    lemma_trim_keeps_occurrence,
};
use vstd::prelude::*;

verus! {

/// The entry that the scanner reads from the text of an entry written with
/// the given local identifier and value.
pub open spec fn written_entry(local_id: Seq<u8>, value: Seq<u8>) -> EntryView {
    EntryView {
        local_id,
        gw_id: gateway_id(value),
        raw_value: value,
        same_id: gateway_id(value) == Some(local_id),
        status: Status::Normal,
    }
}

/// The entries that the scanner reads from the lines written for `pairs`.
pub open spec fn written_entries(pairs: Seq<(Seq<u8>, Seq<u8>)>) -> Seq<EntryView> {
    pairs.map_values(|pair: (Seq<u8>, Seq<u8>)| written_entry(pair.0, pair.1))
}

/// Both parts of every pair are string bodies.
pub open spec fn are_string_bodies(pairs: Seq<(Seq<u8>, Seq<u8>)>) -> bool {
    forall|i: int|
        0 <= i < pairs.len() ==> is_string_body((#[trigger] pairs[i]).0) && is_string_body(
            pairs[i].1,
        )
}

/// Every byte is plain: in normal mode it opens nothing and is no brace.
pub open spec fn all_plain(bytes: Seq<u8>) -> bool {
    forall|k: int| 0 <= k < bytes.len() ==> is_plain(#[trigger] bytes[k])
}

/// A line feed, alone or behind a carriage return.
pub open spec fn is_line_ending(ending: Seq<u8>) -> bool {
    ending == seq![NEWLINE] || ending == crlf()
}

/// Behind `from`, the first byte that is neither colon nor ASCII whitespace
/// is no quote: no string value begins there.
pub open spec fn no_value_follows(s: Seq<u8>, from: int) -> bool {
    let at = skip_colon_space(s, from);
    !(at < s.len() && s[at] == QUOTE)
}

/// The parts of an entry text.
pub proof fn lemma_entry_text_parts(local_id: Seq<u8>, value: Seq<u8>)
    ensures
        entry_text(local_id, value) == seq![QUOTE] + (portal_prefix() + local_id) + seq![
            QUOTE,
            COLON,
            QUOTE,
        ] + value + seq![QUOTE],
        entry_text(local_id, value).len() == local_id.len() + value.len() + 17,
{
    reveal_strlit("\":\"");
    lemma_portal_prefix_plain();
    assert(ascii_bytes("\":\""@) =~= seq![QUOTE, COLON, QUOTE]);
    assert(entry_text(local_id, value) =~= seq![QUOTE] + (portal_prefix() + local_id) + seq![
        QUOTE,
        COLON,
        QUOTE,
    ] + value + seq![QUOTE]);
}

/// The text of an entry with the given parts stands in `s` at `at`: the quote
/// of the key at `at`, the key, the quote, colon and quote between key and
/// value, the value, and the closing quote.
pub open spec fn pair_stands_at(s: Seq<u8>, at: int, local_id: Seq<u8>, value: Seq<u8>) -> bool {
    let key = portal_prefix() + local_id;
    let key_end = at + 1 + key.len();
    let value_end = key_end + 3 + value.len();
    &&& 0 <= at
    &&& value_end < s.len()
    &&& s[at] == QUOTE
    &&& s.subrange(at + 1, key_end) == key
    &&& s[key_end] == QUOTE
    &&& s[key_end + 1] == COLON
    &&& s[key_end + 2] == QUOTE
    &&& s.subrange(key_end + 3, value_end) == value
    &&& s[value_end] == QUOTE
}

/// Where the text of an entry stands, its parts stand.
pub proof fn lemma_pair_stands(s: Seq<u8>, at: int, local_id: Seq<u8>, value: Seq<u8>)
    requires
        0 <= at,
        at + entry_text(local_id, value).len() <= s.len(),
        s.subrange(at, at + entry_text(local_id, value).len()) == entry_text(local_id, value),
    ensures
        pair_stands_at(s, at, local_id, value),
{
    let text = entry_text(local_id, value);
    let key = portal_prefix() + local_id;
    let key_end = at + 1 + key.len();
    let value_end = key_end + 3 + value.len();
    lemma_entry_text_parts(local_id, value);
    assert forall|k: int| at <= k < at + text.len() implies s[k] == text[k - at] by {
        assert(s.subrange(at, at + text.len())[k - at] == s[k]);
    }
    assert(s[at] == text[0]);
    assert(s.subrange(at + 1, key_end) =~= key) by {
        assert forall|k: int| at + 1 <= k < key_end implies s[k] == key[k - at - 1] by {
            assert(s[k] == text[k - at]);
        }
    }
    assert(s[key_end] == text[key_end - at]);
    assert(s[key_end + 1] == text[key_end + 1 - at]);
    assert(s[key_end + 2] == text[key_end + 2 - at]);
    assert(s.subrange(key_end + 3, value_end) =~= value) by {
        assert forall|k: int| key_end + 3 <= k < value_end implies s[k] == value[k - key_end
            - 3] by {
            assert(s[k] == text[k - at]);
        }
    }
    assert(s[value_end] == text[value_end - at]);
}

/// The entry that begins at the quote of a written key is the written entry.
proof fn lemma_read_written_entry(s: Seq<u8>, at: int, local_id: Seq<u8>, value: Seq<u8>)
    requires
        pair_stands_at(s, at, local_id, value),
        is_string_body(local_id),
        is_string_body(value),
    ensures
        entries_at(s, at, Token::StringOpen) == seq![written_entry(local_id, value)],
{
    let key = portal_prefix() + local_id;
    let key_end = at + 1 + key.len();
    let value_end = key_end + 3 + value.len();
    lemma_portal_prefix_plain();
    lemma_plain_is_body(portal_prefix(), 0);
    lemma_body_concat(portal_prefix(), local_id);
    lemma_string_run(s, at + 1, key);
    lemma_string_run(s, key_end + 3, value);
    assert(occurs_at(s, quoted_prefix(), at)) by {
        reveal_strlit("\"portal_frag_");
        reveal_strlit("portal_frag_");
        assert(quoted_prefix() =~= seq![QUOTE] + portal_prefix());
        assert(s.subrange(at, at + 13) =~= seq![QUOTE] + portal_prefix()) by {
            assert forall|k: int| at < k < at + 13 implies s[k] == portal_prefix()[k - at
                - 1] by {
                assert(s.subrange(at + 1, key_end)[k - at - 1] == s[k]);
                assert(key[k - at - 1] == portal_prefix()[k - at - 1]);
            }
        }
    }
    assert(skip_colon_space(s, key_end + 1) == key_end + 2) by {
        assert(skip_colon_space(s, key_end + 1) == skip_colon_space(s, key_end + 2));
        assert(!is_ascii_space(QUOTE));
    }
    assert(starts_with(key, portal_prefix())) by {
        assert(key.subrange(0, 12) =~= portal_prefix());
    }
    assert(local_id_of(key) =~= local_id);
    assert(entry_at(s, at) == Some(written_entry(local_id, value)));
}

/// No entry begins at the quote of a written value, if no string value
/// follows the value or the value does not begin with the entry prefix.
proof fn lemma_value_is_no_key(s: Seq<u8>, at: int, local_id: Seq<u8>, value: Seq<u8>)
    requires
        pair_stands_at(s, at, local_id, value),
        is_string_body(value),
        no_value_follows(s, at + entry_text(local_id, value).len()) || !starts_with(
            value,
            portal_prefix(),
        ),
    ensures
        entries_at(s, at + 15 + local_id.len(), Token::StringOpen) == Seq::<EntryView>::empty(),
{
    let key = portal_prefix() + local_id;
    let key_end = at + 1 + key.len();
    let value_end = key_end + 3 + value.len();
    lemma_portal_prefix_plain();
    lemma_entry_text_parts(local_id, value);
    if no_value_follows(s, at + entry_text(local_id, value).len()) {
        lemma_string_run(s, key_end + 3, value);
        assert(entry_at(s, key_end + 2) is None);
    } else {
        lemma_quoted_prefix_bytes();
        let quote = key_end + 2;
        if occurs_at(s, quoted_prefix(), quote) {
            if value.len() >= 12 {
                assert(value.subrange(0, 12) =~= portal_prefix()) by {
                    assert forall|k: int| 0 <= k < 12 implies value[k] == portal_prefix()[k] by {
                        lemma_occurrence_bytes(s, quoted_prefix(), quote, k + 1);
                        assert(s.subrange(quote + 1, value_end)[k] == s[quote + 1 + k]);
                        assert(quoted_prefix()[k + 1] == portal_prefix()[k]);
                    }
                }
            } else {
                let short = value.len() as int;
                lemma_occurrence_bytes(s, quoted_prefix(), quote, short + 1);
                assert(quoted_prefix()[short + 1] == portal_prefix()[short]);
            }
        }
    }
}

/// The scanner reads the text of a written entry as one entry: from normal
/// mode at its first quote it comes to stand behind its last quote in normal
/// mode, and reports the written entry and no brace.
pub proof fn lemma_scan_entry_text(s: Seq<u8>, at: int, local_id: Seq<u8>, value: Seq<u8>)
    requires
        pair_stands_at(s, at, local_id, value),
        is_string_body(local_id),
        is_string_body(value),
        no_value_follows(s, at + entry_text(local_id, value).len()) || !starts_with(
            value,
            portal_prefix(),
        ),
    ensures
        ({
            let stop = at + entry_text(local_id, value).len();
            &&& reaches(s, at, normal(), stop, normal())
            &&& entries_between(s, at, normal(), stop) == seq![written_entry(local_id, value)]
            &&& forall|k: int| #[trigger]
                depth_change(s, at, normal(), k) == if k <= stop {
                    0
                } else {
                    depth_change(s, stop, normal(), k)
                }
        }),
{
    let key = portal_prefix() + local_id;
    let k0 = at + 1;
    let ke = k0 + key.len();
    let q2 = ke + 2;
    let v0 = q2 + 1;
    let ve = v0 + value.len();
    let stop = ve + 1;
    lemma_portal_prefix_plain();
    lemma_entry_text_parts(local_id, value);
    lemma_plain_is_body(portal_prefix(), 0);
    lemma_body_concat(portal_prefix(), local_id);
    lemma_read_written_entry(s, at, local_id, value);
    lemma_value_is_no_key(s, at, local_id, value);
    lemma_quoted_run(s, at, key, entries_at(s, at, Token::StringOpen));
    assert(is_plain(s[ke + 1]));
    lemma_plain_stretch(s, ke + 1, q2);
    lemma_quoted_run(s, q2, value, entries_at(s, q2, Token::StringOpen));
    lemma_reaches_chain(s, at, normal(), ke + 1, normal(), q2, normal());
    lemma_reaches_chain(s, at, normal(), q2, normal(), stop, normal());
    assert(entries_between(s, at, normal(), stop) =~= seq![written_entry(local_id, value)]);
    assert forall|k: int| #[trigger] depth_change(s, at, normal(), k) == if k <= stop {
        0
    } else {
        depth_change(s, stop, normal(), k)
    } by {
        assert(depth_change(s, at, normal(), ke + 1) == 0);
        assert(depth_change(s, at, normal(), q2) == 0) by {
            assert(depth_change(s, ke + 1, normal(), q2) == 0);
        }
        if k <= ke + 1 {
        } else if k <= q2 {
            assert(depth_change(s, ke + 1, normal(), k) == 0);
        } else if k <= stop {
            assert(depth_change(s, q2, normal(), k) == 0);
        } else {
            assert(depth_change(s, q2, normal(), k) == depth_change(s, stop, normal(), k));
        }
    }
}

/// From the quote that opens a string body to behind the quote that closes
/// it, the scanner reports what it reports at the opening quote, and no
/// brace.
proof fn lemma_quoted_run(s: Seq<u8>, at: int, body: Seq<u8>, found: Seq<EntryView>)
    requires
        0 <= at,
        at + 1 + body.len() < s.len(),
        s[at] == QUOTE,
        s.subrange(at + 1, at + 1 + body.len()) == body,
        s[at + 1 + body.len()] == QUOTE,
        is_string_body(body),
        found == entries_at(s, at, Token::StringOpen),
    ensures
        reaches(s, at, normal(), at + body.len() + 2, normal()),
        entries_between(s, at, normal(), at + body.len() + 2) == found,
        forall|k: int| #[trigger]
            depth_change(s, at, normal(), k) == if k <= at + body.len() + 2 {
                0
            } else {
                depth_change(s, at + body.len() + 2, normal(), k)
            },
{
    let stop = at + body.len() + 2;
    lemma_string_run(s, at + 1, body);
    let open = step(s, at, normal());
    assert(open.next == in_string() && open.width == 1 && open.token == Token::StringOpen);
    assert(entries_between(s, at, normal(), stop) == found + entries_between(
        s,
        at + 1,
        in_string(),
        stop,
    ));
    assert forall|k: int| #[trigger] depth_change(s, at, normal(), k) == if k <= stop {
        0
    } else {
        depth_change(s, stop, normal(), k)
    } by {
        if at < k {
            assert(depth_change(s, at, normal(), k) == depth_change(s, at + 1, in_string(), k));
        }
    }
}

/// The scanner reads one written line as one entry: from normal mode at the
/// start of the line it comes to stand at its end in normal mode, and
/// reports the written entry and no brace.
#[verifier::rlimit(80)]
pub proof fn lemma_scan_entry_line(
    s: Seq<u8>,
    at: int,
    indent: Seq<u8>,
    ending: Seq<u8>,
    local_id: Seq<u8>,
    value: Seq<u8>,
    last: bool,
)
    requires
        0 <= at,
        at + entry_line(indent, ending, entry_text(local_id, value), last).len() <= s.len(),
        s.subrange(at, at + entry_line(indent, ending, entry_text(local_id, value), last).len())
            == entry_line(indent, ending, entry_text(local_id, value), last),
        all_plain(indent),
        is_line_ending(ending),
        is_string_body(local_id),
        is_string_body(value),
        last ==> no_value_follows(s, at + indent.len() + entry_text(local_id, value).len()),
    ensures
        ({
            let stop = at + entry_line(indent, ending, entry_text(local_id, value), last).len();
            &&& reaches(s, at, normal(), stop, normal())
            &&& entries_between(s, at, normal(), stop) == seq![written_entry(local_id, value)]
            &&& forall|k: int| #[trigger]
                depth_change(s, at, normal(), k) == if k <= stop {
                    0
                } else {
                    depth_change(s, stop, normal(), k)
                }
        }),
{
    let text = entry_text(local_id, value);
    let line = entry_line(indent, ending, text, last);
    let q1 = at + indent.len();
    let after = q1 + text.len();
    let stop = at + line.len();
    let comma: Seq<u8> = if last {
        seq![]
    } else {
        seq![COMMA]
    };
    assert(line == indent + text + comma + ending);
    assert forall|k: int| at <= k < stop implies s[k] == line[k - at] by {
        assert(s.subrange(at, stop)[k - at] == s[k]);
    }
    assert forall|k: int| at <= k < q1 implies is_plain(#[trigger] s[k]) by {
        assert(s[k] == line[k - at]);
        assert(line[k - at] == indent[k - at]);
    }
    assert(s.subrange(q1, after) =~= text) by {
        assert forall|k: int| q1 <= k < after implies s[k] == text[k - q1] by {
            assert(s[k] == line[k - at]);
        }
    }
    assert forall|k: int| after <= k < stop implies is_plain(#[trigger] s[k]) by {
        assert(s[k] == line[k - at]);
        assert(line[k - at] == (comma + ending)[k - after]);
    }
    if !last {
        assert(s[after] == COMMA) by {
            assert(s[after] == line[after - at]);
            assert(line[after - at] == (comma + ending)[0]);
        }
        assert(skip_colon_space(s, after) == after) by {
            assert(!is_ascii_space(COMMA));
        }
    }
    lemma_pair_stands(s, q1, local_id, value);
    lemma_scan_entry_text(s, q1, local_id, value);
    lemma_plain_stretch(s, at, q1);
    lemma_plain_stretch(s, after, stop);
    lemma_reaches_chain(s, at, normal(), q1, normal(), after, normal());
    lemma_reaches_chain(s, at, normal(), after, normal(), stop, normal());
    assert(entries_between(s, at, normal(), stop) =~= seq![written_entry(local_id, value)]);
    assert forall|k: int| #[trigger] depth_change(s, at, normal(), k) == if k <= stop {
        0
    } else {
        depth_change(s, stop, normal(), k)
    } by {
        assert(depth_change(s, at, normal(), q1) == 0);
        assert(depth_change(s, at, normal(), after) == 0) by {
            assert(depth_change(s, q1, normal(), after) == 0);
        }
        if k <= q1 {
        } else if k <= after {
            assert(depth_change(s, q1, normal(), k) == 0);
        } else if k <= stop {
            assert(depth_change(s, after, normal(), k) == 0);
        } else {
            assert(depth_change(s, after, normal(), k) == depth_change(s, stop, normal(), k));
        }
    }
}

/// The first lines of a list of lines are a prefix of more of its lines.
pub proof fn lemma_lines_prefix(
    indent: Seq<u8>,
    ending: Seq<u8>,
    texts: Seq<Seq<u8>>,
    fewer: int,
    more: int,
)
    requires
        0 <= fewer <= more,
    ensures
        entry_lines_upto(indent, ending, texts, fewer).len() <= entry_lines_upto(
            indent,
            ending,
            texts,
            more,
        ).len(),
        entry_lines_upto(indent, ending, texts, more).subrange(
            0,
            entry_lines_upto(indent, ending, texts, fewer).len() as int,
        ) == entry_lines_upto(indent, ending, texts, fewer),
    decreases more,
{
    let short = entry_lines_upto(indent, ending, texts, fewer);
    if fewer < more {
        lemma_lines_prefix(indent, ending, texts, fewer, more - 1);
        let middle = entry_lines_upto(indent, ending, texts, more - 1);
        let long = entry_lines_upto(indent, ending, texts, more);
        assert(long.subrange(0, short.len() as int) =~= middle.subrange(0, short.len() as int));
    } else {
        assert(short.subrange(0, short.len() as int) =~= short);
    }
}

/// The scanner reads the lines written for a list of pairs as the written
/// entries, in order: from normal mode at the start of the first line it
/// comes to stand behind each line in normal mode, and reports no brace.
#[verifier::rlimit(80)]
pub proof fn lemma_scan_entry_lines(
    s: Seq<u8>,
    at: int,
    indent: Seq<u8>,
    ending: Seq<u8>,
    pairs: Seq<(Seq<u8>, Seq<u8>)>,
    count: int,
)
    requires
        0 <= at,
        0 <= count <= pairs.len(),
        at + entry_lines(indent, ending, pair_texts(pairs)).len() <= s.len(),
        s.subrange(at, at + entry_lines(indent, ending, pair_texts(pairs)).len()) == entry_lines(
            indent,
            ending,
            pair_texts(pairs),
        ),
        all_plain(indent),
        is_line_ending(ending),
        are_string_bodies(pairs),
        pairs.len() > 0 ==> no_value_follows(
            s,
            at + entry_lines(indent, ending, pair_texts(pairs)).len() - ending.len(),
        ),
    ensures
        ({
            let stop = at + entry_lines_upto(indent, ending, pair_texts(pairs), count).len();
            &&& reaches(s, at, normal(), stop, normal())
            &&& entries_between(s, at, normal(), stop) == written_entries(pairs).subrange(
                0,
                count,
            )
            &&& forall|k: int| #[trigger]
                depth_change(s, at, normal(), k) == if k <= stop {
                    0
                } else {
                    depth_change(s, stop, normal(), k)
                }
        }),
    decreases count,
{
    let texts = pair_texts(pairs);
    let lines = entry_lines(indent, ending, texts);
    let total = pairs.len() as int;
    if count == 0 {
        assert(entries_between(s, at, normal(), at) == Seq::<EntryView>::empty());
        assert(written_entries(pairs).subrange(0, 0) =~= Seq::<EntryView>::empty());
        assert forall|k: int| #[trigger] depth_change(s, at, normal(), k) == if k <= at {
            0
        } else {
            depth_change(s, at, normal(), k)
        } by {}
    } else {
        lemma_scan_entry_lines(s, at, indent, ending, pairs, count - 1);
        let before = entry_lines_upto(indent, ending, texts, count - 1);
        let upto = entry_lines_upto(indent, ending, texts, count);
        let local_id = pairs[count - 1].0;
        let value = pairs[count - 1].1;
        let last = count == total;
        let line = entry_line(indent, ending, entry_text(local_id, value), last);
        assert(texts[count - 1] == entry_text(local_id, value));
        assert(upto == before + line);
        lemma_lines_prefix(indent, ending, texts, count, total);
        let from = at + before.len();
        let stop = at + upto.len();
        assert(s.subrange(from, stop) =~= line) by {
            assert forall|k: int| from <= k < stop implies s[k] == line[k - from] by {
                assert(s.subrange(at, at + lines.len())[k - at] == s[k]);
                assert(lines.subrange(0, upto.len() as int)[k - at] == lines[k - at]);
                assert(upto[k - at] == line[k - from]);
            }
        }
        if last {
            lemma_entry_text_parts(local_id, value);
            assert(upto == lines);
            assert(line.len() == indent.len() + entry_text(local_id, value).len() + ending.len());
        }
        lemma_scan_entry_line(s, from, indent, ending, local_id, value, last);
        lemma_reaches_chain(s, at, normal(), from, normal(), stop, normal());
        assert(entries_between(s, at, normal(), stop) =~= written_entries(pairs).subrange(
            0,
            count,
        ));
        assert forall|k: int| #[trigger] depth_change(s, at, normal(), k) == if k <= stop {
            0
        } else {
            depth_change(s, stop, normal(), k)
        } by {
            assert(depth_change(s, at, normal(), from) == 0);
            if k <= from {
            } else if k <= stop {
                assert(depth_change(s, from, normal(), k) == 0);
            } else {
                assert(depth_change(s, from, normal(), k) == depth_change(s, stop, normal(), k));
            }
        }
    }
}

/// Where only bytes that are no quote stand in front of a closing brace, no
/// string value follows.
pub proof fn lemma_no_value_before_brace(s: Seq<u8>, from: int, close: int)
    requires
        0 <= from <= close < s.len(),
        s[close] == CLOSE_BRACE,
        forall|k: int| from <= k < close ==> s[k] != QUOTE,
    ensures
        no_value_follows(s, from),
        from <= skip_colon_space(s, from) <= close,
    decreases close - from,
{
    if from < close && (s[from] == COLON || is_ascii_space(s[from])) {
        lemma_no_value_before_brace(s, from + 1, close);
    } else if from == close {
        assert(!is_ascii_space(CLOSE_BRACE));
    }
}

/// The lines written for one or more pairs end with the line ending.
pub proof fn lemma_lines_end_with_ending(
    indent: Seq<u8>,
    ending: Seq<u8>,
    pairs: Seq<(Seq<u8>, Seq<u8>)>,
)
    requires
        pairs.len() > 0,
    ensures
        entry_lines(indent, ending, pair_texts(pairs)).len() >= ending.len(),
        entry_lines(indent, ending, pair_texts(pairs)).subrange(
            entry_lines(indent, ending, pair_texts(pairs)).len() - ending.len(),
            entry_lines(indent, ending, pair_texts(pairs)).len() as int,
        ) == ending,
{
    let texts = pair_texts(pairs);
    let total = pairs.len() as int;
    let lines = entry_lines(indent, ending, texts);
    let before = entry_lines_upto(indent, ending, texts, total - 1);
    assert(lines == before + (indent + texts[total - 1] + seq![] + ending));
    assert(lines.subrange(lines.len() - ending.len(), lines.len() as int) =~= ending);
}

/// The scanner reads a written block as it was written. Let the scanner
/// stand in normal mode at `head_end` with one brace open, having reported
/// `found`; let the lines for `pairs` stand there, `base` behind them and a
/// closing brace behind `base`. That brace closes the block, and the
/// scanner reports `found` and the written entries.
#[verifier::rlimit(80)]
pub proof fn lemma_scan_written_block(
    s: Seq<u8>,
    open: int,
    head_end: int,
    indent: Seq<u8>,
    ending: Seq<u8>,
    pairs: Seq<(Seq<u8>, Seq<u8>)>,
    base: Seq<u8>,
    found: Seq<EntryView>,
)
    requires
        0 <= open < head_end,
        s[open] == OPEN_BRACE,
        reaches(s, open + 1, normal(), head_end, normal()),
        forall|k: int|
            open + 1 <= k <= head_end ==> 1 + #[trigger] depth_change(s, open + 1, normal(), k)
                >= 1,
        depth_change(s, open + 1, normal(), head_end) == 0,
        entries_between(s, open + 1, normal(), head_end) == found,
        head_end + entry_lines(indent, ending, pair_texts(pairs)).len() + base.len() < s.len(),
        s.subrange(head_end, head_end + entry_lines(indent, ending, pair_texts(pairs)).len())
            == entry_lines(indent, ending, pair_texts(pairs)),
        s.subrange(
            head_end + entry_lines(indent, ending, pair_texts(pairs)).len(),
            head_end + entry_lines(indent, ending, pair_texts(pairs)).len() + base.len(),
        ) == base,
        s[head_end + entry_lines(indent, ending, pair_texts(pairs)).len() + base.len()]
            == CLOSE_BRACE,
        all_plain(indent),
        all_plain(base),
        is_line_ending(ending),
        are_string_bodies(pairs),
    ensures
        ({
            let close = head_end + entry_lines(indent, ending, pair_texts(pairs)).len()
                + base.len();
            &&& closing_brace(s, open, ScanState::initial(), 0) == Some(close)
            &&& reaches(s, open, ScanState::initial(), close + 1, normal())
            &&& entries_between(s, open, ScanState::initial(), close + 1) == found
                + written_entries(pairs)
        }),
{
    let lines = entry_lines(indent, ending, pair_texts(pairs));
    let lines_end = head_end + lines.len();
    let close = lines_end + base.len();
    let total = pairs.len() as int;
    assert forall|k: int| lines_end <= k < close implies is_plain(#[trigger] s[k]) by {
        assert(s.subrange(lines_end, close)[k - lines_end] == s[k]);
    }
    if total > 0 {
        lemma_lines_end_with_ending(indent, ending, pairs);
        let from = lines_end - ending.len();
        assert forall|k: int| from <= k < close implies s[k] != QUOTE by {
            if k < lines_end {
                assert(s.subrange(head_end, lines_end)[k - head_end] == s[k]);
                assert(lines.subrange(lines.len() - ending.len(), lines.len() as int)[k - from]
                    == lines[k - head_end]);
            } else {
                assert(is_plain(s[k]));
            }
        }
        lemma_no_value_before_brace(s, from, close);
    }
    lemma_scan_entry_lines(s, head_end, indent, ending, pairs, total);
    assert(written_entries(pairs).subrange(0, total) =~= written_entries(pairs));
    lemma_plain_stretch(s, lines_end, close);
    let last = step(s, close, normal());
    assert(last.next == normal() && last.width == 1 && last.token == Token::CloseBrace);
    assert(reaches(s, close, normal(), close + 1, normal())) by {
        assert(reaches(s, close + 1, normal(), close + 1, normal()));
    }
    assert(entries_between(s, close, normal(), close + 1) == Seq::<EntryView>::empty()) by {
        assert(entries_between(s, close + 1, normal(), close + 1) == Seq::<EntryView>::empty());
    }
    lemma_reaches_chain(s, open + 1, normal(), head_end, normal(), lines_end, normal());
    lemma_reaches_chain(s, open + 1, normal(), lines_end, normal(), close, normal());
    lemma_reaches_chain(s, open + 1, normal(), close, normal(), close + 1, normal());
    let first = step(s, open, ScanState::initial());
    assert(first.next == normal() && first.width == 1 && first.token == Token::OpenBrace);
    assert(entries_between(s, open, ScanState::initial(), close + 1) == entries_at(
        s,
        open,
        Token::OpenBrace,
    ) + entries_between(s, open + 1, normal(), close + 1));
    assert(entries_between(s, open, ScanState::initial(), close + 1) =~= found + written_entries(
        pairs,
    ));
    assert forall|k: int| open + 1 <= k <= close implies 1 + #[trigger] depth_change(
        s,
        open + 1,
        normal(),
        k,
    ) >= 1 by {
        if k > head_end {
            assert(depth_change(s, open + 1, normal(), k) == depth_change(
                s,
                open + 1,
                normal(),
                head_end,
            ) + depth_change(s, head_end, normal(), k));
            if k > lines_end {
                assert(depth_change(s, head_end, normal(), k) == depth_change(
                    s,
                    lines_end,
                    normal(),
                    k,
                ));
                assert(depth_change(s, lines_end, normal(), k) == 0);
            }
        }
    }
    lemma_closing_brace_split(s, open + 1, normal(), 1, close, normal());
    lemma_closing_brace_here(s, close);
    assert(closing_brace(s, open, ScanState::initial(), 0) == closing_brace(
        s,
        open + 1,
        normal(),
        1,
    ));
}

/// The text, put between braces, is a block of its own: every string,
/// comment and object that it opens it also closes.
pub open spec fn is_balanced_text(text: Seq<u8>) -> bool {
    closing_brace(
        seq![OPEN_BRACE] + text + seq![CLOSE_BRACE],
        0,
        ScanState::initial(),
        0,
    ) == Some(text.len() as int + 1)
}

/// Every byte may belong to the encoding of a whitespace character.
pub open spec fn all_space(bytes: Seq<u8>) -> bool {
    forall|k: int| 0 <= k < bytes.len() ==> is_space_byte(#[trigger] bytes[k])
}

/// The quoted entry prefix is a quote and the entry prefix: thirteen bytes,
/// none of them a space byte, a comma or a line feed.
pub proof fn lemma_quoted_prefix_bytes()
    ensures
        quoted_prefix() == seq![QUOTE] + portal_prefix(),
        quoted_prefix().len() == 13,
        forall|k: int|
            0 <= k < 13 ==> !is_space_byte(#[trigger] quoted_prefix()[k]) && quoted_prefix()[k]
                != COMMA && quoted_prefix()[k] != CLOSE_BRACE,
        quoted_prefix()[0] == QUOTE,
{
    reveal_strlit("\"portal_frag_");
    reveal_strlit("portal_frag_");
    assert(quoted_prefix() =~= seq![QUOTE] + portal_prefix());
    assert(quoted_prefix() =~= seq![
        34u8,
        112u8,
        111u8,
        114u8,
        116u8,
        97u8,
        108u8,
        95u8,
        102u8,
        114u8,
        97u8,
        103u8,
        95u8,
    ]);
}

/// Over a balanced text that stands behind an opening brace, the scanner
/// runs from normal mode to normal mode, and the depth is the same behind it
/// as in front of it and never less in between.
pub proof fn lemma_balanced_head(s: Seq<u8>, open: int, text: Seq<u8>)
    requires
        0 <= open,
        open + 1 + text.len() < s.len(),
        s.subrange(open + 1, open + 1 + text.len()) == text,
        is_balanced_text(text),
        !may_end_pair(s[open + 1 + text.len()]),
    ensures
        reaches(s, open + 1, normal(), open + 1 + text.len(), normal()),
        depth_change(s, open + 1, normal(), open + 1 + text.len()) == 0,
        forall|k: int|
            open + 1 <= k <= open + 1 + text.len() ==> 1 + #[trigger] depth_change(
                s,
                open + 1,
                normal(),
                k,
            ) >= 1,
{
    let w = seq![OPEN_BRACE] + text + seq![CLOSE_BRACE];
    let len = text.len() as int;
    let first = step(w, 0, ScanState::initial());
    assert(first.next == normal() && first.width == 1 && first.token == Token::OpenBrace);
    assert(closing_brace(w, 0, ScanState::initial(), 0) == closing_brace(w, 1, normal(), 1));
    lemma_closing_brace_reached(w, 1, normal(), 1, len + 1);
    lemma_closing_brace_balances(w, 1, normal(), 1, len + 1);
    assert(w.subrange(1, 1 + len) =~= text);
    lemma_same_bytes_same_run(w, 1, s, open + 1, len, normal(), normal());
    assert forall|k: int| open + 1 <= k <= open + 1 + len implies 1 + #[trigger] depth_change(
        s,
        open + 1,
        normal(),
        k,
    ) >= 1 by {
        let j = k - open - 1;
        assert(depth_change(w, 1, normal(), 1 + j) == depth_change(
            s,
            open + 1,
            normal(),
            open + 1 + j,
        ));
        assert(1 + depth_change(w, 1, normal(), 1 + j) >= 1);
    }
    assert(depth_change(w, 1, normal(), 1 + len) == depth_change(
        s,
        open + 1,
        normal(),
        open + 1 + len,
    ));
}

/// The scanner reads a block that a replacement wrote: where an opening
/// brace, a balanced text without the quoted entry prefix, the lines for
/// `pairs`, some whitespace and a closing brace stand one behind the other,
/// that brace closes the block, and the scanner reports the written entries
/// and no other.
#[verifier::rlimit(80)]
pub proof fn lemma_scan_replaced_block(
    s: Seq<u8>,
    open: int,
    text: Seq<u8>,
    indent: Seq<u8>,
    ending: Seq<u8>,
    pairs: Seq<(Seq<u8>, Seq<u8>)>,
    base: Seq<u8>,
)
    requires
        0 <= open,
        open + (seq![OPEN_BRACE] + text + entry_lines(indent, ending, pair_texts(pairs)) + base
            + seq![CLOSE_BRACE]).len() <= s.len(),
        s.subrange(
            open,
            open + (seq![OPEN_BRACE] + text + entry_lines(indent, ending, pair_texts(pairs))
                + base + seq![CLOSE_BRACE]).len(),
        ) == seq![OPEN_BRACE] + text + entry_lines(indent, ending, pair_texts(pairs)) + base
            + seq![CLOSE_BRACE],
        is_balanced_text(text),
        !contains(text, quoted_prefix()),
        text.len() > 0 ==> text.last() == NEWLINE,
        all_space(indent),
        indent.len() > 0,
        all_space(base),
        is_line_ending(ending),
        are_string_bodies(pairs),
    ensures
        ({
            let close = open + 1 + text.len() + entry_lines(
                indent,
                ending,
                pair_texts(pairs),
            ).len() + base.len();
            &&& closing_brace(s, open, ScanState::initial(), 0) == Some(close)
            &&& reaches(s, open, ScanState::initial(), close + 1, normal())
            &&& entries_between(s, open, ScanState::initial(), close + 1) == written_entries(
                pairs,
            )
        }),
{
    let lines = entry_lines(indent, ending, pair_texts(pairs));
    let head_end = open + 1 + text.len();
    let lines_end = head_end + lines.len();
    let close = lines_end + base.len();
    lemma_block_parts(s, open, text, lines, base);
    lemma_space_is_plain(indent);
    lemma_space_is_plain(base);
    assert(!may_end_pair(s[head_end])) by {
        if pairs.len() > 0 {
            lemma_first_line_byte(indent, ending, pair_texts(pairs));
            assert(s.subrange(head_end, lines_end)[0] == s[head_end]);
            assert(is_space_byte(indent[0]));
        } else if base.len() > 0 {
            assert(s.subrange(lines_end, close)[0] == s[head_end]);
            assert(is_space_byte(base[0]));
        }
    }
    lemma_balanced_head(s, open, text);
    lemma_head_has_no_entries(s, open, text);
    lemma_scan_written_block(
        s,
        open,
        head_end,
        indent,
        ending,
        pairs,
        base,
        Seq::<EntryView>::empty(),
    );
    assert(Seq::<EntryView>::empty() + written_entries(pairs) =~= written_entries(pairs));
}

/// Where a block stands that is made of an opening brace, a text, lines, a
/// base indentation and a closing brace, each of its parts stands.
pub proof fn lemma_block_parts(
    s: Seq<u8>,
    open: int,
    text: Seq<u8>,
    lines: Seq<u8>,
    base: Seq<u8>,
)
    requires
        0 <= open,
        open + (seq![OPEN_BRACE] + text + lines + base + seq![CLOSE_BRACE]).len() <= s.len(),
        s.subrange(
            open,
            open + (seq![OPEN_BRACE] + text + lines + base + seq![CLOSE_BRACE]).len(),
        ) == seq![OPEN_BRACE] + text + lines + base + seq![CLOSE_BRACE],
    ensures
        ({
            let head_end = open + 1 + text.len();
            let lines_end = head_end + lines.len();
            let close = lines_end + base.len();
            &&& close < s.len()
            &&& s[open] == OPEN_BRACE
            &&& s.subrange(open + 1, head_end) == text
            &&& s.subrange(head_end, lines_end) == lines
            &&& s.subrange(lines_end, close) == base
            &&& s[close] == CLOSE_BRACE
        }),
{
    let block = seq![OPEN_BRACE] + text + lines + base + seq![CLOSE_BRACE];
    let head_end = open + 1 + text.len();
    let lines_end = head_end + lines.len();
    let close = lines_end + base.len();
    let part = s.subrange(open, open + block.len());
    let a = head_end - open;
    let b = lines_end - open;
    let c = close - open;
    assert(s[open] == part[0]);
    assert(s[close] == part[c]);
    assert(s.subrange(open + 1, head_end) =~= part.subrange(1, a));
    assert(block.subrange(1, a) =~= text);
    assert(s.subrange(head_end, lines_end) =~= part.subrange(a, b));
    assert(block.subrange(a, b) =~= lines);
    assert(s.subrange(lines_end, close) =~= part.subrange(b, c));
    assert(block.subrange(b, c) =~= base);
}

/// The lines for one or more texts begin with the indentation.
pub proof fn lemma_first_line_byte(indent: Seq<u8>, ending: Seq<u8>, texts: Seq<Seq<u8>>)
    requires
        texts.len() > 0,
        indent.len() > 0,
    ensures
        entry_lines(indent, ending, texts).len() > 0,
        entry_lines(indent, ending, texts)[0] == indent[0],
{
    let lines = entry_lines(indent, ending, texts);
    lemma_lines_prefix(indent, ending, texts, 1, texts.len() as int);
    let one = entry_lines_upto(indent, ending, texts, 1);
    let none = entry_lines_upto(indent, ending, texts, 0);
    assert(one == none + entry_line(indent, ending, texts[0], 1 == texts.len()));
    assert(one[0] == indent[0]);
    assert(lines.subrange(0, one.len() as int)[0] == lines[0]);
}

/// Over a text without the quoted entry prefix that ends with a line feed,
/// or over no text, the scanner reports no entry behind the opening brace.
pub proof fn lemma_head_has_no_entries(s: Seq<u8>, open: int, text: Seq<u8>)
    requires
        0 <= open,
        open + 1 + text.len() <= s.len(),
        s.subrange(open + 1, open + 1 + text.len()) == text,
        !contains(text, quoted_prefix()),
        text.len() > 0 ==> text.last() == NEWLINE,
    ensures
        entries_between(s, open + 1, normal(), open + 1 + text.len()) == Seq::<
            EntryView,
        >::empty(),
{
    let head_end = open + 1 + text.len();
    lemma_quoted_prefix_bytes();
    assert forall|i: int| open + 1 <= i < head_end implies !occurs_at(s, quoted_prefix(), i) by {
        if occurs_at(s, quoted_prefix(), i) {
            if i + 13 <= head_end {
                lemma_occurs_inside(s, open + 1, head_end, quoted_prefix(), i);
                assert(occurs_at(text, quoted_prefix(), i - open - 1));
            } else {
                lemma_occurrence_bytes(s, quoted_prefix(), i, head_end - 1 - i);
                assert(s[head_end - 1] == text[text.len() - 1]) by {
                    assert(s.subrange(open + 1, head_end)[text.len() - 1] == s[head_end - 1]);
                }
                assert(is_space_byte(NEWLINE));
            }
        }
    }
    lemma_no_prefix_no_entries(s, open + 1, normal(), head_end);
}

/// What a replacement keeps of a block does not hold the quoted entry
/// prefix.
pub proof fn lemma_kept_text_has_no_prefix(interior: Seq<u8>)
    ensures
        !contains(kept_text(interior), quoted_prefix()),
{
    lemma_quoted_prefix_bytes();
    let needle = quoted_prefix();
    let kept = split_lines(interior).filter(is_other_line());
    if contains(kept_text(interior), needle) {
        lemma_end_trimmed_occurrence(join_lines(kept), needle);
        let at = choose|at: int| occurs_at(join_lines(kept), needle, at);
        assert(needle.last() == needle[12]);
        assert forall|k: int| 0 <= k < needle.len() implies needle[k] != NEWLINE by {
            assert(!is_space_byte(needle[k]));
        }
        lemma_join_occurrence(kept, needle, at);
        let i = choose|i: int| 0 <= i < kept.len() && contains(#[trigger] kept[i], needle);
        split_lines(interior).lemma_filter_pred(is_other_line(), i);
        assert(!is_entry_line(kept[i]));
        let inside = choose|inside: int| occurs_at(kept[i], needle, inside);
        lemma_trim_keeps_occurrence(kept[i], needle, inside);
    }
}

/// The kept text, closed for entries to follow, does not hold the quoted
/// entry prefix either, and ends with a line feed.
pub proof fn lemma_closed_text_has_no_prefix(kept: Seq<u8>, ending: Seq<u8>)
    requires
        !contains(kept, quoted_prefix()),
        is_line_ending(ending),
    ensures
        !contains(closed_text(kept, ending), quoted_prefix()),
        closed_text(kept, ending).len() > 0,
        closed_text(kept, ending).last() == NEWLINE,
{
    lemma_quoted_prefix_bytes();
    let needle = quoted_prefix();
    let text = closed_text(kept, ending);
    if contains(text, needle) {
        let at = choose|at: int| occurs_at(text, needle, at);
        if at + 13 <= kept.len() {
            lemma_occurs_inside(text, 0, kept.len() as int, needle, at);
            assert(text.subrange(0, kept.len() as int) =~= kept);
        } else {
            lemma_occurrence_bytes(text, needle, at, kept.len() - at);
            assert(is_space_byte(NEWLINE) && is_space_byte(CARRIAGE_RETURN));
        }
    }
}

/// An entry that the scanner read is in the form in which it would be
/// written: identifier and value are string bodies, and writing and reading
/// them gives the same entry.
pub open spec fn is_rewritable(entry: EntryView) -> bool {
    &&& is_string_body(entry.local_id)
    &&& is_string_body(entry.raw_value)
    &&& entry == written_entry(entry.local_id, entry.raw_value)
}

/// Every entry that the scanner reads at a quote can be written and read
/// again.
pub proof fn lemma_entry_at_is_rewritable(s: Seq<u8>, start: int)
    requires
        0 <= start,
        entry_at(s, start) is Some,
    ensures
        is_rewritable(entry_at(s, start)->Some_0),
{
    let key_end = string_end(s, start + 1)->Some_0;
    lemma_scanned_string_is_body(s, start + 1, key_end);
    let key = s.subrange(start + 1, key_end);
    lemma_local_id_is_body(key);
    let quote = skip_colon_space(s, key_end + 1);
    lemma_skip_colon_space_bounds(s, key_end + 1);
    let value_end = string_end(s, quote + 1)->Some_0;
    lemma_scanned_string_is_body(s, quote + 1, value_end);
}

/// Skipping colons and whitespace moves forward only, over colons and
/// whitespace only, and stops on a byte that is neither.
pub proof fn lemma_skip_colon_space_bounds(s: Seq<u8>, from: int)
    ensures
        from <= skip_colon_space(s, from),
        0 <= from <= s.len() ==> skip_colon_space(s, from) <= s.len(),
        forall|k: int|
            0 <= from <= k < skip_colon_space(s, from) ==> #[trigger] s[k] == COLON
                || is_ascii_space(s[k]),
        0 <= from && skip_colon_space(s, from) < s.len() ==> s[skip_colon_space(s, from)] != COLON
            && !is_ascii_space(s[skip_colon_space(s, from)]),
    decreases s.len() - from,
{
    if 0 <= from < s.len() && (s[from] == COLON || is_ascii_space(s[from])) {
        lemma_skip_colon_space_bounds(s, from + 1);
    }
}

/// Every entry that the scanner reports can be written and read again.
pub proof fn lemma_scanned_entries_are_rewritable(s: Seq<u8>, at: int, st: ScanState, i: int)
    requires
        0 <= at,
        0 <= i < entries_from(s, at, st).len(),
    ensures
        is_rewritable(entries_from(s, at, st)[i]),
    decreases s.len() - at,
{
    let r = step(s, at, st);
    let here = entries_at(s, at, r.token);
    if i < here.len() {
        lemma_entry_at_is_rewritable(s, at);
    } else {
        lemma_scanned_entries_are_rewritable(s, at + r.width, r.next, i - here.len());
    }
}

/// The key literal of every entry that the scanner reports stands in the
/// text, where the key stands.
pub proof fn lemma_entry_key_stands(s: Seq<u8>, at: int, st: ScanState, k: int)
    requires
        0 <= at,
        0 <= k < entries_from(s, at, st).len(),
    ensures
        exists|i: int|
            at <= i && #[trigger] occurs_at(s, target_key(entries_from(s, at, st)[k].local_id), i),
    decreases s.len() - at,
{
    let r = step(s, at, st);
    let here = entries_at(s, at, r.token);
    if k < here.len() {
        lemma_quoted_prefix_bytes();
        lemma_portal_prefix_plain();
        lemma_occurrence_bytes(s, quoted_prefix(), at, 0);
        let key_end = string_end(s, at + 1)->Some_0;
        lemma_string_end_from(s, at + 1, in_string());
        let key = s.subrange(at + 1, key_end);
        assert(key.subrange(0, 12) == portal_prefix());
        assert(key =~= portal_prefix() + local_id_of(key));
        assert(s.subrange(at, key_end + 1) =~= target_key(local_id_of(key)));
        assert(occurs_at(s, target_key(entries_from(s, at, st)[k].local_id), at));
    } else {
        lemma_entry_key_stands(s, at + r.width, r.next, k - here.len());
        let i = choose|i: int|
            at + r.width <= i && #[trigger] occurs_at(
                s,
                target_key(entries_from(s, at + r.width, r.next)[k - here.len()].local_id),
                i,
            );
        assert(occurs_at(s, target_key(entries_from(s, at, st)[k].local_id), i));
    }
}

/// Space bytes are plain.
pub proof fn lemma_space_is_plain(bytes: Seq<u8>)
    requires
        all_space(bytes),
    ensures
        all_plain(bytes),
{
    assert forall|k: int| 0 <= k < bytes.len() implies is_plain(#[trigger] bytes[k]) by {
        assert(is_space_byte(bytes[k]));
    }
}

/// The base indentation of a block is made of space bytes, and so is the
/// indentation of its entries, which is not empty.
pub proof fn lemma_indent_is_space(raw: Seq<u8>, open: int)
    requires
        0 <= open <= raw.len(),
    ensures
        all_space(base_indent(raw, open)),
        all_space(entry_indent(raw, open)),
        entry_indent(raw, open).len() > 0,
{
    lemma_line_start_bounds(raw, open);
    let line = raw.subrange(line_start(raw, open), open);
    lemma_leading_space_bytes(line, 0);
    let base = base_indent(raw, open);
    assert forall|k: int| 0 <= k < base.len() implies is_space_byte(#[trigger] base[k]) by {
        assert(base[k] == line[k]);
    }
    let deeper = entry_indent(raw, open);
    assert forall|k: int| 0 <= k < deeper.len() implies is_space_byte(#[trigger] deeper[k]) by {
        if k < base.len() {
            assert(deeper[k] == base[k]);
        }
    }
}

/// What a replacement keeps of the block of the document is balanced: the
/// kept lines close every string, comment and object that they open.
pub open spec fn keeps_balanced_text(raw: Seq<u8>) -> bool {
    &&& block_span(raw) is Ok
    &&& is_balanced_text(
        closed_text(
            kept_text(raw.subrange(block_span(raw)->Ok_0.0 + 1, block_span(raw)->Ok_0.1)),
            line_ending(raw),
        ),
    )
}

} // verus!
