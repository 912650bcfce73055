//! Byte-string primitives shared by the scanner and the editor.

use vstd::prelude::*;

verus! {

pub const QUOTE: u8 = '"' as u8;

pub const BACKSLASH: u8 = '\\' as u8;

pub const SLASH: u8 = '/' as u8;

pub const STAR: u8 = '*' as u8;

pub const OPEN_BRACE: u8 = '{' as u8;

pub const CLOSE_BRACE: u8 = '}' as u8;

pub const COLON: u8 = ':' as u8;

pub const COMMA: u8 = ',' as u8;

pub const AMPERSAND: u8 = '&' as u8;

pub const PIPE: u8 = '|' as u8;

pub const SPACE: u8 = ' ' as u8;

pub const TAB: u8 = '\t' as u8;

pub const NEWLINE: u8 = '\n' as u8;

pub const VERTICAL_TAB: u8 = 0x0B;

pub const FORM_FEED: u8 = 0x0C;

pub const CARRIAGE_RETURN: u8 = '\r' as u8;

/// The bytes of a text made of ASCII characters only.
pub open spec fn ascii_bytes(text: Seq<char>) -> Seq<u8> {
    Seq::new(text.len(), |i: int| text[i] as u8)
}

/// The bytes of an ASCII string literal.
pub fn literal_bytes(text: &'static str) -> (bytes: &'static [u8])
    requires
        text.is_ascii(),
    ensures
        bytes@ == ascii_bytes(text@),
{
    proof {
        vstd::string::is_ascii_spec_bytes(text);
    }
    text.as_bytes()
}

/// The byte strings that a list of vectors holds, in order.
pub open spec fn byte_views(items: Seq<Vec<u8>>) -> Seq<Seq<u8>> {
    items.map_values(|item: Vec<u8>| item@)
}

/// Appends a copy of `src` to `out`.
pub fn append(out: &mut Vec<u8>, src: &[u8])
    ensures
        final(out)@ == old(out)@ + src@,
{
    let mut i: usize = 0;
    while i < src.len()
        invariant
            i <= src.len(),
            out@ == old(out)@ + src@.subrange(0, i as int),
        decreases src.len() - i,
    {
        out.push(src[i]);
        i += 1;
    }
    assert(src@.subrange(0, src.len() as int) == src@);
}

/// A fresh vector holding `src[from..to]`.
pub fn copy_range(src: &[u8], from: usize, to: usize) -> (out: Vec<u8>)
    requires
        from <= to <= src.len(),
    ensures
        out@ == src@.subrange(from as int, to as int),
{
    let mut out: Vec<u8> = Vec::new();
    let mut i: usize = from;
    while i < to
        invariant
            from <= i <= to <= src.len(),
            out@ == src@.subrange(from as int, i as int),
        decreases to - i,
    {
        out.push(src[i]);
        i += 1;
    }
    out
}

/// Whether two byte strings hold the same bytes.
pub fn same_bytes(a: &[u8], b: &[u8]) -> (r: bool)
    ensures
        r == (a@ == b@),
{
    if a.len() != b.len() {
        return false;
    }
    let mut i: usize = 0;
    while i < a.len()
        invariant
            i <= a.len(),
            a.len() == b.len(),
            a@.subrange(0, i as int) == b@.subrange(0, i as int),
        decreases a.len() - i,
    {
        if a[i] != b[i] {
            return false;
        }
        assert(a@.subrange(0, i + 1) == a@.subrange(0, i as int).push(a@[i as int]));
        assert(b@.subrange(0, i + 1) == b@.subrange(0, i as int).push(b@[i as int]));
        i += 1;
    }
    assert(a@.subrange(0, a.len() as int) == a@);
    assert(b@.subrange(0, b.len() as int) == b@);
    true
}

/// `needle` occurs in `hay` at offset `at`.
pub open spec fn occurs_at(hay: Seq<u8>, needle: Seq<u8>, at: int) -> bool {
    &&& 0 <= at
    &&& at + needle.len() <= hay.len()
    &&& hay.subrange(at, at + needle.len()) == needle
}

/// `needle` occurs somewhere in `hay`. The empty needle occurs in every
/// byte string.
pub open spec fn contains(hay: Seq<u8>, needle: Seq<u8>) -> bool {
    exists|at: int| occurs_at(hay, needle, at)
}

/// `at` is the offset of the leftmost occurrence of `needle` in `hay`.
pub open spec fn is_first_occurrence(hay: Seq<u8>, needle: Seq<u8>, at: int) -> bool {
    &&& occurs_at(hay, needle, at)
    &&& forall|b: int| 0 <= b < at ==> !occurs_at(hay, needle, b)
}

/// Offset of the leftmost occurrence of `needle` in `hay`, if it occurs.
pub open spec fn first_occurrence(hay: Seq<u8>, needle: Seq<u8>) -> Option<int> {
    if contains(hay, needle) {
        Some(choose|at: int| is_first_occurrence(hay, needle, at))
    } else {
        None
    }
}

/// A leftmost occurrence is the value of `first_occurrence`.
pub proof fn lemma_first_occurrence_is(hay: Seq<u8>, needle: Seq<u8>, at: int)
    requires
        is_first_occurrence(hay, needle, at),
    ensures
        first_occurrence(hay, needle) == Some(at),
{
    let c = choose|c: int| is_first_occurrence(hay, needle, c);
    assert(is_first_occurrence(hay, needle, c));
    if c < at {
        assert(!occurs_at(hay, needle, c));
    }
    if at < c {
        assert(!occurs_at(hay, needle, at));
    }
}

/// What occurs in a part of a byte string occurs in the byte string.
pub proof fn lemma_occurs_in_part(hay: Seq<u8>, from: int, to: int, needle: Seq<u8>, at: int)
    requires
        0 <= from <= to <= hay.len(),
        occurs_at(hay.subrange(from, to), needle, at),
    ensures
        occurs_at(hay, needle, from + at),
{
    assert(hay.subrange(from + at, from + at + needle.len()) =~= hay.subrange(from, to).subrange(
        at,
        at + needle.len(),
    ));
}

/// What occurs in a byte string, inside one of its parts, occurs in that
/// part.
pub proof fn lemma_occurs_inside(hay: Seq<u8>, from: int, to: int, needle: Seq<u8>, at: int)
    requires
        0 <= from <= at,
        at + needle.len() <= to <= hay.len(),
        occurs_at(hay, needle, at),
    ensures
        occurs_at(hay.subrange(from, to), needle, at - from),
{
    assert(hay.subrange(at, at + needle.len()) =~= hay.subrange(from, to).subrange(
        at - from,
        at - from + needle.len(),
    ));
}

/// Where `needle` occurs, its bytes stand.
pub proof fn lemma_occurrence_bytes(hay: Seq<u8>, needle: Seq<u8>, at: int, k: int)
    requires
        occurs_at(hay, needle, at),
        0 <= k < needle.len(),
    ensures
        hay[at + k] == needle[k],
{
    assert(hay.subrange(at, at + needle.len())[k] == hay[at + k]);
}

/// Where `needle` occurs at all, it has a leftmost occurrence, and that is
/// the value of `first_occurrence`.
pub proof fn lemma_first_occurrence_exists(hay: Seq<u8>, needle: Seq<u8>, at: int)
    requires
        occurs_at(hay, needle, at),
    ensures
        first_occurrence(hay, needle) is Some,
        is_first_occurrence(hay, needle, first_occurrence(hay, needle)->Some_0),
        first_occurrence(hay, needle)->Some_0 <= at,
    decreases at,
{
    if exists|b: int| 0 <= b < at && occurs_at(hay, needle, b) {
        let b = choose|b: int| 0 <= b < at && occurs_at(hay, needle, b);
        lemma_first_occurrence_exists(hay, needle, b);
    } else {
        assert(is_first_occurrence(hay, needle, at));
        lemma_first_occurrence_is(hay, needle, at);
    }
}

/// `hay` begins with `needle`.
pub open spec fn starts_with(hay: Seq<u8>, needle: Seq<u8>) -> bool {
    occurs_at(hay, needle, 0)
}

/// Whether `needle` occurs in `hay` at offset `at`.
pub fn matches_at(hay: &[u8], needle: &[u8], at: usize) -> (r: bool)
    ensures
        r == occurs_at(hay@, needle@, at as int),
{
    if at > hay.len() || needle.len() > hay.len() - at {
        return false;
    }
    let mut i: usize = 0;
    while i < needle.len()
        invariant
            i <= needle.len(),
            at + needle.len() <= hay.len(),
            hay@.subrange(at as int, at + i) == needle@.subrange(0, i as int),
        decreases needle.len() - i,
    {
        if hay[at + i] != needle[i] {
            assert(hay@.subrange(at as int, at + needle.len())[i as int] != needle@[i as int]);
            return false;
        }
        assert(hay@.subrange(at as int, at + i + 1) == hay@.subrange(at as int, at + i).push(
            hay@[at + i],
        ));
        assert(needle@.subrange(0, i + 1) == needle@.subrange(0, i as int).push(needle@[i as int]));
        i += 1;
    }
    assert(needle@.subrange(0, needle.len() as int) == needle@);
    true
}

/// Offset of the leftmost occurrence of `needle` in `hay`.
pub fn find(hay: &[u8], needle: &[u8]) -> (r: Option<usize>)
    ensures
        first_occurrence(hay@, needle@) == match r {
            Some(at) => Some(at as int),
            None => None,
        },
        r matches Some(at) ==> is_first_occurrence(hay@, needle@, at as int),
        r is None ==> !contains(hay@, needle@),
{
    if needle.len() > hay.len() {
        return None;
    }
    let last: usize = hay.len() - needle.len();
    let mut at: usize = 0;
    loop
        invariant
            at <= last,
            last == hay.len() - needle.len(),
            forall|b: int| 0 <= b < at ==> !occurs_at(hay@, needle@, b),
        decreases last - at,
    {
        if matches_at(hay, needle, at) {
            proof {
                lemma_first_occurrence_is(hay@, needle@, at as int);
            }
            return Some(at);
        }
        if at == last {
            return None;
        }
        at += 1;
    }
}

/// Whether `needle` occurs somewhere in `hay`.
pub fn has_occurrence(hay: &[u8], needle: &[u8]) -> (r: bool)
    ensures
        r == contains(hay@, needle@),
{
    find(hay, needle).is_some()
}

/// Whether `hay` begins with `needle`.
pub fn has_prefix(hay: &[u8], needle: &[u8]) -> (r: bool)
    ensures
        r == starts_with(hay@, needle@),
{
    matches_at(hay, needle, 0)
}

} // verus!
