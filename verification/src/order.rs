//! The order in which a replacement writes its entries: byte strings compared
//! byte by byte, a proper prefix before any of its extensions.

use vstd::prelude::*;

verus! {

/// `a` comes before `b`, looking only at the bytes from `from` on.
pub open spec fn lex_less_from(a: Seq<u8>, b: Seq<u8>, from: int) -> bool
    decreases a.len() - from,
{
    if !(0 <= from < b.len()) {
        false
    } else if from >= a.len() {
        true
    } else if a[from] != b[from] {
        a[from] < b[from]
    } else {
        lex_less_from(a, b, from + 1)
    }
}

/// `a` comes strictly before `b` in lexicographic order.
pub open spec fn lex_less(a: Seq<u8>, b: Seq<u8>) -> bool {
    lex_less_from(a, b, 0)
}

/// The order is transitive.
pub proof fn lemma_lex_less_transitive(a: Seq<u8>, b: Seq<u8>, c: Seq<u8>)
    requires
        lex_less(a, b),
        lex_less(b, c),
    ensures
        lex_less(a, c),
{
    lemma_transitive_from(a, b, c, 0);
}

proof fn lemma_transitive_from(a: Seq<u8>, b: Seq<u8>, c: Seq<u8>, from: int)
    requires
        0 <= from,
        lex_less_from(a, b, from),
        lex_less_from(b, c, from),
    ensures
        lex_less_from(a, c, from),
    decreases a.len() - from,
{
    if from < a.len() && a[from] == b[from] && b[from] == c[from] {
        lemma_transitive_from(a, b, c, from + 1);
    }
}

/// Of two different byte strings one comes before the other, and never both.
pub proof fn lemma_lex_less_total(a: Seq<u8>, b: Seq<u8>)
    ensures
        lex_less(a, b) || lex_less(b, a) || a == b,
        !(lex_less(a, b) && lex_less(b, a)),
        !lex_less(a, a),
{
    lemma_total_from(a, b, 0);
    lemma_total_from(a, a, 0);
    assert(a.subrange(0, a.len() as int) == a);
    assert(b.subrange(0, b.len() as int) == b);
}

proof fn lemma_total_from(a: Seq<u8>, b: Seq<u8>, from: int)
    requires
        0 <= from <= a.len(),
        from <= b.len(),
    ensures
        lex_less_from(a, b, from) || lex_less_from(b, a, from) || a.subrange(from, a.len() as int)
            == b.subrange(from, b.len() as int),
        !(lex_less_from(a, b, from) && lex_less_from(b, a, from)),
        a.subrange(from, a.len() as int) == b.subrange(from, b.len() as int) ==> !lex_less_from(
            a,
            b,
            from,
        ),
    decreases a.len() - from,
{
    let ra = a.subrange(from, a.len() as int);
    let rb = b.subrange(from, b.len() as int);
    if from < a.len() && from < b.len() {
        assert(ra[0] == a[from]);
        assert(rb[0] == b[from]);
        if a[from] == b[from] {
            lemma_total_from(a, b, from + 1);
            let ta = a.subrange(from + 1, a.len() as int);
            let tb = b.subrange(from + 1, b.len() as int);
            assert(ra == seq![a[from]] + ta);
            assert(rb == seq![b[from]] + tb);
            if ra == rb {
                assert(ta == ra.subrange(1, ra.len() as int));
                assert(tb == rb.subrange(1, rb.len() as int));
            }
        }
    } else if from == a.len() && from == b.len() {
        assert(ra == rb);
    } else {
        assert(ra.len() != rb.len());
    }
}

/// Whether `a` comes strictly before `b`.
pub fn less_bytes(a: &[u8], b: &[u8]) -> (r: bool)
    ensures
        r == lex_less(a@, b@),
{
    let mut i: usize = 0;
    while i < a.len() && i < b.len()
        invariant
            i <= a.len(),
            i <= b.len(),
            lex_less(a@, b@) == lex_less_from(a@, b@, i as int),
        decreases a.len() - i,
    {
        if a[i] != b[i] {
            return a[i] < b[i];
        }
        i += 1;
    }
    i < b.len()
}

} // verus!
