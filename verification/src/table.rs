//! The mapping that a replacement writes into a block: local identifiers with
//! their raw values, no identifier twice, kept in the order in which the
//! entries are written.

use crate::bytes::{copy_range, same_bytes};
use crate::order::{lemma_lex_less_total, lemma_lex_less_transitive, less_bytes, lex_less};
use vstd::prelude::*;

verus! {

/// The keys strictly ascend: the pairs are sorted and no key occurs twice.
pub open spec fn strictly_sorted(pairs: Seq<(Seq<u8>, Seq<u8>)>) -> bool {
    forall|i: int, j: int| 0 <= i < j < pairs.len() ==> lex_less(pairs[i].0, pairs[j].0)
}

/// The offset of the first pair at or after `from` whose key does not come
/// before `key`.
pub open spec fn slot(pairs: Seq<(Seq<u8>, Seq<u8>)>, key: Seq<u8>, from: int) -> int
    decreases pairs.len() - from,
{
    if 0 <= from < pairs.len() && lex_less(pairs[from].0, key) {
        slot(pairs, key, from + 1)
    } else {
        from
    }
}

/// The pairs after `key` has been bound to `value`: the value of an existing
/// key is replaced, a new key goes where the order puts it.
pub open spec fn put(pairs: Seq<(Seq<u8>, Seq<u8>)>, key: Seq<u8>, value: Seq<u8>) -> Seq<
    (Seq<u8>, Seq<u8>),
> {
    let at = slot(pairs, key, 0);
    if at < pairs.len() && pairs[at].0 == key {
        pairs.update(at, (key, value))
    } else {
        pairs.insert(at, (key, value))
    }
}

/// The slot of a key lies inside the list; every key before it comes before
/// `key`, and the key in it does not.
pub proof fn lemma_slot(pairs: Seq<(Seq<u8>, Seq<u8>)>, key: Seq<u8>, from: int)
    requires
        0 <= from <= pairs.len(),
    ensures
        from <= slot(pairs, key, from) <= pairs.len(),
        forall|k: int| from <= k < slot(pairs, key, from) ==> lex_less(#[trigger] pairs[k].0, key),
        slot(pairs, key, from) < pairs.len() ==> !lex_less(pairs[slot(pairs, key, from)].0, key),
    decreases pairs.len() - from,
{
    if from < pairs.len() && lex_less(pairs[from].0, key) {
        lemma_slot(pairs, key, from + 1);
    }
}

/// Binding a key keeps the keys strictly ascending.
pub proof fn lemma_put_sorted(pairs: Seq<(Seq<u8>, Seq<u8>)>, key: Seq<u8>, value: Seq<u8>)
    requires
        strictly_sorted(pairs),
    ensures
        strictly_sorted(put(pairs, key, value)),
{
    let at = slot(pairs, key, 0);
    let after = put(pairs, key, value);
    lemma_slot(pairs, key, 0);
    if at < pairs.len() && pairs[at].0 == key {
        assert forall|i: int, j: int| 0 <= i < j < after.len() implies lex_less(
            after[i].0,
            after[j].0,
        ) by {
            assert(lex_less(pairs[i].0, pairs[j].0));
        }
    } else {
        assert forall|i: int, j: int| 0 <= i < j < after.len() implies lex_less(
            after[i].0,
            after[j].0,
        ) by {
            if j < at {
                assert(lex_less(pairs[i].0, pairs[j].0));
            } else if j == at {
                assert(lex_less(pairs[i].0, key));
            } else if i == at {
                lemma_lex_less_total(pairs[at].0, key);
                if j - 1 > at {
                    assert(lex_less(pairs[at].0, pairs[j - 1].0));
                    lemma_lex_less_transitive(key, pairs[at].0, pairs[j - 1].0);
                }
            } else if i < at {
                assert(lex_less(pairs[i].0, pairs[j - 1].0));
            } else {
                assert(lex_less(pairs[i - 1].0, pairs[j - 1].0));
            }
        }
    }
}

/// The order of the pairs is fixed by the pairs: two lists with strictly
/// ascending keys that hold the same pairs are the same list. So a
/// replacement writes the same text for the same mapping, in whatever order
/// the mapping was filled.
pub proof fn lemma_sorted_pairs_are_unique(
    a: Seq<(Seq<u8>, Seq<u8>)>,
    b: Seq<(Seq<u8>, Seq<u8>)>,
)
    requires
        strictly_sorted(a),
        strictly_sorted(b),
        forall|pair: (Seq<u8>, Seq<u8>)| a.contains(pair) <==> b.contains(pair),
    ensures
        a == b,
    decreases a.len(),
{
    if a.len() == 0 {
        if b.len() > 0 {
            assert(b.contains(b[0]));
        }
        assert(a =~= b);
    } else {
        assert(a.contains(a[0]));
        let j = choose|j: int| 0 <= j < b.len() && b[j] == a[0];
        assert(b.contains(b[0]));
        let k = choose|k: int| 0 <= k < a.len() && a[k] == b[0];
        lemma_lex_less_total(a[0].0, b[0].0);
        if j > 0 {
            assert(lex_less(b[0].0, b[j].0));
            if k > 0 {
                assert(lex_less(a[0].0, a[k].0));
            }
        }
        assert(a[0] == b[0]);
        let rest_a = a.drop_first();
        let rest_b = b.drop_first();
        assert forall|pair: (Seq<u8>, Seq<u8>)| rest_a.contains(pair) <==> rest_b.contains(
            pair,
        ) by {
            if rest_a.contains(pair) {
                let i = choose|i: int| 0 <= i < rest_a.len() && rest_a[i] == pair;
                assert(a[i + 1] == pair);
                assert(lex_less(a[0].0, a[i + 1].0));
                lemma_lex_less_total(a[0].0, pair.0);
                assert(a.contains(pair));
                let m = choose|m: int| 0 <= m < b.len() && b[m] == pair;
                assert(rest_b[m - 1] == pair);
            }
            if rest_b.contains(pair) {
                let i = choose|i: int| 0 <= i < rest_b.len() && rest_b[i] == pair;
                assert(b[i + 1] == pair);
                assert(lex_less(b[0].0, b[i + 1].0));
                lemma_lex_less_total(b[0].0, pair.0);
                assert(b.contains(pair));
                let m = choose|m: int| 0 <= m < a.len() && a[m] == pair;
                assert(rest_a[m - 1] == pair);
            }
        }
        assert forall|i: int, j: int| 0 <= i < j < rest_a.len() implies lex_less(
            rest_a[i].0,
            rest_a[j].0,
        ) by {
            assert(lex_less(a[i + 1].0, a[j + 1].0));
        }
        assert forall|i: int, j: int| 0 <= i < j < rest_b.len() implies lex_less(
            rest_b[i].0,
            rest_b[j].0,
        ) by {
            assert(lex_less(b[i + 1].0, b[j + 1].0));
        }
        lemma_sorted_pairs_are_unique(rest_a, rest_b);
        assert(a =~= seq![a[0]] + rest_a);
        assert(b =~= seq![b[0]] + rest_b);
    }
}

/// A mapping from local identifiers to raw values.
pub struct MappingTable {
    pairs: Vec<(Vec<u8>, Vec<u8>)>,
}

impl View for MappingTable {
    type V = Seq<(Seq<u8>, Seq<u8>)>;

    /// The pairs of the mapping, by ascending key.
    closed spec fn view(&self) -> Seq<(Seq<u8>, Seq<u8>)> {
        Seq::new(self.pairs@.len(), |i: int| (self.pairs@[i].0@, self.pairs@[i].1@))
    }
}

impl MappingTable {
    #[verifier::type_invariant]
    spec fn ascending(&self) -> bool {
        strictly_sorted(self@)
    }

    /// A mapping without pairs.
    pub fn new() -> (table: MappingTable)
        ensures
            table@ == Seq::<(Seq<u8>, Seq<u8>)>::empty(),
    {
        let table = MappingTable { pairs: Vec::new() };
        assert(table@ =~= Seq::<(Seq<u8>, Seq<u8>)>::empty());
        table
    }

    /// The number of pairs. The keys of a mapping always ascend strictly.
    pub fn len(&self) -> (n: usize)
        ensures
            n == self@.len(),
            strictly_sorted(self@),
    {
        proof {
            use_type_invariant(self);
        }
        self.pairs.len()
    }

    /// Whether the mapping holds no pair.
    pub fn is_empty(&self) -> (r: bool)
        ensures
            r == (self@.len() == 0),
    {
        self.pairs.len() == 0
    }

    /// The key of the pair at `index`.
    pub fn key(&self, index: usize) -> (key: &[u8])
        requires
            index < self@.len(),
        ensures
            key@ == self@[index as int].0,
    {
        self.pairs[index].0.as_slice()
    }

    /// The value of the pair at `index`.
    pub fn value(&self, index: usize) -> (value: &[u8])
        requires
            index < self@.len(),
        ensures
            value@ == self@[index as int].1,
    {
        self.pairs[index].1.as_slice()
    }

    /// Binds `key` to `value`. A value that `key` was bound to is replaced.
    pub fn insert(&mut self, key: Vec<u8>, value: Vec<u8>)
        ensures
            final(self)@ == put(old(self)@, key@, value@),
            strictly_sorted(final(self)@),
    {
        proof {
            use_type_invariant(&*self);
            lemma_put_sorted(self@, key@, value@);
        }
        let count: usize = self.pairs.len();
        let mut at: usize = 0;
        while at < count && less_bytes(self.pairs[at].0.as_slice(), key.as_slice())
            invariant
                at <= count,
                count == self.pairs.len(),
                slot(self@, key@, 0) == slot(self@, key@, at as int),
            decreases count - at,
        {
            at += 1;
        }
        let replaces = at < count && same_bytes(self.pairs[at].0.as_slice(), key.as_slice());
        let ghost goal = put(self@, key@, value@);
        let ghost (key_view, value_view) = (key@, value@);
        let mut pairs: Vec<(Vec<u8>, Vec<u8>)> = Vec::new();
        let mut i: usize = 0;
        while i < at
            invariant
                i <= at <= count,
                count == self.pairs.len(),
                pairs@.len() == i,
                forall|k: int|
                    0 <= k < i ==> (#[trigger] pairs@[k]).0@ == self@[k].0 && pairs@[k].1@
                        == self@[k].1,
            decreases at - i,
        {
            pairs.push(self.copy_of(i));
            i += 1;
        }
        pairs.push((key, value));
        let mut j: usize = if replaces {
            at + 1
        } else {
            at
        };
        let ghost shift: int = if replaces {
            0
        } else {
            1
        };
        while j < count
            invariant
                at <= j <= count,
                replaces ==> at < j,
                count == self.pairs.len(),
                pairs@.len() == j + shift,
                shift == if replaces { 0int } else { 1int },
                goal.len() == count + shift,
                at == slot(self@, key_view, 0),
                replaces == (at < count && self@[at as int].0 == key_view),
                goal == put(self@, key_view, value_view),
                forall|k: int|
                    0 <= k < pairs@.len() ==> (#[trigger] pairs@[k]).0@ == goal[k].0
                        && pairs@[k].1@ == goal[k].1,
            decreases count - j,
        {
            assert(goal[j + shift] == self@[j as int]);
            pairs.push(self.copy_of(j));
            j += 1;
        }
        self.pairs = pairs;
        assert(self@ =~= goal);
    }

    /// A copy of the pair at `index`.
    fn copy_of(&self, index: usize) -> (pair: (Vec<u8>, Vec<u8>))
        requires
            index < self@.len(),
        ensures
            pair.0@ == self@[index as int].0,
            pair.1@ == self@[index as int].1,
    {
        let key = self.pairs[index].0.as_slice();
        let value = self.pairs[index].1.as_slice();
        (copy_range(key, 0, key.len()), copy_range(value, 0, value.len()))
    }
}

} // verus!
