//! The order of emoji sequences: byte by byte, as strings compare.
//!
//! A list in descending order holds nothing twice and holds every sequence
//! before the sequences that it begins with.

use vstd::prelude::*;
use vstd::string::*;
use vstd::utf8::*;

verus! {

/// The bytes of each sequence of a list, in order.
pub open spec fn sequence_bytes(sequences: Seq<String>) -> Seq<Seq<u8>> {
    Seq::new(sequences.len(), |i: int| encode_utf8(sequences[i]@))
}

/// `a` comes before `b`: at the first position where the two differ `a` has
/// the smaller byte, or `a` ends there and `b` goes on.
pub open spec fn precedes(a: Seq<u8>, b: Seq<u8>) -> bool
    decreases a.len(),
{
    if b.len() == 0 {
        false
    } else if a.len() == 0 {
        true
    } else if a[0] != b[0] {
        a[0] < b[0]
    } else {
        precedes(a.drop_first(), b.drop_first())
    }
}

/// Every sequence of the list comes before all that stand in front of it.
pub open spec fn descending(list: Seq<Seq<u8>>) -> bool {
    forall|i: int, j: int| 0 <= i < j < list.len() ==> precedes(list[j], list[i])
}

/// Nothing comes before itself.
pub proof fn lemma_precedes_irreflexive(a: Seq<u8>)
    ensures
        !precedes(a, a),
    decreases a.len(),
{
    if a.len() > 0 {
        lemma_precedes_irreflexive(a.drop_first());
    }
}

/// What comes before something that comes before a third comes before the
/// third.
pub proof fn lemma_precedes_transitive(a: Seq<u8>, b: Seq<u8>, c: Seq<u8>)
    requires
        precedes(a, b),
        precedes(b, c),
    ensures
        precedes(a, c),
    decreases a.len(),
{
    if a.len() > 0 && a[0] == b[0] && b[0] == c[0] {
        lemma_precedes_transitive(a.drop_first(), b.drop_first(), c.drop_first());
    }
}

/// Of two different sequences one comes before the other.
pub proof fn lemma_precedes_total(a: Seq<u8>, b: Seq<u8>)
    ensures
        precedes(a, b) || precedes(b, a) || a == b,
    decreases a.len(),
{
    if a.len() > 0 && b.len() > 0 && a[0] == b[0] {
        lemma_precedes_total(a.drop_first(), b.drop_first());
        if a.drop_first() == b.drop_first() {
            assert(a =~= seq![a[0]] + a.drop_first());
            assert(b =~= seq![b[0]] + b.drop_first());
        }
    } else if a.len() == 0 && b.len() == 0 {
        assert(a =~= b);
    }
}

/// A sequence comes after every shorter sequence that it begins with.
pub proof fn lemma_prefix_precedes(a: Seq<u8>, b: Seq<u8>)
    requires
        a.is_prefix_of(b),
        a.len() < b.len(),
    ensures
        precedes(a, b),
    decreases a.len(),
{
    if a.len() > 0 {
        assert(a[0] == b[0]);
        assert(a.drop_first() =~= b.drop_first().subrange(0, a.len() - 1));
        lemma_prefix_precedes(a.drop_first(), b.drop_first());
    }
}

/// Two sequences that agree on their first `n` bytes are in the order of
/// what follows those bytes.
pub proof fn lemma_precedes_after(a: Seq<u8>, b: Seq<u8>, n: int)
    requires
        0 <= n <= a.len(),
        n <= b.len(),
        forall|k: int| 0 <= k < n ==> a[k] == b[k],
    ensures
        precedes(a, b) == precedes(a.skip(n), b.skip(n)),
    decreases n,
{
    if n == 0 {
        assert(a.skip(0) =~= a);
        assert(b.skip(0) =~= b);
    } else {
        assert(a[0] == b[0]);
        assert forall|k: int| 0 <= k < n - 1 implies a.drop_first()[k] == b.drop_first()[k] by {
            assert(a[k + 1] == b[k + 1]);
        }
        lemma_precedes_after(a.drop_first(), b.drop_first(), n - 1);
        assert(a.drop_first().skip(n - 1) =~= a.skip(n));
        assert(b.drop_first().skip(n - 1) =~= b.skip(n));
    }
}

/// Whether `a` comes before `b`.
pub fn comes_before(a: &[u8], b: &[u8]) -> (r: bool)
    ensures
        r == precedes(a@, b@),
{
    let n: usize = if a.len() < b.len() {
        a.len()
    } else {
        b.len()
    };
    let mut i: usize = 0;
    while i < n
        invariant
            i <= n,
            n <= a@.len(),
            n <= b@.len(),
            forall|k: int| 0 <= k < i ==> a@[k] == b@[k],
        decreases n - i,
    {
        if a[i] != b[i] {
            proof {
                lemma_precedes_after(a@, b@, i as int);
                assert(a@.skip(i as int)[0] == a@[i as int]);
                assert(b@.skip(i as int)[0] == b@[i as int]);
            }
            return a[i] < b[i];
        }
        i = i + 1;
    }
    proof {
        lemma_precedes_after(a@, b@, n as int);
    }
    a.len() < b.len()
}

/// Puts the sequences in descending order and drops what occurs twice.
pub fn sort_descending(sequences: Vec<String>) -> (sorted: Vec<String>)
    ensures
        descending(sequence_bytes(sorted@)),
        forall|s: Seq<u8>|
            sequence_bytes(sorted@).contains(s) <==> sequence_bytes(sequences@).contains(s),
{
    let ghost all: Seq<Seq<u8>> = sequence_bytes(sequences@);
    let mut rest: Vec<String> = sequences;
    let mut sorted: Vec<String> = Vec::new();
    while rest.len() > 0
        invariant
            rest@.len() <= all.len(),
            sequence_bytes(rest@) == all.subrange(0, rest@.len() as int),
            descending(sequence_bytes(sorted@)),
            forall|s: Seq<u8>|
                sequence_bytes(sorted@).contains(s) <==> all.subrange(
                    rest@.len() as int,
                    all.len() as int,
                ).contains(s),
        decreases rest@.len(),
    {
        let ghost before: Seq<Seq<u8>> = sequence_bytes(sorted@);
        let ghost seen: Seq<Seq<u8>> = all.subrange(rest@.len() as int, all.len() as int);
        let ghost m: int = rest@.len() - 1;
        let ghost old_rest: Seq<String> = rest@;
        let next: String = rest.pop().unwrap();
        let ghost item: Seq<u8> = encode_utf8(next@);
        let ghost seen_next: Seq<Seq<u8>> = all.subrange(m, all.len() as int);
        proof {
            assert(sequence_bytes(old_rest)[m] == item);
            assert(all[m] == item);
            assert(sequence_bytes(rest@) =~= all.subrange(0, m));
            assert(seen_next =~= seq![item] + seen);
            assert forall|s: Seq<u8>| seen_next.contains(s) <==> (s == item || seen.contains(
                s,
            )) by {
                if seen_next.contains(s) {
                    let k: int = choose|k: int| 0 <= k < seen_next.len() && seen_next[k] == s;
                    if k > 0 {
                        assert(seen[k - 1] == s);
                    }
                }
                if seen.contains(s) {
                    let k: int = choose|k: int| 0 <= k < seen.len() && seen[k] == s;
                    assert(seen_next[k + 1] == s);
                }
                if s == item {
                    assert(seen_next[0] == s);
                }
            }
        }
        let mut at: usize = 0;
        while at < sorted.len() && comes_before(
            next.as_str().as_bytes(),
            sorted[at].as_str().as_bytes(),
        )
            invariant
                at <= sorted@.len(),
                item == encode_utf8(next@),
                before == sequence_bytes(sorted@),
                forall|k: int| 0 <= k < at ==> precedes(item, before[k]),
            decreases sorted@.len() - at,
        {
            assert(before[at as int] == encode_utf8(sorted@[at as int]@));
            at = at + 1;
        }
        let fresh: bool = at == sorted.len() || comes_before(
            sorted[at].as_str().as_bytes(),
            next.as_str().as_bytes(),
        );
        if fresh {
            sorted.insert(at, next);
            proof {
                let after: Seq<Seq<u8>> = sequence_bytes(sorted@);
                assert(after =~= before.insert(at as int, item));
                assert forall|i: int, j: int| 0 <= i < j < after.len() implies precedes(
                    after[j],
                    after[i],
                ) by {
                    if j == at {
                        assert(after[i] == before[i]);
                    } else if i == at {
                        assert(after[j] == before[j - 1]);
                        if j - 1 > at {
                            lemma_precedes_transitive(before[j - 1], before[at as int], item);
                        }
                    } else if i < at && j > at {
                        assert(after[i] == before[i] && after[j] == before[j - 1]);
                    } else if i > at {
                        assert(after[i] == before[i - 1] && after[j] == before[j - 1]);
                    } else {
                        assert(after[i] == before[i] && after[j] == before[j]);
                    }
                }
                assert forall|s: Seq<u8>| after.contains(s) <==> (s == item || before.contains(
                    s,
                )) by {
                    if after.contains(s) {
                        let k: int = choose|k: int| 0 <= k < after.len() && after[k] == s;
                        if k < at {
                            assert(before[k] == s);
                        } else if k > at {
                            assert(before[k - 1] == s);
                        }
                    }
                    if before.contains(s) {
                        let k: int = choose|k: int| 0 <= k < before.len() && before[k] == s;
                        if k < at {
                            assert(after[k] == s);
                        } else {
                            assert(after[k + 1] == s);
                        }
                    }
                    if s == item {
                        assert(after[at as int] == s);
                    }
                }
            }
        } else {
            proof {
                assert(before[at as int] == encode_utf8(sorted@[at as int]@));
                lemma_precedes_total(item, before[at as int]);
                assert(before[at as int] == item);
                assert(before.contains(item));
            }
        }
    }
    proof {
        assert(all.subrange(0, all.len() as int) =~= all);
    }
    sorted
}

/// A list in descending order holds every sequence before the sequences
/// that it begins with.
pub proof fn lemma_descending_prefixes(list: Seq<Seq<u8>>, i: int, j: int)
    requires
        descending(list),
        0 <= i < j < list.len(),
        list[i].len() < list[j].len(),
    ensures
        !list[i].is_prefix_of(list[j]),
{
    if list[i].is_prefix_of(list[j]) {
        lemma_prefix_precedes(list[i], list[j]);
        lemma_precedes_transitive(list[i], list[j], list[i]);
        lemma_precedes_irreflexive(list[i]);
    }
}

} // verus!
