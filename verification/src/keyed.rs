//! Small maps with texts as keys, kept as lists of pairs.

use vstd::prelude::*;

use crate::text;

verus! {

/// The value that goes with a key. Where a key stands more than once, the last pair counts.
pub open spec fn value_of<V>(pairs: Seq<(String, V)>, key: Seq<char>) -> Option<V>
    decreases pairs.len(),
{
    if pairs.len() == 0 {
        None
    } else if pairs.last().0@ == key {
        Some(pairs.last().1)
    } else {
        value_of(pairs.drop_last(), key)
    }
}

proof fn lemma_value_after_update<V>(
    pairs: Seq<(String, V)>,
    at: int,
    pair: (String, V),
    key: Seq<char>,
)
    requires
        0 <= at < pairs.len(),
        pairs[at].0@ == pair.0@,
        forall|j: int| at < j < pairs.len() ==> (#[trigger] pairs[j]).0@ != pair.0@,
    ensures
        value_of(pairs.update(at, pair), key) == if key == pair.0@ {
            Some(pair.1)
        } else {
            value_of(pairs, key)
        },
    decreases pairs.len(),
{
    let after = pairs.update(at, pair);
    if at == pairs.len() - 1 {
        assert(after.drop_last() =~= pairs.drop_last());
        assert(after.last() == pair);
    } else {
        assert(after.last() == pairs.last());
        assert(pairs[pairs.len() - 1].0@ != pair.0@);
        assert(after.drop_last() =~= pairs.drop_last().update(at, pair));
        assert forall|j: int| at < j < pairs.drop_last().len() implies (
        #[trigger] pairs.drop_last()[j]).0@ != pair.0@ by {
            assert(pairs.drop_last()[j] == pairs[j]);
        }
        lemma_value_after_update(pairs.drop_last(), at, pair, key);
    }
}

/// Looks a key up.
pub fn lookup<V: Copy>(pairs: &Vec<(String, V)>, key: &str) -> (r: Option<V>)
    ensures
        r == value_of(pairs@, key@),
{
    let mut i: usize = pairs.len();
    assert(pairs@.take(i as int) =~= pairs@);
    while i > 0
        invariant
            i <= pairs@.len(),
            value_of(pairs@, key@) == value_of(pairs@.take(i as int), key@),
        decreases i,
    {
        proof {
            assert(pairs@.take(i as int).last() == pairs@[i - 1]);
            assert(pairs@.take(i as int).drop_last() =~= pairs@.take(i - 1));
        }
        i -= 1;
        if text::same_text(pairs[i].0.as_str(), key) {
            return Some(pairs[i].1);
        }
    }
    None
}

/// Gives a key a value, in place of the one that it had.
pub fn put<V: Copy>(pairs: &mut Vec<(String, V)>, key: &str, value: V)
    ensures
        forall|k: Seq<char>| #[trigger]
            value_of(final(pairs)@, k) == if k == key@ {
                Some(value)
            } else {
                value_of(old(pairs)@, k)
            },
{
    let ghost before = pairs@;
    let mut i: usize = pairs.len();
    while i > 0
        invariant
            i <= pairs@.len(),
            before == old(pairs)@,
            pairs@ == before,
            forall|j: int| i <= j < before.len() ==> (#[trigger] before[j]).0@ != key@,
        decreases i,
    {
        i -= 1;
        if text::same_text(pairs[i].0.as_str(), key) {
            let pair = (text::owned(key), value);
            let ghost new_pair = pair;
            pairs.set(i, pair);
            proof {
                assert forall|k: Seq<char>| #[trigger]
                    value_of(pairs@, k) == if k == key@ {
                        Some(value)
                    } else {
                        value_of(before, k)
                    } by {
                    lemma_value_after_update(before, i as int, new_pair, k);
                }
            }
            return;
        }
    }
    pairs.push((text::owned(key), value));
    proof {
        assert(pairs@.drop_last() =~= before);
    }
}

} // verus!
