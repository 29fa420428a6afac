//! Reading hash maps in a fixed order.

use vstd::prelude::*;
use std::collections::HashMap;

use crate::order;

verus! {

broadcast use vstd::std_specs::hash::group_hash_axioms;

/// `rows` lists the entries of `m`, each once, by ascending key.
pub open spec fn rows_of(rows: Seq<(u128, isize)>, m: Map<u128, isize>) -> bool {
    &&& forall|i: int, j: int| 0 <= i < j < rows.len() ==> (#[trigger] rows[i]).0 < (#[trigger] rows[j]).0
    &&& forall|i: int|
        0 <= i < rows.len() ==> m.contains_key((#[trigger] rows[i]).0) && m[rows[i].0] == rows[i].1
    &&& forall|k: u128| #[trigger] m.contains_key(k) ==> rows.contains((k, m[k]))
}

/// There is only one such listing.
pub proof fn lemma_rows_unique(a: Seq<(u128, isize)>, b: Seq<(u128, isize)>, m: Map<u128, isize>)
    requires
        rows_of(a, m),
        rows_of(b, m),
    ensures
        a == b,
    decreases a.len(),
{
    if a.len() == 0 {
        if b.len() > 0 {
            assert(m.contains_key(b[0].0));
            assert(a.contains((b[0].0, m[b[0].0])));
        }
        assert(a =~= b);
    } else {
        assert(m.contains_key(a[a.len() - 1].0));
        assert(b.contains((a[a.len() - 1].0, m[a[a.len() - 1].0])));
        let la = a.last();
        let lb = b.last();
        let p = choose|p: int| 0 <= p < b.len() && b[p] == la;
        assert(m.contains_key(b[b.len() - 1].0));
        assert(a.contains((lb.0, m[lb.0])));
        let q = choose|q: int| 0 <= q < a.len() && a[q] == lb;
        if la.0 < lb.0 {
            assert(q < a.len() - 1 ==> a[q].0 < a[a.len() - 1].0);
        } else if lb.0 < la.0 {
            assert(p < b.len() - 1 ==> b[p].0 < b[b.len() - 1].0);
        }
        assert(la.0 == lb.0);
        assert(la == lb);
        let m1 = m.remove(la.0);
        let a1 = a.drop_last();
        let b1 = b.drop_last();
        assert(rows_of(a1, m1)) by {
            assert forall|k: u128| #[trigger] m1.contains_key(k) implies a1.contains((k, m1[k])) by {
                assert(m.contains_key(k));
                let i = choose|i: int| 0 <= i < a.len() && a[i] == (k, m[k]);
                assert(a1[i] == (k, m1[k]));
            }
            assert forall|i: int| 0 <= i < a1.len() implies m1.contains_key((#[trigger] a1[i]).0)
                && m1[a1[i].0] == a1[i].1 by {
                assert(a[i].0 < a[a.len() - 1].0);
                assert(m.contains_key(a[i].0));
            }
        }
        assert(rows_of(b1, m1)) by {
            assert forall|k: u128| #[trigger] m1.contains_key(k) implies b1.contains((k, m1[k])) by {
                assert(m.contains_key(k));
                let i = choose|i: int| 0 <= i < b.len() && b[i] == (k, m[k]);
                assert(b1[i] == (k, m1[k]));
            }
            assert forall|i: int| 0 <= i < b1.len() implies m1.contains_key((#[trigger] b1[i]).0)
                && m1[b1[i].0] == b1[i].1 by {
                assert(b[i].0 < b[b.len() - 1].0);
                assert(m.contains_key(b[i].0));
            }
        }
        lemma_rows_unique(a1, b1, m1);
        assert(a =~= a1.push(la));
        assert(b =~= b1.push(lb));
    }
}

/// The entries of a map by ascending key.
pub fn sorted_rows(m: &HashMap<u128, isize>) -> (r: Vec<(u128, isize)>)
    ensures
        rows_of(r@, m@),
{
    let mut entries: Vec<(u128, isize)> = Vec::new();
    let mut keys: Vec<u128> = Vec::new();
    for kv in it: m.iter()
        invariant
            it.seq().no_duplicates(),
            forall|k: u128| #[trigger] m@.contains_key(k) ==> it.seq().contains((&k, &m@[k])),
            forall|i: int|
                #![trigger it.seq()[i]]
                0 <= i < it.seq().len() ==> m@.contains_key(*it.seq()[i].0) && m@[*it.seq()[i].0]
                    == *it.seq()[i].1,
            entries@.len() == it.index(),
            keys@.len() == it.index(),
            forall|i: int|
                #![trigger it.seq()[i]]
                #![trigger entries@[i]]
                0 <= i < entries@.len() ==> entries@[i] == (*it.seq()[i].0, *it.seq()[i].1),
            forall|i: int| 0 <= i < keys@.len() ==> #[trigger] keys@[i] == entries@[i].0,
            forall|i: int, j: int|
                0 <= i < entries@.len() && 0 <= j < entries@.len() && i != j ==> (
                #[trigger] entries@[i]).0 != (#[trigger] entries@[j]).0,
    {
        let ghost before = entries@;
        entries.push((*kv.0, *kv.1));
        keys.push(*kv.0);
        proof {
            assert forall|i: int| 0 <= i < before.len() implies (#[trigger] before[i]).0
                != *kv.0 by {
                assert(it.seq()[i] != it.seq()[before.len() as int]);
                assert(m@[*it.seq()[i].0] == *it.seq()[i].1);
            }
        }
    }
    assert forall|k: u128| #[trigger] m@.contains_key(k) implies entries@.contains((k, m@[k])) by {
    }
    assert forall|i: int| 0 <= i < entries@.len() implies m@.contains_key(
        (#[trigger] entries@[i]).0,
    ) && m@[entries@[i].0] == entries@[i].1 by {
    }
    let o = order::stable_order(&keys);
    let mut out: Vec<(u128, isize)> = Vec::new();
    let mut k: usize = 0;
    while k < o.len()
        invariant
            k <= o@.len(),
            o@.len() == entries@.len(),
            forall|a: int| 0 <= a < o@.len() ==> (#[trigger] o@[a]) < entries@.len(),
            out@ == order::picked(entries@, o@).take(k as int),
        decreases o@.len() - k,
    {
        let at: usize = o[k];
        out.push(entries[at]);
        k += 1;
    }
    assert(out@ =~= order::picked(entries@, o@));
    proof {
        order::lemma_stable_order_distinct(o@, keys@);
        assert forall|i: int, j: int| 0 <= i < j < out@.len() implies (#[trigger] out@[i]).0 < (
        #[trigger] out@[j]).0 by {
            assert(order::stable_before(keys@, o@[i] as int, o@[j] as int));
            assert(out@[i] == entries@[o@[i] as int] && out@[j] == entries@[o@[j] as int]);
            assert(entries@[o@[i] as int].0 != entries@[o@[j] as int].0);
        }
        assert forall|i: int| 0 <= i < out@.len() implies m@.contains_key((#[trigger] out@[i]).0)
            && m@[out@[i].0] == out@[i].1 by {
            assert(out@[i] == entries@[o@[i] as int]);
        }
        assert forall|k: u128| #[trigger] m@.contains_key(k) implies out@.contains((k, m@[k])) by {
            assert(entries@.contains((k, m@[k])));
            let i = choose|i: int| 0 <= i < entries@.len() && entries@[i] == (k, m@[k]);
            assert(o@.contains(i as usize));
            let a = choose|a: int| 0 <= a < o@.len() && o@[a] == i as usize;
            assert(out@[a] == (k, m@[k]));
        }
    }
    out
}

} // verus!
