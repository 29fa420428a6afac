//! Stable ordering by a key.

use vstd::prelude::*;

verus! {

/// A key by which things are put in order: a strict weak order with an executable test.
pub trait Ranked: Sized {
    /// `self` comes strictly before `other`.
    spec fn precedes(self, other: Self) -> bool;

    proof fn irreflexive(a: Self)
        ensures
            !a.precedes(a),
    ;

    proof fn transitive(a: Self, b: Self, c: Self)
        requires
            a.precedes(b),
            b.precedes(c),
        ensures
            a.precedes(c),
    ;

    /// Whatever lies between two ranked keys is apart from one of them.
    proof fn separated(a: Self, b: Self, c: Self)
        requires
            a.precedes(c),
        ensures
            a.precedes(b) || b.precedes(c),
    ;

    fn before(&self, other: &Self) -> (r: bool)
        ensures
            r == self.precedes(*other),
    ;
}

impl Ranked for i32 {
    open spec fn precedes(self, other: Self) -> bool {
        self < other
    }

    proof fn irreflexive(a: Self) {
    }

    proof fn transitive(a: Self, b: Self, c: Self) {
    }

    proof fn separated(a: Self, b: Self, c: Self) {
    }

    fn before(&self, other: &Self) -> (r: bool) {
        *self < *other
    }
}

impl Ranked for u64 {
    open spec fn precedes(self, other: Self) -> bool {
        self < other
    }

    proof fn irreflexive(a: Self) {
    }

    proof fn transitive(a: Self, b: Self, c: Self) {
    }

    proof fn separated(a: Self, b: Self, c: Self) {
    }

    fn before(&self, other: &Self) -> (r: bool) {
        *self < *other
    }
}

impl Ranked for u128 {
    open spec fn precedes(self, other: Self) -> bool {
        self < other
    }

    proof fn irreflexive(a: Self) {
    }

    proof fn transitive(a: Self, b: Self, c: Self) {
    }

    proof fn separated(a: Self, b: Self, c: Self) {
    }

    fn before(&self, other: &Self) -> (r: bool) {
        *self < *other
    }
}

impl Ranked for isize {
    open spec fn precedes(self, other: Self) -> bool {
        self < other
    }

    proof fn irreflexive(a: Self) {
    }

    proof fn transitive(a: Self, b: Self, c: Self) {
    }

    proof fn separated(a: Self, b: Self, c: Self) {
    }

    fn before(&self, other: &Self) -> (r: bool) {
        *self < *other
    }
}

/// Pairs go by their first part, and by their second part where the first parts tie.
impl<A: Ranked, B: Ranked> Ranked for (A, B) {
    open spec fn precedes(self, other: Self) -> bool {
        self.0.precedes(other.0) || (!other.0.precedes(self.0) && self.1.precedes(other.1))
    }

    proof fn irreflexive(a: Self) {
        A::irreflexive(a.0);
        B::irreflexive(a.1);
    }

    proof fn transitive(a: Self, b: Self, c: Self) {
        if a.0.precedes(b.0) {
            if b.0.precedes(c.0) {
                A::transitive(a.0, b.0, c.0);
            } else {
                A::separated(a.0, c.0, b.0);
            }
        } else if b.0.precedes(c.0) {
            A::separated(b.0, a.0, c.0);
        } else {
            B::transitive(a.1, b.1, c.1);
            if c.0.precedes(a.0) {
                A::separated(c.0, b.0, a.0);
            }
        }
    }

    proof fn separated(a: Self, b: Self, c: Self) {
        if a.0.precedes(c.0) {
            A::separated(a.0, b.0, c.0);
        } else {
            B::separated(a.1, b.1, c.1);
            if b.0.precedes(a.0) && !b.0.precedes(c.0) {
                A::separated(b.0, c.0, a.0);
            }
            if c.0.precedes(b.0) && !a.0.precedes(b.0) {
                A::separated(c.0, a.0, b.0);
            }
        }
    }

    fn before(&self, other: &Self) -> (r: bool) {
        self.0.before(&other.0) || (!other.0.before(&self.0) && self.1.before(&other.1))
    }
}

/// `a` comes strictly before `b`, character by character.
pub open spec fn text_precedes(a: Seq<char>, b: Seq<char>) -> bool
    decreases a.len(),
{
    if b.len() == 0 {
        false
    } else if a.len() == 0 {
        true
    } else {
        a[0] < b[0] || (a[0] == b[0] && text_precedes(a.skip(1), b.skip(1)))
    }
}

pub proof fn lemma_text_irreflexive(a: Seq<char>)
    ensures
        !text_precedes(a, a),
    decreases a.len(),
{
    if a.len() > 0 {
        lemma_text_irreflexive(a.skip(1));
    }
}

pub proof fn lemma_text_transitive(a: Seq<char>, b: Seq<char>, c: Seq<char>)
    requires
        text_precedes(a, b),
        text_precedes(b, c),
    ensures
        text_precedes(a, c),
    decreases a.len(),
{
    if a.len() > 0 && a[0] == b[0] && b[0] == c[0] {
        lemma_text_transitive(a.skip(1), b.skip(1), c.skip(1));
    }
}

/// Two different texts are ordered one way or the other.
pub proof fn lemma_text_total(a: Seq<char>, b: Seq<char>)
    ensures
        text_precedes(a, b) || text_precedes(b, a) || a == b,
    decreases a.len(),
{
    if a.len() > 0 && b.len() > 0 {
        if a[0] == b[0] {
            lemma_text_total(a.skip(1), b.skip(1));
            if a.skip(1) == b.skip(1) {
                assert(a =~= seq![a[0]] + a.skip(1));
                assert(b =~= seq![b[0]] + b.skip(1));
            }
        }
    } else {
        if a.len() == 0 && b.len() == 0 {
            assert(a =~= b);
        }
    }
}

/// Strings go by their characters' code points.
impl Ranked for String {
    open spec fn precedes(self, other: Self) -> bool {
        text_precedes(self@, other@)
    }

    proof fn irreflexive(a: Self) {
        lemma_text_irreflexive(a@);
    }

    proof fn transitive(a: Self, b: Self, c: Self) {
        lemma_text_transitive(a@, b@, c@);
    }

    proof fn separated(a: Self, b: Self, c: Self) {
        lemma_text_total(a@, b@);
        lemma_text_total(b@, c@);
        if text_precedes(b@, a@) {
            lemma_text_transitive(b@, a@, c@);
        }
    }

    fn before(&self, other: &Self) -> (r: bool) {
        let a = crate::text::chars_of(self.as_str());
        let b = crate::text::chars_of(other.as_str());
        let mut i: usize = 0;
        assert(a@.skip(0) =~= a@);
        assert(b@.skip(0) =~= b@);
        while i < a.len() && i < b.len() && a[i] == b[i]
            invariant
                i <= a@.len(),
                i <= b@.len(),
                text_precedes(a@, b@) == text_precedes(a@.skip(i as int), b@.skip(i as int)),
            decreases a@.len() - i,
        {
            assert(a@.skip(i as int).skip(1) =~= a@.skip(i + 1));
            assert(b@.skip(i as int).skip(1) =~= b@.skip(i + 1));
            i += 1;
        }
        if i >= b.len() {
            false
        } else if i >= a.len() {
            true
        } else {
            a[i] < b[i]
        }
    }
}

/// Position `i` comes before position `j` in a stable order by `keys`.
pub open spec fn stable_before<K: Ranked>(keys: Seq<K>, i: int, j: int) -> bool {
    keys[i].precedes(keys[j]) || (!keys[j].precedes(keys[i]) && i < j)
}

/// `order` lists the positions of `keys` from the first to the last, ties in the order given.
pub open spec fn is_stable_order<K: Ranked>(order: Seq<usize>, keys: Seq<K>) -> bool {
    &&& order.len() == keys.len()
    &&& keys.len() <= usize::MAX
    &&& forall|a: int| 0 <= a < order.len() ==> (#[trigger] order[a]) < keys.len()
    &&& forall|a: int, b: int|
        0 <= a < b < order.len() ==> stable_before(keys, #[trigger] order[a] as int, #[trigger] order[b] as int)
}

/// What `order` picks out of `items`, one after the other.
pub open spec fn picked<T>(items: Seq<T>, order: Seq<usize>) -> Seq<T> {
    Seq::new(order.len(), |i: int| items[order[i] as int])
}

pub proof fn lemma_stable_before_strict<K: Ranked>(keys: Seq<K>, i: int, j: int)
    requires
        stable_before(keys, i, j),
    ensures
        i != j,
        !stable_before(keys, j, i),
{
    K::irreflexive(keys[i]);
    if keys[i].precedes(keys[j]) && keys[j].precedes(keys[i]) {
        K::transitive(keys[i], keys[j], keys[i]);
    }
}

pub proof fn lemma_stable_before_transitive<K: Ranked>(keys: Seq<K>, i: int, j: int, k: int)
    requires
        stable_before(keys, i, j),
        stable_before(keys, j, k),
    ensures
        stable_before(keys, i, k),
{
    let (a, b, c) = (keys[i], keys[j], keys[k]);
    if a.precedes(b) {
        if b.precedes(c) {
            K::transitive(a, b, c);
        } else {
            K::separated(a, c, b);
        }
    } else if b.precedes(c) {
        K::separated(b, a, c);
    } else {
        if c.precedes(a) {
            K::separated(c, b, a);
        }
    }
}

/// A stable order names every position exactly once.
pub proof fn lemma_stable_order_distinct<K: Ranked>(order: Seq<usize>, keys: Seq<K>)
    requires
        is_stable_order(order, keys),
    ensures
        order.no_duplicates(),
{
    assert forall|a: int, b: int| 0 <= a < order.len() && 0 <= b < order.len() && a != b implies order[a]
        != order[b] by {
        if a < b {
            lemma_stable_before_strict(keys, order[a] as int, order[b] as int);
        } else {
            lemma_stable_before_strict(keys, order[b] as int, order[a] as int);
        }
    }
}

/// The positions of `keys` in a stable order.
pub fn stable_order<K: Ranked>(keys: &Vec<K>) -> (r: Vec<usize>)
    ensures
        is_stable_order(r@, keys@),
        forall|i: int| 0 <= i < keys@.len() ==> #[trigger] r@.contains(i as usize),
{
    let mut order: Vec<usize> = Vec::new();
    let n: usize = keys.len();
    let mut k: usize = 0;
    while k < n
        invariant
            k <= n == keys@.len(),
            order@.len() == k,
            forall|a: int| 0 <= a < k ==> (#[trigger] order@[a]) < k,
            forall|a: int, b: int|
                0 <= a < b < k ==> stable_before(keys@, #[trigger] order@[a] as int, #[trigger] order@[b] as int),
            forall|i: int| 0 <= i < k ==> #[trigger] order@.contains(i as usize),
        decreases n - k,
    {
        let mut p: usize = 0;
        while p < k && !keys[k].before(&keys[order[p]])
            invariant
                p <= k < n == keys@.len(),
                order@.len() == k,
                forall|a: int| 0 <= a < k ==> (#[trigger] order@[a]) < k,
                forall|a: int|
                    0 <= a < p ==> !keys@[k as int].precedes(keys@[#[trigger] order@[a] as int]),
            decreases k - p,
        {
            p += 1;
        }
        let ghost before = order@;
        order.insert(p, k);
        proof {
            assert forall|a: int, b: int| 0 <= a < b < k + 1 implies stable_before(
                keys@,
                #[trigger] order@[a] as int,
                #[trigger] order@[b] as int,
            ) by {
                let oa = order@[a] as int;
                let ob = order@[b] as int;
                if a == p {
                    // `k` precedes what stood at `p`, and so everything after it.
                    assert(ob == before[b - 1]);
                    if b - 1 > p {
                        assert(stable_before(keys@, before[p as int] as int, before[b - 1] as int));
                        lemma_stable_before_transitive(keys@, k as int, before[p as int] as int, ob);
                    }
                } else if b == p {
                    assert(oa == before[a]);
                } else {
                    let a0 = if a < p {
                        a
                    } else {
                        a - 1
                    };
                    let b0 = if b < p {
                        b
                    } else {
                        b - 1
                    };
                    assert(oa == before[a0] && ob == before[b0]);
                    assert(stable_before(keys@, before[a0] as int, before[b0] as int));
                }
            }
            assert forall|i: int| 0 <= i < k + 1 implies #[trigger] order@.contains(i as usize) by {
                if i == k {
                    assert(order@[p as int] == k);
                } else {
                    assert(before.contains(i as usize));
                    let w = choose|w: int| 0 <= w < before.len() && before[w] == i as usize;
                    if w < p {
                        assert(order@[w] == i as usize);
                    } else {
                        assert(order@[w + 1] == i as usize);
                    }
                }
            }
            assert forall|a: int| 0 <= a < k + 1 implies (#[trigger] order@[a]) < k + 1 by {
                if a < p {
                    assert(order@[a] == before[a]);
                } else if a > p {
                    assert(order@[a] == before[a - 1]);
                }
            }
        }
        k += 1;
    }
    order
}

/// There is only one stable order by given keys.
pub proof fn lemma_stable_order_unique<K: Ranked>(x: Seq<usize>, y: Seq<usize>, keys: Seq<K>)
    requires
        is_stable_order(x, keys),
        is_stable_order(y, keys),
    ensures
        x == y,
{
    lemma_stable_order_distinct(x, keys);
    lemma_stable_order_distinct(y, keys);
    lemma_order_is_complete(x, keys.len());
    lemma_order_is_complete(y, keys.len());
    if x != y {
        assert(exists|i: int| 0 <= i < x.len() && x[i] != y[i]) by {
            if forall|i: int| 0 <= i < x.len() ==> x[i] == y[i] {
                assert(x =~= y);
            }
        }
        let i = lemma_first_difference(x, y);
        // x[i] stands later in y and y[i] later in x.
        assert(y.contains(x[i]));
        let p = choose|p: int| 0 <= p < y.len() && y[p] == x[i];
        assert(x.contains(y[i]));
        let q = choose|q: int| 0 <= q < x.len() && x[q] == y[i];
        assert(p > i) by {
            if p < i {
                assert(x[p] == y[p]);
            }
        }
        assert(q > i) by {
            if q < i {
                assert(x[q] == y[q]);
            }
        }
        assert(stable_before(keys, y[i] as int, y[p] as int));
        assert(stable_before(keys, x[i] as int, x[q] as int));
        lemma_stable_before_strict(keys, x[i] as int, y[i] as int);
    }
}

proof fn lemma_first_difference(x: Seq<usize>, y: Seq<usize>) -> (i: int)
    requires
        x.len() == y.len(),
        exists|i: int| 0 <= i < x.len() && x[i] != y[i],
    ensures
        0 <= i < x.len(),
        x[i] != y[i],
        forall|j: int| 0 <= j < i ==> x[j] == y[j],
    decreases x.len(),
{
    if x[0] != y[0] {
        0
    } else {
        let w = choose|i: int| 0 <= i < x.len() && x[i] != y[i];
        let x1 = x.skip(1);
        let y1 = y.skip(1);
        assert(x1[w - 1] != y1[w - 1]);
        let i = lemma_first_difference(x1, y1);
        assert forall|j: int| 0 <= j < i + 1 implies x[j] == y[j] by {
            if j > 0 {
                assert(x1[j - 1] == y1[j - 1]);
            }
        }
        i + 1
    }
}

/// Keys of every length that fits a machine have a stable order.
pub proof fn lemma_stable_order_exists<K: Ranked>(keys: Seq<K>) -> (o: Seq<usize>)
    requires
        keys.len() <= usize::MAX,
    ensures
        is_stable_order(o, keys),
    decreases keys.len(),
{
    if keys.len() == 0 {
        Seq::empty()
    } else {
        let rest = keys.drop_last();
        let before = lemma_stable_order_exists(rest);
        let last = keys.len() - 1;
        assert forall|i: int, j: int| 0 <= i < last && 0 <= j < last implies #[trigger] stable_before(
            rest,
            i,
            j,
        ) == stable_before(keys, i, j) by {}
        let pred = |a: int| stable_before(keys, last, before[a] as int);
        lemma_first_where(before.len(), pred);
        let p = match first_where(before.len(), pred) {
            Some(p) => p,
            None => before.len() as int,
        };
        let o = before.insert(p, last as usize);
        assert forall|a: int, b: int| 0 <= a < b < o.len() implies stable_before(
            keys,
            #[trigger] o[a] as int,
            #[trigger] o[b] as int,
        ) by {
            if b < p {
                assert(stable_before(rest, before[a] as int, before[b] as int));
            } else if b == p {
                assert(!pred(a));
            } else if a < p {
                assert(stable_before(rest, before[a] as int, before[b - 1] as int));
            } else if a == p {
                assert(pred(p));
                if b - 1 > p {
                    assert(stable_before(rest, before[p] as int, before[b - 1] as int));
                    lemma_stable_before_transitive(keys, last, before[p] as int, before[b - 1] as int);
                }
            } else {
                assert(stable_before(rest, before[a - 1] as int, before[b - 1] as int));
            }
        }
        o
    }
}

/// `n` distinct positions below `n` are all of them.
pub proof fn lemma_order_is_complete(x: Seq<usize>, n: nat)
    requires
        x.len() == n,
        n <= usize::MAX,
        x.no_duplicates(),
        forall|a: int| 0 <= a < x.len() ==> (#[trigger] x[a]) < n,
    ensures
        forall|v: usize| v < n ==> #[trigger] x.contains(v),
{
    x.unique_seq_to_set();
    let all = Set::<usize>::new(|v: usize| v < n);
    lemma_below_is_finite(n);
    assert(x.to_set().subset_of(all));
    vstd::set_lib::lemma_subset_equality(x.to_set(), all);
    assert forall|v: usize| v < n implies #[trigger] x.contains(v) by {
        assert(all.contains(v));
        assert(x.to_set().contains(v));
    }
}

proof fn lemma_below_is_finite(n: nat)
    requires
        n <= usize::MAX + 1,
    ensures
        Set::<usize>::new(|v: usize| v < n).finite(),
        Set::<usize>::new(|v: usize| v < n).len() == n,
    decreases n,
{
    let s = Set::<usize>::new(|v: usize| v < n);
    if n == 0 {
        assert(s =~= Set::<usize>::empty());
    } else {
        lemma_below_is_finite((n - 1) as nat);
        let t = Set::<usize>::new(|v: usize| v < n - 1);
        assert(s =~= t.insert((n - 1) as usize));
    }
}

/// Texts from the first to the last.
pub open spec fn ascending(s: Seq<Seq<char>>) -> bool {
    forall|i: int, j: int| 0 <= i < j < s.len() ==> !text_precedes(#[trigger] s[j], #[trigger] s[i])
}

/// `sorted` holds the texts `s`, each as often, from the first to the last.
pub open spec fn sorted_form(sorted: Seq<Seq<char>>, s: Seq<Seq<char>>) -> bool {
    ascending(sorted) && sorted.to_multiset() == s.to_multiset()
}

/// There is only one sorted form.
pub proof fn lemma_sorted_form_unique(
    a: Seq<Seq<char>>,
    b: Seq<Seq<char>>,
    s: Seq<Seq<char>>,
    t: Seq<Seq<char>>,
)
    requires
        sorted_form(a, s),
        sorted_form(b, t),
        s.to_multiset() == t.to_multiset(),
    ensures
        a == b,
{
    let leq = |x: Seq<char>, y: Seq<char>| !text_precedes(y, x);
    assert(vstd::relations::sorted_by(a, leq)) by {
        assert forall|i: int, j: int| 0 <= i < j < a.len() implies #[trigger] leq(a[i], a[j]) by {}
    }
    assert(vstd::relations::sorted_by(b, leq)) by {
        assert forall|i: int, j: int| 0 <= i < j < b.len() implies #[trigger] leq(b[i], b[j]) by {}
    }
    assert forall|x: Seq<char>| #[trigger] leq(x, x) by {
        lemma_text_irreflexive(x);
    }
    assert forall|x: Seq<char>, y: Seq<char>| #[trigger] leq(x, y) && #[trigger] leq(y, x) implies x
        == y by {
        lemma_text_total(x, y);
    }
    assert forall|x: Seq<char>, y: Seq<char>, z: Seq<char>| #[trigger]
        leq(x, y) && #[trigger] leq(y, z) implies leq(x, z) by {
        if text_precedes(z, x) {
            lemma_text_total(x, y);
            if text_precedes(x, y) {
                lemma_text_transitive(z, x, y);
            }
        }
    }
    assert forall|x: Seq<char>, y: Seq<char>| #[trigger] leq(x, y) || #[trigger] leq(y, x) by {
        if text_precedes(y, x) && text_precedes(x, y) {
            lemma_text_transitive(x, y, x);
            lemma_text_irreflexive(x);
        }
    }
    vstd::seq_lib::lemma_sorted_unique(a, b, leq);
}

/// The texts in ascending order.
pub open spec fn sorted_of(s: Seq<Seq<char>>) -> Seq<Seq<char>> {
    choose|t: Seq<Seq<char>>| sorted_form(t, s)
}

/// Any texts can be put in ascending order, in one way only.
pub proof fn lemma_sorted_of(s: Seq<Seq<char>>)
    ensures
        sorted_form(sorted_of(s), s),
        forall|t: Seq<Seq<char>>| #[trigger] sorted_form(t, s) ==> t == sorted_of(s),
    decreases s.len(),
{
    broadcast use vstd::seq_lib::group_to_multiset_ensures;

    if s.len() == 0 {
        assert(sorted_form(s, s));
    } else {
        let rest = s.drop_last();
        let item = s.last();
        lemma_sorted_of(rest);
        let before = sorted_of(rest);
        let p = insertion_point(before, item);
        lemma_insertion(before, item);
        let now = before.insert(p, item);
        vstd::seq_lib::to_multiset_insert(before, p, item);
        assert(rest.push(item) =~= s);
        assert(now.to_multiset() =~= s.to_multiset());
        assert(sorted_form(now, s));
    }
    assert forall|t: Seq<Seq<char>>| #[trigger] sorted_form(t, s) implies t == sorted_of(s) by {
        lemma_sorted_form_unique(t, sorted_of(s), s, s);
    }
}

/// Where a text goes among ascending ones: behind all that it does not precede.
spec fn insertion_point(s: Seq<Seq<char>>, item: Seq<char>) -> int
    decreases s.len(),
{
    if s.len() > 0 && text_precedes(item, s.last()) {
        insertion_point(s.drop_last(), item)
    } else {
        s.len() as int
    }
}

proof fn lemma_insertion(s: Seq<Seq<char>>, item: Seq<char>)
    requires
        ascending(s),
    ensures
        0 <= insertion_point(s, item) <= s.len(),
        ascending(s.insert(insertion_point(s, item), item)),
        forall|i: int|
            insertion_point(s, item) <= i < s.len() ==> text_precedes(item, #[trigger] s[i]),
    decreases s.len(),
{
    let p = insertion_point(s, item);
    if s.len() > 0 && text_precedes(item, s.last()) {
        let rest = s.drop_last();
        assert forall|i: int, j: int| 0 <= i < j < rest.len() implies !text_precedes(
            #[trigger] rest[j],
            #[trigger] rest[i],
        ) by {
            assert(rest[i] == s[i] && rest[j] == s[j]);
        }
        lemma_insertion(rest, item);
        assert forall|i: int| p <= i < s.len() implies text_precedes(item, #[trigger] s[i]) by {
            if i < rest.len() {
                assert(rest[i] == s[i]);
            }
        }
        let now = s.insert(p, item);
        let small = rest.insert(p, item);
        assert(now =~= small.push(s.last()));
        assert forall|i: int, j: int| 0 <= i < j < now.len() implies !text_precedes(
            #[trigger] now[j],
            #[trigger] now[i],
        ) by {
            if j < small.len() {
                assert(small[i] == now[i] && small[j] == now[j]);
            } else if i == p {
                lemma_text_irreflexive(item);
                if text_precedes(s.last(), item) {
                    lemma_text_transitive(item, s.last(), item);
                }
            } else if i < p {
                assert(now[i] == s[i]);
            } else {
                assert(now[i] == s[i - 1]);
            }
        }
    } else {
        let now = s.insert(p, item);
        assert(now =~= s.push(item));
        assert forall|i: int, j: int| 0 <= i < j < now.len() implies !text_precedes(
            #[trigger] now[j],
            #[trigger] now[i],
        ) by {
            if j < s.len() {
                assert(s[i] == now[i] && s[j] == now[j]);
            } else if text_precedes(item, s[i]) {
                if i < s.len() - 1 {
                    assert(!text_precedes(s[s.len() - 1], s[i]));
                    lemma_text_total(s[s.len() - 1], s[i]);
                    if text_precedes(s[i], s.last()) {
                        lemma_text_transitive(item, s[i], s.last());
                    }
                }
            }
        }
    }
}

/// The order in which texts stand makes no difference to their ascending order.
pub proof fn lemma_sorted_of_same(s: Seq<Seq<char>>, t: Seq<Seq<char>>)
    requires
        s.to_multiset() == t.to_multiset(),
    ensures
        sorted_of(s) == sorted_of(t),
{
    lemma_sorted_of(s);
    lemma_sorted_of(t);
    lemma_sorted_form_unique(sorted_of(s), sorted_of(t), s, t);
}

/// The strings from the first to the last.
pub fn sorted_texts(parts: &Vec<String>) -> (r: Vec<String>)
    ensures
        crate::text::texts(r@) == sorted_of(crate::text::texts(parts@)),
{
    broadcast use vstd::seq_lib::group_to_multiset_ensures;

    let mut out: Vec<String> = Vec::new();
    let ghost all = crate::text::texts(parts@);
    let mut k: usize = 0;
    assert(crate::text::texts(out@) =~= all.take(0));
    while k < parts.len()
        invariant
            k <= parts@.len(),
            all == crate::text::texts(parts@),
            out@.len() == k,
            sorted_form(crate::text::texts(out@), all.take(k as int)),
        decreases parts@.len() - k,
    {
        let ghost before = crate::text::texts(out@);
        let mut p: usize = 0;
        while p < k && !parts[k].before(&out[p])
            invariant
                p <= k < parts@.len(),
                out@.len() == k,
                before == crate::text::texts(out@),
                forall|a: int| 0 <= a < p ==> !text_precedes(parts@[k as int]@, #[trigger] before[a]),
            decreases k - p,
        {
            assert(before[p as int] == out@[p as int]@);
            p += 1;
        }
        let ghost item = parts@[k as int]@;
        out.insert(p, parts[k].clone());
        proof {
            broadcast use vstd::seq_lib::group_to_multiset_ensures;

            let now = crate::text::texts(out@);
            assert(now =~= before.insert(p as int, item));
            assert(all.take(k + 1) =~= all.take(k as int).push(item));
            vstd::seq_lib::to_multiset_insert(before, p as int, item);
            assert(p < k ==> text_precedes(item, before[p as int]));
            assert forall|i: int, j: int| 0 <= i < j < now.len() implies !text_precedes(
                #[trigger] now[j],
                #[trigger] now[i],
            ) by {
                if i == p {
                    let y = before[j - 1];
                    assert(now[j] == y);
                    if text_precedes(y, item) {
                        lemma_text_transitive(y, item, before[p as int]);
                        if j - 1 > p {
                            assert(!text_precedes(before[j - 1], before[p as int]));
                        } else {
                            lemma_text_irreflexive(y);
                        }
                    }
                } else if j == p {
                    assert(now[i] == before[i]);
                } else {
                    let i0 = if i < p {
                        i
                    } else {
                        i - 1
                    };
                    let j0 = if j < p {
                        j
                    } else {
                        j - 1
                    };
                    assert(now[i] == before[i0] && now[j] == before[j0]);
                }
            }
        }
        k += 1;
    }
    proof {
        assert(all.take(all.len() as int) =~= all);
        lemma_sorted_of(all);
    }
    out
}

/// Mapping over sequences with the same elements gives sequences with the same elements.
pub proof fn lemma_map_to_multiset<A, B>(a: Seq<A>, b: Seq<A>, f: spec_fn(A) -> B)
    requires
        a.to_multiset() == b.to_multiset(),
    ensures
        a.map_values(f).to_multiset() == b.map_values(f).to_multiset(),
    decreases a.len(),
{
    broadcast use vstd::seq_lib::group_to_multiset_ensures;

    if a.len() == 0 {
        a.to_multiset_ensures();
        b.to_multiset_ensures();
        assert(b.len() == 0);
        assert(a.map_values(f) =~= b.map_values(f));
    } else {
        let x = a.last();
        assert(a.contains(x));
        assert(b.to_multiset().count(x) > 0);
        let i = choose|i: int| 0 <= i < b.len() && b[i] == x;
        let a1 = a.drop_last();
        let b1 = b.remove(i);
        assert(a =~= a1.push(x));
        assert(a1.to_multiset() =~= a.to_multiset().remove(x));
        lemma_map_to_multiset(a1, b1, f);
        assert(a.map_values(f) =~= a1.map_values(f).push(f(x)));
        assert(b.map_values(f) =~= b1.map_values(f).insert(i, f(x)));
        vstd::seq_lib::to_multiset_insert(b1.map_values(f), i, f(x));
    }
}

/// The first number below `n` for which `pred` holds.
pub open spec fn first_where(n: nat, pred: spec_fn(int) -> bool) -> Option<int>
    decreases n,
{
    if n == 0 {
        None
    } else {
        match first_where((n - 1) as nat, pred) {
            Some(i) => Some(i),
            None => if pred(n - 1) {
                Some(n - 1)
            } else {
                None
            },
        }
    }
}

pub proof fn lemma_first_where_none(n: nat, pred: spec_fn(int) -> bool)
    requires
        forall|j: int| 0 <= j < n ==> !#[trigger] pred(j),
    ensures
        first_where(n, pred) is None,
    decreases n,
{
    if n > 0 {
        lemma_first_where_none((n - 1) as nat, pred);
    }
}

pub proof fn lemma_first_where_some(n: nat, pred: spec_fn(int) -> bool, i: int)
    requires
        0 <= i < n,
        pred(i),
        forall|j: int| 0 <= j < i ==> !#[trigger] pred(j),
    ensures
        first_where(n, pred) == Some(i),
    decreases n,
{
    if i == n - 1 {
        lemma_first_where_none(i as nat, pred);
    } else {
        lemma_first_where_some((n - 1) as nat, pred, i);
    }
}

pub proof fn lemma_first_where(n: nat, pred: spec_fn(int) -> bool)
    ensures
        match first_where(n, pred) {
            Some(i) => 0 <= i < n && pred(i) && forall|j: int| 0 <= j < i ==> !#[trigger] pred(j),
            None => forall|j: int| 0 <= j < n ==> !#[trigger] pred(j),
        },
    decreases n,
{
    if n > 0 {
        lemma_first_where((n - 1) as nat, pred);
    }
}

/// What a filter keeps was there before, and passes the test.
pub proof fn lemma_filter_members<A>(s: Seq<A>, pred: spec_fn(A) -> bool)
    ensures
        forall|i: int|
            0 <= i < s.filter(pred).len() ==> s.contains(#[trigger] s.filter(pred)[i]) && pred(
                s.filter(pred)[i],
            ),
    decreases s.len(),
{
    reveal(Seq::filter);
    let kept = s.filter(pred);
    if s.len() > 0 {
        let rest = s.drop_last();
        lemma_filter_members(rest, pred);
        assert forall|i: int| 0 <= i < kept.len() implies s.contains(#[trigger] kept[i]) && pred(
            kept[i],
        ) by {
            if i < rest.filter(pred).len() {
                assert(rest.filter(pred)[i] == kept[i]);
                let k = choose|k: int| 0 <= k < rest.len() && rest[k] == kept[i];
                assert(s[k] == kept[i]);
            } else {
                assert(s[s.len() - 1] == kept[i]);
            }
        }
    }
}

} // verus!
