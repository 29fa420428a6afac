//! Which cell of its monitor each parked set gets.
//!
//! A set that was on the monitor before keeps its cell as long as that cell exists and nobody
//! before it in the pool has a claim on it. The cells that are left go to the others, in the order
//! of the pool.

use vstd::prelude::*;
use std::collections::HashMap;

use crate::application::parking_allocator;
use crate::application::parking_allocator::{ParkingSlotId, SlotView};
use crate::ids::Uuid;
use crate::order;
use crate::text;

verus! {

broadcast use vstd::std_specs::hash::group_hash_axioms;

/// The set held cell `c` of the monitor before.
pub open spec fn claims(previous: Map<Uuid, SlotView>, name: Seq<char>, id: Uuid, c: int) -> bool {
    previous.contains_key(id) && previous[id].monitor == name && previous[id].cell == c
}

pub open spec fn claim_test(
    previous: Map<Uuid, SlotView>,
    name: Seq<char>,
    pool: Seq<Uuid>,
    waiting: Seq<Uuid>,
    c: int,
) -> spec_fn(int) -> bool {
    |p: int| waiting.contains(pool[p]) && claims(previous, name, pool[p], c)
}

/// The first place in the pool of a set that waits for a cell and held cell `c` before.
pub open spec fn claimant(
    previous: Map<Uuid, SlotView>,
    name: Seq<char>,
    pool: Seq<Uuid>,
    waiting: Seq<Uuid>,
    c: int,
) -> Option<int> {
    order::first_where(pool.len(), claim_test(previous, name, pool, waiting, c))
}

/// A cell behind `c`, of `n` in all, is kept for the set at place `p` of the pool.
pub open spec fn has_later_cell(
    previous: Map<Uuid, SlotView>,
    name: Seq<char>,
    pool: Seq<Uuid>,
    waiting: Seq<Uuid>,
    c: int,
    n: nat,
    p: int,
) -> bool {
    &&& previous.contains_key(pool[p])
    &&& c < previous[pool[p]].cell < n
    &&& claimant(previous, name, pool, waiting, previous[pool[p]].cell) == Some(p)
}

pub open spec fn free_test(
    previous: Map<Uuid, SlotView>,
    name: Seq<char>,
    pool: Seq<Uuid>,
    waiting: Seq<Uuid>,
    c: int,
    n: nat,
) -> spec_fn(int) -> bool {
    |p: int|
        waiting.contains(pool[p]) && !has_later_cell(previous, name, pool, waiting, c, n, p)
}

/// The place in the pool of the set that gets cell `c`: the one that held it before, or else the
/// first for which no later cell is kept.
pub open spec fn next_for(
    previous: Map<Uuid, SlotView>,
    name: Seq<char>,
    pool: Seq<Uuid>,
    waiting: Seq<Uuid>,
    c: int,
    n: nat,
) -> Option<int> {
    match claimant(previous, name, pool, waiting, c) {
        Some(p) => Some(p),
        None => order::first_where(
            pool.len(),
            free_test(previous, name, pool, waiting, c, n),
        ),
    }
}

pub open spec fn is_at(s: Seq<Uuid>, id: Uuid) -> spec_fn(int) -> bool {
    |j: int| s[j] == id
}

/// `s` less one `id`.
pub open spec fn without(s: Seq<Uuid>, id: Uuid) -> Seq<Uuid> {
    match order::first_where(s.len(), is_at(s, id)) {
        Some(j) => s.remove(j),
        None => s,
    }
}

/// Who sits in the cells from `c` on, of `n` in all, where `waiting` have no cell yet.
pub open spec fn seats(
    previous: Map<Uuid, SlotView>,
    name: Seq<char>,
    pool: Seq<Uuid>,
    waiting: Seq<Uuid>,
    c: int,
    n: nat,
) -> Seq<Uuid>
    decreases waiting.len(),
    via seats_decreases
{
    match next_for(previous, name, pool, waiting, c, n) {
        Some(p) => if waiting.len() > 0 {
            seq![pool[p]] + seats(previous, name, pool, without(waiting, pool[p]), c + 1, n)
        } else {
            waiting
        },
        None => waiting,
    }
}

#[via_fn]
proof fn seats_decreases(
    previous: Map<Uuid, SlotView>,
    name: Seq<char>,
    pool: Seq<Uuid>,
    waiting: Seq<Uuid>,
    c: int,
    n: nat,
) {
    lemma_next_waits(previous, name, pool, waiting, c, n);
    if let Some(p) = next_for(previous, name, pool, waiting, c, n) {
        lemma_without(waiting, pool[p]);
    }
}

/// The cells of a monitor that holds `occupants`, each with the set that it goes to.
pub open spec fn seated(
    previous: Map<Uuid, SlotView>,
    name: Seq<char>,
    pool: Seq<Uuid>,
    occupants: Seq<Uuid>,
) -> Seq<Uuid> {
    seats(previous, name, pool, occupants, 0, occupants.len())
}

proof fn lemma_next_waits(
    previous: Map<Uuid, SlotView>,
    name: Seq<char>,
    pool: Seq<Uuid>,
    waiting: Seq<Uuid>,
    c: int,
    n: nat,
)
    ensures
        next_for(previous, name, pool, waiting, c, n) matches Some(p) ==> 0 <= p < pool.len()
            && waiting.contains(pool[p]),
{
    order::lemma_first_where(pool.len(), claim_test(previous, name, pool, waiting, c));
    order::lemma_first_where(pool.len(), free_test(previous, name, pool, waiting, c, n));
}

proof fn lemma_without(s: Seq<Uuid>, id: Uuid)
    requires
        s.contains(id),
    ensures
        without(s, id).len() == s.len() - 1,
        forall|x: Uuid| #[trigger] s.contains(x) <==> x == id || without(s, id).contains(x),
        s.no_duplicates() ==> without(s, id).no_duplicates() && !without(s, id).contains(id),
{
    let test = is_at(s, id);
    order::lemma_first_where(s.len(), test);
    let w0 = choose|j: int| 0 <= j < s.len() && s[j] == id;
    assert(test(w0));
    let at = order::first_where(s.len(), test)->0;
    let w = without(s, id);
    assert(w == s.remove(at));
    assert forall|x: Uuid| #[trigger] s.contains(x) <==> x == id || w.contains(x) by {
        if s.contains(x) && x != id {
            let j = choose|j: int| 0 <= j < s.len() && s[j] == x;
            if j < at {
                assert(w[j] == x);
            } else {
                assert(w[j - 1] == x);
            }
        }
        if w.contains(x) {
            let j = choose|j: int| 0 <= j < w.len() && w[j] == x;
            if j < at {
                assert(s[j] == x);
            } else {
                assert(s[j + 1] == x);
            }
        }
    }
    if s.no_duplicates() {
        assert(!w.contains(id)) by {
            if w.contains(id) {
                let j = choose|j: int| 0 <= j < w.len() && w[j] == id;
                let k = if j < at {
                    j
                } else {
                    j + 1
                };
                assert(s[k] == s[at]);
            }
        }
    }
}

/// Everybody who waits gets one cell, and nobody else does.
pub proof fn lemma_seats_hold(
    previous: Map<Uuid, SlotView>,
    name: Seq<char>,
    pool: Seq<Uuid>,
    waiting: Seq<Uuid>,
    c: int,
    n: nat,
)
    ensures
        seats(previous, name, pool, waiting, c, n).len() == waiting.len(),
        forall|x: Uuid| #[trigger]
            seats(previous, name, pool, waiting, c, n).contains(x) <==> waiting.contains(x),
        waiting.no_duplicates() ==> seats(previous, name, pool, waiting, c, n).no_duplicates(),
    decreases waiting.len(),
{
    lemma_next_waits(previous, name, pool, waiting, c, n);
    let all = seats(previous, name, pool, waiting, c, n);
    if let Some(p) = next_for(previous, name, pool, waiting, c, n) {
        let id = pool[p];
        let rest = without(waiting, id);
        lemma_without(waiting, id);
        lemma_seats_hold(previous, name, pool, rest, c + 1, n);
        let later = seats(previous, name, pool, rest, c + 1, n);
        assert(all == seq![id] + later);
        assert forall|x: Uuid| #[trigger] all.contains(x) <==> waiting.contains(x) by {
            if all.contains(x) {
                let j = choose|j: int| 0 <= j < all.len() && all[j] == x;
                if j > 0 {
                    assert(later[j - 1] == x);
                    assert(later.contains(x));
                }
            }
            if waiting.contains(x) {
                if x == id {
                    assert(all[0] == x);
                } else {
                    assert(later.contains(x));
                    let j = choose|j: int| 0 <= j < later.len() && later[j] == x;
                    assert(all[j + 1] == x);
                }
            }
        }
        if waiting.no_duplicates() {
            assert forall|i: int, j: int| 0 <= i < all.len() && 0 <= j < all.len() && i != j implies all[i]
                != all[j] by {
                if i > 0 && j > 0 {
                    assert(later[i - 1] != later[j - 1]);
                } else if i > 0 {
                    assert(later.contains(later[i - 1]));
                } else {
                    assert(later.contains(later[j - 1]));
                }
            }
        }
    }
}

/// More numbers than there are below `m` are not all different.
proof fn lemma_numbers_repeat(x: Seq<usize>, m: nat)
    requires
        x.len() == m + 1,
        m <= usize::MAX,
        forall|a: int| 0 <= a < x.len() ==> (#[trigger] x[a]) < m,
    ensures
        !x.no_duplicates(),
{
    if x.no_duplicates() {
        let head = x.take(m as int);
        assert(head.no_duplicates());
        assert forall|a: int| 0 <= a < head.len() implies (#[trigger] head[a]) < m by {
            assert(head[a] == x[a]);
        }
        order::lemma_order_is_complete(head, m);
        assert(head.contains(x[m as int]));
        let j = choose|j: int| 0 <= j < head.len() && head[j] == x[m as int];
        assert(x[j] == x[m as int]);
    }
}

/// While somebody waits, somebody can be given the next cell.
proof fn lemma_somebody_is_next(
    previous: Map<Uuid, SlotView>,
    name: Seq<char>,
    pool: Seq<Uuid>,
    waiting: Seq<Uuid>,
    c: int,
    n: nat,
)
    requires
        0 <= c < n <= usize::MAX,
        waiting.len() == n - c,
        waiting.no_duplicates(),
        forall|j: int| 0 <= j < waiting.len() ==> pool.contains(#[trigger] waiting[j]),
    ensures
        next_for(previous, name, pool, waiting, c, n) is Some,
{
    let free = free_test(previous, name, pool, waiting, c, n);
    order::lemma_first_where(pool.len(), free);
    if next_for(previous, name, pool, waiting, c, n) is None {
        let cells = Seq::new(waiting.len(), |j: int| (previous[waiting[j]].cell - c - 1) as usize);
        assert forall|j: int| 0 <= j < waiting.len() implies {
            &&& previous.contains_key(#[trigger] waiting[j])
            &&& c < previous[waiting[j]].cell < n
            &&& claimant(previous, name, pool, waiting, previous[waiting[j]].cell) matches Some(p)
            &&& pool[p] == waiting[j]
        } by {
            assert(pool.contains(waiting[j]));
            let p = choose|p: int| 0 <= p < pool.len() && pool[p] == waiting[j];
            assert(waiting.contains(pool[p]));
            assert(!free(p));
        }
        assert forall|a: int, b: int|
            0 <= a < cells.len() && 0 <= b < cells.len() && a != b implies cells[a] != cells[b] by {
            assert(previous.contains_key(waiting[a]) && previous.contains_key(waiting[b]));
            if previous[waiting[a]].cell == previous[waiting[b]].cell {
                assert(waiting[a] == waiting[b]);
            }
        }
        assert forall|a: int| 0 <= a < cells.len() implies (#[trigger] cells[a]) < n - c - 1 by {
            assert(previous.contains_key(waiting[a]));
        }
        lemma_numbers_repeat(cells, (n - c - 1) as nat);
    }
}

/// The first who held a cell before sits in it again.
pub proof fn lemma_claimant_is_seated(
    previous: Map<Uuid, SlotView>,
    name: Seq<char>,
    pool: Seq<Uuid>,
    waiting: Seq<Uuid>,
    c: int,
    n: nat,
    k: int,
    p: int,
)
    requires
        0 <= c <= k < n <= usize::MAX,
        waiting.len() == n - c,
        waiting.no_duplicates(),
        pool.no_duplicates(),
        forall|j: int| 0 <= j < waiting.len() ==> pool.contains(#[trigger] waiting[j]),
        claimant(previous, name, pool, waiting, k) == Some(p),
    ensures
        seats(previous, name, pool, waiting, c, n)[k - c] == pool[p],
    decreases waiting.len(),
{
    let test = claim_test(previous, name, pool, waiting, k);
    order::lemma_first_where(pool.len(), test);
    lemma_somebody_is_next(previous, name, pool, waiting, c, n);
    lemma_next_waits(previous, name, pool, waiting, c, n);
    let q = next_for(previous, name, pool, waiting, c, n)->0;
    let rest = without(waiting, pool[q]);
    lemma_without(waiting, pool[q]);
    lemma_seats_hold(previous, name, pool, rest, c + 1, n);
    if c < k {
        order::lemma_first_where(pool.len(), claim_test(previous, name, pool, waiting, c));
        order::lemma_first_where(pool.len(), free_test(previous, name, pool, waiting, c, n));
        assert(q != p) by {
            if q == p {
                assert(has_later_cell(previous, name, pool, waiting, c, n, p));
            }
        }
        assert(pool[q] != pool[p]);
        let later = claim_test(previous, name, pool, rest, k);
        assert(rest.contains(pool[p])) by {
            assert(waiting.contains(pool[p]));
        }
        assert forall|r: int| 0 <= r < p implies !#[trigger] later(r) by {
            assert(!test(r));
            if rest.contains(pool[r]) {
                assert(waiting.contains(pool[r]));
            }
        }
        order::lemma_first_where_some(pool.len(), later, p);
        assert forall|j: int| 0 <= j < rest.len() implies pool.contains(#[trigger] rest[j]) by {
            assert(rest.contains(rest[j]));
            assert(waiting.contains(rest[j]));
            let i = choose|i: int| 0 <= i < waiting.len() && waiting[i] == rest[j];
            assert(pool.contains(waiting[i]));
        }
        lemma_claimant_is_seated(previous, name, pool, rest, c + 1, n, k, p);
    }
}

/// Whoever held a cell before that still exists sits in it again, unless somebody else on the
/// monitor held the same.
pub proof fn lemma_sole_claimant_is_seated(
    previous: Map<Uuid, SlotView>,
    name: Seq<char>,
    pool: Seq<Uuid>,
    occupants: Seq<Uuid>,
    id: Uuid,
)
    requires
        occupants.len() <= usize::MAX,
        occupants.no_duplicates(),
        pool.no_duplicates(),
        forall|j: int| 0 <= j < occupants.len() ==> pool.contains(#[trigger] occupants[j]),
        occupants.contains(id),
        claims(previous, name, id, previous[id].cell),
        0 <= previous[id].cell < occupants.len(),
        forall|j: int|
            0 <= j < occupants.len() && #[trigger] occupants[j] != id ==> !claims(
                previous,
                name,
                occupants[j],
                previous[id].cell,
            ),
    ensures
        seated(previous, name, pool, occupants)[previous[id].cell] == id,
{
    let k = previous[id].cell;
    let test = claim_test(previous, name, pool, occupants, k);
    let j = choose|j: int| 0 <= j < occupants.len() && occupants[j] == id;
    assert(pool.contains(occupants[j]));
    let p = choose|p: int| 0 <= p < pool.len() && pool[p] == id;
    assert forall|r: int| 0 <= r < p implies !#[trigger] test(r) by {
        assert(pool[r] != pool[p]);
        if occupants.contains(pool[r]) {
            let i = choose|i: int| 0 <= i < occupants.len() && occupants[i] == pool[r];
            assert(occupants[i] != id);
        }
    }
    assert(test(p));
    order::lemma_first_where_some(pool.len(), test, p);
    lemma_claimant_is_seated(previous, name, pool, occupants, 0, occupants.len(), k, p);
}

fn holds(s: &Vec<Uuid>, id: Uuid) -> (r: bool)
    ensures
        r == s@.contains(id),
{
    let mut i: usize = 0;
    while i < s.len()
        invariant
            i <= s@.len(),
            forall|j: int| 0 <= j < i ==> s@[j] != id,
        decreases s@.len() - i,
    {
        if s[i] == id {
            return true;
        }
        i += 1;
    }
    false
}

fn find_claimant(
    previous: &HashMap<Uuid, ParkingSlotId>,
    name: &str,
    pool: &Vec<Uuid>,
    waiting: &Vec<Uuid>,
    c: usize,
) -> (r: Option<usize>)
    ensures
        match r {
            Some(p) => claimant(
                parking_allocator::slots_view(previous@),
                name@,
                pool@,
                waiting@,
                c as int,
            ) == Some(p as int) && p < pool@.len(),
            None => claimant(
                parking_allocator::slots_view(previous@),
                name@,
                pool@,
                waiting@,
                c as int,
            ) is None,
        },
{
    let ghost pv = parking_allocator::slots_view(previous@);
    let ghost test = claim_test(pv, name@, pool@, waiting@, c as int);
    let mut p: usize = 0;
    while p < pool.len()
        invariant
            p <= pool@.len(),
            pv == parking_allocator::slots_view(previous@),
            test == claim_test(pv, name@, pool@, waiting@, c as int),
            forall|j: int| 0 <= j < p ==> !#[trigger] test(j),
        decreases pool@.len() - p,
    {
        let claimed = match previous.get(&pool[p]) {
            Some(slot) => {
                assert(pv[pool@[p as int]] == slot@);
                slot.cell_index == c && text::same_text(slot.monitor_id.as_str(), name)
            },
            None => false,
        };
        if claimed && holds(waiting, pool[p]) {
            proof {
                assert(test(p as int));
                order::lemma_first_where_some(pool@.len(), test, p as int);
            }
            return Some(p);
        }
        assert(!test(p as int));
        p += 1;
    }
    proof {
        order::lemma_first_where_none(pool@.len(), test);
    }
    None
}

fn is_kept_a_later_cell(
    previous: &HashMap<Uuid, ParkingSlotId>,
    name: &str,
    pool: &Vec<Uuid>,
    waiting: &Vec<Uuid>,
    c: usize,
    n: usize,
    p: usize,
) -> (r: bool)
    requires
        p < pool@.len(),
    ensures
        r == has_later_cell(
            parking_allocator::slots_view(previous@),
            name@,
            pool@,
            waiting@,
            c as int,
            n as nat,
            p as int,
        ),
{
    let ghost pv = parking_allocator::slots_view(previous@);
    match previous.get(&pool[p]) {
        Some(slot) => {
            assert(pv[pool@[p as int]] == slot@);
            if c < slot.cell_index && slot.cell_index < n {
                match find_claimant(previous, name, pool, waiting, slot.cell_index) {
                    Some(q) => q == p,
                    None => false,
                }
            } else {
                false
            }
        },
        None => false,
    }
}

fn find_next(
    previous: &HashMap<Uuid, ParkingSlotId>,
    name: &str,
    pool: &Vec<Uuid>,
    waiting: &Vec<Uuid>,
    c: usize,
    n: usize,
) -> (r: Option<usize>)
    ensures
        match r {
            Some(p) => next_for(
                parking_allocator::slots_view(previous@),
                name@,
                pool@,
                waiting@,
                c as int,
                n as nat,
            ) == Some(p as int) && p < pool@.len(),
            None => next_for(
                parking_allocator::slots_view(previous@),
                name@,
                pool@,
                waiting@,
                c as int,
                n as nat,
            ) is None,
        },
{
    let ghost pv = parking_allocator::slots_view(previous@);
    if let Some(p) = find_claimant(previous, name, pool, waiting, c) {
        return Some(p);
    }
    let ghost test = free_test(pv, name@, pool@, waiting@, c as int, n as nat);
    let mut p: usize = 0;
    while p < pool.len()
        invariant
            p <= pool@.len(),
            pv == parking_allocator::slots_view(previous@),
            claimant(pv, name@, pool@, waiting@, c as int) is None,
            test == free_test(pv, name@, pool@, waiting@, c as int, n as nat),
            forall|j: int| 0 <= j < p ==> !#[trigger] test(j),
        decreases pool@.len() - p,
    {
        if holds(waiting, pool[p]) && !is_kept_a_later_cell(previous, name, pool, waiting, c, n, p) {
            proof {
                assert(test(p as int));
                order::lemma_first_where_some(pool@.len(), test, p as int);
            }
            return Some(p);
        }
        assert(!test(p as int));
        p += 1;
    }
    proof {
        order::lemma_first_where_none(pool@.len(), test);
    }
    None
}

fn take_out(s: &mut Vec<Uuid>, id: Uuid)
    ensures
        final(s)@ == without(old(s)@, id),
{
    let ghost test = is_at(s@, id);
    let mut i: usize = 0;
    while i < s.len()
        invariant
            i <= s@.len(),
            s@ == old(s)@,
            test == is_at(s@, id),
            forall|j: int| 0 <= j < i ==> !#[trigger] test(j),
        decreases s@.len() - i,
    {
        if s[i] == id {
            proof {
                assert(test(i as int));
                order::lemma_first_where_some(s@.len(), test, i as int);
            }
            s.remove(i);
            return;
        }
        assert(!test(i as int));
        i += 1;
    }
    proof {
        order::lemma_first_where_none(s@.len(), test);
    }
}

/// Deals the cells of one monitor out to its occupants.
pub fn seat(
    previous: &HashMap<Uuid, ParkingSlotId>,
    name: &str,
    pool: &Vec<Uuid>,
    occupants: &Vec<Uuid>,
) -> (r: Vec<Uuid>)
    ensures
        r@ == seated(parking_allocator::slots_view(previous@), name@, pool@, occupants@),
{
    let ghost pv = parking_allocator::slots_view(previous@);
    let n: usize = occupants.len();
    let ghost all = seated(pv, name@, pool@, occupants@);
    let mut waiting = occupants.clone();
    assert(waiting@ =~= occupants@);
    let mut out: Vec<Uuid> = Vec::new();
    assert(out@ + all =~= all);
    while waiting.len() > 0
        invariant
            pv == parking_allocator::slots_view(previous@),
            all == seated(pv, name@, pool@, occupants@),
            out@.len() + waiting@.len() == n,
            all == out@ + seats(pv, name@, pool@, waiting@, out@.len() as int, n as nat),
        decreases waiting@.len(),
    {
        let c: usize = out.len();
        match find_next(previous, name, pool, &waiting, c, n) {
            Some(p) => {
                let id: u128 = pool[p];
                let ghost before = waiting@;
                proof {
                    lemma_next_waits(pv, name@, pool@, before, c as int, n as nat);
                    lemma_without(before, id);
                }
                take_out(&mut waiting, id);
                out.push(id);
                assert(all =~= out@ + seats(
                    pv,
                    name@,
                    pool@,
                    waiting@,
                    out@.len() as int,
                    n as nat,
                ));
            },
            None => {
                out.append(&mut waiting);
                return out;
            },
        }
    }
    assert(seats(pv, name@, pool@, waiting@, out@.len() as int, n as nat) =~= Seq::<Uuid>::empty())
        by {
        lemma_seats_hold(pv, name@, pool@, waiting@, out@.len() as int, n as nat);
    }
    out
}

} // verus!
