//! The order of the sets in the quick switcher, and which of them a filter leaves.

use vstd::prelude::*;

use crate::domain::config::SortMode;
use crate::domain::workset::Workset;
use crate::ids::Uuid;
use crate::order;
use crate::order::Ranked;
use crate::text;

verus! {

/// Which way a set is moved in the list.
#[derive(Clone, Copy, Debug, PartialEq, Eq, Structural)]
pub enum MoveDirection {
    Up,
    Down,
}

pub open spec fn sort_orders(worksets: Seq<Workset>) -> Seq<i32> {
    worksets.map_values(|w: Workset| w.sort_order)
}

/// The sets as the user has ordered them.
pub open spec fn is_manual_order(order: Seq<usize>, worksets: Seq<Workset>) -> bool {
    order::is_stable_order(order, sort_orders(worksets))
}

pub open spec fn manual_order(worksets: Seq<Workset>) -> Seq<usize> {
    choose|order: Seq<usize>| is_manual_order(order, worksets)
}

pub open spec fn place_test(
    order: Seq<usize>,
    worksets: Seq<Workset>,
    id: Uuid,
) -> spec_fn(int) -> bool {
    |p: int| worksets[order[p] as int].id == id
}

/// The place of a set in an order.
pub open spec fn place_in(order: Seq<usize>, worksets: Seq<Workset>, id: Uuid) -> Option<int> {
    order::first_where(order.len(), place_test(order, worksets, id))
}

/// The place next to `p`, if there is one.
pub open spec fn place_beside(p: int, n: int, direction: MoveDirection) -> Option<int> {
    match direction {
        MoveDirection::Up => if p > 0 {
            Some(p - 1)
        } else {
            None
        },
        MoveDirection::Down => if p + 1 < n {
            Some(p + 1)
        } else {
            None
        },
    }
}

pub open spec fn swapped(order: Seq<usize>, a: int, b: int) -> Seq<usize> {
    order.update(a, order[b]).update(b, order[a])
}

/// The order once a set is moved by one place, or nothing where it cannot be moved.
pub open spec fn moved_order(
    order: Seq<usize>,
    worksets: Seq<Workset>,
    id: Uuid,
    direction: MoveDirection,
) -> Option<Seq<usize>> {
    match place_in(order, worksets, id) {
        Some(p) => match place_beside(p, order.len() as int, direction) {
            Some(q) => Some(swapped(order, p, q)),
            None => None,
        },
        None => None,
    }
}

/// The number that a place is written down as.
pub open spec fn place_number(p: int) -> i32 {
    if p <= i32::MAX {
        p as i32
    } else {
        0
    }
}

/// The sets are numbered by their places in `order`, and otherwise as they were.
pub open spec fn numbered_by(
    now: Seq<Workset>,
    before: Seq<Workset>,
    order: Seq<usize>,
) -> bool {
    &&& now.len() == before.len()
    &&& forall|p: int|
        0 <= p < order.len() ==> now[#[trigger] order[p] as int] == (Workset {
            sort_order: place_number(p),
            ..before[order[p] as int]
        })
}

/// Moves a set by one place in the order of the user, and numbers all sets anew. Returns whether
/// it was moved; at either end it stays where it is, and nothing is changed.
pub fn move_workset(worksets: &mut Vec<Workset>, workset_id: Uuid, direction: MoveDirection) -> (r:
    bool)
    ensures
        match moved_order(
            manual_order(old(worksets)@),
            old(worksets)@,
            workset_id,
            direction,
        ) {
            Some(order) => r && numbered_by(final(worksets)@, old(worksets)@, order),
            None => !r && final(worksets)@ == old(worksets)@,
        },
{
    let ghost before = worksets@;
    let n: usize = worksets.len();
    let mut keys: Vec<i32> = Vec::new();
    let mut i: usize = 0;
    assert(keys@ =~= sort_orders(before).take(0));
    while i < n
        invariant
            i <= n == worksets@.len(),
            worksets@ == before,
            keys@ == sort_orders(before).take(i as int),
        decreases n - i,
    {
        keys.push(worksets[i].sort_order);
        assert(keys@ =~= sort_orders(before).take(i + 1));
        i += 1;
    }
    assert(keys@ =~= sort_orders(before));
    let mut o = order::stable_order(&keys);
    let ghost first = o@;
    proof {
        assert(is_manual_order(first, before));
        order::lemma_stable_order_unique(first, manual_order(before), sort_orders(before));
        order::lemma_stable_order_distinct(first, sort_orders(before));
    }
    let ghost test = place_test(first, before, workset_id);
    let mut p: usize = 0;
    while p < n && worksets[o[p]].id != workset_id
        invariant
            p <= n == worksets@.len(),
            o@ == first,
            o@.len() == n,
            worksets@ == before,
            forall|a: int| 0 <= a < o@.len() ==> (#[trigger] o@[a]) < n,
            test == place_test(first, before, workset_id),
            forall|k: int| 0 <= k < p ==> !#[trigger] test(k),
        decreases n - p,
    {
        assert(!test(p as int));
        p += 1;
    }
    if p == n {
        proof {
            order::lemma_first_where_none(first.len(), test);
        }
        return false;
    }
    proof {
        order::lemma_first_where_some(first.len(), test, p as int);
    }
    let q: usize = match direction {
        MoveDirection::Up => if p > 0 {
            p - 1
        } else {
            return false;
        },
        MoveDirection::Down => if p + 1 < n {
            p + 1
        } else {
            return false;
        },
    };
    let a: usize = o[p];
    let b: usize = o[q];
    o.set(p, b);
    o.set(q, a);
    let ghost order = o@;
    proof {
        assert(order =~= swapped(first, p as int, q as int));
        assert forall|x: int, y: int| 0 <= x < n && 0 <= y < n && x != y implies order[x]
            != order[y] by {
            let x0 = if x == p {
                q as int
            } else if x == q {
                p as int
            } else {
                x
            };
            let y0 = if y == p {
                q as int
            } else if y == q {
                p as int
            } else {
                y
            };
            assert(order[x] == first[x0] && order[y] == first[y0]);
            assert(x0 != y0);
        }
    }
    let mut k: usize = 0;
    while k < n
        invariant
            k <= n == before.len(),
            worksets@.len() == n,
            o@ == order,
            order.len() == n,
            forall|x: int| 0 <= x < n ==> (#[trigger] order[x]) < n,
            forall|x: int, y: int| 0 <= x < n && 0 <= y < n && x != y ==> order[x] != order[y],
            forall|x: int|
                0 <= x < k ==> worksets@[#[trigger] order[x] as int] == (Workset {
                    sort_order: place_number(x),
                    ..before[order[x] as int]
                }),
            forall|x: int|
                k <= x < n ==> worksets@[#[trigger] order[x] as int] == before[order[x] as int],
        decreases n - k,
    {
        let at: usize = o[k];
        let number: i32 = if k <= i32::MAX as usize {
            k as i32
        } else {
            0
        };
        assert(worksets@[order[k as int] as int] == before[order[k as int] as int]);
        worksets[at].sort_order = number;
        k += 1;
    }
    true
}

/// The sets can be put in the order of the user.
proof fn lemma_manual_order(worksets: Seq<Workset>)
    requires
        worksets.len() <= i32::MAX + 1,
    ensures
        is_manual_order(manual_order(worksets), worksets),
{
    let order = order::lemma_stable_order_exists(sort_orders(worksets));
    assert(is_manual_order(order, worksets));
}

/// After a move, the order of the user is the one with the two neighbours exchanged, as long as
/// the places can be written down.
pub proof fn law_move_exchanges_neighbours(
    before: Seq<Workset>,
    now: Seq<Workset>,
    id: Uuid,
    direction: MoveDirection,
)
    requires
        moved_order(manual_order(before), before, id, direction) is Some,
        numbered_by(now, before, moved_order(manual_order(before), before, id, direction)->0),
        before.len() <= i32::MAX + 1,
    ensures
        manual_order(now) == moved_order(manual_order(before), before, id, direction)->0,
        is_manual_order(manual_order(now), now),
{
    lemma_manual_order(before);
    let o = manual_order(before);
    let m = moved_order(o, before, id, direction)->0;
    let keys = sort_orders(now);
    order::lemma_stable_order_distinct(o, sort_orders(before));
    order::lemma_first_where(o.len(), place_test(o, before, id));
    let p = place_in(o, before, id)->0;
    let q = place_beside(p, o.len() as int, direction)->0;
    assert(is_manual_order(m, now)) by {
        assert forall|a: int| 0 <= a < m.len() implies (#[trigger] m[a]) < keys.len() by {
            let a0 = if a == p {
                q
            } else if a == q {
                p
            } else {
                a
            };
            assert(m[a] == o[a0]);
        }
        assert forall|a: int, b: int| 0 <= a < b < m.len() implies order::stable_before(
            keys,
            #[trigger] m[a] as int,
            #[trigger] m[b] as int,
        ) by {
            assert(now[m[a] as int].sort_order == place_number(a));
            assert(now[m[b] as int].sort_order == place_number(b));
            assert(keys[m[a] as int] == a && keys[m[b] as int] == b);
            assert(keys[m[a] as int].precedes(keys[m[b] as int]));
        }
    }
    order::lemma_stable_order_unique(m, manual_order(now), keys);
}

pub open spec fn opposite(direction: MoveDirection) -> MoveDirection {
    match direction {
        MoveDirection::Up => MoveDirection::Down,
        MoveDirection::Down => MoveDirection::Up,
    }
}

/// Moving a set by one place and then back again gives the order that there was.
pub proof fn law_moving_back_restores_the_order(
    before: Seq<Workset>,
    middle: Seq<Workset>,
    id: Uuid,
    direction: MoveDirection,
)
    requires
        moved_order(manual_order(before), before, id, direction) is Some,
        numbered_by(
            middle,
            before,
            moved_order(manual_order(before), before, id, direction)->0,
        ),
        before.len() <= i32::MAX + 1,
        forall|i: int, j: int|
            0 <= i < j < before.len() ==> (#[trigger] before[i]).id != (#[trigger] before[j]).id,
    ensures
        moved_order(manual_order(middle), middle, id, opposite(direction)) == Some(
            manual_order(before),
        ),
{
    lemma_manual_order(before);
    let o = manual_order(before);
    let m = moved_order(o, before, id, direction)->0;
    law_move_exchanges_neighbours(before, middle, id, direction);
    order::lemma_stable_order_distinct(o, sort_orders(before));
    let test = place_test(o, before, id);
    order::lemma_first_where(o.len(), test);
    let p = place_in(o, before, id)->0;
    let q = place_beside(p, o.len() as int, direction)->0;
    assert(test(p));
    let again = place_test(m, middle, id);
    assert(m[q] == o[p]);
    assert(middle[m[q] as int].id == before[m[q] as int].id);
    assert(again(q));
    assert forall|j: int| 0 <= j < q implies !#[trigger] again(j) by {
        assert(middle[m[j] as int].id == before[m[j] as int].id);
        let j0 = if j == p {
            q
        } else {
            j
        };
        assert(m[j] == o[j0]);
        assert(o[p] != o[j0]);
        let (a, b) = (o[p] as int, o[j0] as int);
        if a < b {
            assert(before[a].id != before[b].id);
        } else {
            assert(before[b].id != before[a].id);
        }
    }
    order::lemma_first_where_some(m.len(), again, q);
    assert(swapped(m, q, p) =~= o);
}

// ---------------------------------------------------------------------------
// The list
// ---------------------------------------------------------------------------

/// A text in lower case, as `str::to_lowercase` has it.
pub uninterp spec fn lowercase(s: Seq<char>) -> Seq<char>;

/// `str::to_lowercase`: the text in lower case after Unicode. What that is, is left to the name
/// `lowercase`.
#[verifier::external_body]
pub(crate) fn to_lowercase(s: &str) -> (r: String)
    ensures
        r@ == lowercase(s@),
{
    s.to_lowercase()
}

/// The name in lower case, and then the number that the user has given.
pub open spec fn name_keys(worksets: Seq<Workset>) -> Seq<(Seq<char>, i32)> {
    worksets.map_values(|w: Workset| (lowercase(w.name@), w.sort_order))
}

/// One set comes before another by name, or else by the user's order, or else by where it stands.
pub open spec fn name_before(worksets: Seq<Workset>, i: int, j: int) -> bool {
    let a = name_keys(worksets)[i];
    let b = name_keys(worksets)[j];
    ||| order::text_precedes(a.0, b.0)
    ||| a.0 == b.0 && a.1 < b.1
    ||| a == b && i < j
}

/// All sets by name.
pub open spec fn is_name_order(order: Seq<usize>, worksets: Seq<Workset>) -> bool {
    &&& order.len() == worksets.len()
    &&& forall|a: int| 0 <= a < order.len() ==> (#[trigger] order[a]) < worksets.len()
    &&& forall|a: int, b: int|
        0 <= a < b < order.len() ==> name_before(
            worksets,
            #[trigger] order[a] as int,
            #[trigger] order[b] as int,
        )
}

/// All sets in the order that is asked for. Recent use is not recorded, so it means the order of
/// the user.
pub open spec fn is_order(order: Seq<usize>, worksets: Seq<Workset>, mode: SortMode) -> bool {
    match mode {
        SortMode::Manual => is_manual_order(order, worksets),
        SortMode::Recent => is_manual_order(order, worksets),
        SortMode::Name => is_name_order(order, worksets),
    }
}

/// The set has what is looked for in its name or in its path.
pub open spec fn is_hit(w: Workset, needle: Seq<char>) -> bool {
    text::occurs(lowercase(w.name@), needle) || text::occurs(
        lowercase(w.repository_path@),
        needle,
    )
}

pub open spec fn hit_test(worksets: Seq<Workset>, filter: Seq<char>) -> spec_fn(usize) -> bool {
    let needle = lowercase(text::trimmed(filter));
    |i: usize| needle.len() == 0 || is_hit(worksets[i as int], needle)
}

fn manual_positions(worksets: &[Workset]) -> (r: Vec<usize>)
    ensures
        is_manual_order(r@, worksets@),
{
    let mut keys: Vec<i32> = Vec::new();
    let mut i: usize = 0;
    assert(keys@ =~= sort_orders(worksets@).take(0));
    while i < worksets.len()
        invariant
            i <= worksets@.len(),
            keys@ == sort_orders(worksets@).take(i as int),
        decreases worksets@.len() - i,
    {
        keys.push(worksets[i].sort_order);
        assert(keys@ =~= sort_orders(worksets@).take(i + 1));
        i += 1;
    }
    assert(keys@ =~= sort_orders(worksets@));
    order::stable_order(&keys)
}

fn name_positions(worksets: &[Workset]) -> (r: Vec<usize>)
    ensures
        is_name_order(r@, worksets@),
{
    let mut keys: Vec<(String, i32)> = Vec::new();
    let mut i: usize = 0;
    let ghost nk = name_keys(worksets@);
    while i < worksets.len()
        invariant
            i <= worksets@.len(),
            nk == name_keys(worksets@),
            keys@.len() == i,
            forall|k: int|
                0 <= k < i ==> (#[trigger] keys@[k]).0@ == nk[k].0 && keys@[k].1 == nk[k].1,
        decreases worksets@.len() - i,
    {
        keys.push((to_lowercase(worksets[i].name.as_str()), worksets[i].sort_order));
        i += 1;
    }
    let o = order::stable_order(&keys);
    proof {
        order::lemma_stable_order_distinct(o@, keys@);
        assert forall|a: int, b: int| 0 <= a < b < o@.len() implies name_before(
            worksets@,
            #[trigger] o@[a] as int,
            #[trigger] o@[b] as int,
        ) by {
            let (i, j) = (o@[a] as int, o@[b] as int);
            assert(order::stable_before(keys@, i, j));
            lemma_pair_order(keys@, i, j);
            assert(keys@[i].0@ == nk[i].0 && keys@[j].0@ == nk[j].0);
        }
    }
    o
}

/// Pairs come in order by the text and then by the number.
proof fn lemma_pair_order(keys: Seq<(String, i32)>, i: int, j: int)
    requires
        order::stable_before(keys, i, j),
        0 <= i < keys.len(),
        0 <= j < keys.len(),
    ensures
        order::text_precedes(keys[i].0@, keys[j].0@) || (keys[i].0@ == keys[j].0@ && (keys[i].1
            < keys[j].1 || (keys[i].1 == keys[j].1 && i < j))),
{
    let (a, b) = (keys[i], keys[j]);
    order::lemma_text_total(a.0@, b.0@);
    if order::text_precedes(b.0@, a.0@) {
        assert(b.0.precedes(a.0));
        assert(b.precedes(a));
    } else if a.0@ == b.0@ && b.1 < a.1 {
        order::lemma_text_irreflexive(a.0@);
        assert(b.precedes(a));
    }
}

/// `listed` are the sets that the filter lets through, in the order of the mode.
pub open spec fn is_listed<'a>(
    listed: Seq<&'a Workset>,
    worksets: Seq<Workset>,
    sort_mode: SortMode,
    filter: Seq<char>,
) -> bool {
    exists|order: Seq<usize>|
        {
            &&& #[trigger] is_order(order, worksets, sort_mode)
            &&& listed == order.filter(hit_test(worksets, filter)).map_values(
                |i: usize| &worksets[i as int],
            )
        }
}

/// The sets in the order asked for, of which the filter leaves those whose name or path holds it,
/// whatever the case.
pub fn sorted_and_filtered<'a>(
    worksets: &'a [Workset],
    sort_mode: SortMode,
    filter_text: &str,
) -> (r: Vec<&'a Workset>)
    ensures
        is_listed(r@, worksets@, sort_mode, filter_text@),
{
    let o = match sort_mode {
        SortMode::Manual => manual_positions(worksets),
        SortMode::Recent => manual_positions(worksets),
        SortMode::Name => name_positions(worksets),
    };
    let ghost order = o@;
    assert(is_order(order, worksets@, sort_mode));
    let trimmed = text::trim_text(filter_text);
    let needle = to_lowercase(trimmed.as_str());
    let wanted = text::chars_of(needle.as_str());
    let ghost test = hit_test(worksets@, filter_text@);
    let ghost pick = |i: usize| &worksets@[i as int];
    let mut out: Vec<&'a Workset> = Vec::new();
    let mut k: usize = 0;
    proof {
        reveal(Seq::filter);
        assert(out@ =~= order.take(0).filter(test).map_values(pick));
    }
    while k < o.len()
        invariant
            k <= o@.len(),
            o@ == order,
            wanted@ == needle@,
            needle@ == lowercase(text::trimmed(filter_text@)),
            forall|a: int| 0 <= a < order.len() ==> (#[trigger] order[a]) < worksets@.len(),
            test == hit_test(worksets@, filter_text@),
            pick == (|i: usize| &worksets@[i as int]),
            out@ == order.take(k as int).filter(test).map_values(pick),
        decreases o@.len() - k,
    {
        let ghost kept = order.take(k as int).filter(test);
        proof {
            reveal(Seq::filter);
            assert(order.take(k + 1).drop_last() =~= order.take(k as int));
            assert(order.take(k + 1).last() == order[k as int]);
        }
        let at: usize = o[k];
        let w = &worksets[at];
        let keep = wanted.len() == 0 || text::contains_text(
            to_lowercase(w.name.as_str()).as_str(),
            needle.as_str(),
        ) || text::contains_text(
            to_lowercase(w.repository_path.as_str()).as_str(),
            needle.as_str(),
        );
        assert(keep == test(at));
        if keep {
            out.push(w);
            assert(out@ =~= kept.push(at).map_values(pick));
        }
        k += 1;
    }
    assert(order.take(order.len() as int) =~= order);
    out
}

/// What the user looks for, without white space around it and in lower case, is in the name or in
/// the path of the set; looking for nothing finds every set.
pub open spec fn is_looked_for(w: Workset, filter: Seq<char>) -> bool {
    let needle = lowercase(text::trimmed(filter));
    ||| needle.len() == 0
    ||| text::occurs(lowercase(w.name@), needle)
    ||| text::occurs(lowercase(w.repository_path@), needle)
}

proof fn lemma_filtered(order: Seq<usize>, test: spec_fn(usize) -> bool)
    ensures
        forall|k: int|
            0 <= k < order.filter(test).len() ==> order.contains(
                #[trigger] order.filter(test)[k],
            ) && test(order.filter(test)[k]),
        forall|k: int|
            0 <= k < order.len() && test(#[trigger] order[k]) ==> order.filter(test).contains(
                order[k],
            ),
    decreases order.len(),
{
    reveal(Seq::filter);
    if order.len() > 0 {
        let rest = order.drop_last();
        lemma_filtered(rest, test);
        let before = rest.filter(test);
        let now = order.filter(test);
        assert forall|k: int| 0 <= k < now.len() implies order.contains(#[trigger] now[k]) && test(
            now[k],
        ) by {
            if k < before.len() {
                assert(now[k] == before[k]);
                let j = choose|j: int| 0 <= j < rest.len() && rest[j] == before[k];
                assert(order[j] == now[k]);
            } else {
                assert(order[order.len() - 1] == now[k]);
            }
        }
        assert forall|k: int| 0 <= k < order.len() && test(#[trigger] order[k]) implies now.contains(
            order[k],
        ) by {
            if k < rest.len() {
                assert(rest[k] == order[k]);
                let j = choose|j: int| 0 <= j < before.len() && before[j] == rest[k];
                assert(now[j] == order[k]);
            } else {
                assert(now[before.len() as int] == order[k]);
            }
        }
    }
}

/// Where two entries of what is kept stand in the whole, in the same order.
proof fn lemma_filtered_order(
    order: Seq<usize>,
    test: spec_fn(usize) -> bool,
    a: int,
    b: int,
) -> (r: (int, int))
    requires
        0 <= a < b < order.filter(test).len(),
    ensures
        0 <= r.0 < r.1 < order.len(),
        order[r.0] == order.filter(test)[a],
        order[r.1] == order.filter(test)[b],
    decreases order.len(),
{
    reveal(Seq::filter);
    let rest = order.drop_last();
    let before = rest.filter(test);
    if b < before.len() {
        lemma_filtered_order(rest, test, a, b)
    } else {
        lemma_filtered(rest, test);
        assert(before[a] == order.filter(test)[a]);
        let j = choose|j: int| 0 <= j < rest.len() && rest[j] == before[a];
        (j, order.len() - 1)
    }
}

/// The list holds exactly the sets that have what the user looks for, in the order asked for: by the
/// numbers that the user has given, or by name, whatever the case.
pub proof fn law_list_holds_what_is_looked_for<'a>(
    listed: Seq<&'a Workset>,
    worksets: Seq<Workset>,
    mode: SortMode,
    filter: Seq<char>,
)
    requires
        is_listed(listed, worksets, mode, filter),
        worksets.len() <= usize::MAX,
    ensures
        forall|k: int|
            0 <= k < listed.len() ==> worksets.contains(*(#[trigger] listed[k])) && is_looked_for(
                *listed[k],
                filter,
            ),
        forall|i: int|
            0 <= i < worksets.len() && is_looked_for(#[trigger] worksets[i], filter) ==> exists|
                k: int,
            | 0 <= k < listed.len() && *(#[trigger] listed[k]) == worksets[i],
        forall|a: int, b: int|
            0 <= a < b < listed.len() ==> match mode {
                SortMode::Name => !order::text_precedes(
                    lowercase((#[trigger] listed[b]).name@),
                    lowercase((#[trigger] listed[a]).name@),
                ),
                _ => listed[a].sort_order <= listed[b].sort_order,
            },
{
    let test = hit_test(worksets, filter);
    let order = choose|order: Seq<usize>|
        {
            &&& #[trigger] is_order(order, worksets, mode)
            &&& listed == order.filter(test).map_values(|i: usize| &worksets[i as int])
        };
    let kept = order.filter(test);
    lemma_filtered(order, test);
    assert forall|k: int| 0 <= k < listed.len() implies *(#[trigger] listed[k])
        == worksets[kept[k] as int] && kept[k] < worksets.len() && test(kept[k]) by {
        assert(order.contains(kept[k]));
        let j = choose|j: int| 0 <= j < order.len() && order[j] == kept[k];
        assert(order[j] < worksets.len());
    }
    assert(order.no_duplicates()) by {
        assert forall|a: int, b: int| 0 <= a < order.len() && 0 <= b < order.len() && a != b implies
            order[a] != order[b] by {
            let (x, y) = if a < b {
                (a, b)
            } else {
                (b, a)
            };
            match mode {
                SortMode::Name => {
                    assert(name_before(worksets, order[x] as int, order[y] as int));
                    order::lemma_text_irreflexive(name_keys(worksets)[order[x] as int].0);
                },
                _ => {
                    order::lemma_stable_order_distinct(order, sort_orders(worksets));
                },
            }
        }
    }
    order::lemma_order_is_complete(order, worksets.len());
    assert forall|i: int|
        0 <= i < worksets.len() && is_looked_for(#[trigger] worksets[i], filter) implies exists|
        k: int,
    | 0 <= k < listed.len() && *(#[trigger] listed[k]) == worksets[i] by {
        assert(order.contains(i as usize));
        let j = choose|j: int| 0 <= j < order.len() && order[j] == i as usize;
        assert(test(order[j]));
        let k = choose|k: int| 0 <= k < kept.len() && kept[k] == order[j];
        assert(*listed[k] == worksets[i]);
    }
    assert forall|a: int, b: int| 0 <= a < b < listed.len() implies match mode {
        SortMode::Name => !order::text_precedes(
            lowercase((#[trigger] listed[b]).name@),
            lowercase((#[trigger] listed[a]).name@),
        ),
        _ => listed[a].sort_order <= listed[b].sort_order,
    } by {
        let (x, y) = lemma_filtered_order(order, test, a, b);
        let (i, j) = (order[x] as int, order[y] as int);
        assert(*listed[a] == worksets[i] && *listed[b] == worksets[j]);
        match mode {
            SortMode::Name => {
                assert(name_before(worksets, order[x] as int, order[y] as int));
                let (p, q) = (lowercase(worksets[i].name@), lowercase(worksets[j].name@));
                assert(name_keys(worksets)[i].0 == p && name_keys(worksets)[j].0 == q);
                order::lemma_text_irreflexive(p);
                if order::text_precedes(p, q) && order::text_precedes(q, p) {
                    order::lemma_text_transitive(p, q, p);
                }
            },
            _ => {
                let keys = sort_orders(worksets);
                assert(order::stable_before(keys, order[x] as int, order[y] as int));
                assert(keys[i] == worksets[i].sort_order && keys[j] == worksets[j].sort_order);
            },
        }
    }
}

} // verus!
