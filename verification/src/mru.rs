//! Windows by most recent use.

use crate::overlay::WindowEntry;
use vstd::prelude::*;

verus! {

/// `windows` without `window`.
pub open spec fn without(windows: Seq<u32>, window: u32) -> Seq<u32>
    decreases windows.len(),
{
    if windows.len() == 0 {
        Seq::empty()
    } else {
        let rest = without(windows.drop_last(), window);
        if windows.last() == window {
            rest
        } else {
            rest.push(windows.last())
        }
    }
}

/// The list after `window` has been used: it comes first, and the others follow
/// in their order. No window, and the overlay's own, are not listed.
pub open spec fn used(mru: Seq<u32>, window: u32, overlay: Option<u32>) -> Seq<u32> {
    if window == 0 || overlay == Some(window) {
        mru
    } else {
        seq![window] + without(mru, window)
    }
}

/// Notes that `window` has been used.
pub fn update_mru(mru: &mut Vec<u32>, window: u32, overlay: Option<u32>)
    ensures
        final(mru)@ == used(old(mru)@, window, overlay),
{
    if window == 0 {
        return ;
    }
    match overlay {
        Some(own) => {
            if own == window {
                return ;
            }
        },
        None => {},
    }
    let ghost before = mru@;
    let mut list: Vec<u32> = Vec::new();
    list.push(window);
    let mut i: usize = 0;
    while i < mru.len()
        invariant
            i <= mru@.len(),
            mru@ == before,
            list@ == seq![window] + without(before.take(i as int), window),
        decreases mru@.len() - i,
    {
        proof {
            assert(before.take(i + 1).drop_last() =~= before.take(i as int));
            assert(before.take(i + 1).last() == before[i as int]);
        }
        if mru[i] != window {
            list.push(mru[i]);
        }
        proof {
            assert(list@ =~= seq![window] + without(before.take(i + 1), window));
        }
        i = i + 1;
    }
    proof {
        assert(before.take(before.len() as int) =~= before);
    }
    *mru = list;
}

/// What `without` keeps.
proof fn lemma_without(windows: Seq<u32>, window: u32)
    ensures
        !without(windows, window).contains(window),
        forall|w: u32|
            w != window ==> (without(windows, window).contains(w) <==> #[trigger] windows.contains(
                w,
            )),
        windows.no_duplicates() ==> without(windows, window).no_duplicates(),
        !windows.contains(window) ==> without(windows, window) == windows,
    decreases windows.len(),
{
    if windows.len() > 0 {
        let init = windows.drop_last();
        let last = windows.last();
        lemma_without(init, window);
        let rest = without(init, window);
        let all = without(windows, window);
        assert(windows =~= init.push(last));
        assert forall|w: u32| w != window implies (all.contains(w) <==> #[trigger] windows.contains(
            w,
        )) by {
            if all.contains(w) {
                let i = choose|i: int| 0 <= i < all.len() && all[i] == w;
                if i < rest.len() {
                    assert(rest[i] == w);
                    assert(init.contains(w));
                    let j = choose|j: int| 0 <= j < init.len() && init[j] == w;
                    assert(windows[j] == w);
                } else {
                    assert(windows[windows.len() - 1] == w);
                }
            }
            if windows.contains(w) {
                let j = choose|j: int| 0 <= j < windows.len() && windows[j] == w;
                if j < init.len() {
                    assert(init[j] == w);
                    assert(init.contains(w));
                    assert(rest.contains(w));
                    let i = choose|i: int| 0 <= i < rest.len() && rest[i] == w;
                    assert(all[i] == w);
                } else {
                    assert(all[all.len() - 1] == w);
                }
            }
        }
        assert(!all.contains(window)) by {
            if all.contains(window) {
                let i = choose|i: int| 0 <= i < all.len() && all[i] == window;
                if i < rest.len() {
                    assert(rest[i] == window);
                }
            }
        }
        if windows.no_duplicates() {
            assert(init.no_duplicates());
            if last != window {
                assert(!init.contains(last));
                assert(!rest.contains(last));
                assert forall|i: int, j: int|
                    0 <= i < all.len() && 0 <= j < all.len() && i != j implies all[i] != all[j] by {
                    if i < rest.len() && j < rest.len() {
                        assert(rest[i] != rest[j]);
                    } else if i < rest.len() {
                        assert(rest.contains(rest[i]));
                    } else if j < rest.len() {
                        assert(rest.contains(rest[j]));
                    }
                }
            }
        }
        if !windows.contains(window) {
            assert(windows[windows.len() - 1] != window);
            assert(!init.contains(window)) by {
                if init.contains(window) {
                    let j = choose|j: int| 0 <= j < init.len() && init[j] == window;
                    assert(windows[j] == window);
                }
            }
            assert(all =~= windows);
        }
    } else {
        assert(without(windows, window) =~= windows);
    }
}

/// A window that has just been used comes first; the list keeps the windows it
/// had, holds none of them twice, and using the same window again changes
/// nothing.
pub proof fn the_last_used_comes_first(mru: Seq<u32>, window: u32, overlay: Option<u32>, w: u32)
    requires
        mru.no_duplicates(),
        window != 0,
        overlay != Some(window),
    ensures
        used(mru, window, overlay)[0] == window,
        used(mru, window, overlay).no_duplicates(),
        used(mru, window, overlay).contains(w) <==> w == window || mru.contains(w),
        used(used(mru, window, overlay), window, overlay) == used(mru, window, overlay),
{
    lemma_without(mru, window);
    let rest = without(mru, window);
    let after = used(mru, window, overlay);
    assert(after =~= seq![window] + rest);
    assert(after[0] == window);
    if after.contains(w) {
        let i = choose|i: int| 0 <= i < after.len() && after[i] == w;
        if i > 0 {
            assert(rest[i - 1] == w);
            assert(rest.contains(w));
        }
    }
    if w == window {
        assert(after[0] == w);
    } else if mru.contains(w) {
        let i = choose|i: int| 0 <= i < rest.len() && rest[i] == w;
        assert(after[i + 1] == w);
    }
    assert forall|i: int, j: int|
        0 <= i < after.len() && 0 <= j < after.len() && i != j implies after[i] != after[j] by {
        if i > 0 && j > 0 {
            assert(rest[i - 1] != rest[j - 1]);
        } else if i > 0 {
            assert(rest.contains(rest[i - 1]));
        } else {
            assert(rest.contains(rest[j - 1]));
        }
    }
    lemma_without_first(window, rest);
}

/// A window in front of a list without it is taken off.
proof fn lemma_without_first(window: u32, rest: Seq<u32>)
    requires
        !rest.contains(window),
    ensures
        without(seq![window] + rest, window) == rest,
    decreases rest.len(),
{
    let all = seq![window] + rest;
    if rest.len() > 0 {
        assert(all.drop_last() =~= seq![window] + rest.drop_last());
        assert(rest[rest.len() - 1] != window);
        assert(!rest.drop_last().contains(window)) by {
            if rest.drop_last().contains(window) {
                let j = choose|j: int|
                    0 <= j < rest.drop_last().len() && rest.drop_last()[j] == window;
                assert(rest[j] == window);
            }
        }
        lemma_without_first(window, rest.drop_last());
        assert(rest =~= rest.drop_last().push(rest.last()));
    } else {
        assert(all.drop_last() =~= Seq::empty());
        assert(without(all.drop_last(), window) =~= Seq::empty());
        assert(rest =~= Seq::empty());
    }
}

/// The place of `window` in the list, counted from `from` on, or the length of
/// the list.
pub open spec fn rank_from(mru: Seq<u32>, window: u32, from: int) -> int
    decreases mru.len() - from,
{
    if from >= mru.len() {
        mru.len() as int
    } else if mru[from] == window {
        from
    } else {
        rank_from(mru, window, from + 1)
    }
}

/// The place of `window` in the list; a window that is not listed comes after
/// all that are.
pub open spec fn rank(mru: Seq<u32>, window: u32) -> int {
    rank_from(mru, window, 0)
}

/// The place of `window` in the list.
fn rank_of(mru: &Vec<u32>, window: u32) -> (r: usize)
    ensures
        r == rank(mru@, window),
{
    let mut i: usize = 0;
    while i < mru.len() && mru[i] != window
        invariant
            i <= mru@.len(),
            rank(mru@, window) == rank_from(mru@, window, i as int),
        decreases mru@.len() - i,
    {
        i = i + 1;
    }
    i
}

/// Whether `order` lists all positions of `ranks` by rank, and those of equal
/// rank in their order.
pub open spec fn orders(order: Seq<int>, ranks: Seq<int>) -> bool {
    &&& order.len() == ranks.len()
    &&& forall|k: int| 0 <= k < order.len() ==> 0 <= #[trigger] order[k] < ranks.len()
    &&& forall|i: int| 0 <= i < ranks.len() ==> #[trigger] order.contains(i)
    &&& forall|j: int, k: int|
        0 <= j < k < order.len() ==> ranks[#[trigger] order[j]] < ranks[#[trigger] order[k]] || (
        ranks[order[j]] == ranks[order[k]] && order[j] < order[k])
}

/// The ranks of the windows.
pub open spec fn ranks_of(mru: Seq<u32>, entries: Seq<WindowEntry>) -> Seq<int> {
    entries.map_values(|e: WindowEntry| rank(mru, e.window))
}

/// Whether `after` holds the entries by most recent use: those whose windows are
/// listed in the order of the list, then the others in the order they had.
pub open spec fn ordered_by_use(
    mru: Seq<u32>,
    before: Seq<WindowEntry>,
    after: Seq<WindowEntry>,
) -> bool {
    exists|order: Seq<int>| #[trigger] orders(order, ranks_of(mru, before)) && rearranged(
        before,
        after,
        order,
    )
}

/// Whether `after` holds the entries at the listed positions.
pub open spec fn rearranged(
    before: Seq<WindowEntry>,
    after: Seq<WindowEntry>,
    order: Seq<int>,
) -> bool {
    &&& after.len() == order.len()
    &&& forall|k: int| 0 <= k < after.len() ==> #[trigger] after[k] == before[order[k]]
}

/// Puts the entries into the order of most recent use.
pub fn apply_mru_order(mru: &Vec<u32>, entries: &mut Vec<WindowEntry>)
    ensures
        ordered_by_use(mru@, old(entries)@, final(entries)@),
{
    let ghost before = entries@;
    let ghost ranks = ranks_of(mru@, before);
    let ghost mut order: Seq<int> = Seq::empty();
    let n: usize = entries.len();
    let mut i: usize = 0;
    while i < n
        invariant
            i <= n,
            before == old(entries)@,
            n == before.len(),
            entries@.len() == n,
            ranks == ranks_of(mru@, before),
            order.len() == i,
            orders(order, ranks.take(i as int)),
            forall|k: int| 0 <= k < i ==> #[trigger] entries@[k] == before[order[k]],
            forall|k: int| i <= k < n ==> #[trigger] entries@[k] == before[k],
        decreases n - i,
    {
        let own = rank_of(mru, entries[i].window);
        let mut j: usize = 0;
        let ghost held = entries@;
        while j < i && rank_of(mru, entries[j].window) <= own
            invariant
                j <= i < n,
                entries@ == held,
                held.len() == n,
                n == before.len(),
                own == ranks[i as int],
                ranks == ranks_of(mru@, before),
                order.len() == i,
                orders(order, ranks.take(i as int)),
                forall|k: int| 0 <= k < i ==> #[trigger] held[k] == before[order[k]],
                forall|k: int| 0 <= k < j ==> ranks[#[trigger] order[k]] <= own,
            decreases i - j,
        {
            proof {
                assert(held[j as int] == before[order[j as int]]);
                assert(0 <= order[j as int] < i);
                assert(ranks[order[j as int]] == rank(mru@, held[j as int].window));
            }
            j = j + 1;
        }
        proof {
            if j < i {
                assert(held[j as int] == before[order[j as int]]);
                assert(0 <= order[j as int] < i);
                assert(ranks[order[j as int]] == rank(mru@, held[j as int].window));
            }
            lemma_insert_order(order, ranks, i as int, j as int);
        }
        let entry = entries.remove(i);
        entries.insert(j, entry);
        proof {
            let next = order.insert(j as int, i as int);
            assert forall|k: int| 0 <= k < i + 1 implies #[trigger] entries@[k] == before[next[k]] by {
                if k < j {
                    assert(held[k] == before[order[k]]);
                } else if k > j {
                    assert(held[k - 1] == before[order[k - 1]]);
                } else {
                    assert(held[i as int] == before[i as int]);
                }
            }
            assert forall|k: int| i + 1 <= k < n implies #[trigger] entries@[k] == before[k] by {
                assert(held[k] == before[k]);
            }
            order = next;
        }
        i = i + 1;
    }
    proof {
        assert(ranks.take(n as int) =~= ranks);
        assert(orders(order, ranks_of(mru@, before)) && rearranged(before, entries@, order));
    }
}

/// The next position goes in front of the first one of higher rank.
proof fn lemma_insert_order(order: Seq<int>, ranks: Seq<int>, i: int, j: int)
    requires
        0 <= j <= i < ranks.len(),
        order.len() == i,
        orders(order, ranks.take(i)),
        forall|k: int| 0 <= k < j ==> ranks[#[trigger] order[k]] <= ranks[i],
        j < i ==> ranks[order[j]] > ranks[i],
    ensures
        orders(order.insert(j, i), ranks.take(i + 1)),
{
    let next = order.insert(j, i);
    let some = ranks.take(i + 1);
    let few = ranks.take(i);
    assert forall|k: int| j <= k < i implies ranks[#[trigger] order[k]] > ranks[i] by {
        assert(0 <= order[j] < few.len() && 0 <= order[k] < few.len());
        if k > j {
            assert(few[order[j]] <= few[order[k]]);
        }
        assert(few[order[j]] == ranks[order[j]] && few[order[k]] == ranks[order[k]]);
    }
    assert forall|k: int| 0 <= k < next.len() implies 0 <= #[trigger] next[k] < some.len() by {
        if k < j {
            assert(next[k] == order[k]);
        } else if k > j {
            assert(next[k] == order[k - 1]);
        }
    }
    assert forall|m: int| 0 <= m < some.len() implies #[trigger] next.contains(m) by {
        if m == i {
            assert(next[j] == i);
        } else {
            assert(order.contains(m));
            let k = choose|k: int| 0 <= k < order.len() && order[k] == m;
            if k < j {
                assert(next[k] == m);
            } else {
                assert(next[k + 1] == m);
            }
        }
    }
    assert forall|a: int, b: int| 0 <= a < b < next.len() implies some[#[trigger] next[a]]
        < some[#[trigger] next[b]] || (some[next[a]] == some[next[b]] && next[a] < next[b]) by {
        let oa = if a < j {
            a
        } else {
            a - 1
        };
        let ob = if b < j {
            b
        } else {
            b - 1
        };
        if a != j {
            assert(next[a] == order[oa]);
            assert(0 <= order[oa] < few.len());
            assert(few[order[oa]] == ranks[order[oa]]);
        }
        if b != j {
            assert(next[b] == order[ob]);
            assert(0 <= order[ob] < few.len());
            assert(few[order[ob]] == ranks[order[ob]]);
        }
        if a != j && b != j {
            assert(few[order[oa]] < few[order[ob]] || (few[order[oa]] == few[order[ob]]
                && order[oa] < order[ob]));
        }
    }
}

/// What comes after the places of a window stays as it is.
proof fn lemma_without_tail(front: Seq<u32>, rest: Seq<u32>, window: u32)
    requires
        !rest.contains(window),
    ensures
        without(front + rest, window) == without(front, window) + rest,
    decreases rest.len(),
{
    let all = front + rest;
    if rest.len() == 0 {
        assert(all =~= front);
        assert(without(front, window) + rest =~= without(front, window));
    } else {
        let fewer = rest.drop_last();
        assert(all.drop_last() =~= front + fewer);
        assert(all.last() == rest.last());
        assert(rest.last() != window) by {
            assert(rest.contains(rest[rest.len() - 1]));
        }
        assert(!fewer.contains(window)) by {
            if fewer.contains(window) {
                let k = choose|k: int| 0 <= k < fewer.len() && fewer[k] == window;
                assert(rest[k] == window);
            }
        }
        lemma_without_tail(front, fewer, window);
        assert((without(front, window) + fewer).push(rest.last()) =~= without(front, window)
            + rest);
    }
}

/// Using the second window of the list swaps it with the first one.
pub proof fn using_the_second_swaps(a: u32, b: u32, rest: Seq<u32>)
    requires
        a != b,
        b != 0,
        !rest.contains(b),
    ensures
        used(seq![a, b] + rest, b, None) == seq![b, a] + rest,
{
    let front = seq![a, b];
    lemma_without_tail(front, rest, b);
    assert(front.drop_last() =~= seq![a]);
    assert(seq![a].drop_last() =~= Seq::<u32>::empty());
    reveal_with_fuel(without, 3);
    assert(without(front, b) =~= seq![a]);
    assert(seq![b] + (seq![a] + rest) =~= seq![b, a] + rest);
}

/// Ordering by use loses no entry and adds none, and no entry comes before one
/// whose window was used later.
pub proof fn ordering_keeps_all_entries(
    mru: Seq<u32>,
    before: Seq<WindowEntry>,
    after: Seq<WindowEntry>,
)
    requires
        ordered_by_use(mru, before, after),
    ensures
        after.len() == before.len(),
        forall|i: int| 0 <= i < before.len() ==> after.contains(#[trigger] before[i]),
        forall|k: int| 0 <= k < after.len() ==> before.contains(#[trigger] after[k]),
        forall|j: int, k: int|
            0 <= j < k < after.len() ==> rank(mru, (#[trigger] after[j]).window) <= rank(
                mru,
                (#[trigger] after[k]).window,
            ),
{
    let ranks = ranks_of(mru, before);
    let order = choose|order: Seq<int>| #[trigger]
        orders(order, ranks) && rearranged(before, after, order);
    assert forall|i: int| 0 <= i < before.len() implies after.contains(#[trigger] before[i]) by {
        assert(order.contains(i));
        let k = choose|k: int| 0 <= k < order.len() && order[k] == i;
        assert(after[k] == before[order[k]]);
    }
    assert forall|k: int| 0 <= k < after.len() implies before.contains(#[trigger] after[k]) by {
        assert(0 <= order[k] < ranks.len());
    }
    assert forall|j: int, k: int| 0 <= j < k < after.len() implies rank(
        mru,
        (#[trigger] after[j]).window,
    ) <= rank(mru, (#[trigger] after[k]).window) by {
        assert(0 <= order[j] < ranks.len() && 0 <= order[k] < ranks.len());
        assert(ranks[order[j]] == rank(mru, before[order[j]].window));
        assert(ranks[order[k]] == rank(mru, before[order[k]].window));
    }
}

/// A window that is used comes first, and all others keep their order behind it;
/// the overlay's own window, and no window at all, do not count as used.
pub proof fn the_others_keep_their_order(mru: Seq<u32>, window: u32, overlay: Option<u32>)
    ensures
        window != 0 && overlay != Some(window) ==> used(mru, window, overlay) == seq![window]
            + mru.filter(|w: u32| w != window),
        window == 0 ==> used(mru, window, overlay) == mru,
        overlay == Some(window) ==> used(mru, window, overlay) == mru,
{
    lemma_without_filters(mru, window);
}

proof fn lemma_without_filters(windows: Seq<u32>, window: u32)
    ensures
        without(windows, window) == windows.filter(|w: u32| w != window),
    decreases windows.len(),
{
    reveal(Seq::filter);
    if windows.len() > 0 {
        lemma_without_filters(windows.drop_last(), window);
    }
}

/// The rank of a window is its place in the list, the first one if it has several;
/// a window that is not listed comes behind all that are.
pub proof fn ranks_are_places(mru: Seq<u32>, window: u32, i: int)
    ensures
        0 <= rank(mru, window) <= mru.len(),
        rank(mru, window) < mru.len() ==> mru[rank(mru, window)] == window,
        0 <= i < rank(mru, window) ==> mru[i] != window,
        !mru.contains(window) ==> rank(mru, window) == mru.len(),
{
    lemma_rank_place(mru, window, 0);
    if !mru.contains(window) && rank(mru, window) < mru.len() {
        assert(mru.contains(mru[rank(mru, window)]));
    }
}

proof fn lemma_rank_place(mru: Seq<u32>, window: u32, from: int)
    requires
        0 <= from <= mru.len(),
    ensures
        from <= rank_from(mru, window, from) <= mru.len(),
        rank_from(mru, window, from) < mru.len() ==> mru[rank_from(mru, window, from)] == window,
        forall|k: int| from <= k < rank_from(mru, window, from) ==> mru[k] != window,
    decreases mru.len() - from,
{
    if from < mru.len() && mru[from] != window {
        lemma_rank_place(mru, window, from + 1);
    }
}

/// Of two entries that are offered the one that was used more recently comes
/// first, and entries of which neither was used, or that stand for one window, stay
/// in their order.
pub proof fn recent_entries_come_first(
    mru: Seq<u32>,
    before: Seq<WindowEntry>,
    after: Seq<WindowEntry>,
    order: Seq<int>,
    j: int,
    k: int,
)
    requires
        orders(order, ranks_of(mru, before)),
        rearranged(before, after, order),
        0 <= j < k < after.len(),
    ensures
        after[j] == before[order[j]] && after[k] == before[order[k]],
        rank(mru, after[j].window) <= rank(mru, after[k].window),
        rank(mru, after[j].window) == rank(mru, after[k].window) ==> order[j] < order[k],
{
    let ranks = ranks_of(mru, before);
    assert(ranks[order[j]] == rank(mru, before[order[j]].window));
    assert(ranks[order[k]] == rank(mru, before[order[k]].window));
}

} // verus!
