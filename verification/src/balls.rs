//! Keeping the list of balls on the screen in step with the moves: which
//! balls the player selected, and which leave the list after a move.
use vstd::prelude::*;

verus! {

/// The positions `p` with `flags[p]` set, in increasing order.
pub fn selected_positions(flags: &Vec<bool>) -> (positions: Vec<usize>)
    ensures
        forall|p: int, q: int| 0 <= p < q < positions@.len() ==> positions@[p] < positions@[q],
        forall|i: usize| positions@.contains(i) <==> (i < flags@.len() && flags@[i as int]),
{
    let mut positions: Vec<usize> = Vec::new();
    let mut i: usize = 0;
    while i < flags.len()
        invariant
            i <= flags@.len(),
            forall|p: int, q: int| 0 <= p < q < positions@.len() ==> positions@[p] < positions@[q],
            forall|p: int| 0 <= p < positions@.len() ==> #[trigger] positions@[p] < i,
            forall|j: usize| positions@.contains(j) <==> (j < i && flags@[j as int]),
        decreases flags@.len() - i,
    {
        let ghost before = positions@;
        if flags[i] {
            positions.push(i);
            assert(positions@[positions@.len() - 1] == i);
        }
        assert forall|j: usize| positions@.contains(j) <==> (j < i + 1 && flags@[j as int]) by {
            if positions@.contains(j) && j != i {
                let q: int = choose|q: int| 0 <= q < positions@.len() && positions@[q] == j;
                assert(before[q] == j);
            }
            if j < i && flags@[j as int] {
                assert(before.contains(j));
                let q: int = choose|q: int| 0 <= q < before.len() && before[q] == j;
                assert(positions@[q] == j);
            }
        }
        i = i + 1;
    }
    positions
}

/// Removing the items at `positions` one after another, each position
/// counted in the list as it is after the earlier removals: the items left,
/// the items removed in order, and the first position that was past the end
/// of the list at its turn (the removals stop there), if any.
pub open spec fn removal_in_turn<T>(s: Seq<T>, positions: Seq<usize>) -> (Seq<T>, Seq<T>, Option<usize>)
    decreases positions.len(),
{
    if positions.len() == 0 {
        (s, Seq::empty(), None)
    } else if positions[0] >= s.len() {
        (s, Seq::empty(), Some(positions[0]))
    } else {
        let rest = removal_in_turn(s.remove(positions[0] as int), positions.drop_first());
        (rest.0, seq![s[positions[0] as int]] + rest.1, rest.2)
    }
}

/// Removes from `items` the entries at `positions` one after another, as
/// `removal_in_turn` says: later positions count in the shortened list.
/// Returns the removed items in order and the first position that was past
/// the end of the list at its turn, where the removals stop.
pub fn remove_in_turn<T>(items: &mut Vec<T>, positions: &Vec<usize>) -> (r: (Vec<T>, Option<usize>))
    ensures
        removal_in_turn(old(items)@, positions@) == (final(items)@, r.0@, r.1),
        final(items)@.len() + r.0@.len() == old(items)@.len(),
        r.1 is None ==> r.0@.len() == positions@.len(),
        r.1 is Some ==> r.0@.len() < positions@.len() && positions@[r.0@.len() as int] == r.1->0
            && r.1->0 >= final(items)@.len(),
{
    proof {
        lemma_removal_in_turn_counts(items@, positions@);
    }
    let ghost start = items@;
    let mut removed: Vec<T> = Vec::new();
    let mut k: usize = 0;
    assert(positions@.skip(0) =~= positions@);
    while k < positions.len()
        invariant
            k <= positions@.len(),
            start == old(items)@,
            removal_in_turn(start, positions@) == ({
                let rest = removal_in_turn(items@, positions@.skip(k as int));
                (rest.0, removed@ + rest.1, rest.2)
            }),
        decreases positions@.len() - k,
    {
        let p: usize = positions[k];
        let ghost tail = positions@.skip(k as int);
        assert(tail[0] == p);
        if p >= items.len() {
            assert(removal_in_turn(items@, tail) == (items@, Seq::<T>::empty(), Some(p)));
            assert(removed@ + Seq::<T>::empty() =~= removed@);
            proof {
                lemma_removal_in_turn_counts(start, positions@);
            }
            return (removed, Some(p));
        }
        let ghost before_items = items@;
        let ghost before_removed = removed@;
        let item = items.remove(p);
        removed.push(item);
        assert(tail.drop_first() =~= positions@.skip(k + 1));
        assert(removed@ =~= before_removed + seq![before_items[p as int]]);
        assert(before_removed + (seq![before_items[p as int]] + removal_in_turn(
            items@,
            positions@.skip(k + 1),
        ).1) =~= removed@ + removal_in_turn(items@, positions@.skip(k + 1)).1);
        k = k + 1;
    }
    assert(positions@.skip(k as int).len() == 0);
    assert(removed@ + Seq::<T>::empty() =~= removed@);
    (removed, None)
}

/// Popping up to `count` items from the end of `s`: the items left and the
/// items popped, last item first.
pub open spec fn pop_many<T>(s: Seq<T>, count: nat) -> (Seq<T>, Seq<T>)
    decreases count,
{
    if count == 0 || s.len() == 0 {
        (s, Seq::empty())
    } else {
        let rest = pop_many(s.drop_last(), (count - 1) as nat);
        (rest.0, seq![s.last()] + rest.1)
    }
}

/// Pops `count` times from the end of `items` (an empty list stays empty)
/// and returns the popped items, last item first, as `pop_many` says.
pub fn remove_last<T>(items: &mut Vec<T>, count: u32) -> (removed: Vec<T>)
    ensures
        pop_many(old(items)@, count as nat) == (final(items)@, removed@),
        count <= old(items)@.len() ==> final(items)@.len() == old(items)@.len() - count
            && removed@.len() == count,
        count > old(items)@.len() ==> final(items)@.len() == 0 && removed@.len() == old(
            items,
        )@.len(),
        final(items)@ == old(items)@.take(final(items)@.len() as int),
        forall|i: int|
            0 <= i < removed@.len() ==> #[trigger] removed@[i] == old(items)@[old(items)@.len() - 1
                - i],
{
    proof {
        lemma_pop_many(items@, count as nat);
    }
    let ghost start = items@;
    let mut removed: Vec<T> = Vec::new();
    let mut c: u32 = 0;
    while c < count
        invariant
            c <= count,
            start == old(items)@,
            pop_many(start, count as nat) == ({
                let rest = pop_many(items@, (count - c) as nat);
                (rest.0, removed@ + rest.1)
            }),
        decreases count - c,
    {
        let ghost before_items = items@;
        let ghost before_removed = removed@;
        match items.pop() {
            Some(item) => {
                removed.push(item);
                assert(before_items.drop_last() =~= items@);
                assert(before_removed + (seq![before_items.last()] + pop_many(
                    items@,
                    (count - c - 1) as nat,
                ).1) =~= removed@ + pop_many(items@, (count - c - 1) as nat).1);
            },
            None => {
                assert(pop_many(items@, (count - c - 1) as nat) == (items@, Seq::<T>::empty()));
            },
        }
        c = c + 1;
    }
    assert(removed@ + Seq::<T>::empty() =~= removed@);
    removed
}


/// Removing in turn keeps every item: the items left and the items removed
/// together are as many as before. All positions are used unless one is
/// past the end of the list at its turn; then it is the position after the
/// removed ones, and the removals stop there.
pub proof fn lemma_removal_in_turn_counts<T>(s: Seq<T>, positions: Seq<usize>)
    ensures
        removal_in_turn(s, positions).0.len() + removal_in_turn(s, positions).1.len() == s.len(),
        removal_in_turn(s, positions).2 is None ==> removal_in_turn(s, positions).1.len()
            == positions.len(),
        removal_in_turn(s, positions).2 is Some ==> {
            let k = removal_in_turn(s, positions).1.len();
            &&& k < positions.len()
            &&& positions[k as int] == removal_in_turn(s, positions).2->0
            &&& positions[k as int] >= removal_in_turn(s, positions).0.len()
        },
    decreases positions.len(),
{
    if positions.len() > 0 && positions[0] < s.len() {
        let rest = positions.drop_first();
        lemma_removal_in_turn_counts(s.remove(positions[0] as int), rest);
        if removal_in_turn(s, positions).2 is Some {
            let k = removal_in_turn(s.remove(positions[0] as int), rest).1.len();
            assert(rest[k as int] == positions[k + 1int]);
        }
    }
}

/// Popping up to `count` items takes exactly `count` of them when there are
/// that many, else all: what is left is the start of the list, and the
/// popped items are the rest, last item first.
pub proof fn lemma_pop_many<T>(s: Seq<T>, count: nat)
    ensures
        count <= s.len() ==> pop_many(s, count).0.len() == s.len() - count
            && pop_many(s, count).1.len() == count,
        count > s.len() ==> pop_many(s, count).0.len() == 0 && pop_many(s, count).1.len()
            == s.len(),
        pop_many(s, count).0 == s.take(pop_many(s, count).0.len() as int),
        forall|i: int|
            0 <= i < pop_many(s, count).1.len() ==> #[trigger] pop_many(s, count).1[i] == s[s.len()
                - 1 - i],
    decreases count,
{
    if count == 0 || s.len() == 0 {
        assert(s.take(s.len() as int) =~= s);
    } else {
        let d = s.drop_last();
        lemma_pop_many(d, (count - 1) as nat);
        let r = pop_many(d, (count - 1) as nat);
        assert(d.take(r.0.len() as int) =~= s.take(r.0.len() as int));
        assert forall|i: int| 0 <= i < pop_many(s, count).1.len() implies #[trigger] pop_many(
            s,
            count,
        ).1[i] == s[s.len() - 1 - i] by {
            if i > 0 {
                assert(pop_many(s, count).1[i] == r.1[i - 1]);
            }
        }
    }
}

} // verus!
