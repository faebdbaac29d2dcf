//! An abstract model of the list operations, and the laws proved over it.

use vstd::prelude::*;

verus! {

/// One list operation, seen as a transformation of the abstract sequence of
/// stored values. Removal of either end of an empty sequence leaves it empty.
pub enum ListOp<T> {
    AddFirst(T),
    AddLast(T),
    RemoveFirst,
    RemoveLast,
}

/// How one operation transforms the abstract sequence. Each mutating method
/// of `LinkedList` ensures exactly this transformation of its view.
pub open spec fn apply_op<T>(s: Seq<T>, op: ListOp<T>) -> Seq<T> {
    match op {
        ListOp::AddFirst(v) => seq![v] + s,
        ListOp::AddLast(v) => s.push(v),
        ListOp::RemoveFirst => if s.len() == 0 {
            s
        } else {
            s.drop_first()
        },
        ListOp::RemoveLast => if s.len() == 0 {
            s
        } else {
            s.drop_last()
        },
    }
}

/// The abstract sequence after a whole sequence of operations, first to last.
pub open spec fn apply_all<T>(s: Seq<T>, ops: Seq<ListOp<T>>) -> Seq<T>
    decreases ops.len(),
{
    if ops.len() == 0 {
        s
    } else {
        apply_all(apply_op(s, ops[0]), ops.drop_first())
    }
}

/// The operations that append each value of `vals` at the tail, in order.
pub open spec fn add_last_all<T>(vals: Seq<T>) -> Seq<ListOp<T>> {
    vals.map(|i: int, v: T| ListOp::AddLast(v))
}

/// The operations that insert each value of `vals` at the head, in order.
pub open spec fn add_first_all<T>(vals: Seq<T>) -> Seq<ListOp<T>> {
    vals.map(|i: int, v: T| ListOp::AddFirst(v))
}

/// `k` removals at the head.
pub open spec fn remove_first_all<T>(k: nat) -> Seq<ListOp<T>> {
    Seq::new(k, |i: int| ListOp::RemoveFirst)
}

/// `k` removals at the tail.
pub open spec fn remove_last_all<T>(k: nat) -> Seq<ListOp<T>> {
    Seq::new(k, |i: int| ListOp::RemoveLast)
}

/// Appending at the tail, value after value, concatenates: the list then
/// holds its old elements followed by `vals`, in their given order.
pub proof fn lemma_add_last_all<T>(s: Seq<T>, vals: Seq<T>)
    ensures
        apply_all(s, add_last_all(vals)) == s + vals,
    decreases vals.len(),
{
    if vals.len() == 0 {
        assert(s + vals =~= s);
    } else {
        assert(add_last_all(vals).drop_first() =~= add_last_all(vals.drop_first()));
        lemma_add_last_all(s.push(vals[0]), vals.drop_first());
        assert(s.push(vals[0]) + vals.drop_first() =~= s + vals);
    }
}

/// Inserting at the head, value after value, prepends in reverse: the list
/// then holds `vals` reversed, followed by its old elements.
pub proof fn lemma_add_first_all<T>(s: Seq<T>, vals: Seq<T>)
    ensures
        apply_all(s, add_first_all(vals)) == vals.reverse() + s,
    decreases vals.len(),
{
    if vals.len() == 0 {
        assert(vals.reverse() + s =~= s);
    } else {
        assert(add_first_all(vals).drop_first() =~= add_first_all(vals.drop_first()));
        lemma_add_first_all(seq![vals[0]] + s, vals.drop_first());
        assert(vals.drop_first().reverse() + (seq![vals[0]] + s) =~= vals.reverse() + s);
    }
}

/// Removing at the head `k` times drops the first `k` elements and no other.
pub proof fn lemma_remove_first_all<T>(s: Seq<T>, k: nat)
    requires
        k <= s.len(),
    ensures
        apply_all(s, remove_first_all(k)) == s.skip(k as int),
    decreases k,
{
    if k == 0 {
        assert(s.skip(0) =~= s);
    } else {
        assert(remove_first_all::<T>(k).drop_first() =~= remove_first_all::<T>((k - 1) as nat));
        lemma_remove_first_all(s.drop_first(), (k - 1) as nat);
        assert(s.drop_first().skip(k - 1) =~= s.skip(k as int));
    }
}

/// Removing at the tail `k` times keeps exactly the first `len - k` elements.
pub proof fn lemma_remove_last_all<T>(s: Seq<T>, k: nat)
    requires
        k <= s.len(),
    ensures
        apply_all(s, remove_last_all(k)) == s.take(s.len() - k),
    decreases k,
{
    if k == 0 {
        assert(s.take(s.len() - 0) =~= s);
    } else {
        assert(remove_last_all::<T>(k).drop_first() =~= remove_last_all::<T>((k - 1) as nat));
        lemma_remove_last_all(s.drop_last(), (k - 1) as nat);
        assert(s.drop_last().take(s.drop_last().len() - (k - 1)) =~= s.take(s.len() - k));
    }
}

/// FIFO round trip: push every value of `vals` with `add_last` onto an empty
/// list, then remove at the head. After `k` removals the next value removed
/// is `vals[k]`: the values come back in their original order.
pub proof fn lemma_fifo_round_trip<T>(vals: Seq<T>, k: int)
    requires
        0 <= k < vals.len(),
    ensures
        apply_all(apply_all(Seq::empty(), add_last_all(vals)), remove_first_all(k as nat))[0]
            == vals[k],
{
    lemma_add_last_all(Seq::empty(), vals);
    assert(Seq::empty() + vals =~= vals);
    lemma_remove_first_all(vals, k as nat);
}

/// LIFO round trip at the head: push with `add_first`, then remove with
/// `remove_first`. After `k` removals the next value removed is the one added
/// `k + 1` insertions ago: the most recently added values come out first.
pub proof fn lemma_lifo_front_round_trip<T>(vals: Seq<T>, k: int)
    requires
        0 <= k < vals.len(),
    ensures
        apply_all(apply_all(Seq::empty(), add_first_all(vals)), remove_first_all(k as nat))[0]
            == vals[vals.len() - 1 - k],
{
    lemma_add_first_all(Seq::empty(), vals);
    assert(vals.reverse() + Seq::empty() =~= vals.reverse());
    lemma_remove_first_all(vals.reverse(), k as nat);
}

/// LIFO round trip at the tail: push with `add_last`, then remove with
/// `remove_last`. After `k` removals the next value removed is the one added
/// `k + 1` insertions ago, mirroring the head-side stack.
pub proof fn lemma_lifo_back_round_trip<T>(vals: Seq<T>, k: int)
    requires
        0 <= k < vals.len(),
    ensures
        ({
            let s = apply_all(
                apply_all(Seq::empty(), add_last_all(vals)),
                remove_last_all(k as nat),
            );
            s[s.len() - 1] == vals[vals.len() - 1 - k]
        }),
{
    lemma_add_last_all(Seq::empty(), vals);
    assert(Seq::empty() + vals =~= vals);
    lemma_remove_last_all(vals, k as nat);
}

/// Mirrored round trip: insert with `add_first`, then remove with
/// `remove_last`. After `k` removals the next value removed is `vals[k]`: the
/// values come back in insertion order from the far end.
pub proof fn lemma_mirrored_round_trip<T>(vals: Seq<T>, k: int)
    requires
        0 <= k < vals.len(),
    ensures
        ({
            let s = apply_all(
                apply_all(Seq::empty(), add_first_all(vals)),
                remove_last_all(k as nat),
            );
            s[s.len() - 1] == vals[k]
        }),
{
    lemma_add_first_all(Seq::empty(), vals);
    assert(vals.reverse() + Seq::empty() =~= vals.reverse());
    lemma_remove_last_all(vals.reverse(), k as nat);
}

/// The store size after `adds` single insertions into a store of `store`
/// slots of which `free` are free: an insertion consumes a free slot while
/// one remains, and appends a new slot only otherwise. This is exactly the
/// transition `add_first` and `add_last` ensure for `store_size` and
/// `free_slots`, and every removal raises `free_slots` by one while leaving
/// `store_size` unchanged.
pub open spec fn store_after_adds(store: nat, free: nat, adds: nat) -> nat
    decreases adds,
{
    if adds == 0 {
        store
    } else if free > 0 {
        store_after_adds(store, (free - 1) as nat, (adds - 1) as nat)
    } else {
        store_after_adds((store + 1) as nat, 0, (adds - 1) as nat)
    }
}

/// Slot reuse: re-adding no more elements than there are free slots never
/// grows the store. Removing elements and then adding back at most the same
/// count therefore keeps the slot store within its high-water mark: slots are
/// recycled, not leaked.
pub proof fn lemma_store_reuse(store: nat, free: nat, adds: nat)
    requires
        adds <= free,
    ensures
        store_after_adds(store, free, adds) == store,
    decreases adds,
{
    if adds > 0 {
        lemma_store_reuse(store, (free - 1) as nat, (adds - 1) as nat);
    }
}

/// Draining and refilling: removing `k` elements turns `k` used slots into
/// free ones while the store size stays put, so re-adding `k` elements
/// afterwards leaves the store size exactly where it was.
pub proof fn lemma_drain_refill(store: nat, free: nat, k: nat)
    ensures
        store_after_adds(store, free + k, k) == store,
{
    lemma_store_reuse(store, free + k, k);
}

} // verus!
