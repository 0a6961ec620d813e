//! A fixed-capacity slot store.
//!
//! A `CoinLocker` hands out stable integer indices for inserted values,
//! allows retrieval-and-removal by index, and reuses freed slots. It is
//! built from two parallel structures: a fixed-length array of optional
//! values and a stack of free indices. An index is on the free stack
//! exactly when the corresponding slot is empty.

use vstd::prelude::*;

verus! {

/// The ways an operation on a [`CoinLocker`] can fail.
#[derive(Debug, PartialEq)]
pub enum CoinLockerError<T = ()> {
    /// The store is full; ownership of the rejected value flows back to the caller.
    FullAndReturn(T),
    /// The requested index lies at or beyond the capacity.
    OutOfBounds,
    /// The requested index is in bounds but its slot holds no value.
    NoItemFound,
}

impl<T> CoinLockerError<T> {
    /// A short description of the error.
    pub fn message(&self) -> (m: &'static str)
        ensures
            (match self {
                CoinLockerError::FullAndReturn(_) => m@ == "CoinLocker is full"@,
                CoinLockerError::OutOfBounds => m@ == "Index out of bounds"@,
                CoinLockerError::NoItemFound => m@ == "No item found in CoinLocker"@,
            }),
    {
        match self {
            CoinLockerError::FullAndReturn(_) => "CoinLocker is full",
            CoinLockerError::OutOfBounds => "Index out of bounds",
            CoinLockerError::NoItemFound => "No item found in CoinLocker",
        }
    }
}

/// A fixed-capacity store of values, addressed by integer indices.
///
/// The capacity is fixed at construction. `insert` pops an index off the
/// free stack and stores the value there; `take` removes the value at a
/// given index and pushes the index back. Freed indices are reused
/// last-freed-first; a pristine store hands indices out in ascending order.
pub struct CoinLocker<T> {
    locker: Vec<Option<T>>,
    free_index_stack: Vec<usize>,
}

/// The slot contents of a pristine store: every slot empty.
pub open spec fn empty_slots<T>(capacity: nat) -> Seq<Option<T>> {
    Seq::new(capacity, |i: int| None)
}

/// The free stack of a pristine store: `capacity` entries in descending
/// order, so that index `0` is popped first and a run of inserts consumes
/// the indices in ascending order.
pub open spec fn fresh_free_stack(capacity: nat) -> Seq<usize> {
    Seq::new(capacity, |i: int| (capacity - 1 - i) as usize)
}

impl<T> View for CoinLocker<T> {
    type V = Seq<Option<T>>;

    closed spec fn view(&self) -> Seq<Option<T>> {
        self.locker@
    }
}

impl<T> CoinLocker<T> {
    /// The fixed number of slots.
    pub open spec fn capacity(self) -> nat {
        self@.len()
    }

    /// The indices of the currently empty slots, in stack order: the last
    /// entry is the one the next `insert` will use.
    pub closed spec fn free_stack(self) -> Seq<usize> {
        self.free_index_stack@
    }

    /// Well-formedness: every free-stack entry is in bounds, no index
    /// appears on the free stack twice, and an index is on the free stack
    /// exactly when its slot is empty.
    pub closed spec fn wf(self) -> bool {
        &&& forall|k: int|
            0 <= k < self.free_index_stack@.len() ==> (
            #[trigger] self.free_index_stack@[k]) < self.locker@.len()
        &&& self.free_index_stack@.no_duplicates()
        &&& forall|i: int|
            0 <= i < self.locker@.len() ==> ((#[trigger] self.locker@[i]) is None
                <==> self.free_index_stack@.contains(i as usize))
    }

    /// Constructs a store with `size` empty slots, its free stack holding
    /// all `size` indices so that they are handed out in ascending order.
    pub fn new(size: usize) -> (s: Self)
        ensures
            s.wf(),
            s.capacity() == size,
            s@ == empty_slots::<T>(size as nat),
            s.free_stack() == fresh_free_stack(size as nat),
    {
        let mut locker: Vec<Option<T>> = Vec::new();
        let mut free_index_stack: Vec<usize> = Vec::new();
        let mut filled: usize = 0;
        while filled < size
            invariant
                filled <= size,
                locker@.len() == filled,
                free_index_stack@.len() == filled,
                forall|i: int| 0 <= i < filled ==> (#[trigger] locker@[i]) is None,
                forall|k: int|
                    0 <= k < filled ==> (#[trigger] free_index_stack@[k]) == (size - 1 - k) as usize,
            decreases size - filled,
        {
            locker.push(None);
            free_index_stack.push(size - 1 - filled);
            filled = filled + 1;
        }
        let s = CoinLocker { locker, free_index_stack };
        proof {
            assert(s@ =~= empty_slots::<T>(size as nat));
            assert(s.free_stack() =~= fresh_free_stack(size as nat));
            assert forall|i: int| 0 <= i < s.locker@.len() implies #[trigger] s.free_index_stack@.contains(
                i as usize,
            ) by {
                assert(s.free_index_stack@[size - 1 - i] == i as usize);
            }
        }
        s
    }

    /// Stores `item` in the slot whose index sits on top of the free stack
    /// and returns that index. When no slot is free (including the
    /// zero-capacity case) the store is unchanged and ownership of `item`
    /// flows back to the caller inside the error. The slot the free stack
    /// yields is always empty beforehand; a well-formed store cannot
    /// desynchronize its array and its free stack.
    pub fn insert(&mut self, item: T) -> (r: Result<usize, CoinLockerError<T>>)
        requires
            old(self).wf(),
        ensures
            final(self).wf(),
            final(self).capacity() == old(self).capacity(),
            old(self).free_stack().len() == 0 ==> r == Err::<usize, CoinLockerError<T>>(
                CoinLockerError::FullAndReturn(item),
            ) && final(self)@ == old(self)@ && final(self).free_stack() == old(self).free_stack(),
            old(self).free_stack().len() > 0 ==> ({
                let index = old(self).free_stack().last();
                &&& r == Ok::<usize, CoinLockerError<T>>(index)
                &&& index < old(self).capacity()
                &&& old(self)@[index as int] is None
                &&& final(self)@ == old(self)@.update(index as int, Some(item))
                &&& final(self).free_stack() == old(self).free_stack().drop_last()
            }),
    {
        match self.free_index_stack.pop() {
            None => Err(CoinLockerError::FullAndReturn(item)),
            Some(index) => {
                proof {
                    let of = old(self).free_stack();
                    assert(of[of.len() - 1] == index);
                    assert(of.contains(index));
                    assert(self.free_index_stack@ =~= of.drop_last());
                }
                // The popped index's slot is empty: guaranteed by well-formedness,
                // so the consistency check is discharged statically.
                assert(self.locker@[index as int] is None);
                self.locker.set(index, Some(item));
                proof {
                    let of = old(self).free_stack();
                    let nf = self.free_index_stack@;
                    assert(self.locker.len() == self.locker@.len());
                    assert forall|i: int|
                        0 <= i < self.locker@.len() implies ((#[trigger] self.locker@[i]) is None
                        <==> nf.contains(i as usize)) by {
                        if i == index {
                            if nf.contains(i as usize) {
                                let k = choose|k: int| 0 <= k < nf.len() && nf[k] == i as usize;
                                assert(of[k] == index && of[of.len() - 1] == index);
                            }
                        } else {
                            if old(self)@[i] is None {
                                let k = choose|k: int|
                                    0 <= k < of.len() && of[k] == i as usize;
                                assert(k != of.len() - 1);
                                assert(nf[k] == i as usize);
                            } else {
                                if nf.contains(i as usize) {
                                    assert(of.contains(i as usize));
                                }
                            }
                        }
                    }
                }
                Ok(index)
            },
        }
    }

    /// Removes and returns the value at `index`, marking the slot empty
    /// and pushing `index` back onto the free stack. Fails with
    /// `OutOfBounds` when `index` lies at or beyond the capacity and with
    /// `NoItemFound` when the slot is empty; in both failure cases the
    /// store is left exactly as it was.
    pub fn take(&mut self, index: usize) -> (r: Result<T, CoinLockerError>)
        requires
            old(self).wf(),
        ensures
            final(self).wf(),
            final(self).capacity() == old(self).capacity(),
            index >= old(self).capacity() ==> ({
                &&& r == Err::<T, CoinLockerError>(CoinLockerError::OutOfBounds)
                &&& final(self)@ == old(self)@
                &&& final(self).free_stack() == old(self).free_stack()
            }),
            index < old(self).capacity() && old(self)@[index as int] is None ==> ({
                &&& r == Err::<T, CoinLockerError>(CoinLockerError::NoItemFound)
                &&& final(self)@ == old(self)@
                &&& final(self).free_stack() == old(self).free_stack()
            }),
            index < old(self).capacity() && old(self)@[index as int] is Some ==> ({
                &&& r is Ok
                &&& old(self)@[index as int] == Some(r->Ok_0)
                &&& final(self)@ == old(self)@.update(index as int, None)
                &&& final(self).free_stack() == old(self).free_stack().push(index)
            }),
    {
        if index >= self.locker.len() {
            return Err(CoinLockerError::OutOfBounds);
        }
        let mut slot: Option<T> = None;
        self.locker.set_and_swap(index, &mut slot);
        match slot {
            None => {
                proof {
                    assert(self.locker@ =~= old(self).locker@);
                }
                Err(CoinLockerError::NoItemFound)
            },
            Some(item) => {
                self.free_index_stack.push(index);
                proof {
                    let of = old(self).free_stack();
                    let nf = self.free_index_stack@;
                    assert(self.locker.len() == self.locker@.len());
                    assert(!of.contains(index));
                    assert(nf.drop_last() =~= of);
                    assert(nf.no_duplicates());
                    assert forall|i: int|
                        0 <= i < self.locker@.len() implies ((#[trigger] self.locker@[i]) is None
                        <==> nf.contains(i as usize)) by {
                        if i == index {
                            assert(nf[nf.len() - 1] == i as usize);
                        } else {
                            if old(self)@[i] is None {
                                let k = choose|k: int| 0 <= k < of.len() && of[k] == i as usize;
                                assert(nf[k] == i as usize);
                            } else {
                                if nf.contains(i as usize) {
                                    let k = choose|k: int| 0 <= k < nf.len() && nf[k] == i as usize;
                                    assert(k != nf.len() - 1);
                                    assert(of[k] == i as usize);
                                }
                            }
                        }
                    }
                }
                Ok(item)
            },
        }
    }

    /// Discards every currently held value, resets every slot to empty,
    /// and rebuilds the free stack to hold all `capacity` indices in the
    /// same order as a freshly constructed store.
    pub fn clear(&mut self)
        ensures
            final(self).wf(),
            final(self).capacity() == old(self).capacity(),
            final(self)@ == empty_slots::<T>(old(self).capacity()),
            final(self).free_stack() == fresh_free_stack(old(self).capacity()),
    {
        self.free_index_stack.clear();
        let size = self.locker.len();
        let mut cleared: usize = 0;
        while cleared < size
            invariant
                cleared <= size,
                self.locker@.len() == size,
                size == old(self).capacity(),
                self.free_index_stack@.len() == cleared,
                forall|i: int|
                    size - cleared <= i < size ==> (#[trigger] self.locker@[i]) is None,
                forall|k: int|
                    0 <= k < cleared ==> (#[trigger] self.free_index_stack@[k]) == (size - 1
                        - k) as usize,
            decreases size - cleared,
        {
            self.locker.set(size - 1 - cleared, None);
            self.free_index_stack.push(size - 1 - cleared);
            cleared = cleared + 1;
        }
        proof {
            assert(self.locker@ =~= empty_slots::<T>(old(self).capacity()));
            assert(self.free_index_stack@ =~= fresh_free_stack(old(self).capacity()));
            assert forall|i: int|
                0 <= i < self.locker@.len() implies #[trigger] self.free_index_stack@.contains(
                i as usize,
            ) by {
                assert(self.free_index_stack@[size - 1 - i] == i as usize);
            }
        }
    }

    /// The number of currently empty slots: the free stack's length.
    pub fn free_count(&self) -> (count: usize)
        ensures
            count == self.free_stack().len(),
    {
        self.free_index_stack.len()
    }
}

/// The number of empty slots in a slot array.
pub open spec fn empty_slot_count<T>(slots: Seq<Option<T>>) -> nat
    decreases slots.len(),
{
    if slots.len() == 0 {
        0
    } else {
        empty_slot_count(slots.drop_last()) + (if slots.last() is None {
            1nat
        } else {
            0nat
        })
    }
}

/// The number of occupied slots in a slot array.
pub open spec fn occupied_slot_count<T>(slots: Seq<Option<T>>) -> nat
    decreases slots.len(),
{
    if slots.len() == 0 {
        0
    } else {
        occupied_slot_count(slots.drop_last()) + (if slots.last() is Some {
            1nat
        } else {
            0nat
        })
    }
}

/// The set of positions of a slot array that hold no value.
pub open spec fn empty_slot_positions<T>(slots: Seq<Option<T>>) -> Set<int> {
    Set::new(|i: int| 0 <= i < slots.len() && slots[i] is None)
}

proof fn lemma_empty_slot_positions_count<T>(slots: Seq<Option<T>>)
    ensures
        empty_slot_positions(slots).finite(),
        empty_slot_positions(slots).len() == empty_slot_count(slots),
    decreases slots.len(),
{
    if slots.len() == 0 {
        assert(empty_slot_positions(slots) =~= Set::<int>::empty());
    } else {
        let prefix = slots.drop_last();
        lemma_empty_slot_positions_count(prefix);
        if slots.last() is None {
            assert(!empty_slot_positions(prefix).contains(slots.len() - 1));
            assert(empty_slot_positions(slots) =~= empty_slot_positions(prefix).insert(
                slots.len() - 1,
            ));
        } else {
            assert(empty_slot_positions(slots) =~= empty_slot_positions(prefix));
        }
    }
}

proof fn lemma_slot_counts_partition<T>(slots: Seq<Option<T>>)
    ensures
        empty_slot_count(slots) + occupied_slot_count(slots) == slots.len(),
    decreases slots.len(),
{
    if slots.len() > 0 {
        lemma_slot_counts_partition(slots.drop_last());
    }
}

/// The free count counts what its name says: in a well-formed store the
/// free stack's length — what `free_count` returns — equals the number of
/// empty slots, so the free count plus the number of occupied slots is
/// always the capacity.
pub proof fn lemma_free_count_partitions_capacity<T>(s: CoinLocker<T>)
    requires
        s.wf(),
    ensures
        s.free_stack().len() == empty_slot_count(s@),
        s.free_stack().len() + occupied_slot_count(s@) == s.capacity(),
{
    let stack = s.free_stack();
    let positions = stack.map_values(|u: usize| u as int);
    assert(s.locker.len() == s.locker@.len());
    assert forall|i: int, j: int|
        0 <= i < positions.len() && 0 <= j < positions.len() && i != j implies positions[i]
        != positions[j] by {
        assert(stack[i] != stack[j]);
    }
    assert(positions.no_duplicates());
    positions.unique_seq_to_set();
    assert forall|i: int| #[trigger] positions.to_set().contains(i) implies empty_slot_positions(
        s@,
    ).contains(i) by {
        let k = choose|k: int| 0 <= k < positions.len() && positions[k] == i;
        assert(stack.contains(stack[k]));
        assert(s@[stack[k] as int] is None);
    }
    assert forall|i: int| #[trigger] empty_slot_positions(s@).contains(i) implies positions.to_set()
        .contains(i) by {
        assert(stack.contains(i as usize));
        let k = choose|k: int| 0 <= k < stack.len() && stack[k] == i as usize;
        assert(positions[k] == i);
        assert(positions.contains(i));
    }
    assert(positions.to_set() =~= empty_slot_positions(s@));
    lemma_empty_slot_positions_count(s@);
    lemma_slot_counts_partition(s@);
}

/// A pristine store hands out indices in ascending order: a store whose
/// free stack is the fresh one (as `new` and `clear` ensure) has
/// `capacity` free slots, and after `used` successful inserts — each of
/// which, by `insert`'s contract, pops the stack's last entry — the free
/// stack is the first `capacity - used` entries of the fresh stack, the
/// next insert returns index `used`, and popping it leaves the first
/// `capacity - used - 1` entries. So the first `capacity` inserts return
/// `0, 1, ..., capacity - 1` in order, and by `insert`'s contract the
/// next insert fails with `FullAndReturn`, handing the value back.
pub proof fn lemma_pristine_insert_order(capacity: usize, used: usize)
    requires
        used < capacity,
    ensures
        fresh_free_stack(capacity as nat).len() == capacity,
        fresh_free_stack(capacity as nat).take(capacity as int) == fresh_free_stack(
            capacity as nat,
        ),
        fresh_free_stack(capacity as nat).take(capacity - used).last() == used,
        fresh_free_stack(capacity as nat).take(capacity - used).drop_last() == fresh_free_stack(
            capacity as nat,
        ).take(capacity - used - 1),
{
    let stack = fresh_free_stack(capacity as nat);
    assert(stack.take(capacity as int) =~= stack);
    assert(stack.take(capacity - used).last() == stack[capacity - used - 1]);
    assert(stack.take(capacity - used).drop_last() =~= stack.take(capacity - used - 1));
}

/// Round trip: inserting a value into a well-formed store with a free
/// slot and immediately taking the returned index yields exactly that
/// value back and restores the slot array and the free stack — hence the
/// free count — to their pre-insert state. By `insert`'s contract the
/// insert returns `Ok(index)` for the free stack's last entry and leaves
/// the store with `slots_after` and `stack_after` below; by `take`'s
/// contract, since `slots_after` holds `Some(item)` at `index`, the take
/// returns `Ok(item)` and leaves slots `slots_after.update(index, None)`
/// and free stack `stack_after.push(index)`, which this lemma shows equal
/// the original store's.
pub proof fn lemma_insert_take_round_trip<T>(s: CoinLocker<T>, item: T)
    requires
        s.wf(),
        s.free_stack().len() > 0,
    ensures
        ({
            let index = s.free_stack().last();
            let slots_after = s@.update(index as int, Some(item));
            let stack_after = s.free_stack().drop_last();
            &&& index < s.capacity()
            &&& slots_after[index as int] == Some(item)
            &&& slots_after.update(index as int, None::<T>) == s@
            &&& stack_after.push(index) == s.free_stack()
        }),
{
    let index = s.free_stack().last();
    assert(s.free_stack()[s.free_stack().len() - 1] == index);
    assert(s.free_stack().contains(index));
    assert(s@[index as int] is None);
    assert(s@.update(index as int, Some(item)).update(index as int, None::<T>) =~= s@);
    assert(s.free_stack().drop_last().push(index) =~= s.free_stack());
}

} // verus!
