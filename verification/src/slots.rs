//! Disjoint mutable access to individual slots of a vector.
//!
//! The accessors of this crate resolve keys to slot indices and then hand the
//! caller one mutable reference per slot.  The functions here produce those
//! references: given pairwise distinct indices, they split the vector's slice
//! into non-overlapping parts, so every reference is backed by its own storage.

use vstd::prelude::*;

verus! {

/// A claim on one storage slot of an access session.
///
/// A session's accessor hands one of these out for every key it resolves,
/// after checking the resolved slot against every claim already recorded;
/// holders of two claims from one session therefore always address two
/// different pieces of storage.
pub struct ClaimedSlot {
    idx: usize,
}

impl ClaimedSlot {
    /// The storage slot this claim covers.
    pub closed spec fn slot(self) -> int {
        self.idx as int
    }

    pub(crate) fn of_index(idx: usize) -> (c: ClaimedSlot)
        ensures
            c.slot() == idx as int,
    {
        ClaimedSlot { idx }
    }

    pub(crate) fn index(&self) -> (i: usize)
        ensures
            i as int == self.slot(),
    {
        self.idx
    }
}

/// Two mutable references into `v`, at the distinct positions `i < j`.
pub fn two_slots_mut<T>(v: &mut Vec<T>, i: usize, j: usize) -> (r: (&mut T, &mut T))
    requires
        i < j < old(v)@.len(),
    ensures
        *r.0 == old(v)@[i as int],
        *r.1 == old(v)@[j as int],
        final(v)@ =~= old(v)@.update(i as int, *final(r.0)).update(j as int, *final(r.1)),
{
    let s = v.as_mut_slice();
    let (lo, hi) = s.split_at_mut(j);
    let (_lo_head, at_i) = lo.split_at_mut(i);
    let a = at_i.first_mut().unwrap();
    let b = hi.first_mut().unwrap();
    (a, b)
}

/// Three mutable references into `v`, at the distinct positions `i < j < k`.
pub fn three_slots_mut<T>(v: &mut Vec<T>, i: usize, j: usize, k: usize) -> (r: (
    &mut T,
    &mut T,
    &mut T,
))
    requires
        i < j < k < old(v)@.len(),
    ensures
        *r.0 == old(v)@[i as int],
        *r.1 == old(v)@[j as int],
        *r.2 == old(v)@[k as int],
        final(v)@ =~= old(v)@.update(i as int, *final(r.0)).update(j as int, *final(r.1)).update(
            k as int,
            *final(r.2),
        ),
{
    let s = v.as_mut_slice();
    let (lo, hi) = s.split_at_mut(k);
    let (lo2, mid) = lo.split_at_mut(j);
    let (_lo_head, at_i) = lo2.split_at_mut(i);
    let a = at_i.first_mut().unwrap();
    let b = mid.first_mut().unwrap();
    let c = hi.first_mut().unwrap();
    (a, b, c)
}

/// Two mutable references into `v`, at two distinct positions in either
/// order.
pub fn two_unordered_mut<T>(v: &mut Vec<T>, i1: usize, i2: usize) -> (r: (&mut T, &mut T))
    requires
        i1 != i2,
        i1 < old(v)@.len(),
        i2 < old(v)@.len(),
    ensures
        *r.0 == old(v)@[i1 as int],
        *r.1 == old(v)@[i2 as int],
        final(v)@ =~= old(v)@.update(i1 as int, *final(r.0)).update(i2 as int, *final(r.1)),
{
    if i1 < i2 {
        let (a, b) = two_slots_mut(v, i1, i2);
        (a, b)
    } else {
        let (b, a) = two_slots_mut(v, i2, i1);
        (a, b)
    }
}

/// Three mutable references into `v`, at three distinct positions in any
/// order.
pub fn three_unordered_mut<T>(v: &mut Vec<T>, i1: usize, i2: usize, i3: usize) -> (r: (
    &mut T,
    &mut T,
    &mut T,
))
    requires
        i1 != i2,
        i2 != i3,
        i1 != i3,
        i1 < old(v)@.len(),
        i2 < old(v)@.len(),
        i3 < old(v)@.len(),
    ensures
        *r.0 == old(v)@[i1 as int],
        *r.1 == old(v)@[i2 as int],
        *r.2 == old(v)@[i3 as int],
        final(v)@ =~= old(v)@.update(i1 as int, *final(r.0)).update(i2 as int, *final(r.1)).update(
            i3 as int,
            *final(r.2),
        ),
{
    if i1 < i2 {
        if i2 < i3 {
            let (a, b, c) = three_slots_mut(v, i1, i2, i3);
            (a, b, c)
        } else if i1 < i3 {
            let (a, c, b) = three_slots_mut(v, i1, i3, i2);
            (a, b, c)
        } else {
            let (c, a, b) = three_slots_mut(v, i3, i1, i2);
            (a, b, c)
        }
    } else {
        if i1 < i3 {
            let (b, a, c) = three_slots_mut(v, i2, i1, i3);
            (a, b, c)
        } else if i2 < i3 {
            let (b, c, a) = three_slots_mut(v, i2, i3, i1);
            (a, b, c)
        } else {
            let (c, b, a) = three_slots_mut(v, i3, i2, i1);
            (a, b, c)
        }
    }
}

} // verus!
