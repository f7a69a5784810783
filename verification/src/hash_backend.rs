//! The hash-flavoured backend: a keyed container whose keys are unordered.
//!
//! Keys are owned strings, looked up through a borrowed `&str` query.  The
//! container keeps one storage slot per key; a lookup resolves a key to its
//! slot, and the accessors below carve an exclusive borrow of the container
//! into several mutable references, one per resolved slot, after checking
//! that no two of the slots coincide.  (Hashing itself is a lookup
//! optimisation this layer does not depend on; lookups here compare the
//! stored keys against the query directly.)

use vstd::prelude::*;
use vstd::pervasive::VecAdditionalExecFns;

use crate::keycmp::str_eq;
use crate::model::assoc_view;
use crate::model::distinct_keys;
use crate::model::has_key;
use crate::model::lemma_assoc_view_push;
use crate::model::lemma_assoc_view_update;
use crate::model::lemma_slot_of_position;
use crate::model::ledger_can_accept;
use crate::model::ledger_clear_of;
use crate::model::pair_ok;
use crate::model::slot_of;
use crate::model::triple_ok;
use crate::slots::ClaimedSlot;
use crate::slots::three_unordered_mut;
use crate::slots::two_unordered_mut;

verus! {

/// A keyed container with unordered keys and slot-stable storage.
pub struct HashIndexedMap<V> {
    keys: Vec<String>,
    vals: Vec<V>,
}

impl<V> View for HashIndexedMap<V> {
    type V = Map<Seq<char>, V>;

    /// The map this container denotes: each stored key to its value.
    open spec fn view(&self) -> Map<Seq<char>, V> {
        assoc_view(self.key_seq(), self.val_seq())
    }
}

impl<V> HashIndexedMap<V> {
    /// The keys, one per storage slot.
    pub closed spec fn key_seq(self) -> Seq<Seq<char>> {
        self.keys@.map_values(|k: String| k@)
    }

    /// The values, one per storage slot.
    pub closed spec fn val_seq(self) -> Seq<V> {
        self.vals@
    }

    /// How many storage slots the container has.
    pub open spec fn num_slots(self) -> int {
        self.val_seq().len() as int
    }

    /// Well-formed: every slot pairs one key with one value, no key twice.
    pub open spec fn wf(self) -> bool {
        self.key_seq().len() == self.val_seq().len() && distinct_keys(self.key_seq())
    }

    /// Whether some slot holds the key `k`.
    pub open spec fn contains_spec(self, k: Seq<char>) -> bool {
        has_key(self.key_seq(), k)
    }

    /// The slot holding the key `k`.
    pub open spec fn slot_of_key(self, k: Seq<char>) -> int {
        slot_of(self.key_seq(), k)
    }

    /// The key stored in slot `i`.
    pub open spec fn key_at(self, i: int) -> Seq<char> {
        self.key_seq()[i]
    }

    /// The value stored in slot `i`.
    pub open spec fn val_at(self, i: int) -> V {
        self.val_seq()[i]
    }

    /// An empty container.
    pub fn new() -> (m: Self)
        ensures
            m.wf(),
            m@ == Map::<Seq<char>, V>::empty(),
            m.num_slots() == 0,
    {
        let m = HashIndexedMap { keys: Vec::new(), vals: Vec::new() };
        proof {
            assert(m@ =~= Map::<Seq<char>, V>::empty());
        }
        m
    }

    /// The slot holding the queried key, if the key is present.
    pub fn find_slot(&self, q: &str) -> (r: Option<usize>)
        requires
            self.wf(),
        ensures
            r is Some <==> self.contains_spec(q@),
            r is Some ==> 0 <= r.unwrap() < self.num_slots() && self.key_at(
                r.unwrap() as int,
            ) == q@ && self.slot_of_key(q@) == r.unwrap() as int,
    {
        let n = self.keys.len();
        let mut i: usize = 0;
        while i < n
            invariant
                self.wf(),
                n == self.key_seq().len(),
                i <= n,
                forall|t: int| 0 <= t < i ==> self.key_seq()[t] != q@,
            decreases n - i,
        {
            if str_eq(self.keys[i].as_str(), q) {
                proof {
                    assert(self.key_seq()[i as int] == q@);
                    lemma_slot_of_position(self.key_seq(), i as int);
                }
                return Some(i);
            }
            proof {
                assert(self.key_seq()[i as int] != q@);
            }
            i += 1;
        }
        proof {
            assert(!self.contains_spec(q@)) by {
                if self.contains_spec(q@) {
                    let t = choose|t: int|
                        0 <= t < self.key_seq().len() && self.key_seq()[t] == q@;
                    assert(self.key_seq()[t] != q@);
                }
            }
        }
        None
    }

    /// A shared reference to the value stored under the queried key.
    pub fn get(&self, q: &str) -> (r: Option<&V>)
        requires
            self.wf(),
        ensures
            r is Some <==> self.contains_spec(q@),
            r is Some ==> *r.unwrap() == self@[q@],
    {
        match self.find_slot(q) {
            Some(i) => Some(&self.vals[i]),
            None => None,
        }
    }

    /// Stores `value` under `key`, replacing any value the key already had.
    pub fn insert(&mut self, key: String, value: V)
        requires
            old(self).wf(),
        ensures
            final(self).wf(),
            final(self)@ == old(self)@.insert(key@, value),
    {
        let r = self.find_slot(key.as_str());
        match r {
            Some(i) => {
                proof {
                    lemma_assoc_view_update(self.key_seq(), self.val_seq(), i as int, value);
                }
                self.vals.set(i, value);
            },
            None => {
                proof {
                    lemma_assoc_view_push(self.key_seq(), self.val_seq(), key@, value);
                }
                self.keys.push(key);
                self.vals.push(value);
                proof {
                    assert(self.key_seq() =~= old(self).key_seq().push(key@));
                }
            },
        }
    }

    /// Mutable references to the values under two keys, or nothing: nothing
    /// when either key is absent, and nothing when both keys resolve to the
    /// same storage slot, so that the two references can never alias.
    pub fn get_pair_mut<'a>(&'a mut self, k_1: &str, k_2: &str) -> (r: Option<
        (&'a mut V, &'a mut V),
    >)
        requires
            old(self).wf(),
        ensures
            r is Some <==> pair_ok(old(self).key_seq(), k_1@, k_2@),
            r is None ==> *final(self) == *old(self),
            r is Some ==> *r.unwrap().0 == old(self)@[k_1@] && *r.unwrap().1 == old(self)@[k_2@],
            r is Some ==> final(self).wf() && final(self).key_seq() == old(self).key_seq()
                && final(self)@ == old(self)@.insert(k_1@, *final(r.unwrap().0)).insert(
                k_2@,
                *final(r.unwrap().1),
            ),
    {
        let s_1 = self.find_slot(k_1);
        let s_2 = self.find_slot(k_2);
        match (s_1, s_2) {
            (Some(i), Some(j)) => {
                if i == j {
                    None
                } else {
                    proof {
                        lemma_pair_write_view(self.key_seq(), self.val_seq(), i as int, j as int);
                    }
                    let (a, b) = two_unordered_mut(&mut self.vals, i, j);
                    Some((a, b))
                }
            },
            _ => None,
        }
    }

    /// Mutable references to the values under two keys.  The caller asserts
    /// that both keys are present and resolve to different storage; soft
    /// callers that cannot assert this use `get_pair_mut`.
    pub fn pair_mut<'a>(&'a mut self, k_1: &str, k_2: &str) -> (r: (&'a mut V, &'a mut V))
        requires
            old(self).wf(),
            pair_ok(old(self).key_seq(), k_1@, k_2@),
        ensures
            *r.0 == old(self)@[k_1@],
            *r.1 == old(self)@[k_2@],
            final(self).wf(),
            final(self).key_seq() == old(self).key_seq(),
            final(self)@ == old(self)@.insert(k_1@, *final(r.0)).insert(k_2@, *final(r.1)),
    {
        let s_1 = self.find_slot(k_1);
        let s_2 = self.find_slot(k_2);
        let i = match s_1 {
            Some(i) => i,
            None => {
                // unreachable: the first key is present by precondition
                proof {
                    assert(false);
                }
                0
            },
        };
        let j = match s_2 {
            Some(j) => j,
            None => {
                // unreachable: the second key is present by precondition
                proof {
                    assert(false);
                }
                0
            },
        };
        proof {
            lemma_pair_write_view(self.key_seq(), self.val_seq(), i as int, j as int);
        }
        two_unordered_mut(&mut self.vals, i, j)
    }

    /// Mutable references to the values under three keys, or nothing: nothing
    /// when any key is absent, and nothing when any two of the three keys
    /// resolve to the same storage slot.
    pub fn get_triple_mut<'a>(&'a mut self, k_1: &str, k_2: &str, k_3: &str) -> (r: Option<
        (&'a mut V, &'a mut V, &'a mut V),
    >)
        requires
            old(self).wf(),
        ensures
            r is Some <==> triple_ok(old(self).key_seq(), k_1@, k_2@, k_3@),
            r is None ==> *final(self) == *old(self),
            r is Some ==> *r.unwrap().0 == old(self)@[k_1@] && *r.unwrap().1 == old(self)@[k_2@]
                && *r.unwrap().2 == old(self)@[k_3@],
            r is Some ==> final(self).wf() && final(self).key_seq() == old(self).key_seq()
                && final(self)@ == old(self)@.insert(k_1@, *final(r.unwrap().0)).insert(
                k_2@,
                *final(r.unwrap().1),
            ).insert(k_3@, *final(r.unwrap().2)),
    {
        let s_1 = self.find_slot(k_1);
        let s_2 = self.find_slot(k_2);
        let s_3 = self.find_slot(k_3);
        match (s_1, s_2, s_3) {
            (Some(i_1), Some(i_2), Some(i_3)) => {
                if i_1 == i_2 || i_2 == i_3 || i_1 == i_3 {
                    None
                } else {
                    proof {
                        lemma_triple_write_view(
                            self.key_seq(),
                            self.val_seq(),
                            i_1 as int,
                            i_2 as int,
                            i_3 as int,
                        );
                    }
                    let (a, b, c) = three_unordered_mut(&mut self.vals, i_1, i_2, i_3);
                    Some((a, b, c))
                }
            },
            _ => None,
        }
    }

    /// Mutable references to the values under three keys.  The caller asserts
    /// that all three keys are present and pairwise resolve to different
    /// storage; soft callers use `get_triple_mut`.
    pub fn triple_mut<'a>(&'a mut self, k_1: &str, k_2: &str, k_3: &str) -> (r: (
        &'a mut V,
        &'a mut V,
        &'a mut V,
    ))
        requires
            old(self).wf(),
            triple_ok(old(self).key_seq(), k_1@, k_2@, k_3@),
        ensures
            *r.0 == old(self)@[k_1@],
            *r.1 == old(self)@[k_2@],
            *r.2 == old(self)@[k_3@],
            final(self).wf(),
            final(self).key_seq() == old(self).key_seq(),
            final(self)@ == old(self)@.insert(k_1@, *final(r.0)).insert(k_2@, *final(r.1)).insert(
                k_3@,
                *final(r.2),
            ),
    {
        let s_1 = self.find_slot(k_1);
        let s_2 = self.find_slot(k_2);
        let s_3 = self.find_slot(k_3);
        let i_1 = match s_1 {
            Some(i) => i,
            None => {
                // unreachable: the first key is present by precondition
                proof {
                    assert(false);
                }
                0
            },
        };
        let i_2 = match s_2 {
            Some(i) => i,
            None => {
                // unreachable: the second key is present by precondition
                proof {
                    assert(false);
                }
                0
            },
        };
        let i_3 = match s_3 {
            Some(i) => i,
            None => {
                // unreachable: the third key is present by precondition
                proof {
                    assert(false);
                }
                0
            },
        };
        proof {
            lemma_triple_write_view(
                self.key_seq(),
                self.val_seq(),
                i_1 as int,
                i_2 as int,
                i_3 as int,
            );
        }
        three_unordered_mut(&mut self.vals, i_1, i_2, i_3)
    }

    /// Opens a bounded multi-access session over this container.  The caller
    /// supplies the claim ledger's buffer; its length is the largest number
    /// of claims the session will admit.
    pub fn multi_mut(self, buffer: Vec<usize>) -> (w: HashMapMutWrapper<V>)
        requires
            self.wf(),
        ensures
            w.wf(),
            w.store() == self,
            w.capacity_spec() == buffer@.len(),
            w.used_spec() == 0,
            w.claimed() == Seq::<int>::empty(),
    {
        let w = HashMapMutWrapper { map: self, used: 0, buffer };
        proof {
            assert(w.claimed() =~= Seq::<int>::empty());
        }
        w
    }

    /// Opens a session that resolves the given keys one by one, in order.
    pub fn iter_multi_mut<'a>(self, keys: &'a [&'a str], buffer: Vec<usize>) -> (it:
        HashMapMultiMutIter<'a, V>)
        requires
            self.wf(),
        ensures
            it.wf(),
            it.session().store() == self,
            it.session().capacity_spec() == buffer@.len(),
            it.session().used_spec() == 0,
            it.session().claimed() == Seq::<int>::empty(),
            it.pos_spec() == 0,
            it.key_list() == keys@.map_values(|s: &str| s@),
    {
        HashMapMultiMutIter { wrapper: self.multi_mut(buffer), keys, pos: 0 }
    }
}

/// A bounded multi-access session: the container, a claim ledger recording
/// the storage slots already handed out, and the fill count of the ledger.
///
/// Each claim resolves one key, checks the resolved slot against every slot
/// already recorded, and appends it; two claims from one session therefore
/// never address the same storage.  The checks are stated as preconditions,
/// so verified callers discharge them statically; the ledger scan still runs
/// on every claim.
pub struct HashMapMutWrapper<V> {
    map: HashIndexedMap<V>,
    used: usize,
    buffer: Vec<usize>,
}

impl<V> View for HashMapMutWrapper<V> {
    type V = Map<Seq<char>, V>;

    /// The map the underlying container denotes.
    open spec fn view(&self) -> Map<Seq<char>, V> {
        self.store()@
    }
}

impl<V> HashMapMutWrapper<V> {
    /// The container this session ranges over.
    pub closed spec fn store(self) -> HashIndexedMap<V> {
        self.map
    }

    /// How many claims the ledger holds.
    pub closed spec fn used_spec(self) -> int {
        self.used as int
    }

    /// How many claims the ledger can hold in all.
    pub closed spec fn capacity_spec(self) -> int {
        self.buffer@.len() as int
    }

    /// The storage slots claimed so far, in claim order.
    pub closed spec fn claimed(self) -> Seq<int> {
        self.buffer@.take(self.used as int).map_values(|u: usize| u as int)
    }

    /// Well-formed: the container is well-formed, the ledger's fill is within
    /// its capacity, and the claimed slots are pairwise distinct slots of the
    /// container.
    pub open spec fn wf(self) -> bool {
        &&& self.store().wf()
        &&& 0 <= self.used_spec() <= self.capacity_spec()
        &&& forall|t: int|
            0 <= t < self.used_spec() ==> 0 <= #[trigger] self.claimed()[t]
                < self.store().num_slots()
        &&& forall|t1: int, t2: int|
            0 <= t1 < t2 < self.used_spec() ==> self.claimed()[t1] != self.claimed()[t2]
    }

    /// Whether the slot `x` is already recorded in the ledger.
    fn scan_claims(&self, x: usize) -> (found: bool)
        requires
            self.wf(),
        ensures
            found <==> self.claimed().contains(x as int),
    {
        let mut t: usize = 0;
        while t < self.used
            invariant
                self.wf(),
                t <= self.used_spec(),
                forall|u: int| 0 <= u < t ==> #[trigger] self.claimed()[u] != x as int,
            decreases self.used_spec() - t,
        {
            if self.buffer[t] == x {
                proof {
                    assert(self.claimed()[t as int] == x as int);
                }
                return true;
            }
            proof {
                assert(self.claimed()[t as int] == self.buffer@[t as int] as int);
            }
            t += 1;
        }
        proof {
            if self.claimed().contains(x as int) {
                let u = choose|u: int|
                    0 <= u < self.claimed().len() && self.claimed()[u] == x as int;
                assert(self.claimed()[u] != x as int);
            }
        }
        false
    }

    /// Claims the value stored under the queried key: resolves the key,
    /// checks the resolved slot against every claim already recorded, records
    /// it, and hands the claim out.  An absent key is the one soft outcome;
    /// a full ledger and an aliasing claim are the caller's errors, excluded
    /// by precondition.
    pub fn get_mut(&mut self, q: &str) -> (r: Option<ClaimedSlot>)
        requires
            old(self).wf(),
            ledger_can_accept(old(self).claimed(), old(self).capacity_spec()),
            old(self).store().contains_spec(q@) ==> ledger_clear_of(
                old(self).claimed(),
                old(self).store().slot_of_key(q@),
            ),
        ensures
            final(self).wf(),
            r is Some <==> old(self).store().contains_spec(q@),
            r is None ==> *final(self) == *old(self),
            r is Some ==> ({
                &&& r.unwrap().slot() == old(self).store().slot_of_key(q@)
                &&& final(self).claimed() == old(self).claimed().push(r.unwrap().slot())
                &&& final(self).used_spec() == old(self).used_spec() + 1
                &&& final(self).store() == old(self).store()
                &&& final(self).capacity_spec() == old(self).capacity_spec()
            }),
    {
        match self.map.find_slot(q) {
            Some(i) => {
                if self.scan_claims(i) {
                    // unreachable for verified callers: the precondition says
                    // the resolved slot is not yet claimed
                    None
                } else {
                    let at = self.used;
                    let cap = self.buffer.len();
                    proof {
                        assert(self.claimed().len() == self.used_spec());
                        assert(at < cap);
                    }
                    self.buffer.set(at, i);
                    self.used = at + 1;
                    proof {
                        assert(self.claimed() =~= old(self).claimed().push(i as int));
                    }
                    Some(ClaimedSlot::of_index(i))
                }
            },
            None => None,
        }
    }

    /// Claims the value stored under the queried key, which must be present:
    /// the hard form of `get_mut`.
    pub fn mut_ref(&mut self, q: &str) -> (c: ClaimedSlot)
        requires
            old(self).wf(),
            ledger_can_accept(old(self).claimed(), old(self).capacity_spec()),
            old(self).store().contains_spec(q@),
            ledger_clear_of(old(self).claimed(), old(self).store().slot_of_key(q@)),
        ensures
            final(self).wf(),
            c.slot() == old(self).store().slot_of_key(q@),
            final(self).claimed() == old(self).claimed().push(c.slot()),
            final(self).used_spec() == old(self).used_spec() + 1,
            final(self).store() == old(self).store(),
            final(self).capacity_spec() == old(self).capacity_spec(),
    {
        match self.get_mut(q) {
            Some(c) => c,
            None => {
                // unreachable: the key is present by precondition
                proof {
                    assert(false);
                }
                ClaimedSlot::of_index(0)
            },
        }
    }

    /// A shared reference to the value a claim covers.
    pub fn value(&self, c: &ClaimedSlot) -> (r: &V)
        requires
            self.wf(),
            self.claimed().contains(c.slot()),
        ensures
            *r == self.store().val_at(c.slot()),
            *r == self@[self.store().key_at(c.slot())],
    {
        proof {
            lemma_claimed_slot_in_bounds(*self, c.slot());
            lemma_slot_of_position(self.store().key_seq(), c.slot());
        }
        let i = c.index();
        &self.map.vals[i]
    }

    /// A mutable reference to the value a claim covers.  Writing through it
    /// changes the container at that claim's key and nowhere else.
    pub fn value_mut(&mut self, c: &ClaimedSlot) -> (r: &mut V)
        requires
            old(self).wf(),
            old(self).claimed().contains(c.slot()),
        ensures
            *r == old(self).store().val_at(c.slot()),
            *r == old(self)@[old(self).store().key_at(c.slot())],
            final(self).wf(),
            final(self).claimed() == old(self).claimed(),
            final(self).used_spec() == old(self).used_spec(),
            final(self).capacity_spec() == old(self).capacity_spec(),
            final(self).store().key_seq() == old(self).store().key_seq(),
            final(self)@ == old(self)@.insert(old(self).store().key_at(c.slot()), *final(r)),
    {
        proof {
            lemma_claimed_slot_in_bounds(*self, c.slot());
            lemma_slot_of_position(self.store().key_seq(), c.slot());
            let ks = self.store().key_seq();
            let vs = self.store().val_seq();
            assert forall|v: V| #[trigger] assoc_view(ks, vs.update(c.slot(), v)) == assoc_view(
                ks,
                vs,
            ).insert(ks[c.slot()], v) by {
                lemma_assoc_view_update(ks, vs, c.slot(), v);
            }
        }
        let i = c.index();
        &mut self.map.vals[i]
    }

    /// Ends the session, giving the container and the ledger's buffer back.
    pub fn into_inner(self) -> (r: (HashIndexedMap<V>, Vec<usize>))
        ensures
            r.0 == self.store(),
            r.1@.len() == self.capacity_spec(),
    {
        (self.map, self.buffer)
    }
}

/// A slot recorded in a well-formed session's ledger is a slot of its
/// container.
proof fn lemma_claimed_slot_in_bounds<V>(w: HashMapMutWrapper<V>, s: int)
    requires
        w.wf(),
        w.claimed().contains(s),
    ensures
        0 <= s < w.store().num_slots(),
{
    let t = choose|t: int| 0 <= t < w.claimed().len() && w.claimed()[t] == s;
    assert(0 <= w.claimed()[t] < w.store().num_slots());
}

/// A session that resolves a fixed list of keys one by one: a lazy,
/// forward-only pass, pulling one claim per key through the session's
/// accessor.  The pass ends when the keys run out, or silently when the
/// ledger's capacity is reached first.
pub struct HashMapMultiMutIter<'a, V> {
    wrapper: HashMapMutWrapper<V>,
    keys: &'a [&'a str],
    pos: usize,
}

impl<'a, V> HashMapMultiMutIter<'a, V> {
    /// The session this pass claims through.
    pub closed spec fn session(self) -> HashMapMutWrapper<V> {
        self.wrapper
    }

    /// The keys the pass resolves, in order.
    pub closed spec fn key_list(self) -> Seq<Seq<char>> {
        self.keys@.map_values(|s: &str| s@)
    }

    /// How many keys have been consumed.
    pub closed spec fn pos_spec(self) -> int {
        self.pos as int
    }

    /// Well-formed: the session is, and the position is within the key list.
    pub open spec fn wf(self) -> bool {
        self.session().wf() && 0 <= self.pos_spec() <= self.key_list().len()
    }

    /// Claims the value under the next key.  Nothing is left to claim when
    /// the key list is exhausted, or when the ledger's capacity was reached
    /// while keys remain (the documented truncation of this pass).  A key
    /// that is absent or resolves to an already-claimed slot is the caller's
    /// error, excluded by precondition.
    pub fn next(&mut self) -> (r: Option<ClaimedSlot>)
        requires
            old(self).wf(),
            old(self).session().used_spec() < old(self).session().capacity_spec() && old(
                self,
            ).pos_spec() < old(self).key_list().len() ==> ({
                let k = old(self).key_list()[old(self).pos_spec()];
                &&& old(self).session().store().contains_spec(k)
                &&& ledger_clear_of(
                    old(self).session().claimed(),
                    old(self).session().store().slot_of_key(k),
                )
            }),
        ensures
            final(self).wf(),
            r is None <==> (old(self).session().used_spec() == old(self).session().capacity_spec()
                || old(self).pos_spec() == old(self).key_list().len()),
            r is None ==> *final(self) == *old(self),
            r is Some ==> ({
                let k = old(self).key_list()[old(self).pos_spec()];
                &&& r.unwrap().slot() == old(self).session().store().slot_of_key(k)
                &&& final(self).pos_spec() == old(self).pos_spec() + 1
                &&& final(self).session().claimed() == old(self).session().claimed().push(
                    r.unwrap().slot(),
                )
                &&& final(self).session().used_spec() == old(self).session().used_spec() + 1
                &&& final(self).session().store() == old(self).session().store()
                &&& final(self).session().capacity_spec() == old(self).session().capacity_spec()
                &&& final(self).key_list() == old(self).key_list()
            }),
    {
        if self.wrapper.used == self.wrapper.buffer.len() {
            // capacity reached: the pass ends here even if keys remain
            return None;
        }
        if self.pos == self.keys.len() {
            return None;
        }
        let q = self.keys[self.pos];
        self.pos += 1;
        let c = self.wrapper.mut_ref(q);
        Some(c)
    }

    /// Ends the pass, handing the session back for reads and writes through
    /// the claims it produced.
    pub fn into_session(self) -> (w: HashMapMutWrapper<V>)
        ensures
            w == self.session(),
    {
        self.wrapper
    }
}

/// Writing two distinct slots is, at the level of the map, inserting at their
/// two keys — stated for every pair of written values, so an accessor can
/// invoke it before it hands the two references out.
proof fn lemma_pair_write_view<V>(keys: Seq<Seq<char>>, vals: Seq<V>, i: int, j: int)
    requires
        distinct_keys(keys),
        keys.len() == vals.len(),
        0 <= i < keys.len(),
        0 <= j < keys.len(),
        i != j,
    ensures
        forall|v1: V, v2: V|
            #[trigger] assoc_view(keys, vals.update(i, v1).update(j, v2)) == assoc_view(
                keys,
                vals,
            ).insert(keys[i], v1).insert(keys[j], v2),
{
    assert forall|v1: V, v2: V|
        #[trigger] assoc_view(keys, vals.update(i, v1).update(j, v2)) == assoc_view(
            keys,
            vals,
        ).insert(keys[i], v1).insert(keys[j], v2) by {
        lemma_assoc_view_update(keys, vals, i, v1);
        lemma_assoc_view_update(keys, vals.update(i, v1), j, v2);
    }
}

/// Writing three pairwise distinct slots is, at the level of the map,
/// inserting at their three keys — stated for every triple of written values.
proof fn lemma_triple_write_view<V>(keys: Seq<Seq<char>>, vals: Seq<V>, i: int, j: int, k: int)
    requires
        distinct_keys(keys),
        keys.len() == vals.len(),
        0 <= i < keys.len(),
        0 <= j < keys.len(),
        0 <= k < keys.len(),
        i != j,
        j != k,
        i != k,
    ensures
        forall|v1: V, v2: V, v3: V|
            #[trigger] assoc_view(keys, vals.update(i, v1).update(j, v2).update(k, v3))
                == assoc_view(keys, vals).insert(keys[i], v1).insert(keys[j], v2).insert(
                keys[k],
                v3,
            ),
{
    assert forall|v1: V, v2: V, v3: V|
        #[trigger] assoc_view(keys, vals.update(i, v1).update(j, v2).update(k, v3)) == assoc_view(
            keys,
            vals,
        ).insert(keys[i], v1).insert(keys[j], v2).insert(keys[k], v3) by {
        lemma_assoc_view_update(keys, vals, i, v1);
        lemma_assoc_view_update(keys, vals.update(i, v1), j, v2);
        lemma_assoc_view_update(keys, vals.update(i, v1).update(j, v2), k, v3);
    }
}

} // verus!
