//! The access discipline's guarantees, stated as laws over the model.
//!
//! The accessors' own contracts say what each call returns; the laws here
//! state the properties that hold across calls: writes through one granted
//! reference never show through another, degenerate key combinations are
//! never granted, and the claim ledger fills one slot per claim, refuses the
//! claim that would overflow it, and refuses a slot for as long as the
//! session lasts once it has been claimed.

use vstd::prelude::*;

use crate::model::assoc_view;
use crate::model::distinct_keys;
use crate::model::has_key;
use crate::model::ledger_can_accept;
use crate::model::ledger_clear_of;
use crate::model::lemma_assoc_view_update;
use crate::model::pair_ok;
use crate::model::slot_of;
use crate::model::triple_ok;

verus! {

/// For any container and any two distinct present keys whose values occupy
/// different storage, the pair accessors grant both references (their
/// contracts return references exactly when `pair_ok` holds), and writing
/// the value under one key leaves the value observed under the other
/// unchanged.
pub proof fn lemma_pair_write_independent<V>(
    keys: Seq<Seq<char>>,
    vals: Seq<V>,
    k1: Seq<char>,
    k2: Seq<char>,
    v: V,
)
    requires
        distinct_keys(keys),
        keys.len() == vals.len(),
        pair_ok(keys, k1, k2),
    ensures
        assoc_view(keys, vals.update(slot_of(keys, k1), v))[k1] == v,
        assoc_view(keys, vals.update(slot_of(keys, k1), v))[k2] == assoc_view(keys, vals)[k2],
{
    let i = slot_of(keys, k1);
    let j = slot_of(keys, k2);
    assert(0 <= i < keys.len() && keys[i] == k1);
    assert(0 <= j < keys.len() && keys[j] == k2);
    assert(k1 != k2);
    lemma_assoc_view_update(keys, vals, i, v);
}

/// With distinct keys — one slot per key — two present keys occupy the same
/// storage exactly when they are the same key.  A pair request is therefore
/// granted exactly for two distinct present keys, and refused for any key
/// paired with itself.
pub proof fn lemma_pair_ok_characterisation(keys: Seq<Seq<char>>, k1: Seq<char>, k2: Seq<char>)
    requires
        distinct_keys(keys),
    ensures
        pair_ok(keys, k1, k2) <==> (has_key(keys, k1) && has_key(keys, k2) && k1 != k2),
{
    if has_key(keys, k1) && has_key(keys, k2) {
        if k1 != k2 {
            crate::model::lemma_distinct_keys_distinct_slots(keys, k1, k2);
        }
    }
}

/// The triple form of the same characterisation: granted exactly for three
/// pairwise distinct present keys.
pub proof fn lemma_triple_ok_characterisation(
    keys: Seq<Seq<char>>,
    k1: Seq<char>,
    k2: Seq<char>,
    k3: Seq<char>,
)
    requires
        distinct_keys(keys),
    ensures
        triple_ok(keys, k1, k2, k3) <==> (has_key(keys, k1) && has_key(keys, k2) && has_key(
            keys,
            k3,
        ) && k1 != k2 && k2 != k3 && k1 != k3),
{
    lemma_pair_ok_characterisation(keys, k1, k2);
    lemma_pair_ok_characterisation(keys, k2, k3);
    lemma_pair_ok_characterisation(keys, k1, k3);
}

/// Both slots of a pair request under one and the same key coincide, so the
/// request is never granted: no call yields two references into one slot.
pub proof fn lemma_self_pair_never_ok(keys: Seq<Seq<char>>, k: Seq<char>)
    ensures
        !pair_ok(keys, k, k),
{
}

/// A key absent from the container blocks every pair or triple request it
/// takes part in: the soft accessors return their empty outcome, and the
/// hard accessors' preconditions exclude the call.
pub proof fn lemma_absent_key_never_ok(
    keys: Seq<Seq<char>>,
    k1: Seq<char>,
    k2: Seq<char>,
    k3: Seq<char>,
)
    requires
        !has_key(keys, k1),
    ensures
        !pair_ok(keys, k1, k2),
        !pair_ok(keys, k2, k1),
        !triple_ok(keys, k1, k2, k3),
        !triple_ok(keys, k2, k1, k3),
        !triple_ok(keys, k2, k3, k1),
{
}

/// A triple request is granted exactly when each of its three unordered
/// pairs would be: one coinciding pair — including the fully degenerate
/// request under a single key three times — fails the whole request.
pub proof fn lemma_triple_ok_iff_pairs(
    keys: Seq<Seq<char>>,
    k1: Seq<char>,
    k2: Seq<char>,
    k3: Seq<char>,
)
    ensures
        triple_ok(keys, k1, k2, k3) <==> (pair_ok(keys, k1, k2) && pair_ok(keys, k2, k3) && pair_ok(
            keys,
            k1,
            k3,
        )),
        !triple_ok(keys, k1, k1, k1),
{
}

/// Each successful claim fills exactly one ledger slot, and the capacity
/// check turns away exactly the claim that would overflow the ledger: the
/// claim attempted with the ledger full, and no claim before it.
pub proof fn lemma_claim_fills_one_slot(claimed: Seq<int>, s: int, capacity: int)
    requires
        ledger_can_accept(claimed, capacity),
    ensures
        claimed.push(s).len() == claimed.len() + 1,
        claimed.len() + 1 == capacity ==> !ledger_can_accept(claimed.push(s), capacity),
        claimed.len() + 1 < capacity ==> ledger_can_accept(claimed.push(s), capacity),
{
}

/// Once a slot is claimed, a second claim resolving to the same slot —
/// through the same key or through any other key stored there — is refused.
pub proof fn lemma_repeat_claim_refused(claimed: Seq<int>, s: int)
    ensures
        !ledger_clear_of(claimed.push(s), s),
{
    assert(claimed.push(s)[claimed.len() as int] == s);
}

/// A recorded claim stays recorded for the rest of the session, whatever is
/// claimed after it: in a key list with a duplicate, the pass over the list
/// is refused at the duplicate, however many claims lie between.
pub proof fn lemma_claims_persist(claimed: Seq<int>, s: int, x: int)
    requires
        !ledger_clear_of(claimed, s),
    ensures
        !ledger_clear_of(claimed.push(x), s),
{
    let u = choose|u: int| 0 <= u < claimed.len() && claimed[u] == s;
    assert(claimed.push(x)[u] == s);
}

/// The claims granted within one session always cover pairwise distinct
/// storage: a ledger of distinct slots, extended by a slot it is clear of,
/// holds distinct slots again.
pub proof fn lemma_ledger_stays_distinct(claimed: Seq<int>, s: int)
    requires
        forall|t1: int, t2: int|
            0 <= t1 < t2 < claimed.len() ==> claimed[t1] != claimed[t2],
        ledger_clear_of(claimed, s),
    ensures
        forall|t1: int, t2: int|
            0 <= t1 < t2 < claimed.push(s).len() ==> claimed.push(s)[t1] != claimed.push(s)[t2],
{
    assert forall|t1: int, t2: int|
        0 <= t1 < t2 < claimed.push(s).len() implies claimed.push(s)[t1] != claimed.push(
        s,
    )[t2] by {
        if t2 == claimed.len() {
            if claimed.push(s)[t1] == s {
                assert(claimed[t1] == s);
                assert(claimed.contains(s));
            }
        }
    }
}

} // verus!
