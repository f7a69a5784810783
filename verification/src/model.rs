//! The mathematical model shared by the two container backends.
//!
//! A container is modelled as a sequence of keys next to a sequence of values:
//! position `i` is one storage slot, holding value `vals[i]` under key
//! `keys[i]`.  The functions here define what the slots denote as a map, when
//! a pair or triple of keys may be handed out together, and what the claim
//! ledger of an access session admits.  The backends state their contracts
//! over these definitions.

use vstd::prelude::*;

use crate::keycmp::lex_lt;

verus! {

/// No two slots hold the same key.
pub open spec fn distinct_keys(keys: Seq<Seq<char>>) -> bool {
    forall|i: int, j: int| 0 <= i < j < keys.len() ==> keys[i] != keys[j]
}

/// Some slot holds the key `k`.
pub open spec fn has_key(keys: Seq<Seq<char>>, k: Seq<char>) -> bool {
    exists|i: int| 0 <= i < keys.len() && keys[i] == k
}

/// The slot holding the key `k` (meaningful when `has_key` and the keys are
/// distinct).
pub open spec fn slot_of(keys: Seq<Seq<char>>, k: Seq<char>) -> int {
    choose|i: int| 0 <= i < keys.len() && keys[i] == k
}

/// The map the slots denote: each key to the value stored beside it.
pub open spec fn assoc_view<V>(keys: Seq<Seq<char>>, vals: Seq<V>) -> Map<Seq<char>, V> {
    Map::new(|k: Seq<char>| has_key(keys, k), |k: Seq<char>| vals[slot_of(keys, k)])
}

/// The keys are sorted strictly ascending in lexicographic order.
pub open spec fn sorted_keys(keys: Seq<Seq<char>>) -> bool {
    forall|i: int, j: int| 0 <= i < j < keys.len() ==> lex_lt(keys[i], keys[j])
}

/// Two keys may be handed out together: both are present and their slots are
/// two different pieces of storage.
pub open spec fn pair_ok(keys: Seq<Seq<char>>, k1: Seq<char>, k2: Seq<char>) -> bool {
    has_key(keys, k1) && has_key(keys, k2) && slot_of(keys, k1) != slot_of(keys, k2)
}

/// Three keys may be handed out together: all are present and no two of their
/// slots coincide.
pub open spec fn triple_ok(keys: Seq<Seq<char>>, k1: Seq<char>, k2: Seq<char>, k3: Seq<char>) -> bool {
    &&& has_key(keys, k1)
    &&& has_key(keys, k2)
    &&& has_key(keys, k3)
    &&& slot_of(keys, k1) != slot_of(keys, k2)
    &&& slot_of(keys, k2) != slot_of(keys, k3)
    &&& slot_of(keys, k1) != slot_of(keys, k3)
}

/// The claim ledger has room for one more claim.
pub open spec fn ledger_can_accept(claimed: Seq<int>, capacity: int) -> bool {
    claimed.len() < capacity
}

/// No claim recorded so far occupies the slot `s`.
pub open spec fn ledger_clear_of(claimed: Seq<int>, s: int) -> bool {
    !claimed.contains(s)
}

/// With distinct keys, the slot of the key at position `i` is `i` itself.
pub proof fn lemma_slot_of_position(keys: Seq<Seq<char>>, i: int)
    requires
        distinct_keys(keys),
        0 <= i < keys.len(),
    ensures
        has_key(keys, keys[i]),
        slot_of(keys, keys[i]) == i,
{
    assert(has_key(keys, keys[i]));
    let j = slot_of(keys, keys[i]);
    assert(0 <= j < keys.len() && keys[j] == keys[i]);
}

/// Distinct present keys occupy distinct slots.
pub proof fn lemma_distinct_keys_distinct_slots(keys: Seq<Seq<char>>, k1: Seq<char>, k2: Seq<char>)
    requires
        distinct_keys(keys),
        has_key(keys, k1),
        has_key(keys, k2),
        k1 != k2,
    ensures
        slot_of(keys, k1) != slot_of(keys, k2),
{
    let i = slot_of(keys, k1);
    let j = slot_of(keys, k2);
    assert(0 <= i < keys.len() && keys[i] == k1);
    assert(0 <= j < keys.len() && keys[j] == k2);
}

/// Replacing the value in one slot is, at the level of the map, one insert at
/// that slot's key.
pub proof fn lemma_assoc_view_update<V>(keys: Seq<Seq<char>>, vals: Seq<V>, i: int, v: V)
    requires
        distinct_keys(keys),
        keys.len() == vals.len(),
        0 <= i < keys.len(),
    ensures
        assoc_view(keys, vals.update(i, v)) == assoc_view(keys, vals).insert(keys[i], v),
{
    lemma_slot_of_position(keys, i);
    assert forall|k: Seq<char>| #[trigger] has_key(keys, k) implies 0 <= slot_of(keys, k)
        < keys.len() && keys[slot_of(keys, k)] == k by {
        let t = slot_of(keys, k);
        assert(0 <= t < keys.len() && keys[t] == k);
    }
    assert(assoc_view(keys, vals.update(i, v)) =~= assoc_view(keys, vals).insert(keys[i], v));
}

/// Appending a slot with a fresh key is, at the level of the map, one insert
/// of that key.
pub proof fn lemma_assoc_view_push<V>(keys: Seq<Seq<char>>, vals: Seq<V>, k: Seq<char>, v: V)
    requires
        distinct_keys(keys),
        keys.len() == vals.len(),
        !has_key(keys, k),
    ensures
        distinct_keys(keys.push(k)),
        assoc_view(keys.push(k), vals.push(v)) == assoc_view(keys, vals).insert(k, v),
{
    let keys2 = keys.push(k);
    assert forall|i: int, j: int| 0 <= i < j < keys2.len() implies keys2[i] != keys2[j] by {
        if j == keys.len() {
            assert(keys2[j] == k);
            assert(keys2[i] == keys[i]);
            assert(keys[i] != k) by {
                if keys[i] == k {
                    assert(has_key(keys, k));
                }
            }
        }
    }
    assert forall|k2: Seq<char>| #[trigger] has_key(keys2, k2) implies (k2 == k || has_key(
        keys,
        k2,
    )) by {
        let t = choose|t: int| 0 <= t < keys2.len() && keys2[t] == k2;
        if t < keys.len() {
            assert(keys[t] == k2);
        }
    }
    assert forall|k2: Seq<char>| #[trigger] has_key(keys, k2) implies has_key(keys2, k2) by {
        let t = choose|t: int| 0 <= t < keys.len() && keys[t] == k2;
        assert(keys2[t] == k2);
    }
    assert(has_key(keys2, k)) by {
        assert(keys2[keys.len() as int] == k);
    }
    assert forall|k2: Seq<char>| has_key(keys2, k2) implies #[trigger] vals.push(v)[slot_of(
        keys2,
        k2,
    )] == assoc_view(keys, vals).insert(k, v)[k2] by {
        let t = slot_of(keys2, k2);
        assert(0 <= t < keys2.len() && keys2[t] == k2);
        if k2 == k {
            assert(t == keys.len()) by {
                if t < keys.len() {
                    assert(keys[t] == k2);
                    assert(has_key(keys, k));
                }
            }
        } else {
            assert(t < keys.len());
            assert(keys[t] == k2);
            lemma_slot_of_position(keys, t);
            assert(slot_of(keys, k2) == t);
        }
    }
    assert(assoc_view(keys.push(k), vals.push(v)) =~= assoc_view(keys, vals).insert(k, v));
}

/// Inserting a slot with a fresh key at position `pos` is, at the level of the
/// map, one insert of that key; and it keeps a sorted key sequence sorted when
/// the new key fits between its neighbours.
pub proof fn lemma_assoc_view_insert_at<V>(
    keys: Seq<Seq<char>>,
    vals: Seq<V>,
    pos: int,
    k: Seq<char>,
    v: V,
)
    requires
        distinct_keys(keys),
        keys.len() == vals.len(),
        !has_key(keys, k),
        0 <= pos <= keys.len(),
    ensures
        distinct_keys(keys.insert(pos, k)),
        assoc_view(keys.insert(pos, k), vals.insert(pos, v)) == assoc_view(keys, vals).insert(k, v),
        sorted_keys(keys) && (forall|t: int| 0 <= t < pos ==> lex_lt(keys[t], k)) && (forall|t: int|
            pos <= t < keys.len() ==> lex_lt(k, keys[t])) ==> sorted_keys(keys.insert(pos, k)),
{
    let keys2 = keys.insert(pos, k);
    let vals2 = vals.insert(pos, v);
    assert forall|t: int| 0 <= t < keys2.len() implies #[trigger] keys2[t] == (if t < pos {
        keys[t]
    } else if t == pos {
        k
    } else {
        keys[t - 1]
    }) by {}
    assert forall|i: int, j: int| 0 <= i < j < keys2.len() implies keys2[i] != keys2[j] by {
        if keys2[i] == k && i != pos {
            assert(has_key(keys, k));
        }
        if keys2[j] == k && j != pos {
            assert(has_key(keys, k));
        }
    }
    assert forall|k2: Seq<char>| #[trigger] has_key(keys2, k2) implies (k2 == k || has_key(
        keys,
        k2,
    )) by {
        let t = choose|t: int| 0 <= t < keys2.len() && keys2[t] == k2;
        if t < pos {
            assert(keys[t] == k2);
        } else if t > pos {
            assert(keys[t - 1] == k2);
        }
    }
    assert forall|k2: Seq<char>| #[trigger] has_key(keys, k2) implies has_key(keys2, k2) by {
        let t = choose|t: int| 0 <= t < keys.len() && keys[t] == k2;
        if t < pos {
            assert(keys2[t] == k2);
        } else {
            assert(keys2[t + 1] == k2);
        }
    }
    assert(has_key(keys2, k)) by {
        assert(keys2[pos] == k);
    }
    assert forall|k2: Seq<char>| has_key(keys2, k2) implies #[trigger] vals2[slot_of(keys2, k2)]
        == assoc_view(keys, vals).insert(k, v)[k2] by {
        let t = slot_of(keys2, k2);
        assert(0 <= t < keys2.len() && keys2[t] == k2);
        if k2 == k {
            assert(t == pos) by {
                if t < pos {
                    assert(keys[t] == k2);
                    assert(has_key(keys, k));
                }
                if t > pos {
                    assert(keys[t - 1] == k2);
                    assert(has_key(keys, k));
                }
            }
            assert(vals2[pos] == v);
        } else {
            assert(t != pos);
            if t < pos {
                assert(keys[t] == k2);
                lemma_slot_of_position(keys, t);
                assert(vals2[t] == vals[t]);
            } else {
                assert(keys[t - 1] == k2);
                lemma_slot_of_position(keys, t - 1);
                assert(vals2[t] == vals[t - 1]);
            }
        }
    }
    assert(assoc_view(keys2, vals2) =~= assoc_view(keys, vals).insert(k, v));
}

} // verus!
