//! The abstract content of the store: a sequence of slots sorted strictly by
//! key, read as a map from keys to values and expiry times.

use vstd::prelude::*;

use super::order::{key_less, lemma_key_less_irreflexive};

verus! {

/// One stored key with its value and expiry time (milliseconds on the store's clock).
pub struct Slot {
    pub key: Seq<char>,
    pub value: Seq<char>,
    pub expire_at: Option<u64>,
}

/// Keys strictly increase along the sequence.
pub open spec fn sorted_slots(s: Seq<Slot>) -> bool {
    forall|i: int, j: int|
        0 <= i < j < s.len() ==> key_less(#[trigger] s[i].key, #[trigger] s[j].key)
}

pub open spec fn has_key(s: Seq<Slot>, k: Seq<char>) -> bool {
    exists|i: int| 0 <= i < s.len() && #[trigger] s[i].key == k
}

/// The map from each key to its value and expiry time.
pub open spec fn slots_map(s: Seq<Slot>) -> Map<Seq<char>, (Seq<char>, Option<u64>)> {
    Map::new(
        |k: Seq<char>| has_key(s, k),
        |k: Seq<char>|
            {
                let i = choose|i: int| 0 <= i < s.len() && #[trigger] s[i].key == k;
                (s[i].value, s[i].expire_at)
            },
    )
}

/// In a sorted sequence, the slot at `i` is the only one with its key.
pub proof fn lemma_unique_key(s: Seq<Slot>, i: int, j: int)
    requires
        sorted_slots(s),
        0 <= i < s.len(),
        0 <= j < s.len(),
        s[i].key == s[j].key,
    ensures
        i == j,
{
    lemma_key_less_irreflexive(s[i].key);
    if i < j {
        assert(key_less(s[i].key, s[j].key));
    } else if j < i {
        assert(key_less(s[j].key, s[i].key));
    }
}

/// The map holds each slot of a sorted sequence.
pub proof fn lemma_slots_map_at(s: Seq<Slot>, i: int)
    requires
        sorted_slots(s),
        0 <= i < s.len(),
    ensures
        slots_map(s).contains_key(s[i].key),
        slots_map(s)[s[i].key] == (s[i].value, s[i].expire_at),
{
    let k = s[i].key;
    assert(has_key(s, k));
    let j = choose|j: int| 0 <= j < s.len() && #[trigger] s[j].key == k;
    lemma_unique_key(s, i, j);
}

pub proof fn lemma_slots_map_finite(s: Seq<Slot>)
    ensures
        slots_map(s).dom().finite(),
        slots_map(s).dom() == s.map_values(|x: Slot| x.key).to_set(),
{
    let keys = s.map_values(|x: Slot| x.key);
    assert(slots_map(s).dom() =~= keys.to_set()) by {
        assert forall|k: Seq<char>| slots_map(s).dom().contains(k) implies keys.to_set().contains(
            k,
        ) by {
            let i = choose|i: int| 0 <= i < s.len() && #[trigger] s[i].key == k;
            assert(keys[i] == k);
        }
        assert forall|k: Seq<char>| keys.to_set().contains(k) implies slots_map(
            s,
        ).dom().contains(k) by {
            let i = choose|i: int| 0 <= i < keys.len() && keys[i] == k;
            assert(s[i].key == k);
        }
    }
    vstd::seq_lib::seq_to_set_is_finite(keys);
}

/// Inserting a slot at its place in the order keeps the order and adds its key.
pub proof fn lemma_slots_map_insert(s: Seq<Slot>, p: int, slot: Slot)
    requires
        sorted_slots(s),
        0 <= p <= s.len(),
        forall|j: int| 0 <= j < p ==> key_less(#[trigger] s[j].key, slot.key),
        forall|j: int| p <= j < s.len() ==> key_less(slot.key, #[trigger] s[j].key),
    ensures
        sorted_slots(s.insert(p, slot)),
        slots_map(s.insert(p, slot)) == slots_map(s).insert(
            slot.key,
            (slot.value, slot.expire_at),
        ),
{
    let t = s.insert(p, slot);
    assert forall|i: int, j: int| 0 <= i < j < t.len() implies key_less(
        #[trigger] t[i].key,
        #[trigger] t[j].key,
    ) by {
        if j < p {
            assert(t[i] == s[i] && t[j] == s[j]);
        } else if j == p {
            assert(t[i] == s[i]);
        } else if i < p {
            assert(t[i] == s[i] && t[j] == s[j - 1]);
        } else if i == p {
            assert(t[j] == s[j - 1]);
        } else {
            assert(t[i] == s[i - 1] && t[j] == s[j - 1]);
        }
    }
    lemma_key_less_irreflexive(slot.key);
    let m = slots_map(s).insert(slot.key, (slot.value, slot.expire_at));
    assert forall|k: Seq<char>| #[trigger] slots_map(t).contains_key(k) == m.contains_key(k) by {
        if has_key(t, k) {
            let i = choose|i: int| 0 <= i < t.len() && #[trigger] t[i].key == k;
            if i < p {
                assert(s[i].key == k);
            } else if i > p {
                assert(s[i - 1].key == k);
            }
        }
        if has_key(s, k) {
            let i = choose|i: int| 0 <= i < s.len() && #[trigger] s[i].key == k;
            if i < p {
                assert(t[i].key == k);
            } else {
                assert(t[i + 1].key == k);
            }
        }
        if k == slot.key {
            assert(t[p].key == k);
        }
    }
    assert forall|k: Seq<char>| #[trigger] slots_map(t).contains_key(k) implies slots_map(t)[k]
        == m[k] by {
        if k == slot.key {
            lemma_slots_map_at(t, p);
        } else {
            let i = choose|i: int| 0 <= i < s.len() && #[trigger] s[i].key == k;
            lemma_slots_map_at(s, i);
            if i < p {
                lemma_slots_map_at(t, i);
            } else {
                lemma_slots_map_at(t, i + 1);
            }
        }
    }
    assert(slots_map(t) =~= m);
}

/// Removing a slot keeps the order and drops its key.
pub proof fn lemma_slots_map_remove(s: Seq<Slot>, p: int)
    requires
        sorted_slots(s),
        0 <= p < s.len(),
    ensures
        sorted_slots(s.remove(p)),
        slots_map(s.remove(p)) == slots_map(s).remove(s[p].key),
{
    let t = s.remove(p);
    assert forall|i: int, j: int| 0 <= i < j < t.len() implies key_less(
        #[trigger] t[i].key,
        #[trigger] t[j].key,
    ) by {
        if j < p {
            assert(t[i] == s[i] && t[j] == s[j]);
        } else if i < p {
            assert(t[i] == s[i] && t[j] == s[j + 1]);
        } else {
            assert(t[i] == s[i + 1] && t[j] == s[j + 1]);
        }
    }
    let m = slots_map(s).remove(s[p].key);
    assert forall|k: Seq<char>| #[trigger] slots_map(t).contains_key(k) == m.contains_key(k) by {
        if has_key(t, k) {
            let i = choose|i: int| 0 <= i < t.len() && #[trigger] t[i].key == k;
            if i < p {
                assert(s[i].key == k);
                if k == s[p].key {
                    lemma_unique_key(s, i, p);
                }
            } else {
                assert(s[i + 1].key == k);
                if k == s[p].key {
                    lemma_unique_key(s, i + 1, p);
                }
            }
        }
        if has_key(s, k) && k != s[p].key {
            let i = choose|i: int| 0 <= i < s.len() && #[trigger] s[i].key == k;
            if i < p {
                assert(t[i].key == k);
            } else {
                assert(i != p);
                assert(t[i - 1].key == k);
            }
        }
    }
    assert forall|k: Seq<char>| #[trigger] slots_map(t).contains_key(k) implies slots_map(t)[k]
        == m[k] by {
        let i = choose|i: int| 0 <= i < s.len() && #[trigger] s[i].key == k;
        lemma_slots_map_at(s, i);
        if i < p {
            lemma_slots_map_at(t, i);
        } else {
            lemma_slots_map_at(t, i - 1);
        }
    }
    assert(slots_map(t) =~= m);
}

/// Replacing a slot by one with the same key keeps the order and updates the key.
pub proof fn lemma_slots_map_update(s: Seq<Slot>, p: int, slot: Slot)
    requires
        sorted_slots(s),
        0 <= p < s.len(),
        slot.key == s[p].key,
    ensures
        sorted_slots(s.update(p, slot)),
        slots_map(s.update(p, slot)) == slots_map(s).insert(
            slot.key,
            (slot.value, slot.expire_at),
        ),
{
    let t = s.update(p, slot);
    assert forall|i: int, j: int| 0 <= i < j < t.len() implies key_less(
        #[trigger] t[i].key,
        #[trigger] t[j].key,
    ) by {
        assert(t[i].key == s[i].key && t[j].key == s[j].key);
    }
    let m = slots_map(s).insert(slot.key, (slot.value, slot.expire_at));
    assert forall|k: Seq<char>| #[trigger] slots_map(t).contains_key(k) == m.contains_key(k) by {
        if has_key(t, k) {
            let i = choose|i: int| 0 <= i < t.len() && #[trigger] t[i].key == k;
            assert(s[i].key == k);
        }
        if has_key(s, k) {
            let i = choose|i: int| 0 <= i < s.len() && #[trigger] s[i].key == k;
            assert(t[i].key == k);
        }
    }
    assert forall|k: Seq<char>| #[trigger] slots_map(t).contains_key(k) implies slots_map(t)[k]
        == m[k] by {
        let i = choose|i: int| 0 <= i < s.len() && #[trigger] s[i].key == k;
        assert(has_key(s, s[p].key));
        lemma_slots_map_at(t, i);
        if i != p {
            lemma_slots_map_at(s, i);
            if s[i].key == s[p].key {
                lemma_unique_key(s, i, p);
            }
        }
    }
    assert(slots_map(t) =~= m);
}

} // verus!
