//! Association lists keyed by message identifier, read as maps.
//!
//! Receivers keep their in-flight state in a `Vec` of key-value pairs whose
//! keys are unique; contracts speak of that state as a `Map` from raw
//! identifier to the value's mathematical view: insertion order is
//! irrelevant to the receivers.

use vstd::prelude::*;
use crate::wrapping_id::MessageId;

verus! {

/// The association list `s` read as a map from raw identifier to value view.
pub open spec fn kv_map<V: View>(s: Seq<(MessageId, V)>) -> Map<u16, V::V>
    decreases s.len(),
{
    if s.len() == 0 {
        Map::empty()
    } else {
        kv_map(s.drop_last()).insert(s.last().0.0, s.last().1@)
    }
}

/// No identifier occurs twice among the keys of `s`.
pub open spec fn kv_unique<V>(s: Seq<(MessageId, V)>) -> bool {
    forall|i: int, j: int| 0 <= i < j < s.len() ==> s[i].0.0 != s[j].0.0
}

/// The map contains exactly the keys that occur in the list.
pub proof fn lemma_kv_map_domain<V: View>(s: Seq<(MessageId, V)>)
    ensures
        forall|k: u16|
            kv_map(s).contains_key(k) <==> (exists|i: int|
                0 <= i < s.len() && #[trigger] s[i].0.0 == k),
    decreases s.len(),
{
    if s.len() > 0 {
        lemma_kv_map_domain(s.drop_last());
        assert forall|k: u16| kv_map(s).contains_key(k) implies (exists|i: int|
            0 <= i < s.len() && #[trigger] s[i].0.0 == k) by {
            if k == s.last().0.0 {
                assert(s[s.len() - 1].0.0 == k);
            } else {
                assert(kv_map(s) == kv_map(s.drop_last()).insert(s.last().0.0, s.last().1@));
                assert(kv_map(s.drop_last()).contains_key(k));
                let i = choose|i: int| 0 <= i < s.drop_last().len() && #[trigger] s.drop_last()[i].0.0
                    == k;
                assert(s.drop_last()[i] == s[i]);
                assert(s[i].0.0 == k);
            }
        }
        assert forall|k: u16| (exists|i: int| 0 <= i < s.len() && #[trigger] s[i].0.0 == k)
            implies kv_map(s).contains_key(k) by {
            let i = choose|i: int| 0 <= i < s.len() && #[trigger] s[i].0.0 == k;
            assert(kv_map(s) == kv_map(s.drop_last()).insert(s.last().0.0, s.last().1@));
            if i < s.len() - 1 {
                assert(s.drop_last()[i] == s[i]);
                assert(s.drop_last()[i].0.0 == k);
                assert(kv_map(s.drop_last()).contains_key(k));
            } else {
                assert(k == s.last().0.0);
            }
        }
    }
}

/// With unique keys, the map's value at the key of entry `i` is that
/// entry's value view.
pub proof fn lemma_kv_map_index<V: View>(s: Seq<(MessageId, V)>, i: int)
    requires
        kv_unique(s),
        0 <= i < s.len(),
    ensures
        kv_map(s).contains_key(s[i].0.0),
        kv_map(s)[s[i].0.0] == s[i].1@,
    decreases s.len(),
{
    if i < s.len() - 1 {
        assert(kv_unique(s.drop_last()));
        lemma_kv_map_index(s.drop_last(), i);
        assert(s.drop_last()[i] == s[i]);
    }
}

/// Appending a pair updates the map at its key.
pub proof fn lemma_kv_map_push<V: View>(s: Seq<(MessageId, V)>, k: MessageId, v: V)
    ensures
        kv_map(s.push((k, v))) == kv_map(s).insert(k.0, v@),
        kv_unique(s) && !kv_map(s).contains_key(k.0) ==> kv_unique(s.push((k, v))),
{
    assert(s.push((k, v)).drop_last() =~= s);
    assert(s.push((k, v)).last() == (k, v));
    lemma_kv_map_domain(s);
    if kv_unique(s) && !kv_map(s).contains_key(k.0) {
        assert forall|i: int, j: int| 0 <= i < j < s.push((k, v)).len() implies s.push(
            (k, v),
        )[i].0.0 != s.push((k, v))[j].0.0 by {
            if j < s.len() {
                assert(s[i].0.0 != s[j].0.0);
            } else {
                assert(s.push((k, v))[i] == s[i]);
            }
        }
    }
}

/// With unique keys, the map is finite and has one entry per list element.
pub proof fn lemma_kv_map_len<V: View>(s: Seq<(MessageId, V)>)
    requires
        kv_unique(s),
    ensures
        kv_map(s).dom().finite(),
        kv_map(s).len() == s.len(),
    decreases s.len(),
{
    if s.len() > 0 {
        assert(kv_unique(s.drop_last()));
        lemma_kv_map_len(s.drop_last());
        lemma_kv_map_domain(s.drop_last());
        assert(!kv_map(s.drop_last()).contains_key(s.last().0.0)) by {
            if kv_map(s.drop_last()).contains_key(s.last().0.0) {
                let j = choose|j: int|
                    0 <= j < s.drop_last().len() && #[trigger] s.drop_last()[j].0.0
                        == s.last().0.0;
                assert(s[j].0.0 == s[s.len() - 1].0.0);
            }
        }
        assert(kv_map(s).dom() =~= kv_map(s.drop_last()).dom().insert(s.last().0.0));
    }
}

/// With unique keys, removing entry `i` from the list removes its key from
/// the map, and keys stay unique.
pub proof fn lemma_kv_map_remove<V: View>(s: Seq<(MessageId, V)>, i: int)
    requires
        kv_unique(s),
        0 <= i < s.len(),
    ensures
        kv_map(s.remove(i)) == kv_map(s).remove(s[i].0.0),
        kv_unique(s.remove(i)),
    decreases s.len(),
{
    s.remove_ensures(i);
    assert forall|a: int, b: int| 0 <= a < b < s.remove(i).len() implies s.remove(i)[a].0.0
        != s.remove(i)[b].0.0 by {
        let a0 = if a < i {
            a
        } else {
            a + 1
        };
        let b0 = if b < i {
            b
        } else {
            b + 1
        };
        assert(s[a0].0.0 != s[b0].0.0);
    }
    if i == s.len() - 1 {
        assert(s.remove(i) =~= s.drop_last());
        lemma_kv_map_domain(s.drop_last());
        assert(!kv_map(s.drop_last()).contains_key(s[i].0.0)) by {
            if kv_map(s.drop_last()).contains_key(s[i].0.0) {
                let j = choose|j: int|
                    0 <= j < s.drop_last().len() && #[trigger] s.drop_last()[j].0.0 == s[i].0.0;
                assert(s[j].0.0 == s[i].0.0);
            }
        }
        assert(kv_map(s.remove(i)) =~= kv_map(s).remove(s[i].0.0));
    } else {
        assert(kv_unique(s.drop_last()));
        lemma_kv_map_remove(s.drop_last(), i);
        assert(s.remove(i).drop_last() =~= s.drop_last().remove(i));
        assert(s.remove(i).last() == s.last());
        assert(s.drop_last()[i] == s[i]);
        assert(kv_map(s.remove(i)) == kv_map(s.drop_last().remove(i)).insert(
            s.last().0.0,
            s.last().1@,
        ));
        assert(s[i].0.0 != s.last().0.0);
        assert(kv_map(s.remove(i)) =~= kv_map(s).remove(s[i].0.0));
    }
}

} // verus!
