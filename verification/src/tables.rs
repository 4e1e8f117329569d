//! Tables keyed by node, and entries that expire.

use vstd::prelude::*;
use vstd::std_specs::iter::IteratorSpec;
use std::collections::{HashMap, HashSet};
use crate::packet::{Instant, NodeId};

verus! {

broadcast use vstd::std_specs::hash::group_hash_axioms;

/// The value of `key`, if there is one.
pub open spec fn lookup<V>(m: Map<NodeId, V>, key: NodeId) -> Option<V> {
    if m.contains_key(key) {
        Some(m[key])
    } else {
        None
    }
}

/// Something that is kept until a deadline.
pub trait Expires {
    /// The deadline.
    spec fn deadline(&self) -> Instant;

    /// The deadline.
    fn expiry(&self) -> (result: Instant)
        ensures
            result == self.deadline(),
    ;
}

/// The entries whose deadline lies after `now`.
pub open spec fn live<V: Expires>(m: Map<NodeId, V>, now: Instant) -> Map<NodeId, V> {
    Map::new(|k: NodeId| m.contains_key(k) && m[k].deadline() > now, |k: NodeId| m[k])
}

/// The keys of a table, each once, in no particular order.
pub fn map_keys<K: Copy + Eq + std::hash::Hash, V>(m: &HashMap<K, V>) -> (keys: Vec<K>)
    requires
        vstd::std_specs::hash::obeys_key_model::<K>(),
    ensures
        keys@.no_duplicates(),
        keys@.to_set() == m@.dom(),
{
    let mut keys: Vec<K> = Vec::new();
    let ghost all = m.keys().remaining().unref();
    for key in it: m.keys()
        invariant
            keys.len() == it.index(),
            it.seq().unref() == all,
            keys@ == all.take(keys.len() as int),
    {
        proof {
            assert(all.take(keys.len() + 1) =~= all.take(keys.len() as int).push(*key));
        }
        keys.push(*key);
    }
    proof {
        assert(keys@ =~= all);
        assert(keys@.to_set() =~= m@.dom());
    }
    keys
}

/// The keys of a table keyed by node, each once, in no particular order.
pub fn node_keys<V>(m: &HashMap<NodeId, V>) -> (keys: Vec<NodeId>)
    ensures
        keys@.no_duplicates(),
        keys@.to_set() == m@.dom(),
{
    map_keys(m)
}

/// Removes the entries whose deadline has come.
pub fn drop_expired<V: Expires>(m: &mut HashMap<NodeId, V>, now: Instant)
    ensures
        final(m)@ == live(old(m)@, now),
{
    let keys = node_keys(m);
    let ghost before = m@;
    let mut i: usize = 0;
    while i < keys.len()
        invariant
            i <= keys.len(),
            keys@.no_duplicates(),
            keys@.to_set() == before.dom(),
            forall|k: NodeId| #[trigger]
                m@.contains_key(k) <==> before.contains_key(k) && (before[k].deadline() > now
                    || !keys@.take(i as int).contains(k)),
            forall|k: NodeId| #[trigger] m@.contains_key(k) ==> m@[k] == before[k],
        decreases keys.len() - i,
    {
        let key = keys[i];
        let ghost done = keys@.take(i as int);
        let ghost next = keys@.take(i + 1);
        proof {
            assert(next =~= done.push(key));
            assert(!done.contains(key));
            assert forall|k: NodeId| next.contains(k) <==> done.contains(k) || k == key by {
                if done.contains(k) {
                    let j = choose|j: int| 0 <= j < done.len() && done[j] == k;
                    assert(next[j] == k);
                }
                assert(next[i as int] == key);
            }
        }
        let gone = match m.get(&key) {
            Some(entry) => entry.expiry() <= now,
            None => false,
        };
        if gone {
            m.remove(&key);
        }
        i += 1;
    }
    proof {
        assert(keys@.take(keys.len() as int) =~= keys@);
        assert forall|k: NodeId| before.contains_key(k) implies keys@.contains(k) by {
            assert(keys@.to_set().contains(k));
        }
        assert(m@ =~= live(before, now));
    }
}

/// The members of a set, each once, in no particular order.
pub fn set_members(set: &HashSet<NodeId>) -> (members: Vec<NodeId>)
    ensures
        members@.no_duplicates(),
        members@.to_set() == set@,
{
    let mut members: Vec<NodeId> = Vec::new();
    let ghost all = set.iter().remaining().unref();
    for member in it: set.iter()
        invariant
            members.len() == it.index(),
            it.seq().unref() == all,
            members@ == all.take(members.len() as int),
    {
        proof {
            assert(all.take(members.len() + 1) =~= all.take(members.len() as int).push(*member));
        }
        members.push(*member);
    }
    proof {
        assert(members@ =~= all);
        assert(members@.to_set() =~= set@);
    }
    members
}

/// Removes the routes with this next hop.
pub fn drop_routes_via(routes: &mut HashMap<NodeId, NodeId>, next_hop: NodeId)
    ensures
        final(routes)@ == Map::new(
            |d: NodeId| old(routes)@.contains_key(d) && old(routes)@[d] != next_hop,
            |d: NodeId| old(routes)@[d],
        ),
{
    let keys = node_keys(routes);
    let ghost before = routes@;
    let mut i: usize = 0;
    while i < keys.len()
        invariant
            i <= keys.len(),
            keys@.no_duplicates(),
            keys@.to_set() == before.dom(),
            forall|k: NodeId| #[trigger]
                routes@.contains_key(k) <==> before.contains_key(k) && (before[k] != next_hop
                    || !keys@.take(i as int).contains(k)),
            forall|k: NodeId| #[trigger] routes@.contains_key(k) ==> routes@[k] == before[k],
        decreases keys.len() - i,
    {
        let key = keys[i];
        let ghost done = keys@.take(i as int);
        let ghost next = keys@.take(i + 1);
        proof {
            assert(next =~= done.push(key));
            assert(!done.contains(key));
            assert forall|k: NodeId| next.contains(k) <==> done.contains(k) || k == key by {
                if done.contains(k) {
                    let j = choose|j: int| 0 <= j < done.len() && done[j] == k;
                    assert(next[j] == k);
                }
                assert(next[i as int] == key);
            }
        }
        let gone = match routes.get(&key) {
            Some(hop) => *hop == next_hop,
            None => false,
        };
        if gone {
            routes.remove(&key);
        }
        i += 1;
    }
    proof {
        assert(keys@.take(keys.len() as int) =~= keys@);
        assert forall|k: NodeId| before.contains_key(k) implies keys@.contains(k) by {
            assert(keys@.to_set().contains(k));
        }
        assert(routes@ =~= Map::new(
            |d: NodeId| before.contains_key(d) && before[d] != next_hop,
            |d: NodeId| before[d],
        ));
    }
}

/// A list is picked from another one element by element: it holds those for which `p` holds and no
/// others, also when the other list is one longer.
pub proof fn lemma_picked<T>(source: Seq<T>, before: Seq<T>, after: Seq<T>, p: spec_fn(T) -> bool)
    requires
        source.len() > 0,
        forall|x: T| #[trigger] before.contains(x) <==> source.drop_last().contains(x) && p(x),
        after == if p(source.last()) {
            before.push(source.last())
        } else {
            before
        },
    ensures
        forall|x: T| #[trigger] after.contains(x) <==> source.contains(x) && p(x),
{
    let rest = source.drop_last();
    assert forall|x: T| #[trigger] after.contains(x) <==> source.contains(x) && p(x) by {
        if after.contains(x) {
            let k = choose|k: int| 0 <= k < after.len() && after[k] == x;
            if k < before.len() {
                assert(before[k] == x);
                assert(before.contains(x));
                let j = choose|j: int| 0 <= j < rest.len() && rest[j] == x;
                assert(source[j] == x);
            } else {
                assert(source[source.len() - 1] == x);
            }
        }
        if source.contains(x) && p(x) {
            let j = choose|j: int| 0 <= j < source.len() && source[j] == x;
            if j < rest.len() {
                assert(rest[j] == x);
                assert(rest.contains(x));
                assert(before.contains(x));
                let k = choose|k: int| 0 <= k < before.len() && before[k] == x;
                assert(after[k] == x);
            } else {
                assert(after[before.len() as int] == x);
            }
        }
    }
}

/// A key is found if and only if it is there.
pub proof fn lemma_lookup<V>(m: Map<NodeId, V>, key: NodeId)
    ensures
        lookup(m, key) is Some <==> m.contains_key(key),
        m.contains_key(key) ==> lookup(m, key) == Some(m[key]),
{
}

/// What is kept is what has a deadline that lies ahead; at the deadline itself it goes.
pub proof fn lemma_live<V: Expires>(m: Map<NodeId, V>, now: Instant, key: NodeId)
    ensures
        live(m, now).contains_key(key) <==> m.contains_key(key) && now < m[key].deadline(),
        live(m, now).contains_key(key) ==> live(m, now)[key] == m[key],
{
}

} // verus!
