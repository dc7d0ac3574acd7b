//! Association lists from replicas to values, kept in the order in which the replicas came.

use vstd::prelude::*;
use crate::ids::{same_addr, ReplicaAddr};

verus! {

/// The position of the first entry for `addr`, or the length of `s` if there is none.
pub open spec fn find<V>(s: Seq<(ReplicaAddr, V)>, addr: ReplicaAddr) -> int
    decreases s.len(),
{
    if s.len() == 0 || s[0].0 == addr {
        0
    } else {
        1 + find(s.drop_first(), addr)
    }
}

/// Some entry of `s` is for `addr`.
pub open spec fn holds<V>(s: Seq<(ReplicaAddr, V)>, addr: ReplicaAddr) -> bool {
    find(s, addr) < s.len()
}

/// The value that `s` holds for `addr`.
pub open spec fn get<V>(s: Seq<(ReplicaAddr, V)>, addr: ReplicaAddr) -> V
    recommends
        holds(s, addr),
{
    s[find(s, addr)].1
}

/// `s` with the value `v` for `addr`: in the place of the old value, or behind the last entry.
pub open spec fn put<V>(s: Seq<(ReplicaAddr, V)>, addr: ReplicaAddr, v: V) -> Seq<(ReplicaAddr, V)> {
    if holds(s, addr) {
        s.update(find(s, addr), (addr, v))
    } else {
        s.push((addr, v))
    }
}

/// No replica has two entries.
pub open spec fn distinct<V>(s: Seq<(ReplicaAddr, V)>) -> bool {
    forall|i: int, j: int| 0 <= i < j < s.len() ==> (#[trigger] s[i]).0 != (#[trigger] s[j]).0
}

/// The map that `s` stands for.
pub open spec fn as_map<V>(s: Seq<(ReplicaAddr, V)>) -> Map<ReplicaAddr, V> {
    Map::new(|addr: ReplicaAddr| holds(s, addr), |addr: ReplicaAddr| get(s, addr))
}

/// What `find` returns, without recursion.
pub proof fn lemma_find<V>(s: Seq<(ReplicaAddr, V)>, addr: ReplicaAddr)
    ensures
        0 <= find(s, addr) <= s.len(),
        holds(s, addr) ==> s[find(s, addr)].0 == addr,
        forall|i: int| 0 <= i < find(s, addr) ==> (#[trigger] s[i]).0 != addr,
    decreases s.len(),
{
    if s.len() != 0 && s[0].0 != addr {
        let rest = s.drop_first();
        lemma_find(rest, addr);
        assert forall|i: int| 0 <= i < find(s, addr) implies (#[trigger] s[i]).0 != addr by {
            if i > 0 {
                assert(rest[i - 1] == s[i]);
            }
        }
    }
}

/// A position that has the entry for `addr`, and before which there is none, is what `find`
/// returns.
pub proof fn lemma_find_is<V>(s: Seq<(ReplicaAddr, V)>, addr: ReplicaAddr, k: int)
    requires
        0 <= k <= s.len(),
        k < s.len() ==> s[k].0 == addr,
        forall|i: int| 0 <= i < k ==> (#[trigger] s[i]).0 != addr,
    ensures
        find(s, addr) == k,
{
    lemma_find(s, addr);
}

/// `find` looks at the replicas alone.
pub proof fn lemma_find_same_keys<V, W>(
    s: Seq<(ReplicaAddr, V)>,
    t: Seq<(ReplicaAddr, W)>,
    addr: ReplicaAddr,
)
    requires
        s.len() == t.len(),
        forall|i: int| 0 <= i < s.len() ==> (#[trigger] s[i]).0 == t[i].0,
    ensures
        find(s, addr) == find(t, addr),
{
    lemma_find(s, addr);
    lemma_find(t, addr);
    let k = find(s, addr);
    assert forall|i: int| 0 <= i < k implies (#[trigger] t[i]).0 != addr by {
        assert(s[i].0 == t[i].0);
    }
    if k < s.len() {
        assert(s[k].0 == t[k].0);
    }
    lemma_find_is(t, addr, k);
}

/// After a `put` the list stands for the map with the new value.
pub proof fn lemma_put_map<V>(s: Seq<(ReplicaAddr, V)>, addr: ReplicaAddr, v: V)
    ensures
        as_map(put(s, addr, v)) == as_map(s).insert(addr, v),
{
    let t = put(s, addr, v);
    assert forall|a: ReplicaAddr| #[trigger]
        holds(t, a) == (holds(s, a) || a == addr) && (holds(t, a) ==> get(t, a) == if a == addr {
            v
        } else {
            get(s, a)
        }) by {
        lemma_find(s, a);
        lemma_find(s, addr);
        let k = if a == addr {
            find(s, addr)
        } else if holds(s, a) {
            find(s, a)
        } else {
            t.len() as int
        };
        assert forall|i: int| 0 <= i < k implies (#[trigger] t[i]).0 != a by {
            if i < s.len() {
                assert(s[i].0 != a);
            }
        }
        lemma_find_is(t, a, k);
    }
    assert(as_map(t) =~= as_map(s).insert(addr, v));
}

/// A `put` gives no replica a second entry.
pub proof fn lemma_put_distinct<V>(s: Seq<(ReplicaAddr, V)>, addr: ReplicaAddr, v: V)
    requires
        distinct(s),
    ensures
        distinct(put(s, addr, v)),
{
    lemma_find(s, addr);
}

/// The position of the first entry for `addr`, or the length of the list if there is none.
pub fn position<V>(entries: &Vec<(ReplicaAddr, V)>, addr: ReplicaAddr) -> (i: usize)
    ensures
        i == find(entries@, addr),
        i <= entries@.len(),
{
    let mut i: usize = 0;
    while i < entries.len()
        invariant
            i <= entries@.len(),
            forall|j: int| 0 <= j < i ==> (#[trigger] entries@[j]).0 != addr,
        ensures
            i <= entries@.len(),
            i < entries@.len() ==> entries@[i as int].0 == addr,
            forall|j: int| 0 <= j < i ==> (#[trigger] entries@[j]).0 != addr,
        decreases entries@.len() - i,
    {
        if same_addr(entries[i].0, addr) {
            break;
        }
        i += 1;
    }
    proof {
        lemma_find_is(entries@, addr, i as int);
    }
    i
}

/// Gives `addr` the value `v`.
pub fn assign<V>(entries: &mut Vec<(ReplicaAddr, V)>, addr: ReplicaAddr, v: V)
    ensures
        final(entries)@ == put(old(entries)@, addr, v),
{
    let i: usize = position(entries, addr);
    if i < entries.len() {
        entries[i] = (addr, v);
    } else {
        entries.push((addr, v));
    }
}

} // verus!
