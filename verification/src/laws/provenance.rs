//! What holds of provenances: how deep they are, how updates change them, and that no replica
//! occurs twice below a node.

use vstd::prelude::*;
use crate::assoc::{
    as_map, distinct, find, get, holds, lemma_find, lemma_find_is, lemma_put_distinct,
    lemma_put_map, put,
};
use crate::ids::ReplicaAddr;
use crate::provenance::{ancestry, ancestry_upto, gathered, ProvTree};

verus! {

/// A tree that was trimmed has no more levels than it was trimmed to.
pub proof fn trimmed_is_within(t: ProvTree, depth: nat)
    requires
        depth > 0,
    ensures
        t.trimmed(depth).within(depth),
    decreases depth,
{
    if depth > 1 {
        let s = t.trimmed(depth);
        assert forall|i: int| 0 <= i < s.edges.len() implies (#[trigger] s.edges[i]).1.within(
            (depth - 1) as nat,
        ) by {
            trimmed_is_within(t.edges[i].1, (depth - 1) as nat);
        }
    }
}

/// Trimming leaves a tree as it is that has no more levels anyway.
pub proof fn trimming_keeps_what_fits(t: ProvTree, depth: nat)
    requires
        t.within(depth),
    ensures
        t.trimmed(depth) == t,
    decreases depth,
{
    assert forall|i: int| 0 <= i < t.edges.len() && depth > 1 implies (
    #[trigger] t.edges[i]).1.trimmed((depth - 1) as nat) == t.edges[i].1 by {
        trimming_keeps_what_fits(t.edges[i].1, (depth - 1) as nat);
    }
    if depth <= 1 && t.edges.len() > 0 {
        assert(t.edges[0].1.within((depth - 1) as nat));
    }
    assert(t.trimmed(depth).edges =~= t.edges);
}

/// After `zero` all labels are zero.
pub proof fn zeroed_is_all_zero(t: ProvTree)
    ensures
        t.zeroed().all_zero(),
    decreases t,
{
    let z = t.zeroed();
    assert forall|i: int| 0 <= i < z.edges.len() implies (#[trigger] z.edges[i]).1.all_zero() by {
        zeroed_is_all_zero(t.edges[i].1);
    }
}

/// Setting the labels to zero does not make the tree deeper.
pub proof fn zeroed_is_within(t: ProvTree, depth: nat)
    requires
        t.within(depth),
    ensures
        t.zeroed().within(depth),
    decreases depth,
{
    let z = t.zeroed();
    assert forall|i: int| 0 <= i < z.edges.len() implies (#[trigger] z.edges[i]).1.within(
        (depth - 1) as nat,
    ) by {
        assert(t.edges[i].1.within((depth - 1) as nat));
        zeroed_is_within(t.edges[i].1, (depth - 1) as nat);
    }
}

/// An update brings the label of the root forward, never back, and leaves the root in place.
pub proof fn applied_label(t: ProvTree, update: ProvTree)
    ensures
        t.applied(update).root == t.root,
        t.applied(update).label == if t.label >= update.label {
            t.label
        } else {
            update.label
        },
{
}

/// To apply an update a second time changes nothing.
pub proof fn applied_twice(t: ProvTree, update: ProvTree)
    ensures
        t.applied(update).applied(update) == t.applied(update),
{
}

/// The provenance that a graph gives has no more levels than were asked for.
pub proof fn ancestry_is_within(
    nodes: Seq<ReplicaAddr>,
    edges: Seq<(usize, usize)>,
    ni: usize,
    depth: nat,
    root: ReplicaAddr,
    label: usize,
)
    requires
        depth > 0,
    ensures
        (ProvTree { root, label, edges: ancestry(nodes, edges, ni, depth) }).within(depth),
    decreases depth, edges.len() + 1,
{
    if depth > 1 {
        ancestry_upto_is_within(nodes, edges, ni, depth, edges.len());
        let t = ProvTree { root, label, edges: ancestry(nodes, edges, ni, depth) };
        assert forall|i: int| 0 <= i < t.edges.len() implies (#[trigger] t.edges[i]).1.within(
            (depth - 1) as nat,
        ) by {
            assert(ancestry_upto(nodes, edges, ni, depth, edges.len())[i].1.within(
                (depth - 1) as nat,
            ));
        }
    }
}

proof fn ancestry_upto_is_within(
    nodes: Seq<ReplicaAddr>,
    edges: Seq<(usize, usize)>,
    ni: usize,
    depth: nat,
    n: nat,
)
    requires
        depth > 1,
        n <= edges.len(),
    ensures
        forall|i: int|
            0 <= i < ancestry_upto(nodes, edges, ni, depth, n).len() ==> (
            #[trigger] ancestry_upto(nodes, edges, ni, depth, n)[i]).1.within((depth - 1) as nat),
    decreases depth, n,
{
    if n > 0 {
        ancestry_upto_is_within(nodes, edges, ni, depth, (n - 1) as nat);
        let (from, to) = edges[n - 1];
        if to == ni {
            let addr = nodes[from as int];
            ancestry_is_within(nodes, edges, from, (depth - 1) as nat, addr, 0);
            lemma_find(ancestry_upto(nodes, edges, ni, depth, (n - 1) as nat), addr);
        }
    }
}

/// The provenance that a graph gives is well-formed.
pub proof fn ancestry_is_wf(
    nodes: Seq<ReplicaAddr>,
    edges: Seq<(usize, usize)>,
    ni: usize,
    depth: nat,
    root: ReplicaAddr,
    label: usize,
)
    ensures
        (ProvTree { root, label, edges: ancestry(nodes, edges, ni, depth) }).wf(),
    decreases depth, edges.len() + 1,
{
    if depth > 1 {
        ancestry_upto_is_wf(nodes, edges, ni, depth, edges.len());
    }
}

proof fn ancestry_upto_is_wf(
    nodes: Seq<ReplicaAddr>,
    edges: Seq<(usize, usize)>,
    ni: usize,
    depth: nat,
    n: nat,
)
    requires
        depth > 1,
        n <= edges.len(),
    ensures
        edges_wf(ancestry_upto(nodes, edges, ni, depth, n)),
    decreases depth, n,
{
    if n > 0 {
        ancestry_upto_is_wf(nodes, edges, ni, depth, (n - 1) as nat);
        let (from, to) = edges[n - 1];
        if to == ni {
            let addr = nodes[from as int];
            let p = ProvTree {
                root: addr,
                label: 0,
                edges: ancestry(nodes, edges, from, (depth - 1) as nat),
            };
            ancestry_is_wf(nodes, edges, from, (depth - 1) as nat, addr, 0);
            put_is_wf(ancestry_upto(nodes, edges, ni, depth, (n - 1) as nat), addr, p);
        }
    }
}

/// No two of the edges lead to one replica, here or below, and every edge leads to the tree of
/// the replica that it names.
pub open spec fn edges_wf(edges: Seq<(ReplicaAddr, ProvTree)>) -> bool {
    distinct(edges) && forall|i: int|
        0 <= i < edges.len() ==> (#[trigger] edges[i]).1.wf() && edges[i].1.root == edges[i].0
}

proof fn put_is_wf(edges: Seq<(ReplicaAddr, ProvTree)>, addr: ReplicaAddr, p: ProvTree)
    requires
        edges_wf(edges),
        p.wf(),
        p.root == addr,
    ensures
        edges_wf(put(edges, addr, p)),
{
    lemma_put_distinct(edges, addr, p);
    lemma_find(edges, addr);
}

/// An update keeps a tree well-formed.
pub proof fn applied_is_wf(t: ProvTree, update: ProvTree)
    requires
        t.wf(),
        update.wf(),
    ensures
        t.applied(update).wf(),
    decreases update, update.edges.len() + 1,
{
    if t.label < update.label {
        absorbed_is_wf(t.edges, update, update.edges.len());
    }
}

proof fn absorbed_is_wf(edges: Seq<(ReplicaAddr, ProvTree)>, update: ProvTree, n: nat)
    requires
        edges_wf(edges),
        update.wf(),
        n <= update.edges.len(),
    ensures
        edges_wf(ProvTree::absorbed(edges, update, n)),
    decreases update, n,
{
    if n > 0 {
        absorbed_is_wf(edges, update, (n - 1) as nat);
        let before = ProvTree::absorbed(edges, update, (n - 1) as nat);
        let (addr, p) = update.edges[n - 1];
        assert(update.edges[n - 1].1.wf());
        lemma_find(before, addr);
        if holds(before, addr) {
            let old_p = get(before, addr);
            assert(before[find(before, addr)].1.wf());
            applied_is_wf(old_p, p);
            put_is_wf(before, addr, old_p.applied(p));
        } else {
            put_is_wf(before, addr, p);
        }
    }
}

/// Trimming keeps a tree well-formed.
pub proof fn trimmed_is_wf(t: ProvTree, depth: nat)
    requires
        t.wf(),
    ensures
        t.trimmed(depth).wf(),
    decreases depth,
{
    if depth > 1 {
        let s = t.trimmed(depth);
        assert forall|i: int| 0 <= i < s.edges.len() implies (#[trigger] s.edges[i]).1.wf()
            && s.edges[i].1.root == s.edges[i].0 by {
            assert(t.edges[i].1.wf());
            trimmed_is_wf(t.edges[i].1, (depth - 1) as nat);
        }
        assert(distinct(s.edges)) by {
            assert forall|i: int, j: int| 0 <= i < j < s.edges.len() implies (
            #[trigger] s.edges[i]).0 != (#[trigger] s.edges[j]).0 by {
                assert(t.edges[i].0 != t.edges[j].0);
            }
        }
    }
}

/// Setting the labels to zero keeps a tree well-formed.
pub proof fn zeroed_is_wf(t: ProvTree)
    requires
        t.wf(),
    ensures
        t.zeroed().wf(),
    decreases t,
{
    let s = t.zeroed();
    assert forall|i: int| 0 <= i < s.edges.len() implies (#[trigger] s.edges[i]).1.wf()
        && s.edges[i].1.root == s.edges[i].0 by {
        assert(t.edges[i].1.wf());
        zeroed_is_wf(t.edges[i].1);
    }
    assert(distinct(s.edges)) by {
        assert forall|i: int, j: int| 0 <= i < j < s.edges.len() implies (
        #[trigger] s.edges[i]).0 != (#[trigger] s.edges[j]).0 by {
            assert(t.edges[i].0 != t.edges[j].0);
        }
    }
}

/// A provenance made of well-formed ones is well-formed.
pub proof fn gathered_is_wf(trees: Seq<ProvTree>, root: ReplicaAddr, label: usize)
    requires
        forall|i: int| 0 <= i < trees.len() ==> (#[trigger] trees[i]).wf(),
    ensures
        (ProvTree { root, label, edges: gathered(trees) }).wf(),
    decreases trees.len(),
{
    if trees.len() > 0 {
        let init = trees.drop_last();
        assert forall|i: int| 0 <= i < init.len() implies (#[trigger] init[i]).wf() by {
            assert(trees[i].wf());
        }
        gathered_is_wf(init, root, label);
        assert((ProvTree { root, label, edges: gathered(init) }).wf());
        put_is_wf(gathered(init), trees.last().root, trees.last());
    }
}

/// What a list of entries stands for: a replica is mapped if some entry is for it, and to the
/// value of the first such entry.
pub proof fn entries_map<V>(s: Seq<(ReplicaAddr, V)>)
    ensures
        forall|addr: ReplicaAddr| #[trigger]
            as_map(s).contains_key(addr) <==> exists|i: int|
                0 <= i < s.len() && (#[trigger] s[i]).0 == addr,
        forall|i: int|
            0 <= i < s.len() && (forall|j: int| 0 <= j < i ==> (#[trigger] s[j]).0 != s[i].0)
                ==> as_map(s)[(#[trigger] s[i]).0] == s[i].1,
{
    assert forall|addr: ReplicaAddr| #[trigger]
        as_map(s).contains_key(addr) <==> exists|i: int|
            0 <= i < s.len() && (#[trigger] s[i]).0 == addr by {
        lemma_find(s, addr);
        if holds(s, addr) {
            assert(s[find(s, addr)].0 == addr);
        }
    }
    assert forall|i: int|
        0 <= i < s.len() && (forall|j: int| 0 <= j < i ==> (#[trigger] s[j]).0
            != s[i].0) implies as_map(s)[(#[trigger] s[i]).0] == s[i].1 by {
        lemma_find_is(s, s[i].0, i);
    }
}

/// Trimming keeps the root, its label and, above the last level, all edges, each to the tree that
/// was there, trimmed to one level less.
pub proof fn trimmed_levels(t: ProvTree, depth: nat)
    ensures
        t.trimmed(depth).root == t.root,
        t.trimmed(depth).label == t.label,
        depth <= 1 ==> t.trimmed(depth).edges.len() == 0,
        depth > 1 ==> t.trimmed(depth).edges.len() == t.edges.len(),
        depth > 1 ==> forall|i: int|
            0 <= i < t.edges.len() ==> #[trigger] t.trimmed(depth).edges[i] == (
                t.edges[i].0,
                t.edges[i].1.trimmed((depth - 1) as nat),
            ),
{
}

/// Setting the labels to zero changes nothing but the labels.
pub proof fn zeroed_keeps_shape(t: ProvTree)
    ensures
        t.zeroed().root == t.root,
        t.zeroed().label == 0,
        t.zeroed().edges.len() == t.edges.len(),
        forall|i: int|
            0 <= i < t.edges.len() ==> #[trigger] t.zeroed().edges[i] == (
                t.edges[i].0,
                t.edges[i].1.zeroed(),
            ),
{
}

/// What an update makes of the edge to `addr`.
pub open spec fn edge_follows(
    before: Map<ReplicaAddr, ProvTree>,
    news: Map<ReplicaAddr, ProvTree>,
    after: Map<ReplicaAddr, ProvTree>,
    addr: ReplicaAddr,
) -> bool {
    if !news.contains_key(addr) {
        &&& after.contains_key(addr) == before.contains_key(addr)
        &&& before.contains_key(addr) ==> after[addr] == before[addr]
    } else {
        &&& after.contains_key(addr)
        &&& after[addr] == if before.contains_key(addr) {
            before[addr].applied(news[addr])
        } else {
            news[addr]
        }
    }
}

/// A newer update brings its label to the root. Below, a parent that the update does not name
/// stays as it was; one that it names has the update for it applied, or is noted for the first
/// time. An update that is no newer changes nothing.
pub proof fn applied_edges(t: ProvTree, update: ProvTree)
    requires
        distinct(update.edges),
    ensures
        t.label >= update.label ==> t.applied(update) == t,
        t.label < update.label ==> {
            let before = as_map(t.edges);
            let news = as_map(update.edges);
            let after = as_map(t.applied(update).edges);
            &&& t.applied(update).root == t.root
            &&& t.applied(update).label == update.label
            &&& forall|addr: ReplicaAddr| #[trigger] edge_follows(before, news, after, addr)
        },
        t.applied(update).edges.len() >= t.edges.len(),
        forall|i: int|
            0 <= i < t.edges.len() ==> (#[trigger] t.applied(update).edges[i]).0 == t.edges[i].0,
{
    if t.label < update.label {
        let n = update.edges.len();
        absorbed_edges(t.edges, update, n);
        let before = as_map(t.edges);
        let news = as_map(update.edges);
        let after = as_map(t.applied(update).edges);
        assert(t.applied(update).edges == ProvTree::absorbed(t.edges, update, n));
        assert forall|addr: ReplicaAddr| #[trigger] edge_follows(before, news, after, addr) by {
            lemma_find(update.edges, addr);
            let k = find(update.edges, addr);
            if news.contains_key(addr) {
                assert(update.edges[k] == (addr, news[addr]));
                assert(after.contains_key(update.edges[k].0));
            } else {
                assert(after.contains_key(addr) == before.contains_key(addr));
            }
        }
    }
}

proof fn absorbed_edges(edges: Seq<(ReplicaAddr, ProvTree)>, update: ProvTree, n: nat)
    requires
        distinct(update.edges),
        n <= update.edges.len(),
    ensures
        ({
            let before = as_map(edges);
            let after = as_map(ProvTree::absorbed(edges, update, n));
            &&& forall|addr: ReplicaAddr|
                (forall|k: int| 0 <= k < n ==> (#[trigger] update.edges[k]).0 != addr) ==> (
                #[trigger] after.contains_key(addr) == before.contains_key(addr)) && (
                before.contains_key(addr) ==> after[addr] == before[addr])
            &&& forall|k: int|
                0 <= k < n ==> after.contains_key((#[trigger] update.edges[k]).0)
                    && after[update.edges[k].0] == if before.contains_key(update.edges[k].0) {
                    before[update.edges[k].0].applied(update.edges[k].1)
                } else {
                    update.edges[k].1
                }
        }),
        ProvTree::absorbed(edges, update, n).len() >= edges.len(),
        forall|i: int|
            0 <= i < edges.len() ==> (#[trigger] ProvTree::absorbed(edges, update, n)[i]).0
                == edges[i].0,
    decreases n,
{
    if n > 0 {
        let m = (n - 1) as nat;
        absorbed_edges(edges, update, m);
        let mid = ProvTree::absorbed(edges, update, m);
        let (addr, p) = update.edges[n - 1];
        let v = if holds(mid, addr) {
            get(mid, addr).applied(p)
        } else {
            p
        };
        assert(ProvTree::absorbed(edges, update, n) == put(mid, addr, v));
        lemma_put_map(mid, addr, v);
        lemma_find(mid, addr);
        assert(forall|k: int| 0 <= k < m ==> (#[trigger] update.edges[k]).0 != addr);
        assert(as_map(mid).contains_key(addr) == as_map(edges).contains_key(addr));
        let after = as_map(mid).insert(addr, v);
        assert(as_map(ProvTree::absorbed(edges, update, n)) == after);
        let before = as_map(edges);
        assert forall|a: ReplicaAddr|
            (forall|k: int| 0 <= k < n ==> (#[trigger] update.edges[k]).0 != a) implies (
        #[trigger] after.contains_key(a) == before.contains_key(a)) && (before.contains_key(a)
            ==> after[a] == before[a]) by {
            assert(update.edges[n - 1].0 != a);
            assert(as_map(mid).contains_key(a) == before.contains_key(a));
        }
        assert forall|k: int| 0 <= k < n implies after.contains_key((#[trigger] update.edges[k]).0)
            && after[update.edges[k].0] == if before.contains_key(update.edges[k].0) {
            before[update.edges[k].0].applied(update.edges[k].1)
        } else {
            update.edges[k].1
        } by {
            if k < m {
                assert(update.edges[k].0 != addr);
                assert(as_map(mid).contains_key(update.edges[k].0));
            }
        }
    }
}

/// A provenance made of others has an edge to the root of each, and to nothing else; of two with
/// one root the later counts.
pub proof fn gathered_edges(trees: Seq<ProvTree>)
    ensures
        forall|addr: ReplicaAddr| #[trigger]
            as_map(gathered(trees)).contains_key(addr) <==> exists|i: int|
                0 <= i < trees.len() && (#[trigger] trees[i]).root == addr,
        forall|i: int|
            0 <= i < trees.len() && (forall|j: int|
                i < j < trees.len() ==> (#[trigger] trees[j]).root != trees[i].root) ==> as_map(
                gathered(trees),
            )[(#[trigger] trees[i]).root] == trees[i],
    decreases trees.len(),
{
    if trees.len() == 0 {
        assert(as_map(gathered(trees)) =~= Map::empty());
    } else {
        let init = trees.drop_last();
        gathered_edges(init);
        lemma_put_map(gathered(init), trees.last().root, trees.last());
        let m = as_map(gathered(trees));
        assert(m == as_map(gathered(init)).insert(trees.last().root, trees.last()));
        assert forall|addr: ReplicaAddr| #[trigger] m.contains_key(addr) <==> exists|i: int|
            0 <= i < trees.len() && (#[trigger] trees[i]).root == addr by {
            if as_map(gathered(init)).contains_key(addr) {
                let i = choose|i: int| 0 <= i < init.len() && (#[trigger] init[i]).root == addr;
                assert(trees[i].root == addr);
            }
            if exists|i: int| 0 <= i < trees.len() && (#[trigger] trees[i]).root == addr {
                let i = choose|i: int| 0 <= i < trees.len() && (#[trigger] trees[i]).root == addr;
                if i < init.len() {
                    assert(init[i].root == addr);
                }
            }
            if addr == trees.last().root {
                assert(trees[trees.len() - 1].root == addr);
            }
        }
        assert forall|i: int|
            0 <= i < trees.len() && (forall|j: int|
                i < j < trees.len() ==> (#[trigger] trees[j]).root
                    != trees[i].root) implies m[(#[trigger] trees[i]).root] == trees[i] by {
            if i < init.len() {
                assert(trees[trees.len() - 1].root != trees[i].root);
                assert forall|j: int| i < j < init.len() implies (#[trigger] init[j]).root
                    != init[i].root by {
                    assert(trees[j].root != trees[i].root);
                }
                assert(as_map(gathered(init))[init[i].root] == init[i]);
            }
        }
    }
}

/// The provenance that a graph gives to a node has an edge to each replica that sends to the
/// node, and to nothing else, with label zero, and with the provenance that the graph gives to
/// the sender below. Of two nodes for one replica the later edge counts. The last level has no
/// edges.
pub proof fn ancestry_edges(
    nodes: Seq<ReplicaAddr>,
    edges: Seq<(usize, usize)>,
    ni: usize,
    depth: nat,
)
    ensures
        depth <= 1 ==> ancestry(nodes, edges, ni, depth).len() == 0,
        depth > 1 ==> forall|addr: ReplicaAddr| #[trigger]
            as_map(ancestry(nodes, edges, ni, depth)).contains_key(addr) <==> exists|k: int|
                0 <= k < edges.len() && (#[trigger] edges[k]).1 == ni && nodes[edges[k].0 as int]
                    == addr,
        depth > 1 ==> forall|k: int|
            0 <= k < edges.len() && (#[trigger] edges[k]).1 == ni && (forall|j: int|
                k < j < edges.len() && (#[trigger] edges[j]).1 == ni ==> nodes[edges[j].0 as int]
                    != nodes[edges[k].0 as int]) ==> as_map(ancestry(nodes, edges, ni, depth))[
            nodes[edges[k].0 as int]] == (ProvTree {
                root: nodes[edges[k].0 as int],
                label: 0,
                edges: ancestry(nodes, edges, edges[k].0, (depth - 1) as nat),
            }),
{
    if depth > 1 {
        let n = edges.len();
        ancestry_upto_edges(nodes, edges, ni, depth, n);
        let m = as_map(ancestry_upto(nodes, edges, ni, depth, n));
        assert(as_map(ancestry(nodes, edges, ni, depth)) == m);
        assert forall|addr: ReplicaAddr| #[trigger]
            as_map(ancestry(nodes, edges, ni, depth)).contains_key(addr) <==> exists|k: int|
                0 <= k < n && (#[trigger] edges[k]).1 == ni && nodes[edges[k].0 as int]
                    == addr by {
            assert(m.contains_key(addr) == as_map(
                ancestry(nodes, edges, ni, depth),
            ).contains_key(addr));
        }
    }
}

proof fn ancestry_upto_edges(
    nodes: Seq<ReplicaAddr>,
    edges: Seq<(usize, usize)>,
    ni: usize,
    depth: nat,
    n: nat,
)
    requires
        depth > 1,
        n <= edges.len(),
    ensures
        forall|addr: ReplicaAddr| #[trigger]
            as_map(ancestry_upto(nodes, edges, ni, depth, n)).contains_key(addr) <==> exists|
                k: int,
            |
                0 <= k < n && (#[trigger] edges[k]).1 == ni && nodes[edges[k].0 as int] == addr,
        forall|k: int|
            0 <= k < n && (#[trigger] edges[k]).1 == ni && (forall|j: int|
                k < j < n && (#[trigger] edges[j]).1 == ni ==> nodes[edges[j].0 as int]
                    != nodes[edges[k].0 as int]) ==> as_map(
                ancestry_upto(nodes, edges, ni, depth, n),
            )[nodes[edges[k].0 as int]] == (ProvTree {
                root: nodes[edges[k].0 as int],
                label: 0,
                edges: ancestry(nodes, edges, edges[k].0, (depth - 1) as nat),
            }),
    decreases n,
{
    if n == 0 {
        assert(as_map(ancestry_upto(nodes, edges, ni, depth, n)) =~= Map::empty());
    } else {
        let m = (n - 1) as nat;
        ancestry_upto_edges(nodes, edges, ni, depth, m);
        let before = as_map(ancestry_upto(nodes, edges, ni, depth, m));
        let after = as_map(ancestry_upto(nodes, edges, ni, depth, n));
        let (from, to) = edges[n - 1];
        let addr = nodes[from as int];
        let p = ProvTree {
            root: addr,
            label: 0,
            edges: ancestry(nodes, edges, from, (depth - 1) as nat),
        };
        if to == ni {
            lemma_put_map(ancestry_upto(nodes, edges, ni, depth, m), addr, p);
            assert(after == before.insert(addr, p));
        }
        assert forall|a: ReplicaAddr| #[trigger] after.contains_key(a) <==> exists|k: int|
            0 <= k < n && (#[trigger] edges[k]).1 == ni && nodes[edges[k].0 as int] == a by {
            if before.contains_key(a) {
                let k = choose|k: int|
                    0 <= k < m && (#[trigger] edges[k]).1 == ni && nodes[edges[k].0 as int] == a;
                assert(edges[k].1 == ni);
            }
            if exists|k: int|
                0 <= k < n && (#[trigger] edges[k]).1 == ni && nodes[edges[k].0 as int] == a {
                let k = choose|k: int|
                    0 <= k < n && (#[trigger] edges[k]).1 == ni && nodes[edges[k].0 as int] == a;
                if k < m {
                    assert(before.contains_key(a));
                }
            }
            if to == ni && a == addr {
                assert(edges[n - 1].1 == ni);
            }
        }
        assert forall|k: int|
            0 <= k < n && (#[trigger] edges[k]).1 == ni && (forall|j: int|
                k < j < n && (#[trigger] edges[j]).1 == ni ==> nodes[edges[j].0 as int]
                    != nodes[edges[k].0 as int]) implies after[nodes[edges[k].0 as int]] == (
        ProvTree {
            root: nodes[edges[k].0 as int],
            label: 0,
            edges: ancestry(nodes, edges, edges[k].0, (depth - 1) as nat),
        }) by {
            if k < m {
                if to == ni {
                    assert(edges[n - 1].1 == ni);
                    assert(nodes[edges[k].0 as int] != addr);
                }
                assert(before[nodes[edges[k].0 as int]].root == nodes[edges[k].0 as int]);
            }
        }
    }
}

} // verus!
