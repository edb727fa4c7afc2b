//! General facts about the analyses, proved over their specifications.

use vstd::prelude::*;
use crate::analysis::{walk_after, walk_done};
use crate::cycles::all_closed_walks;
use crate::depth::chain_depth;
use crate::graph::{lemma_index_of_unique, DependencyMap};
use crate::topo::is_topological_order;

verus! {

/// A key with an empty dependency list has depth 0, whatever the limit.
pub proof fn lemma_leaf_depth_zero(m: DependencyMap, a: Seq<char>, budget: nat)
    requires
        m.has_key(a),
        m.deps_of(a).len() == 0,
    ensures
        chain_depth(m, a, budget, Seq::empty()) == 0,
{
}

/// In a topological order every direct dependency stands before the asset
/// that needs it.
pub proof fn lemma_dependency_precedes(m: DependencyMap, v: Seq<Seq<char>>, asset: Seq<char>, dep: Seq<char>)
    requires
        is_topological_order(m, v),
        m.edge(asset, dep),
    ensures
        exists|i: int, j: int| 0 <= i < j < v.len() && v[i] == dep && v[j] == asset,
{
    assert(m.has_key(asset));
    assert(m.appears(asset));
    let j = choose|j: int| 0 <= j < v.len() && v[j] == asset;
    let k = choose|k: int| 0 <= k < m.deps_of(asset).len() && m.deps_of(asset)[k] == dep;
    assert(v.take(j).contains(m.deps_of(v[j])[k]));
    let i = choose|i: int| 0 <= i < v.take(j).len() && v.take(j)[i] == dep;
    assert(v[i] == dep);
}

/// The direct dependents of `x` are exactly the keys whose dependency list
/// holds `x`; nothing transitive is included.
pub proof fn lemma_dependents_exact(m: DependencyMap, x: Seq<char>, y: Seq<char>)
    requires
        m.wf(),
    ensures
        m.dependents(x).contains(y) <==> (m.has_key(y) && m.deps_of(y).contains(x)),
{
    lemma_dependents_upto(m, x, y, m.entries@.len() as int);
    if m.has_key(y) {
        let i = m.keys().index_of(y);
        assert(m.keys()[i] == y);
        assert(m.entries@[i].key() == y);
    }
    if exists|i: int| 0 <= i < m.entries@.len() && m.entries@[i].key() == y && #[trigger] m.entries@[i].deps().contains(x) {
        let i = choose|i: int| 0 <= i < m.entries@.len() && m.entries@[i].key() == y && #[trigger] m.entries@[i].deps().contains(x);
        assert(m.keys()[i] == y);
        lemma_index_of_unique(m.keys(), y, i);
    }
}

proof fn lemma_dependents_upto(m: DependencyMap, x: Seq<char>, y: Seq<char>, n: int)
    requires
        0 <= n <= m.entries@.len(),
    ensures
        m.dependents_upto(x, n).contains(y) <==> exists|i: int|
            0 <= i < n && m.entries@[i].key() == y && #[trigger] m.entries@[i].deps().contains(x),
    decreases n,
{
    if n > 0 {
        lemma_dependents_upto(m, x, y, n - 1);
        let prev = m.dependents_upto(x, n - 1);
        if m.entries@[n - 1].deps().contains(x) {
            let cur = prev.push(m.entries@[n - 1].key());
            if prev.contains(y) {
                let t = choose|t: int| 0 <= t < prev.len() && prev[t] == y;
                assert(cur[t] == y);
            }
            if cur.contains(y) && m.entries@[n - 1].key() != y {
                let t = choose|t: int| 0 <= t < cur.len() && cur[t] == y;
                assert(prev[t] == y);
            }
            if m.entries@[n - 1].key() == y {
                assert(cur[prev.len() as int] == y);
            }
        }
    }
}

/// Cycle discovery reports nothing on a map without cycles.
pub proof fn lemma_acyclic_reports_none(m: DependencyMap, cycles: Seq<Vec<String>>)
    requires
        !m.has_cycle(),
        all_closed_walks(m, cycles),
    ensures
        cycles.len() == 0,
{
    if cycles.len() > 0 {
        assert(m.is_closed_walk(crate::graph::ids_of(cycles[0]@)));
    }
}

/// With a depth limit of 0 the walk from a key stops after its first step:
/// one row, the root at depth 0, no expansion and no revisit marker.
pub proof fn lemma_limit_zero_only_root(m: DependencyMap, root: Seq<char>)
    requires
        m.has_key(root),
    ensures
        walk_done(walk_after(m, root, 0, 1)),
        walk_after(m, root, 0, 1).rows == seq![(root, 0nat)],
        walk_after(m, root, 0, 1).markers.len() == 0,
{
    let s0 = walk_after(m, root, 0, 0);
    assert(s0.queue[0] == (root, 0nat));
    assert(!s0.seen.contains(root));
    assert(walk_after(m, root, 0, 1).rows =~= seq![(root, 0nat)]);
}

} // verus!
