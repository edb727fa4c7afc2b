//! Longest dependency chain from an asset, bounded by a hop budget.

use vstd::prelude::*;
use crate::graph::{ids_of, DependencyMap};

verus! {

/// Length of the longest dependency chain starting at `a`, within `budget`
/// hops. An asset already on the active path `on_path` counts 0 (the cycle is
/// broken there), as does an exhausted budget, an asset without an entry, and
/// an asset with an empty dependency list.
pub open spec fn chain_depth(m: DependencyMap, a: Seq<char>, budget: nat, on_path: Seq<Seq<char>>) -> nat
    decreases budget, 0nat,
{
    if on_path.contains(a) || budget == 0 || m.deps_of(a).len() == 0 {
        0
    } else {
        let ds = m.deps_of(a);
        1 + max_chain_depth(m, ds, ds.len(), (budget - 1) as nat, on_path.push(a))
    }
}

/// Largest `chain_depth` among the first `n` identifiers of `ds`; 0 when `n` is 0.
pub open spec fn max_chain_depth(
    m: DependencyMap,
    ds: Seq<Seq<char>>,
    n: nat,
    budget: nat,
    on_path: Seq<Seq<char>>,
) -> nat
    decreases budget, n,
{
    if n == 0 {
        0
    } else {
        let rest = max_chain_depth(m, ds, (n - 1) as nat, budget, on_path);
        let here = chain_depth(m, ds[n - 1], budget, on_path);
        if rest >= here {
            rest
        } else {
            here
        }
    }
}

/// A chain never has more hops than the budget.
pub proof fn lemma_chain_depth_bounded(m: DependencyMap, a: Seq<char>, budget: nat, on_path: Seq<Seq<char>>)
    ensures
        chain_depth(m, a, budget, on_path) <= budget,
    decreases budget, 0nat,
{
    if !(on_path.contains(a) || budget == 0 || m.deps_of(a).len() == 0) {
        let ds = m.deps_of(a);
        lemma_max_chain_depth_bounded(m, ds, ds.len(), (budget - 1) as nat, on_path.push(a));
    }
}

proof fn lemma_max_chain_depth_bounded(
    m: DependencyMap,
    ds: Seq<Seq<char>>,
    n: nat,
    budget: nat,
    on_path: Seq<Seq<char>>,
)
    ensures
        max_chain_depth(m, ds, n, budget, on_path) <= budget,
    decreases budget, n,
{
    if n > 0 {
        lemma_max_chain_depth_bounded(m, ds, (n - 1) as nat, budget, on_path);
        lemma_chain_depth_bounded(m, ds[n - 1], budget, on_path);
    }
}

/// Computes `chain_depth(m, a, budget, path)`, with `path` the assets on the
/// active path; `path` is handed back as it came.
pub fn chain_depth_from(m: &DependencyMap, a: &String, budget: usize, path: &mut Vec<String>) -> (r: usize)
    requires
        m.wf(),
    ensures
        r == chain_depth(*m, a@, budget as nat, ids_of(old(path)@)),
        final(path)@ == old(path)@,
    decreases budget,
{
    if crate::graph::contains_id(path, a) {
        return 0;
    }
    if budget == 0 {
        return 0;
    }
    match m.find(a) {
        None => 0,
        Some(i) => {
            let deps = &m.entries[i].dependencies;
            if deps.len() == 0 {
                return 0;
            }
            let ghost path_ids = ids_of(path@);
            let ghost pv = path@;
            let ghost ds = m.deps_of(a@);
            path.push(a.clone());
            let ghost pushed = path@;
            assert(pushed =~= pv.push(pushed.last()));
            assert(ids_of(path@) =~= path_ids.push(a@));
            let mut best: usize = 0;
            let mut j: usize = 0;
            while j < deps.len()
                invariant
                    m.wf(),
                    i < m.entries@.len(),
                    deps == &m.entries@[i as int].dependencies,
                    ds == ids_of(deps@),
                    path@ == pushed,
                    pushed == pv.push(pushed.last()),
                    j <= deps@.len(),
                    0 < budget,
                    ids_of(path@) == path_ids.push(a@),
                    best == max_chain_depth(*m, ds, j as nat, (budget - 1) as nat, path_ids.push(a@)),
                    best < budget,
                decreases deps@.len() - j,
            {
                let c = chain_depth_from(m, &deps[j], budget - 1, path);
                proof {
                    lemma_chain_depth_bounded(*m, ds[j as int], (budget - 1) as nat, path_ids.push(a@));
                }
                if c > best {
                    best = c;
                }
                j = j + 1;
            }
            path.pop();
            assert(path@ =~= pv);
            best + 1
        },
    }
}

} // verus!
