//! Cycle discovery: depth-first search from every key, recording each back
//! edge to an asset on the active path as one cycle.

use vstd::prelude::*;
use crate::graph::{contains_id, first_pos, ids_of, position_of, DependencyMap};

verus! {

/// Every recorded cycle is a closed walk of `m`.
pub open spec fn all_closed_walks(m: DependencyMap, cycles: Seq<Vec<String>>) -> bool {
    forall|k: int| 0 <= k < cycles.len() ==> #[trigger] m.is_closed_walk(ids_of(cycles[k]@))
}

/// What the search has built so far: the visited assets in order of first
/// visit, and the cycles recorded in order of discovery.
pub type SearchState = (Seq<Seq<char>>, Seq<Seq<Seq<char>>>);

/// The identifier lists held by a vector of cycles.
pub open spec fn cycle_ids(c: Seq<Vec<String>>) -> Seq<Seq<Seq<char>>> {
    c.map_values(|v: Vec<String>| ids_of(v@))
}

/// Depth-first search from `current`, entered along the active path `path`
/// with `budget` more hops allowed below it: `current` is marked visited and
/// its dependencies are examined in order.
pub open spec fn search_from(
    m: DependencyMap,
    current: Seq<char>,
    st: SearchState,
    path: Seq<Seq<char>>,
    budget: nat,
) -> SearchState
    decreases budget, m.deps_of(current).len() + 1,
{
    search_deps(m, current, (st.0.push(current), st.1), path.push(current), budget, m.deps_of(current).len())
}

/// The search after examining the first `k` dependencies of `current`, whose
/// active path (ending at `current`) is `path`. An unvisited dependency is
/// searched from while the budget lasts; a visited one on the active path
/// closes a cycle, recorded from its first position on the path; any other
/// visited one is passed over.
pub open spec fn search_deps(
    m: DependencyMap,
    current: Seq<char>,
    st: SearchState,
    path: Seq<Seq<char>>,
    budget: nat,
    k: nat,
) -> SearchState
    decreases budget, k,
{
    if k == 0 {
        st
    } else {
        let st0 = search_deps(m, current, st, path, budget, (k - 1) as nat);
        let dep = m.deps_of(current)[k - 1];
        if !st0.0.contains(dep) {
            if budget > 0 {
                search_from(m, dep, st0, path, (budget - 1) as nat)
            } else {
                st0
            }
        } else if path.contains(dep) {
            (st0.0, st0.1.push(path.subrange(first_pos(path, dep), path.len() as int)))
        } else {
            st0
        }
    }
}

/// The search from each of the first `n` keys, in entry order, that no
/// earlier search visited, each with `limit` hops allowed below it.
pub open spec fn search_roots(m: DependencyMap, limit: nat, n: nat) -> SearchState
    decreases n,
{
    if n == 0 {
        (Seq::empty(), Seq::empty())
    } else {
        let st = search_roots(m, limit, (n - 1) as nat);
        let root = m.keys()[n - 1];
        if st.0.contains(root) {
            st
        } else {
            search_from(m, root, st, Seq::empty(), limit)
        }
    }
}

/// Every cycle that the search from all keys records, in order of discovery.
pub open spec fn discovered_cycles(m: DependencyMap, limit: nat) -> Seq<Seq<Seq<char>>> {
    search_roots(m, limit, m.entries@.len() as nat).1
}

/// The identifiers of `v` from position `start` on.
fn suffix_from(v: &Vec<String>, start: usize) -> (r: Vec<String>)
    requires
        start <= v@.len(),
    ensures
        ids_of(r@) == ids_of(v@).subrange(start as int, v@.len() as int),
{
    let mut r: Vec<String> = Vec::new();
    let mut i: usize = start;
    while i < v.len()
        invariant
            start <= i <= v@.len(),
            ids_of(r@) == ids_of(v@).subrange(start as int, i as int),
        decreases v@.len() - i,
    {
        let ghost before = r@;
        r.push(v[i].clone());
        assert(ids_of(r@) =~= ids_of(before).push(v@[i as int]@));
        assert(ids_of(v@).subrange(start as int, i + 1) =~= ids_of(v@).subrange(start as int, i as int).push(
            v@[i as int]@,
        ));
        i = i + 1;
    }
    r
}

/// Depth-first search from `current`, reached along the active path `path`,
/// with `budget` more hops allowed below it. Marks what it enters in
/// `visited`; for each dependency already visited and on the active path,
/// records the path from that dependency on as a cycle.
#[verifier::rlimit(80)]
fn search(
    m: &DependencyMap,
    current: &String,
    visited: &mut Vec<String>,
    cycles: &mut Vec<Vec<String>>,
    path: &mut Vec<String>,
    budget: usize,
)
    requires
        m.wf(),
        m.is_walk(ids_of(old(path)@)),
        old(path)@.len() > 0 ==> m.edge(old(path)@.last()@, current@),
        all_closed_walks(*m, old(cycles)@),
    ensures
        final(path)@ == old(path)@,
        all_closed_walks(*m, final(cycles)@),
        (ids_of(final(visited)@), cycle_ids(final(cycles)@)) == search_from(
            *m,
            current@,
            (ids_of(old(visited)@), cycle_ids(old(cycles)@)),
            ids_of(old(path)@),
            budget as nat,
        ),
    decreases budget,
{
    let ghost st_in: SearchState = (ids_of(visited@), cycle_ids(cycles@));
    let ghost vis_in = ids_of(visited@);
    visited.push(current.clone());
    assert(ids_of(visited@) =~= vis_in.push(current@));
    let ghost pv = path@;
    path.push(current.clone());
    let ghost pushed = path@;
    proof {
        assert(pushed =~= pv.push(pushed.last()));
        let w = ids_of(pushed);
        assert forall|i: int| 0 <= i < w.len() - 1 implies #[trigger] m.edge(w[i], w[i + 1]) by {
            if i < w.len() - 2 {
                assert(ids_of(pv)[i] == w[i] && ids_of(pv)[i + 1] == w[i + 1]);
            }
        }
        assert(ids_of(pushed) =~= ids_of(pv).push(current@));
    }
    let ghost st1: SearchState = (ids_of(visited@), cycle_ids(cycles@));
    let ghost wp = ids_of(pushed);
    match m.find(current) {
        None => {
            assert(m.deps_of(current@).len() == 0);
        },
        Some(e) => {
            let deps = &m.entries[e].dependencies;
            let mut j: usize = 0;
            while j < deps.len()
                invariant
                    m.wf(),
                    e < m.entries@.len(),
                    m.keys().index_of(current@) == e,
                    m.keys()[e as int] == current@,
                    deps == &m.entries@[e as int].dependencies,
                    j <= deps@.len(),
                    path@ == pushed,
                    pushed == pv.push(pushed.last()),
                    pushed.last()@ == current@,
                    m.is_walk(ids_of(pushed)),
                    all_closed_walks(*m, cycles@),
                    wp == ids_of(pushed),
                    m.deps_of(current@) == ids_of(deps@),
                    (ids_of(visited@), cycle_ids(cycles@)) == search_deps(*m, current@, st1, wp, budget as nat, j as nat),
                decreases deps@.len() - j,
            {
                let dep = &deps[j];
                let ghost st0: SearchState = (ids_of(visited@), cycle_ids(cycles@));
                proof {
                    assert(search_deps(*m, current@, st1, wp, budget as nat, (j + 1) as nat) == {
                        let dd = m.deps_of(current@)[j as int];
                        if !st0.0.contains(dd) {
                            if budget > 0 {
                                search_from(*m, dd, st0, wp, (budget - 1) as nat)
                            } else {
                                st0
                            }
                        } else if wp.contains(dd) {
                            (st0.0, st0.1.push(wp.subrange(first_pos(wp, dd), wp.len() as int)))
                        } else {
                            st0
                        }
                    });
                    assert(m.has_key(current@));
                    assert(m.deps_of(current@)[j as int] == dep@);
                    assert(m.edge(current@, dep@));
                }
                if !contains_id(visited, dep) {
                    if budget > 0 {
                        search(m, dep, visited, cycles, path, budget - 1);
                    }
                } else {
                    match position_of(path, dep) {
                        None => {},
                        Some(start) => {
                            let c = suffix_from(path, start);
                            let ghost w = ids_of(pushed);
                            let ghost cw = ids_of(c@);
                            proof {
                                assert(cw.len() > 0);
                                assert forall|i: int| 0 <= i < cw.len() - 1 implies #[trigger] m.edge(
                                    cw[i],
                                    cw[i + 1],
                                ) by {
                                    assert(cw[i] == w[start + i] && cw[i + 1] == w[start + i + 1]);
                                }
                                assert(cw.last() == w.last());
                                assert(cw[0] == dep@);
                            }
                            let ghost before = cycles@;
                            cycles.push(c);
                            proof {
                                assert(cycle_ids(cycles@) =~= cycle_ids(before).push(cw));
                                assert(ids_of(path@).contains(dep@));
                                assert forall|k: int| 0 <= k < cycles@.len() implies #[trigger] m.is_closed_walk(
                                    ids_of(cycles@[k]@),
                                ) by {
                                    if k < before.len() {
                                        assert(cycles@[k] == before[k]);
                                    }
                                }
                            }
                        },
                    }
                }
                j = j + 1;
            }
        },
    }
    path.pop();
    assert(path@ =~= pv);
}

/// Runs the depth-first search from every key in entry order that no earlier
/// search has visited, with `max_depth` hops allowed below each root. Every
/// cycle returned is a closed walk of `m`.
pub fn circular_dependencies(m: &DependencyMap, max_depth: usize) -> (r: Vec<Vec<String>>)
    requires
        m.wf(),
    ensures
        all_closed_walks(*m, r@),
        cycle_ids(r@) == discovered_cycles(*m, max_depth as nat),
{
    let mut cycles: Vec<Vec<String>> = Vec::new();
    let mut visited: Vec<String> = Vec::new();
    proof {
        assert(ids_of(visited@) =~= Seq::<Seq<char>>::empty());
        assert(cycle_ids(cycles@) =~= Seq::<Seq<Seq<char>>>::empty());
    }
    let mut i: usize = 0;
    while i < m.entries.len()
        invariant
            m.wf(),
            i <= m.entries@.len(),
            all_closed_walks(*m, cycles@),
            (ids_of(visited@), cycle_ids(cycles@)) == search_roots(*m, max_depth as nat, i as nat),
        decreases m.entries@.len() - i,
    {
        let root = &m.entries[i].path;
        assert(m.keys()[i as int] == root@);
        if !contains_id(&visited, root) {
            let mut path: Vec<String> = Vec::new();
            assert(ids_of(path@) =~= Seq::<Seq<char>>::empty());
            search(m, root, &mut visited, &mut cycles, &mut path, max_depth);
        }
        i = i + 1;
    }
    assert(ids_of(Seq::<String>::empty()) =~= Seq::<Seq<char>>::empty());
    cycles
}

} // verus!
