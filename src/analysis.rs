//! Bounded breadth-first analysis of what an asset transitively needs.

use vstd::prelude::*;
use crate::cycles::cycle_ids;
use crate::graph::{contains_id, dependents_of, ids_of, DependencyMap, ResolveError};

verus! {

/// One row of an analysis: an asset, its direct dependencies and direct
/// dependents, and the depth at which the walk first reached it.
pub struct AssetDependency {
    pub path: String,
    pub dependencies: Vec<String>,
    pub dependents: Vec<String>,
    pub depth: usize,
}

/// What the bounded walk from `asset` found.
pub struct DependencyAnalysis {
    pub asset: String,
    pub dependencies: Vec<AssetDependency>,
    pub total_dependency_count: usize,
    pub max_depth: usize,
    pub circular_dependencies: Vec<Vec<String>>,
}

/// `x` is reached from `root` by a walk of exactly `d` direct-dependency edges.
pub open spec fn reach_in(m: DependencyMap, root: Seq<char>, x: Seq<char>, d: nat) -> bool {
    exists|w: Seq<Seq<char>>| #[trigger] m.is_walk(w) && w.len() == d + 1 && w[0] == root && w.last() == x
}

/// The root is reached by the empty walk.
pub proof fn lemma_reach_root(m: DependencyMap, root: Seq<char>)
    ensures
        reach_in(m, root, root, 0),
{
    let w = seq![root];
    assert(m.is_walk(w));
}

/// One more edge extends a walk by one hop.
pub proof fn lemma_reach_step(m: DependencyMap, root: Seq<char>, x: Seq<char>, y: Seq<char>, d: nat)
    requires
        reach_in(m, root, x, d),
        m.edge(x, y),
    ensures
        reach_in(m, root, y, (d + 1) as nat),
{
    let w = choose|w: Seq<Seq<char>>| #[trigger] m.is_walk(w) && w.len() == d + 1 && w[0] == root && w.last() == x;
    let w2 = w.push(y);
    assert forall|i: int| 0 <= i < w2.len() - 1 implies #[trigger] m.edge(w2[i], w2[i + 1]) by {
        if i < w.len() - 1 {
            assert(w2[i] == w[i] && w2[i + 1] == w[i + 1]);
        }
    }
    assert(m.is_walk(w2));
}

/// A row that states the map's own facts about an asset reached within `limit` hops.
pub open spec fn row_sound(m: DependencyMap, root: Seq<char>, limit: nat, row: AssetDependency) -> bool {
    &&& m.has_key(row.path@)
    &&& ids_of(row.dependencies@) == m.deps_of(row.path@)
    &&& ids_of(row.dependents@) == m.dependents(row.path@)
    &&& row.depth <= limit
    &&& reach_in(m, root, row.path@, row.depth as nat)
}

/// The paths of a sequence of rows.
pub open spec fn row_paths(rows: Seq<AssetDependency>) -> Seq<Seq<char>> {
    rows.map_values(|r: AssetDependency| r.path@)
}

/// A revisit marker names one asset that the walk reached within `limit` hops.
pub open spec fn marker_sound(m: DependencyMap, root: Seq<char>, limit: nat, c: Seq<String>) -> bool {
    c.len() == 1 && exists|d: nat| d <= limit && #[trigger] reach_in(m, root, c[0]@, d)
}

/// Number of keys not yet in `seen`.
pub open spec fn unseen_keys(keys: Seq<Seq<char>>, seen: Seq<Seq<char>>) -> nat
    decreases keys.len(),
{
    if keys.len() == 0 {
        0
    } else {
        unseen_keys(keys.drop_last(), seen) + if seen.contains(keys.last()) {
            0nat
        } else {
            1nat
        }
    }
}

proof fn lemma_unseen_keys_push(keys: Seq<Seq<char>>, seen: Seq<Seq<char>>, x: Seq<char>)
    ensures
        unseen_keys(keys, seen.push(x)) <= unseen_keys(keys, seen),
        keys.contains(x) && !seen.contains(x) ==> unseen_keys(keys, seen.push(x)) < unseen_keys(keys, seen),
    decreases keys.len(),
{
    if keys.len() > 0 {
        lemma_unseen_keys_push(keys.drop_last(), seen, x);
        let l = keys.last();
        if seen.contains(l) {
            let i = choose|i: int| 0 <= i < seen.len() && seen[i] == l;
            assert(seen.push(x)[i] == l);
        }
        if keys.contains(x) && !seen.contains(x) && l != x {
            let i = choose|i: int| 0 <= i < keys.len() && keys[i] == x;
            assert(keys.drop_last()[i] == x);
        }
        if l == x {
            assert(seen.push(x)[seen.len() as int] == x);
        }
    }
}

/// A copy of a list of identifiers.
fn copy_ids(v: &Vec<String>) -> (r: Vec<String>)
    ensures
        ids_of(r@) == ids_of(v@),
{
    let mut r: Vec<String> = Vec::new();
    let mut i: usize = 0;
    while i < v.len()
        invariant
            i <= v@.len(),
            ids_of(r@) == ids_of(v@).take(i as int),
        decreases v@.len() - i,
    {
        let ghost before = ids_of(r@);
        r.push(v[i].clone());
        assert(ids_of(r@) =~= before.push(v@[i as int]@));
        assert(ids_of(v@).take(i + 1) =~= ids_of(v@).take(i as int).push(v@[i as int]@));
        i = i + 1;
    }
    assert(ids_of(v@).take(v@.len() as int) =~= ids_of(v@));
    r
}

/// Some row for `w` has depth at most `bound`.
pub open spec fn has_row_within(rows: Seq<AssetDependency>, w: Seq<char>, bound: int) -> bool {
    exists|i: int| 0 <= i < rows.len() && #[trigger] rows[i].path@ == w && rows[i].depth <= bound
}

/// During the walk, `w` is accounted for within `bound` hops: seen and not a
/// key, or given a row at depth at most `bound`, or still queued at depth at
/// most `bound`.
pub open spec fn covered(
    m: DependencyMap,
    rows: Seq<AssetDependency>,
    seen: Seq<Seq<char>>,
    qids: Seq<String>,
    qdepth: Seq<usize>,
    head: int,
    w: Seq<char>,
    bound: int,
) -> bool {
    ||| (seen.contains(w) && !m.has_key(w))
    ||| has_row_within(rows, w, bound)
    ||| exists|q: int| head <= q < qids.len() && #[trigger] qids[q]@ == w && qdepth[q] <= bound
}

/// Every dependency of one of the first `n` rows, where that row lies above
/// the limit, is accounted for one hop deeper.
pub open spec fn closed_prefix(
    m: DependencyMap,
    limit: usize,
    rows: Seq<AssetDependency>,
    n: int,
    seen: Seq<Seq<char>>,
    qids: Seq<String>,
    qdepth: Seq<usize>,
    head: int,
) -> bool {
    forall|i: int, k: int|
        0 <= i < n && 0 <= k < rows[i].dependencies@.len() && rows[i].depth < limit ==> covered(
            m,
            rows,
            seen,
            qids,
            qdepth,
            head,
            #[trigger] rows[i].dependencies@[k]@,
            rows[i].depth + 1,
        )
}

/// Every dependency of a row above the limit is accounted for one hop deeper.
pub open spec fn closed_below(
    m: DependencyMap,
    limit: usize,
    rows: Seq<AssetDependency>,
    seen: Seq<Seq<char>>,
    qids: Seq<String>,
    qdepth: Seq<usize>,
    head: int,
) -> bool {
    forall|i: int, k: int|
        0 <= i < rows.len() && 0 <= k < rows[i].dependencies@.len() && rows[i].depth < limit ==> covered(
            m,
            rows,
            seen,
            qids,
            qdepth,
            head,
            #[trigger] rows[i].dependencies@[k]@,
            rows[i].depth + 1,
        )
}

proof fn lemma_covered_grow(
    m: DependencyMap,
    rows: Seq<AssetDependency>,
    seen: Seq<Seq<char>>,
    qids: Seq<String>,
    qdepth: Seq<usize>,
    head: int,
    rows2: Seq<AssetDependency>,
    seen2: Seq<Seq<char>>,
    qids2: Seq<String>,
    qdepth2: Seq<usize>,
    head2: int,
    w: Seq<char>,
    bound: int,
)
    requires
        covered(m, rows, seen, qids, qdepth, head, w, bound),
        rows.len() <= rows2.len(),
        forall|i: int| 0 <= i < rows.len() ==> rows2[i] == rows[i],
        seen.len() <= seen2.len(),
        forall|i: int| 0 <= i < seen.len() ==> seen2[i] == seen[i],
        qids.len() <= qids2.len(),
        qids.len() == qdepth.len(),
        qids2.len() == qdepth2.len(),
        forall|i: int| 0 <= i < qids.len() ==> qids2[i] == qids[i] && qdepth2[i] == qdepth[i],
        0 <= head <= head2 <= qids.len(),
        forall|q: int|
            head <= q < head2 ==> seen2.contains(#[trigger] qids[q]@) && (m.has_key(qids[q]@) ==> has_row_within(
                rows2,
                qids[q]@,
                qdepth[q] as int,
            )),
    ensures
        covered(m, rows2, seen2, qids2, qdepth2, head2, w, bound),
{
    if seen.contains(w) && !m.has_key(w) {
        let t = choose|t: int| 0 <= t < seen.len() && seen[t] == w;
        assert(seen2[t] == w);
    } else if has_row_within(rows, w, bound) {
        let i = choose|i: int| 0 <= i < rows.len() && #[trigger] rows[i].path@ == w && rows[i].depth <= bound;
        assert(rows2[i].path@ == w);
    } else {
        let q = choose|q: int| head <= q < qids.len() && #[trigger] qids[q]@ == w && qdepth[q] <= bound;
        if q >= head2 {
            assert(qids2[q] == qids[q] && qdepth2[q] == qdepth[q]);
            assert(qids2[q]@ == w);
        } else {
            assert(seen2.contains(qids[q]@));
            if m.has_key(w) {
                let i = choose|i: int| 0 <= i < rows2.len() && #[trigger] rows2[i].path@ == w && rows2[i].depth <= qdepth[q] as int;
                assert(rows2[i].path@ == w);
            }
        }
    }
}

/// Once the walk has ended closed below the limit, every key reached within
/// `limit` hops has a row at no greater depth than the walk's length.
proof fn lemma_walk_has_rows(
    m: DependencyMap,
    root: Seq<char>,
    limit: usize,
    rows: Seq<AssetDependency>,
    seen: Seq<Seq<char>>,
    qids: Seq<String>,
    qdepth: Seq<usize>,
    w: Seq<Seq<char>>,
    i: int,
)
    requires
        closed_below(m, limit, rows, seen, qids, qdepth, qids.len() as int),
        forall|r: int| 0 <= r < rows.len() ==> row_sound(m, root, limit as nat, #[trigger] rows[r]),
        rows.len() > 0,
        rows[0].path@ == root,
        rows[0].depth == 0,
        m.is_walk(w),
        w.len() <= limit + 1,
        w[0] == root,
        m.has_key(w.last()),
        0 <= i < w.len(),
    ensures
        has_row_within(rows, w[i], i),
    decreases i,
{
    if i == 0 {
        assert(rows[0].path@ == w[0]);
    } else {
        lemma_walk_has_rows(m, root, limit, rows, seen, qids, qdepth, w, i - 1);
        let h = i - 1;
        assert(m.edge(w[h], w[h + 1]));
        let r = choose|r: int| 0 <= r < rows.len() && #[trigger] rows[r].path@ == w[h] && rows[r].depth <= h;
        assert(row_sound(m, root, limit as nat, rows[r]));
        let k = choose|k: int| 0 <= k < m.deps_of(w[h]).len() && m.deps_of(w[h])[k] == w[i];
        assert(ids_of(rows[r].dependencies@)[k] == w[i]);
        assert(rows[r].dependencies@[k]@ == w[i]);
        if i < w.len() - 1 {
            assert(m.edge(w[i], w[i + 1]));
        }
        assert(m.has_key(w[i]));
        assert(covered(m, rows, seen, qids, qdepth, qids.len() as int, rows[r].dependencies@[k]@, rows[r].depth + 1));
    }
}

/// Every key reached from `root` within `limit` hops has a row, at a depth no
/// greater than the number of hops.
pub open spec fn analysis_complete(m: DependencyMap, root: Seq<char>, limit: usize, a: DependencyAnalysis) -> bool {
    forall|x: Seq<char>, d: nat|
        m.has_key(x) && d <= limit && #[trigger] reach_in(m, root, x, d) ==> has_row_within(a.dependencies@, x, d as int)
}

/// The facts that every analysis of `m` from `root` within `limit` hops states.
pub open spec fn analysis_sound(m: DependencyMap, root: Seq<char>, limit: usize, a: DependencyAnalysis) -> bool {
    &&& a.asset@ == root
    &&& a.max_depth == limit
    &&& a.total_dependency_count == a.dependencies@.len()
    &&& a.dependencies@.len() > 0
    &&& a.dependencies@[0].path@ == root
    &&& a.dependencies@[0].depth == 0
    &&& row_paths(a.dependencies@).no_duplicates()
    &&& forall|i: int, j: int| 0 <= i <= j < a.dependencies@.len() ==> a.dependencies@[i].depth <= a.dependencies@[j].depth
    &&& forall|i: int| 0 <= i < a.dependencies@.len() ==> row_sound(m, root, limit as nat, #[trigger] a.dependencies@[i])
    &&& forall|k: int|
        0 <= k < a.circular_dependencies@.len() ==> marker_sound(m, root, limit as nat, #[trigger] a.circular_dependencies@[k]@)
}

/// The state of the breadth-first walk: the queue of (asset, depth) items
/// with the position of the next one to dequeue, the assets seen in order,
/// the rows as (asset, depth), and the revisit markers.
pub struct WalkState {
    pub queue: Seq<(Seq<char>, nat)>,
    pub head: nat,
    pub seen: Seq<Seq<char>>,
    pub rows: Seq<(Seq<char>, nat)>,
    pub markers: Seq<Seq<Seq<char>>>,
}

/// The walk before its first step: only `root`, at depth 0, is queued.
pub open spec fn walk_start(root: Seq<char>) -> WalkState {
    WalkState { queue: seq![(root, 0nat)], head: 0, seen: Seq::empty(), rows: Seq::empty(), markers: Seq::empty() }
}

/// The queue is exhausted.
pub open spec fn walk_done(s: WalkState) -> bool {
    s.head >= s.queue.len()
}

/// One dequeue. An item deeper than `limit` is dropped. An asset already seen
/// adds the marker `[asset]`. An unseen asset is marked seen; if it is a key
/// it adds its row and, below `limit`, enqueues every one of its
/// dependencies, in list order, one level deeper.
pub open spec fn walk_step(m: DependencyMap, limit: nat, s: WalkState) -> WalkState {
    if walk_done(s) {
        s
    } else {
        let x = s.queue[s.head as int].0;
        let d = s.queue[s.head as int].1;
        let head = s.head + 1;
        if d > limit {
            WalkState { queue: s.queue, head: head, seen: s.seen, rows: s.rows, markers: s.markers }
        } else if s.seen.contains(x) {
            WalkState { queue: s.queue, head: head, seen: s.seen, rows: s.rows, markers: s.markers.push(seq![x]) }
        } else if !m.has_key(x) {
            WalkState { queue: s.queue, head: head, seen: s.seen.push(x), rows: s.rows, markers: s.markers }
        } else {
            let queue = if d < limit {
                s.queue + m.deps_of(x).map_values(|y: Seq<char>| (y, (d + 1) as nat))
            } else {
                s.queue
            };
            WalkState { queue: queue, head: head, seen: s.seen.push(x), rows: s.rows.push((x, d)), markers: s.markers }
        }
    }
}

/// The walk from `root` after `n` steps.
pub open spec fn walk_after(m: DependencyMap, root: Seq<char>, limit: nat, n: nat) -> WalkState
    decreases n,
{
    if n == 0 {
        walk_start(root)
    } else {
        walk_step(m, limit, walk_after(m, root, limit, (n - 1) as nat))
    }
}

/// Once the queue is exhausted the walk stays as it is, so every number of
/// steps that exhausts it gives the same state.
pub proof fn lemma_walk_end_unique(m: DependencyMap, root: Seq<char>, limit: nat, n1: nat, n2: nat)
    requires
        walk_done(walk_after(m, root, limit, n1)),
        walk_done(walk_after(m, root, limit, n2)),
    ensures
        walk_after(m, root, limit, n1) == walk_after(m, root, limit, n2),
{
    if n1 <= n2 {
        lemma_walk_stays(m, root, limit, n1, n2);
    } else {
        lemma_walk_stays(m, root, limit, n2, n1);
    }
}

proof fn lemma_walk_stays(m: DependencyMap, root: Seq<char>, limit: nat, n1: nat, n: nat)
    requires
        walk_done(walk_after(m, root, limit, n1)),
        n1 <= n,
    ensures
        walk_after(m, root, limit, n) == walk_after(m, root, limit, n1),
    decreases n - n1,
{
    if n > n1 {
        lemma_walk_stays(m, root, limit, n1, (n - 1) as nat);
    }
}

/// The rows of an analysis as (asset, depth).
pub open spec fn row_entries(rows: Seq<AssetDependency>) -> Seq<(Seq<char>, nat)> {
    rows.map_values(|r: AssetDependency| (r.path@, r.depth as nat))
}

/// The analysis holds exactly the rows, in order, and the markers, in order,
/// of the walk from `root` run until its queue is exhausted.
pub open spec fn analysis_exact(m: DependencyMap, root: Seq<char>, limit: usize, a: DependencyAnalysis) -> bool {
    exists|n: nat|
        walk_done(#[trigger] walk_after(m, root, limit as nat, n)) && row_entries(a.dependencies@) == walk_after(
            m,
            root,
            limit as nat,
            n,
        ).rows && cycle_ids(a.circular_dependencies@) == walk_after(m, root, limit as nat, n).markers
}

/// The queued items as (asset, depth).
pub open spec fn queue_view(qids: Seq<String>, qdepth: Seq<usize>) -> Seq<(Seq<char>, nat)> {
    Seq::new(qids.len(), |i: int| (qids[i]@, qdepth[i] as nat))
}

/// The walk state that the executable queue, seen list, rows and markers stand for.
pub open spec fn walk_view(
    qids: Seq<String>,
    qdepth: Seq<usize>,
    head: int,
    seen: Seq<String>,
    rows: Seq<AssetDependency>,
    flagged: Seq<Vec<String>>,
) -> WalkState {
    WalkState {
        queue: queue_view(qids, qdepth),
        head: head as nat,
        seen: ids_of(seen),
        rows: row_entries(rows),
        markers: cycle_ids(flagged),
    }
}

/// Breadth-first walk from `root` with a FIFO queue and one set of seen
/// assets, as `walk_step` describes. A first dequeue of a key adds its row,
/// with the depth at which it was dequeued, and, below `limit`, enqueues all
/// of its dependencies one level deeper. Every later dequeue of a seen asset
/// adds the one-element revisit marker `[asset]`, whatever the edge that led
/// there: a shared dependency, a cross edge or a cycle. Fails with `NotFound`
/// exactly when `root` is not a key. The rows are those of the keys reached
/// within `limit` hops, each once, at its least number of hops, in order of
/// depth.
pub fn analyze(m: &DependencyMap, root: &String, limit: usize) -> (r: Result<DependencyAnalysis, ResolveError>)
    requires
        m.wf(),
    ensures
        r.is_err() <==> !m.has_key(root@),
        r matches Err(e) ==> e == ResolveError::NotFound,
        r matches Ok(a) ==> analysis_exact(*m, root@, limit, a) && analysis_sound(*m, root@, limit, a)
            && analysis_complete(*m, root@, limit, a),
{
    if m.find(root).is_none() {
        return Err(ResolveError::NotFound);
    }
    let mut qids: Vec<String> = Vec::new();
    let mut qdepth: Vec<usize> = Vec::new();
    qids.push(root.clone());
    qdepth.push(0);
    proof {
        lemma_reach_root(*m, root@);
    }
    let mut seen: Vec<String> = Vec::new();
    let mut rows: Vec<AssetDependency> = Vec::new();
    let mut flagged: Vec<Vec<String>> = Vec::new();
    let mut head: usize = 0;
    let ghost mut steps: nat = 0;
    proof {
        let v = walk_view(qids@, qdepth@, head as int, seen@, rows@, flagged@);
        assert(v.queue =~= walk_start(root@).queue);
        assert(v.seen =~= walk_start(root@).seen);
        assert(v.rows =~= walk_start(root@).rows);
        assert(v.markers =~= walk_start(root@).markers);
    }
    while head < qids.len()
        invariant
            walk_view(qids@, qdepth@, head as int, seen@, rows@, flagged@) == walk_after(*m, root@, limit as nat, steps),
            m.wf(),
            m.has_key(root@),
            qids@.len() == qdepth@.len(),
            qids@.len() >= 1,
            head <= qids@.len(),
            forall|q: int| 0 <= q < qids@.len() ==> #[trigger] qdepth@[q] <= limit && reach_in(*m, root@, qids@[q]@, qdepth@[q] as nat),
            head == 0 ==> seen@.len() == 0 && rows@.len() == 0 && qids@.len() == 1 && qids@[0]@ == root@ && qdepth@[0] == 0,
            head > 0 ==> rows@.len() > 0 && rows@[0].path@ == root@ && rows@[0].depth == 0,
            forall|i: int| 0 <= i < rows@.len() ==> row_sound(*m, root@, limit as nat, #[trigger] rows@[i]),
            forall|i: int| 0 <= i < rows@.len() ==> ids_of(seen@).contains(#[trigger] rows@[i].path@),
            row_paths(rows@).no_duplicates(),
            forall|k: int| 0 <= k < flagged@.len() ==> marker_sound(*m, root@, limit as nat, #[trigger] flagged@[k]@),
            forall|a: int, b: int| 0 <= a <= b < qdepth@.len() ==> qdepth@[a] <= qdepth@[b],
            head > 0 ==> forall|q: int| head <= q < qdepth@.len() ==> #[trigger] qdepth@[q] <= qdepth@[head - 1] + 1,
            forall|i: int, q: int| 0 <= i < rows@.len() && head <= q < qdepth@.len() ==> #[trigger] rows@[i].depth <= #[trigger] qdepth@[q],
            head > 0 ==> forall|i: int| 0 <= i < rows@.len() ==> #[trigger] rows@[i].depth <= qdepth@[head - 1],
            forall|a: int, b: int| 0 <= a <= b < rows@.len() ==> rows@[a].depth <= rows@[b].depth,
            forall|t: int| 0 <= t < seen@.len() && m.has_key(#[trigger] seen@[t]@) ==> has_row_within(rows@, seen@[t]@, limit as int),
            closed_below(*m, limit, rows@, ids_of(seen@), qids@, qdepth@, head as int),
        decreases unseen_keys(m.keys(), ids_of(seen@)), qids@.len() - head,
    {
        let cur = qids[head].clone();
        let d = qdepth[head];
        let ghost h = head as int;
        let ghost q0 = qids@;
        let ghost qd0 = qdepth@;
        let ghost rows0 = rows@;
        let ghost seen0 = ids_of(seen@);
        let ghost v0 = walk_view(qids@, qdepth@, head as int, seen@, rows@, flagged@);
        let ghost fl0 = flagged@;
        proof {
            assert(v0.queue[h] == (cur@, d as nat));
            assert(!walk_done(v0));
            assert(walk_after(*m, root@, limit as nat, steps + 1) == walk_step(*m, limit as nat, v0));
            assert(d <= limit && reach_in(*m, root@, cur@, d as nat));
            assert forall|i: int| 0 <= i < rows0.len() implies #[trigger] rows0[i].depth <= d by {
                assert(rows0[i].depth <= qd0[h]);
            }
        }
        head = head + 1;
        if d > limit {
            continue;
        }
        if contains_id(&seen, &cur) {
            let ghost cv = cur@;
            let mut marker: Vec<String> = Vec::new();
            marker.push(cur);
            let ghost before = flagged@;
            flagged.push(marker);
            proof {
                assert(marker@[0]@ == cv);
                assert(reach_in(*m, root@, marker@[0]@, d as nat));
                assert(marker_sound(*m, root@, limit as nat, marker@));
                assert forall|k: int| 0 <= k < flagged@.len() implies marker_sound(*m, root@, limit as nat, #[trigger] flagged@[k]@) by {
                    if k < before.len() {
                        assert(flagged@[k] == before[k]);
                    }
                }
                let t = choose|t: int| 0 <= t < seen0.len() && seen0[t] == cv;
                assert(seen@[t]@ == cv);
                if m.has_key(cv) {
                    assert(has_row_within(rows0, cv, limit as int));
                    let i = choose|i: int| 0 <= i < rows0.len() && #[trigger] rows0[i].path@ == cv && rows0[i].depth <= limit;
                    assert(rows0[i].depth <= d);
                    assert(has_row_within(rows0, cv, d as int));
                }
                assert forall|i: int, k: int|
                    0 <= i < rows@.len() && 0 <= k < rows@[i].dependencies@.len() && rows@[i].depth < limit implies covered(
                    *m,
                    rows@,
                    ids_of(seen@),
                    qids@,
                    qdepth@,
                    head as int,
                    #[trigger] rows@[i].dependencies@[k]@,
                    rows@[i].depth + 1,
                ) by {
                    lemma_covered_grow(*m, rows0, seen0, q0, qd0, h, rows@, ids_of(seen@), qids@, qdepth@, head as int,
                        rows@[i].dependencies@[k]@, rows@[i].depth + 1);
                }
                assert(ids_of(flagged@[fl0.len() as int]@) =~= seq![cv]);
                assert(cycle_ids(flagged@) =~= cycle_ids(fl0).push(seq![cv]));
                let v = walk_view(qids@, qdepth@, head as int, seen@, rows@, flagged@);
                assert(v == walk_step(*m, limit as nat, v0));
                steps = steps + 1;
            }
            continue;
        }
        seen.push(cur.clone());
        proof {
            assert(ids_of(seen@) =~= seen0.push(cur@));
            lemma_unseen_keys_push(m.keys(), seen0, cur@);
            assert forall|i: int| 0 <= i < rows@.len() implies ids_of(seen@).contains(#[trigger] rows@[i].path@) by {
                let t = choose|t: int| 0 <= t < seen0.len() && seen0[t] == rows@[i].path@;
                assert(ids_of(seen@)[t] == rows@[i].path@);
            }
            assert(ids_of(seen@)[seen0.len() as int] == cur@);
        }
        match m.find(&cur) {
            None => {
                proof {
                    assert forall|t: int| 0 <= t < seen@.len() && m.has_key(#[trigger] seen@[t]@) implies has_row_within(
                        rows@,
                        seen@[t]@,
                        limit as int,
                    ) by {
                        if t < seen0.len() {
                            assert(seen@[t]@ == seen0[t]);
                        }
                    }
                    assert forall|i: int, k: int|
                        0 <= i < rows@.len() && 0 <= k < rows@[i].dependencies@.len() && rows@[i].depth < limit implies covered(
                        *m,
                        rows@,
                        ids_of(seen@),
                        qids@,
                        qdepth@,
                        head as int,
                        #[trigger] rows@[i].dependencies@[k]@,
                        rows@[i].depth + 1,
                    ) by {
                        lemma_covered_grow(*m, rows0, seen0, q0, qd0, h, rows@, ids_of(seen@), qids@, qdepth@, head as int,
                            rows@[i].dependencies@[k]@, rows@[i].depth + 1);
                    }
                }
            },
            Some(e) => {
                let deps = &m.entries[e].dependencies;
                let row = AssetDependency {
                    path: cur.clone(),
                    dependencies: copy_ids(deps),
                    dependents: dependents_of(m, &cur),
                    depth: d,
                };
                rows.push(row);
                proof {
                    assert(row_paths(rows@) =~= row_paths(rows0).push(cur@));
                    assert(rows@[rows0.len() as int].path@ == cur@);
                    assert(has_row_within(rows@, cur@, d as int));
                    assert forall|i: int| 0 <= i < rows@.len() implies row_sound(*m, root@, limit as nat, #[trigger] rows@[i]) by {
                        if i < rows0.len() {
                            assert(rows@[i] == rows0[i]);
                        }
                    }
                    assert forall|i: int| 0 <= i < rows@.len() implies ids_of(seen@).contains(#[trigger] rows@[i].path@) by {
                        if i < rows0.len() {
                            assert(rows@[i] == rows0[i]);
                        }
                    }
                    assert forall|a: int, b: int| 0 <= a < b < row_paths(rows@).len() implies row_paths(rows@)[a]
                        != row_paths(rows@)[b] by {
                        if b == rows0.len() {
                            assert(rows@[a] == rows0[a]);
                            assert(seen0.contains(rows0[a].path@));
                        } else {
                            assert(row_paths(rows0)[a] != row_paths(rows0)[b]);
                        }
                    }
                    assert forall|a: int, b: int| 0 <= a <= b < rows@.len() implies rows@[a].depth <= rows@[b].depth by {
                        if b < rows0.len() {
                            assert(rows@[a] == rows0[a] && rows@[b] == rows0[b]);
                        } else if a < rows0.len() {
                            assert(rows@[a] == rows0[a]);
                        }
                    }
                    assert forall|t: int| 0 <= t < seen@.len() && m.has_key(#[trigger] seen@[t]@) implies has_row_within(
                        rows@,
                        seen@[t]@,
                        limit as int,
                    ) by {
                        if t < seen0.len() {
                            assert(seen@[t]@ == seen0[t]);
                            let i = choose|i: int| 0 <= i < rows0.len() && #[trigger] rows0[i].path@ == seen0[t] && rows0[i].depth <= limit;
                            assert(rows@[i] == rows0[i]);
                        }
                    }
                    assert forall|i: int, k: int|
                        0 <= i < rows0.len() && 0 <= k < rows@[i].dependencies@.len() && rows@[i].depth < limit implies covered(
                        *m,
                        rows@,
                        ids_of(seen@),
                        qids@,
                        qdepth@,
                        head as int,
                        #[trigger] rows@[i].dependencies@[k]@,
                        rows@[i].depth + 1,
                    ) by {
                        assert(rows@[i] == rows0[i]);
                        lemma_covered_grow(*m, rows0, seen0, q0, qd0, h, rows@, ids_of(seen@), qids@, qdepth@, head as int,
                            rows@[i].dependencies@[k]@, rows@[i].depth + 1);
                    }
                    assert(ids_of(rows@[rows0.len() as int].dependencies@) == m.deps_of(cur@));
                }
                let ghost rows1 = rows@;
                let ghost q1 = qids@;
                let ghost qd1 = qdepth@;
                proof {
                    assert(queue_view(qids@, qdepth@) =~= v0.queue);
                    assert(row_entries(rows@) =~= row_entries(rows0).push((cur@, d as nat)));
                    assert(m.deps_of(cur@) == ids_of(deps@));
                }
                if d < limit {
                    let mut k: usize = 0;
                    assert(v0.queue + ids_of(deps@).take(0).map_values(|y: Seq<char>| (y, (d + 1) as nat)) =~= v0.queue);
                    while k < deps.len()
                        invariant
                            m.wf(),
                            e < m.entries@.len(),
                            m.keys().index_of(cur@) == e,
                            m.keys()[e as int] == cur@,
                            deps == &m.entries@[e as int].dependencies,
                            k <= deps@.len(),
                            d < limit,
                            h + 1 == head,
                            0 <= h,
                            qd0[h] == d,
                            reach_in(*m, root@, cur@, d as nat),
                            rows@ == rows1,
                            rows1.len() == rows0.len() + 1,
                            rows1[rows0.len() as int].depth == d,
                            ids_of(rows1[rows0.len() as int].dependencies@) == ids_of(deps@),
                            forall|i: int| 0 <= i < rows1.len() ==> #[trigger] rows1[i].depth <= d,
                            forall|t: int| 0 <= t < seen@.len() && m.has_key(#[trigger] seen@[t]@) ==> has_row_within(rows1, seen@[t]@, limit as int),
                            qids@.len() == qdepth@.len(),
                            q1.len() <= qids@.len(),
                            forall|i: int| 0 <= i < q1.len() ==> qids@[i] == q1[i] && qdepth@[i] == qd1[i],
                            head <= qids@.len(),
                            forall|q: int| 0 <= q < qids@.len() ==> #[trigger] qdepth@[q] <= limit && reach_in(*m, root@, qids@[q]@, qdepth@[q] as nat),
                            forall|a: int, b: int| 0 <= a <= b < qdepth@.len() ==> qdepth@[a] <= qdepth@[b],
                            forall|q: int| head <= q < qdepth@.len() ==> #[trigger] qdepth@[q] <= d + 1,
                            forall|q: int| head <= q < qdepth@.len() ==> d <= #[trigger] qdepth@[q],
                            closed_prefix(*m, limit, rows1, rows0.len() as int, ids_of(seen@), q1, qd1, head as int),
                            h < q1.len(),
                            qdepth@[h] == d,
                            forall|k2: int| 0 <= k2 < k ==> covered(*m, rows1, ids_of(seen@), qids@, qdepth@, head as int, #[trigger] deps@[k2]@, d + 1),
                            queue_view(qids@, qdepth@) == v0.queue + ids_of(deps@).take(k as int).map_values(
                                |y: Seq<char>| (y, (d + 1) as nat),
                            ),
                        decreases deps@.len() - k,
                    {
                        let ghost qb = qids@;
                        let ghost qdb = qdepth@;
                        let ghost dep = deps@[k as int]@;
                        proof {
                            assert(m.has_key(cur@));
                            assert(m.deps_of(cur@)[k as int] == dep);
                            assert(m.edge(cur@, dep));
                            lemma_reach_step(*m, root@, cur@, dep, d as nat);
                        }
                        qids.push(deps[k].clone());
                        qdepth.push(d + 1);
                        proof {
                            assert forall|q: int| 0 <= q < qids@.len() implies #[trigger] qdepth@[q] <= limit && reach_in(
                                *m,
                                root@,
                                qids@[q]@,
                                qdepth@[q] as nat,
                            ) by {
                                if q < qb.len() {
                                    assert(qids@[q] == qb[q] && qdepth@[q] == qdb[q]);
                                }
                            }
                            assert forall|a: int, b: int| 0 <= a <= b < qdepth@.len() implies qdepth@[a] <= qdepth@[b] by {
                                if b < qdb.len() {
                                    assert(qdepth@[a] == qdb[a] && qdepth@[b] == qdb[b]);
                                } else if a < qdb.len() {
                                    assert(qdepth@[a] == qdb[a]);
                                    if a < h {
                                        assert(qdb[a] <= qdb[h]);
                                    } else if a == h {
                                        assert(qdb[h] == d);
                                    } else {
                                        assert(qdb[a] <= d + 1);
                                    }
                                }
                            }
                            assert(qids@[qb.len() as int]@ == dep);
                            assert(qdepth@[h] == qdb[h]);
                            assert(queue_view(qids@, qdepth@) =~= queue_view(qb, qdb).push((dep, (d + 1) as nat)));
                            assert(ids_of(deps@).take(k + 1) =~= ids_of(deps@).take(k as int).push(dep));
                            assert(v0.queue + ids_of(deps@).take(k + 1).map_values(|y: Seq<char>| (y, (d + 1) as nat))
                                =~= (v0.queue + ids_of(deps@).take(k as int).map_values(|y: Seq<char>| (y, (d + 1) as nat))).push(
                                (dep, (d + 1) as nat),
                            ));
                        }
                        proof {
                            assert forall|k2: int| 0 <= k2 < k + 1 implies covered(*m, rows1, ids_of(seen@), qids@, qdepth@, head as int,
                                #[trigger] deps@[k2]@, d + 1) by {
                                if k2 < k {
                                    lemma_covered_grow(*m, rows1, ids_of(seen@), qb, qdb, head as int, rows1, ids_of(seen@), qids@,
                                        qdepth@, head as int, deps@[k2]@, d + 1);
                                } else if qids@.len() > qb.len() {
                                    assert(qids@[qb.len() as int]@ == dep);
                                    assert(qdepth@[qb.len() as int] == d + 1);
                                }
                            }
                        }
                        k = k + 1;
                    }
                    assert(ids_of(deps@).take(deps@.len() as int) =~= ids_of(deps@));
                    proof {
                        assert forall|i: int, k2: int|
                            0 <= i < rows@.len() && 0 <= k2 < rows@[i].dependencies@.len() && rows@[i].depth < limit implies covered(
                            *m,
                            rows@,
                            ids_of(seen@),
                            qids@,
                            qdepth@,
                            head as int,
                            #[trigger] rows@[i].dependencies@[k2]@,
                            rows@[i].depth + 1,
                        ) by {
                            if i < rows0.len() {
                                lemma_covered_grow(*m, rows1, ids_of(seen@), q1, qd1, head as int, rows@, ids_of(seen@), qids@,
                                    qdepth@, head as int, rows@[i].dependencies@[k2]@, rows@[i].depth + 1);
                            } else {
                                assert(i == rows0.len());
                                assert(rows@[i] == rows1[i]);
                                assert(ids_of(rows@[i].dependencies@)[k2] == rows@[i].dependencies@[k2]@);
                                assert(ids_of(deps@).len() == deps@.len());
                                assert(ids_of(deps@)[k2] == deps@[k2]@);
                                assert(covered(*m, rows1, ids_of(seen@), qids@, qdepth@, head as int, deps@[k2]@, d + 1));
                            }
                        }
                    }
                } else {
                    proof {
                        assert forall|i: int, k2: int|
                            0 <= i < rows@.len() && 0 <= k2 < rows@[i].dependencies@.len() && rows@[i].depth < limit implies covered(
                            *m,
                            rows@,
                            ids_of(seen@),
                            qids@,
                            qdepth@,
                            head as int,
                            #[trigger] rows@[i].dependencies@[k2]@,
                            rows@[i].depth + 1,
                        ) by {
                            if i < rows0.len() {
                                assert(rows@[i] == rows0[i]);
                            }
                        }
                    }
                }
            },
        }
        proof {
            let v = walk_view(qids@, qdepth@, head as int, seen@, rows@, flagged@);
            assert(v.seen == v0.seen.push(cur@));
            if m.has_key(cur@) {
                assert(v.rows == v0.rows.push((cur@, d as nat)));
            } else {
                assert(v.rows == v0.rows);
                assert(v.queue == v0.queue);
            }
            assert(v == walk_step(*m, limit as nat, v0));
            steps = steps + 1;
            assert forall|i: int, q: int| 0 <= i < rows@.len() && head <= q < qdepth@.len() implies #[trigger] rows@[i].depth
                <= #[trigger] qdepth@[q] by {
                assert(qdepth@[h] <= qdepth@[q]);
                if i < rows0.len() {
                    assert(rows@[i] == rows0[i]);
                }
            }
        }
    }
    proof {
        assert forall|x: Seq<char>, dd: nat|
            m.has_key(x) && dd <= limit && #[trigger] reach_in(*m, root@, x, dd) implies has_row_within(rows@, x, dd as int) by {
            let w = choose|w: Seq<Seq<char>>| #[trigger] m.is_walk(w) && w.len() == dd + 1 && w[0] == root@ && w.last() == x;
            lemma_walk_has_rows(*m, root@, limit, rows@, ids_of(seen@), qids@, qdepth@, w, dd as int);
        }
    }
    proof {
        assert(walk_done(walk_after(*m, root@, limit as nat, steps)));
    }
    let total = rows.len();
    Ok(DependencyAnalysis {
        asset: root.clone(),
        dependencies: rows,
        total_dependency_count: total,
        max_depth: limit,
        circular_dependencies: flagged,
    })
}

} // verus!
