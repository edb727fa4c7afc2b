//! Topological ordering by Kahn's algorithm over an in-degree table.

use vstd::prelude::*;
use vstd::set_lib::{lemma_int_range, lemma_len_subset, set_int_range};
use crate::graph::{contains_id, ids_of, position_of, DependencyMap, ResolveError};

verus! {

/// How many times `x` occurs in `s`.
pub open spec fn count_of(s: Seq<usize>, x: usize) -> nat
    decreases s.len(),
{
    if s.len() == 0 {
        0
    } else {
        count_of(s.drop_last(), x) + if s.last() == x {
            1nat
        } else {
            0nat
        }
    }
}

/// How many positions of `s` name an index not yet marked in `done`.
pub open spec fn pending(s: Seq<usize>, done: Seq<bool>) -> nat
    decreases s.len(),
{
    if s.len() == 0 {
        0
    } else {
        pending(s.drop_last(), done) + if done[s.last() as int] {
            0nat
        } else {
            1nat
        }
    }
}

/// All elements of `s` are below `n`.
pub open spec fn below(s: Seq<usize>, n: int) -> bool {
    forall|k: int| 0 <= k < s.len() ==> #[trigger] s[k] < n
}

proof fn lemma_count_push(s: Seq<usize>, y: usize, x: usize)
    ensures
        count_of(s.push(y), x) == count_of(s, x) + if y == x { 1nat } else { 0nat },
{
    assert(s.push(y).drop_last() =~= s);
}

proof fn lemma_count_contains(s: Seq<usize>, x: usize)
    ensures
        count_of(s, x) > 0 <==> s.contains(x),
    decreases s.len(),
{
    if s.len() > 0 {
        lemma_count_contains(s.drop_last(), x);
        if s.drop_last().contains(x) {
            let k = choose|k: int| 0 <= k < s.drop_last().len() && s.drop_last()[k] == x;
            assert(s[k] == x);
        }
        if s.contains(x) && s.last() != x {
            let k = choose|k: int| 0 <= k < s.len() && s[k] == x;
            assert(s.drop_last()[k] == x);
        }
    }
}

proof fn lemma_pending_mark(s: Seq<usize>, done: Seq<bool>, u: usize)
    requires
        below(s, done.len() as int),
        u < done.len(),
        !done[u as int],
    ensures
        pending(s, done) == pending(s, done.update(u as int, true)) + count_of(s, u),
    decreases s.len(),
{
    if s.len() > 0 {
        assert(below(s.drop_last(), done.len() as int)) by {
            assert forall|k: int| 0 <= k < s.drop_last().len() implies #[trigger] s.drop_last()[k] < done.len() by {
                assert(s[k] < done.len());
            }
        }
        assert(s[s.len() - 1] < done.len());
        lemma_pending_mark(s.drop_last(), done, u);
    }
}

proof fn lemma_pending_zero(s: Seq<usize>, done: Seq<bool>)
    requires
        below(s, done.len() as int),
    ensures
        pending(s, done) == 0 <==> forall|k: int| 0 <= k < s.len() ==> #[trigger] done[s[k] as int],
    decreases s.len(),
{
    if s.len() > 0 {
        assert(below(s.drop_last(), done.len() as int)) by {
            assert forall|k: int| 0 <= k < s.drop_last().len() implies #[trigger] s.drop_last()[k] < done.len() by {
                assert(s[k] < done.len());
            }
        }
        lemma_pending_zero(s.drop_last(), done);
        if pending(s, done) == 0 {
            assert forall|k: int| 0 <= k < s.len() implies #[trigger] done[s[k] as int] by {
                if k < s.len() - 1 {
                    assert(s.drop_last()[k] == s[k]);
                }
            }
        }
        if forall|k: int| 0 <= k < s.len() ==> #[trigger] done[s[k] as int] {
            assert forall|k: int| 0 <= k < s.drop_last().len() implies #[trigger] done[s.drop_last()[k] as int] by {
                assert(s.drop_last()[k] == s[k]);
                assert(done[s[k] as int]);
            }
            assert(done[s[s.len() - 1] as int]);
        }
    }
}

/// Every identifier that occurs in `m`, each once: the keys first, in entry
/// order, then the other dependency values in order of first occurrence.
fn collect_ids(m: &DependencyMap) -> (ids: Vec<String>)
    requires
        m.wf(),
    ensures
        ids_of(ids@).no_duplicates(),
        forall|a: Seq<char>| ids_of(ids@).contains(a) <==> m.appears(a),
        ids@.len() >= m.entries@.len(),
        forall|j: int| 0 <= j < m.entries@.len() ==> #[trigger] ids@[j]@ == m.keys()[j],
{
    let mut ids: Vec<String> = Vec::new();
    let mut i: usize = 0;
    while i < m.entries.len()
        invariant
            m.wf(),
            i <= m.entries@.len(),
            ids_of(ids@) == m.keys().take(i as int),
        decreases m.entries@.len() - i,
    {
        let ghost before = ids_of(ids@);
        ids.push(m.entries[i].path.clone());
        assert(ids_of(ids@) =~= before.push(m.keys()[i as int]));
        assert(m.keys().take(i + 1) =~= m.keys().take(i as int).push(m.keys()[i as int]));
        i = i + 1;
    }
    assert(m.keys().take(i as int) =~= m.keys());
    let ghost nk = ids@.len();
    let mut i: usize = 0;
    while i < m.entries.len()
        invariant
            m.wf(),
            i <= m.entries@.len(),
            nk == m.entries@.len(),
            ids@.len() >= nk,
            ids_of(ids@).take(nk as int) == m.keys(),
            ids_of(ids@).no_duplicates(),
            forall|a: Seq<char>| ids_of(ids@).contains(a) ==> m.appears(a),
            forall|i2: int, k: int|
                0 <= i2 < i && 0 <= k < m.entries@[i2].deps().len() ==> ids_of(ids@).contains(
                    #[trigger] m.entries@[i2].deps()[k],
                ),
        decreases m.entries@.len() - i,
    {
        let deps = &m.entries[i].dependencies;
        let mut k: usize = 0;
        while k < deps.len()
            invariant
                m.wf(),
                i < m.entries@.len(),
                deps == &m.entries@[i as int].dependencies,
                k <= deps@.len(),
                nk == m.entries@.len(),
                ids@.len() >= nk,
                ids_of(ids@).take(nk as int) == m.keys(),
                ids_of(ids@).no_duplicates(),
                forall|a: Seq<char>| ids_of(ids@).contains(a) ==> m.appears(a),
                forall|i2: int, k2: int|
                    0 <= i2 < i && 0 <= k2 < m.entries@[i2].deps().len() ==> ids_of(ids@).contains(
                        #[trigger] m.entries@[i2].deps()[k2],
                    ),
                forall|k2: int| 0 <= k2 < k ==> ids_of(ids@).contains(#[trigger] m.entries@[i as int].deps()[k2]),
            decreases deps@.len() - k,
        {
            let ghost before = ids_of(ids@);
            let ghost d = deps@[k as int]@;
            assert(m.entries@[i as int].deps()[k as int] == d);
            assert(m.entries@[i as int].deps().contains(d));
            if !contains_id(&ids, &deps[k]) {
                ids.push(deps[k].clone());
                proof {
                    assert(ids_of(ids@) =~= before.push(d));
                    assert(ids_of(ids@).take(nk as int) =~= before.take(nk as int));
                    assert forall|a: Seq<char>| ids_of(ids@).contains(a) implies before.contains(a) || a == d by {
                        let t = choose|t: int| 0 <= t < ids_of(ids@).len() && ids_of(ids@)[t] == a;
                        if t < before.len() {
                            assert(before[t] == a);
                        }
                    }
                    assert forall|x: Seq<char>| before.contains(x) implies ids_of(ids@).contains(x) by {
                        let t = choose|t: int| 0 <= t < before.len() && before[t] == x;
                        assert(ids_of(ids@)[t] == x);
                    }
                    assert(ids_of(ids@)[before.len() as int] == d);
                }
            }
            k = k + 1;
        }
        i = i + 1;
    }
    proof {
        let v = ids_of(ids@);
        assert forall|j: int| 0 <= j < m.entries@.len() implies #[trigger] ids@[j]@ == m.keys()[j] by {
            assert(v.take(nk as int)[j] == v[j]);
        }
        assert forall|a: Seq<char>| m.appears(a) implies v.contains(a) by {
            if m.has_key(a) {
                let j = choose|j: int| 0 <= j < m.keys().len() && m.keys()[j] == a;
                assert(v.take(nk as int)[j] == v[j]);
                assert(v[j] == a);
            } else {
                let i2 = choose|i2: int| 0 <= i2 < m.entries@.len() && #[trigger] m.entries@[i2].deps().contains(a);
                let k = choose|k: int| 0 <= k < m.entries@[i2].deps().len() && m.entries@[i2].deps()[k] == a;
                assert(v.contains(m.entries@[i2].deps()[k]));
            }
        }
    }
    ids
}

/// The views of a vector of index lists.
pub open spec fn rows_of(d: Seq<Vec<usize>>) -> Seq<Seq<usize>> {
    d.map_values(|v: Vec<usize>| v@)
}

/// Row `j` lists the positions in `ids` of the direct dependencies of `ids[j]`, in order.
pub open spec fn row_ok(m: DependencyMap, ids: Seq<Seq<char>>, j: int, row: Seq<usize>) -> bool {
    row.len() == m.deps_of(ids[j]).len() && below(row, ids.len() as int) && forall|k: int|
        0 <= k < row.len() ==> ids[#[trigger] row[k] as int] == m.deps_of(ids[j])[k]
}

pub open spec fn table_ok(m: DependencyMap, ids: Seq<Seq<char>>, d: Seq<Seq<usize>>) -> bool {
    d.len() == ids.len() && forall|j: int| 0 <= j < ids.len() ==> row_ok(m, ids, j, #[trigger] d[j])
}

/// For each identifier of `ids`, the positions in `ids` of its direct dependencies.
fn index_table(m: &DependencyMap, ids: &Vec<String>) -> (d: Vec<Vec<usize>>)
    requires
        m.wf(),
        ids_of(ids@).no_duplicates(),
        forall|a: Seq<char>| ids_of(ids@).contains(a) <==> m.appears(a),
        ids@.len() >= m.entries@.len(),
        forall|j: int| 0 <= j < m.entries@.len() ==> #[trigger] ids@[j]@ == m.keys()[j],
    ensures
        table_ok(*m, ids_of(ids@), rows_of(d@)),
{
    let ghost iv = ids_of(ids@);
    let mut d: Vec<Vec<usize>> = Vec::new();
    let mut j: usize = 0;
    while j < ids.len()
        invariant
            m.wf(),
            iv == ids_of(ids@),
            iv.no_duplicates(),
            forall|a: Seq<char>| iv.contains(a) <==> m.appears(a),
            ids@.len() >= m.entries@.len(),
            forall|t: int| 0 <= t < m.entries@.len() ==> #[trigger] ids@[t]@ == m.keys()[t],
            j <= ids@.len(),
            d@.len() == j,
            forall|t: int| 0 <= t < j ==> row_ok(*m, iv, t, #[trigger] rows_of(d@)[t]),
        decreases ids@.len() - j,
    {
        let mut row: Vec<usize> = Vec::new();
        if j < m.entries.len() {
            let deps = &m.entries[j].dependencies;
            proof {
                assert(iv[j as int] == m.keys()[j as int]);
                crate::graph::lemma_index_of_unique(m.keys(), iv[j as int], j as int);
                assert(m.has_key(iv[j as int]));
            }
            let mut k: usize = 0;
            while k < deps.len()
                invariant
                    m.wf(),
                    iv == ids_of(ids@),
                    forall|a: Seq<char>| iv.contains(a) <==> m.appears(a),
                    j < m.entries@.len(),
                    deps == &m.entries@[j as int].dependencies,
                    m.deps_of(iv[j as int]) == ids_of(deps@),
                    k <= deps@.len(),
                    row@.len() == k,
                    below(row@, iv.len() as int),
                    forall|t: int| 0 <= t < k ==> iv[#[trigger] row@[t] as int] == ids_of(deps@)[t],
                decreases deps@.len() - k,
            {
                proof {
                    assert(m.entries@[j as int].deps().contains(deps@[k as int]@)) by {
                        assert(m.entries@[j as int].deps()[k as int] == deps@[k as int]@);
                    }
                    assert(m.appears(deps@[k as int]@));
                }
                match position_of(ids, &deps[k]) {
                    Some(p) => {
                        row.push(p);
                    },
                    None => {},
                }
                k = k + 1;
            }
        } else {
            proof {
                if m.has_key(iv[j as int]) {
                    let t = choose|t: int| 0 <= t < m.keys().len() && m.keys()[t] == iv[j as int];
                    assert(ids@[t]@ == m.keys()[t]);
                    assert(iv[t] == iv[j as int]);
                }
            }
        }
        let ghost before = d@;
        d.push(row);
        proof {
            assert forall|t: int| 0 <= t < j + 1 implies row_ok(*m, iv, t, #[trigger] rows_of(d@)[t]) by {
                if t < j {
                    assert(rows_of(d@)[t] == rows_of(before)[t]);
                }
            }
        }
        j = j + 1;
    }
    d
}

/// For each position `u` of the table, the rows whose list holds `u`, once
/// per occurrence: row `v` occurs in entry `u` as often as `u` occurs in row `v`.
fn reverse_table(d: &Vec<Vec<usize>>) -> (rev: Vec<Vec<usize>>)
    requires
        forall|j: int| 0 <= j < d@.len() ==> below(#[trigger] rows_of(d@)[j], d@.len() as int),
    ensures
        rev@.len() == d@.len(),
        forall|u: int| 0 <= u < d@.len() ==> below(#[trigger] rows_of(rev@)[u], d@.len() as int),
        forall|u: int, v: int|
            0 <= u < d@.len() && 0 <= v < d@.len() ==> count_of(#[trigger] rows_of(rev@)[u], v as usize)
                == count_of(#[trigger] rows_of(d@)[v], u as usize),
{
    let n = d.len();
    let mut rev: Vec<Vec<usize>> = Vec::new();
    let mut u: usize = 0;
    while u < n
        invariant
            n == d@.len(),
            u <= n,
            rev@.len() == u,
            forall|u2: int| 0 <= u2 < u ==> below(#[trigger] rows_of(rev@)[u2], n as int),
            forall|u2: int, v: int|
                0 <= u2 < u && 0 <= v < n ==> count_of(#[trigger] rows_of(rev@)[u2], v as usize) == count_of(
                    #[trigger] rows_of(d@)[v],
                    u2 as usize,
                ),
        decreases n - u,
    {
        let mut local: Vec<usize> = Vec::new();
        let mut j: usize = 0;
        while j < n
            invariant
                n == d@.len(),
                u < n,
                j <= n,
                below(local@, n as int),
                forall|v: int| 0 <= v < n ==> #[trigger] count_of(local@, v as usize) == if v < j {
                    count_of(rows_of(d@)[v], u)
                } else {
                    0
                },
            decreases n - j,
        {
            let row = &d[j];
            assert(row@.take(0) =~= Seq::<usize>::empty());
            let mut k: usize = 0;
            while k < row.len()
                invariant
                    n == d@.len(),
                    u < n,
                    j < n,
                    row@ == rows_of(d@)[j as int],
                    k <= row@.len(),
                    below(local@, n as int),
                    forall|v: int| 0 <= v < n ==> #[trigger] count_of(local@, v as usize) == if v < j {
                        count_of(rows_of(d@)[v], u)
                    } else if v == j {
                        count_of(row@.take(k as int), u)
                    } else {
                        0
                    },
                decreases row@.len() - k,
            {
                proof {
                    assert(row@.take(k + 1) =~= row@.take(k as int).push(row@[k as int]));
                    lemma_count_push(row@.take(k as int), row@[k as int], u);
                }
                let ghost before = local@;
                if row[k] == u {
                    local.push(j);
                    proof {
                        assert forall|v: int| 0 <= v < n implies #[trigger] count_of(local@, v as usize) == count_of(
                            before,
                            v as usize,
                        ) + if v == j { 1nat } else { 0nat } by {
                            lemma_count_push(before, j, v as usize);
                        }
                    }
                }
                proof {
                    assert forall|v: int| 0 <= v < n implies #[trigger] count_of(local@, v as usize) == if v < j {
                        count_of(rows_of(d@)[v], u)
                    } else if v == j {
                        count_of(row@.take(k + 1), u)
                    } else {
                        0
                    } by {
                        assert(count_of(before, v as usize) == if v < j {
                            count_of(rows_of(d@)[v], u)
                        } else if v == j {
                            count_of(row@.take(k as int), u)
                        } else {
                            0
                        });
                        if row@[k as int] == u {
                            lemma_count_push(before, j, v as usize);
                        }
                    }
                }
                k = k + 1;
            }
            assert(row@.take(row@.len() as int) =~= row@);
            assert forall|v: int| 0 <= v < n implies #[trigger] count_of(local@, v as usize) == if v < j + 1 {
                count_of(rows_of(d@)[v], u)
            } else {
                0
            } by {}
            j = j + 1;
        }
        let ghost before = rev@;
        rev.push(local);
        proof {
            assert forall|u2: int| 0 <= u2 < u + 1 implies below(#[trigger] rows_of(rev@)[u2], n as int) by {
                if u2 < u {
                    assert(rows_of(rev@)[u2] == rows_of(before)[u2]);
                }
            }
            assert forall|u2: int, v: int|
                0 <= u2 < u + 1 && 0 <= v < n implies count_of(#[trigger] rows_of(rev@)[u2], v as usize)
                == count_of(#[trigger] rows_of(d@)[v], u2 as usize) by {
                if u2 < u {
                    assert(rows_of(rev@)[u2] == rows_of(before)[u2]);
                }
            }
        }
        u = u + 1;
    }
    rev
}

/// Number of unmarked positions of `done`.
pub open spec fn open_count(done: Seq<bool>) -> nat
    decreases done.len(),
{
    if done.len() == 0 {
        0
    } else {
        open_count(done.drop_last()) + if done.last() {
            0nat
        } else {
            1nat
        }
    }
}

proof fn lemma_open_count_mark(done: Seq<bool>, u: int)
    requires
        0 <= u < done.len(),
        !done[u],
    ensures
        open_count(done.update(u, true)) + 1 == open_count(done),
    decreases done.len(),
{
    let nd = done.update(u, true);
    if u < done.len() - 1 {
        assert(nd.drop_last() =~= done.drop_last().update(u, true));
        lemma_open_count_mark(done.drop_last(), u);
    } else {
        assert(nd.drop_last() =~= done.drop_last());
    }
}

proof fn lemma_count_take_le(s: Seq<usize>, i: int, x: usize)
    requires
        0 <= i <= s.len(),
    ensures
        count_of(s.take(i), x) <= count_of(s, x),
    decreases s.len(),
{
    if i < s.len() {
        assert(s.drop_last().take(i) =~= s.take(i));
        lemma_count_take_le(s.drop_last(), i, x);
    } else {
        assert(s.take(i) =~= s);
    }
}

proof fn lemma_pending_none_done(s: Seq<usize>, done: Seq<bool>)
    requires
        below(s, done.len() as int),
        forall|k: int| 0 <= k < s.len() ==> !done[#[trigger] s[k] as int],
    ensures
        pending(s, done) == s.len(),
    decreases s.len(),
{
    if s.len() > 0 {
        assert(below(s.drop_last(), done.len() as int)) by {
            assert forall|k: int| 0 <= k < s.drop_last().len() implies #[trigger] s.drop_last()[k] < done.len() by {
                assert(s[k] < done.len());
            }
        }
        assert forall|k: int| 0 <= k < s.drop_last().len() implies !done[#[trigger] s.drop_last()[k] as int] by {
            assert(s.drop_last()[k] == s[k]);
            assert(!done[s[k] as int]);
        }
        assert(!done[s[s.len() - 1] as int]);
        lemma_pending_none_done(s.drop_last(), done);
    }
}

/// Facts about the two tables that Kahn's algorithm relies on.
pub open spec fn tables_ok(d: Seq<Seq<usize>>, r: Seq<Seq<usize>>) -> bool {
    r.len() == d.len() && (forall|j: int| 0 <= j < d.len() ==> below(#[trigger] d[j], d.len() as int)) && (
    forall|u: int| 0 <= u < d.len() ==> below(#[trigger] r[u], d.len() as int)) && forall|u: int, v: int|
        0 <= u < d.len() && 0 <= v < d.len() ==> count_of(#[trigger] r[u], v as usize) == count_of(
            #[trigger] d[v],
            u as usize,
        )
}

/// Every emitted row has all of its listed rows emitted before it.
pub open spec fn respects_rows(d: Seq<Seq<usize>>, sorted: Seq<usize>) -> bool {
    forall|p: int, k: int|
        0 <= p < sorted.len() && 0 <= k < d[sorted[p] as int].len() ==> sorted.take(p).contains(
            #[trigger] d[sorted[p] as int][k],
        )
}

/// Kahn's algorithm on the dependency rows `d` with reverse rows `rev`.
/// Returns the emitted order and which rows were emitted; every row left
/// unemitted lists some row that is unemitted too.
fn kahn(d: &Vec<Vec<usize>>, rev: &Vec<Vec<usize>>) -> (res: (Vec<usize>, Vec<bool>))
    requires
        tables_ok(rows_of(d@), rows_of(rev@)),
    ensures
        res.1@.len() == d@.len(),
        res.0@.no_duplicates(),
        below(res.0@, d@.len() as int),
        forall|j: int| 0 <= j < d@.len() ==> (res.1@[j] <==> res.0@.contains(j as usize)),
        respects_rows(rows_of(d@), res.0@),
        forall|j: int|
            0 <= j < d@.len() && !res.1@[j] ==> exists|k: int|
                0 <= k < rows_of(d@)[j].len() && !res.1@[#[trigger] rows_of(d@)[j][k] as int],
{
    let ghost dd = rows_of(d@);
    let ghost rr = rows_of(rev@);
    let n = d.len();
    let mut done: Vec<bool> = Vec::new();
    let mut indeg: Vec<usize> = Vec::new();
    let mut queue: Vec<usize> = Vec::new();
    let mut j: usize = 0;
    while j < n
        invariant
            n == d@.len(),
            dd == rows_of(d@),
            j <= n,
            done@.len() == j,
            indeg@.len() == j,
            forall|t: int| 0 <= t < j ==> !done@[t],
            forall|t: int| 0 <= t < j ==> #[trigger] indeg@[t] == dd[t].len(),
            below(queue@, j as int),
            queue@.no_duplicates(),
            forall|t: int| 0 <= t < j && dd[t].len() == 0 ==> queue@.contains(t as usize),
            forall|q: int| 0 <= q < queue@.len() ==> dd[#[trigger] queue@[q] as int].len() == 0,
        decreases n - j,
    {
        done.push(false);
        indeg.push(d[j].len());
        if d[j].len() == 0 {
            let ghost before = queue@;
            queue.push(j);
            proof {
                assert(queue@[before.len() as int] == j);
                assert forall|t: int| 0 <= t < j && dd[t].len() == 0 implies queue@.contains(t as usize) by {
                    let q = choose|q: int| 0 <= q < before.len() && before[q] == t as usize;
                    assert(queue@[q] == t as usize);
                }
                assert forall|q: int| 0 <= q < queue@.len() implies dd[#[trigger] queue@[q] as int].len() == 0 by {
                    if q < before.len() {
                        assert(queue@[q] == before[q]);
                    }
                }
                assert forall|a: int, b: int| 0 <= a < b < queue@.len() implies queue@[a] != queue@[b] by {
                    if b < before.len() {
                        assert(before[a] != before[b]);
                    } else {
                        assert(before[a] < j);
                    }
                }
            }
        }
        j = j + 1;
    }
    proof {
        assert forall|t: int| 0 <= t < n implies #[trigger] indeg@[t] == pending(dd[t], done@) by {
            lemma_pending_none_done(dd[t], done@);
        }
    }
    let mut sorted: Vec<usize> = Vec::new();
    let mut head: usize = 0;
    while head < queue.len()
        invariant
            n == d@.len(),
            dd == rows_of(d@),
            rr == rows_of(rev@),
            tables_ok(dd, rr),
            done@.len() == n,
            indeg@.len() == n,
            forall|t: int| 0 <= t < n ==> #[trigger] indeg@[t] == pending(dd[t], done@),
            forall|t: int| 0 <= t < n && #[trigger] done@[t] ==> indeg@[t] == 0,
            head <= queue@.len(),
            below(queue@, n as int),
            forall|q: int| head <= q < queue@.len() ==> !done@[#[trigger] queue@[q] as int] && indeg@[queue@[q] as int] == 0,
            forall|a: int, b: int| head <= a < b < queue@.len() ==> queue@[a] != queue@[b],
            forall|t: int| 0 <= t < n && !done@[t] && indeg@[t] == 0 ==> exists|q: int| head <= q < queue@.len() && queue@[q] == t,
            sorted@.no_duplicates(),
            below(sorted@, n as int),
            forall|t: int| 0 <= t < n ==> (done@[t] <==> sorted@.contains(t as usize)),
            respects_rows(dd, sorted@),
        decreases open_count(done@), queue@.len() - head,
    {
        let u = queue[head];
        head = head + 1;
        let ghost done_old = done@;
        let ghost sorted_old = sorted@;
        proof {
            assert(queue@[head - 1] == u);
            lemma_open_count_mark(done_old, u as int);
            lemma_pending_zero(dd[u as int], done_old);
        }
        done.set(u, true);
        sorted.push(u);
        proof {
            assert(sorted@.take(sorted_old.len() as int) =~= sorted_old);
            assert forall|t: int| 0 <= t < n implies (done@[t] <==> sorted@.contains(t as usize)) by {
                if sorted_old.contains(t as usize) {
                    let q = choose|q: int| 0 <= q < sorted_old.len() && sorted_old[q] == t as usize;
                    assert(sorted@[q] == t as usize);
                }
                if sorted@.contains(t as usize) && t != u {
                    let q = choose|q: int| 0 <= q < sorted@.len() && sorted@[q] == t as usize;
                    assert(sorted_old[q] == t as usize);
                }
                if t == u {
                    assert(sorted@[sorted_old.len() as int] == u);
                }
            }
            assert forall|a: int, b: int| 0 <= a < b < sorted@.len() implies sorted@[a] != sorted@[b] by {
                if b == sorted_old.len() {
                    if sorted_old[a] == u {
                        assert(sorted_old.contains(u));
                    }
                }
            }
            assert forall|p: int, k: int|
                0 <= p < sorted@.len() && 0 <= k < dd[sorted@[p] as int].len() implies sorted@.take(p).contains(
                #[trigger] dd[sorted@[p] as int][k],
            ) by {
                if p < sorted_old.len() {
                    assert(sorted@.take(p) =~= sorted_old.take(p));
                    assert(sorted@[p] == sorted_old[p]);
                } else {
                    assert(dd[u as int][k] < n);
                    assert(done_old[dd[u as int][k] as int]);
                }
            }
            assert forall|t: int| 0 <= t < n implies pending(dd[t], done_old) == pending(dd[t], done@)
                + count_of(dd[t], u) by {
                lemma_pending_mark(dd[t], done_old, u);
            }
            assert forall|t: int| 0 <= t < n && #[trigger] done@[t] implies pending(dd[t], done_old) == 0 by {
                if t != u as int {
                    assert(done_old[t]);
                }
            }
        }
        let r = &rev[u];
        let mut i: usize = 0;
        while i < r.len()
            invariant
                n == d@.len(),
                dd == rows_of(d@),
                rr == rows_of(rev@),
                tables_ok(dd, rr),
                u < n,
                r@ == rr[u as int],
                i <= r@.len(),
                done@.len() == n,
                indeg@.len() == n,
                done@ == done_old.update(u as int, true),
                !done_old[u as int],
                forall|t: int| 0 <= t < n ==> pending(dd[t], done_old) == pending(dd[t], done@) + count_of(dd[t], u),
                forall|t: int| 0 <= t < n && #[trigger] done@[t] ==> pending(dd[t], done_old) == 0,
                forall|t: int| 0 <= t < n ==> #[trigger] indeg@[t] + count_of(r@.take(i as int), t as usize) == pending(dd[t], done_old),
                head <= queue@.len(),
                below(queue@, n as int),
                forall|q: int| head <= q < queue@.len() ==> !done@[#[trigger] queue@[q] as int] && indeg@[queue@[q] as int] == 0,
                forall|a: int, b: int| head <= a < b < queue@.len() ==> queue@[a] != queue@[b],
                forall|t: int| 0 <= t < n && !done@[t] && indeg@[t] == 0 ==> exists|q: int| head <= q < queue@.len() && queue@[q] == t,
            decreases r@.len() - i,
        {
            let v = r[i];
            proof {
                assert(below(rr[u as int], n as int));
                assert(v < n);
                assert(r@.take(i + 1) =~= r@.take(i as int).push(v));
                lemma_count_push(r@.take(i as int), v, v);
                lemma_count_take_le(r@, i + 1, v);
                assert(count_of(rr[u as int], v) == count_of(dd[v as int], u));
                lemma_count_contains(dd[v as int], u);
                if done@[v as int] {
                    lemma_pending_zero(dd[v as int], done_old);
                    let k = choose|k: int| 0 <= k < dd[v as int].len() && dd[v as int][k] == u;
                    assert(done_old[dd[v as int][k] as int]);
                }
                assert(indeg@[v as int] >= 1);
            }
            let ghost indeg_old = indeg@;
            let ghost queue_old = queue@;
            indeg.set(v, indeg[v] - 1);
            if indeg[v] == 0 {
                queue.push(v);
            }
            proof {
                assert forall|t: int| 0 <= t < n implies #[trigger] indeg@[t] + count_of(r@.take(i + 1), t as usize)
                    == pending(dd[t], done_old) by {
                    lemma_count_push(r@.take(i as int), v, t as usize);
                    assert(indeg_old[t] + count_of(r@.take(i as int), t as usize) == pending(dd[t], done_old));
                }
                assert forall|q: int| head <= q < queue@.len() implies !done@[#[trigger] queue@[q] as int]
                    && indeg@[queue@[q] as int] == 0 by {
                    if q < queue_old.len() {
                        assert(queue@[q] == queue_old[q]);
                        assert(indeg_old[queue_old[q] as int] == 0);
                    }
                }
                assert forall|a: int, b: int| head <= a < b < queue@.len() implies queue@[a] != queue@[b] by {
                    if b >= queue_old.len() {
                        assert(indeg_old[queue_old[a] as int] == 0);
                    }
                }
                assert forall|t: int| 0 <= t < n && !done@[t] && indeg@[t] == 0 implies exists|q: int|
                    head <= q < queue@.len() && queue@[q] == t by {
                    if t != v as int {
                        assert(indeg_old[t] == 0);
                        let q = choose|q: int| head <= q < queue_old.len() && queue_old[q] == t;
                        assert(queue@[q] == t);
                    } else {
                        assert(queue@[queue_old.len() as int] == v);
                    }
                }
            }
            i = i + 1;
        }
        proof {
            assert(r@.take(r@.len() as int) =~= r@);
            assert forall|t: int| 0 <= t < n implies #[trigger] indeg@[t] == pending(dd[t], done@) by {
                assert(count_of(rr[u as int], t as usize) == count_of(dd[t], u));
            }
        }
    }
    proof {
        assert forall|t: int|
            0 <= t < n && !done@[t] implies exists|k: int|
                0 <= k < dd[t].len() && !done@[#[trigger] dd[t][k] as int] by {
            lemma_pending_zero(dd[t], done@);
            assert(indeg@[t] != 0);
        }
    }
    (sorted, done)
}

/// Every unemitted row lists some unemitted row.
pub open spec fn stuck(dd: Seq<Seq<usize>>, done: Seq<bool>) -> bool {
    forall|j: int|
        0 <= j < dd.len() && !done[j] ==> exists|k: int| 0 <= k < dd[j].len() && !done[#[trigger] dd[j][k] as int]
}

/// An unemitted row listed by row `j`.
pub open spec fn stuck_step(dd: Seq<Seq<usize>>, done: Seq<bool>, j: int) -> int {
    let k = choose|k: int| 0 <= k < dd[j].len() && !done[#[trigger] dd[j][k] as int];
    dd[j][k] as int
}

/// `len` steps from row `j`, each to an unemitted row that the previous one lists.
pub open spec fn stuck_walk(dd: Seq<Seq<usize>>, done: Seq<bool>, j: int, len: nat) -> Seq<int>
    decreases len,
{
    if len == 0 {
        seq![j]
    } else {
        let w = stuck_walk(dd, done, j, (len - 1) as nat);
        w.push(stuck_step(dd, done, w.last()))
    }
}

proof fn lemma_stuck_walk(dd: Seq<Seq<usize>>, done: Seq<bool>, j: int, len: nat)
    requires
        done.len() == dd.len(),
        forall|t: int| 0 <= t < dd.len() ==> below(#[trigger] dd[t], dd.len() as int),
        stuck(dd, done),
        0 <= j < dd.len(),
        !done[j],
    ensures
        stuck_walk(dd, done, j, len).len() == len + 1,
        stuck_walk(dd, done, j, len)[0] == j,
        forall|i: int|
            0 <= i <= len ==> 0 <= #[trigger] stuck_walk(dd, done, j, len)[i] < dd.len()
                && !done[stuck_walk(dd, done, j, len)[i]],
        forall|i: int|
            0 <= i < len ==> dd[#[trigger] stuck_walk(dd, done, j, len)[i]].contains(
                stuck_walk(dd, done, j, len)[i + 1] as usize,
            ),
    decreases len,
{
    if len > 0 {
        lemma_stuck_walk(dd, done, j, (len - 1) as nat);
        let w = stuck_walk(dd, done, j, (len - 1) as nat);
        let x = w.last();
        assert(0 <= w[len - 1] < dd.len() && !done[w[len - 1]]);
        let k = choose|k: int| 0 <= k < dd[x].len() && !done[#[trigger] dd[x][k] as int];
        assert(dd[x][k] < dd.len());
        let w2 = stuck_walk(dd, done, j, len);
        assert(w2 == w.push(stuck_step(dd, done, x)));
        assert forall|i: int| 0 <= i <= len implies 0 <= #[trigger] w2[i] < dd.len() && !done[w2[i]] by {
            if i < len {
                assert(w2[i] == w[i]);
            }
        }
        assert forall|i: int| 0 <= i < len implies dd[#[trigger] w2[i]].contains(w2[i + 1] as usize) by {
            if i < len - 1 {
                assert(w2[i] == w[i] && w2[i + 1] == w[i + 1]);
                assert(dd[w[i]].contains(w[i + 1] as usize));
            } else {
                assert(w2[i] == x);
                assert(dd[x][k] == w2[i + 1]);
            }
        }
    }
}

/// A sequence of more than `n` values in `[0, n)` repeats a value.
proof fn lemma_pigeonhole(w: Seq<int>, n: int)
    requires
        0 <= n < w.len(),
        forall|i: int| 0 <= i < w.len() ==> 0 <= #[trigger] w[i] < n,
    ensures
        exists|a: int, b: int| 0 <= a < b < w.len() && w[a] == w[b],
{
    if w.no_duplicates() {
        w.unique_seq_to_set();
        lemma_int_range(0, n);
        assert(w.to_set().subset_of(set_int_range(0, n))) by {
            assert forall|x: int| w.to_set().contains(x) implies set_int_range(0, n).contains(x) by {
                let i = choose|i: int| 0 <= i < w.len() && w[i] == x;
                assert(0 <= w[i] < n);
            }
        }
        lemma_len_subset(w.to_set(), set_int_range(0, n));
    }
}

/// A row listed by row `x` is a direct dependency of the identifier at `x`.
proof fn lemma_table_edge(m: DependencyMap, iv: Seq<Seq<char>>, dd: Seq<Seq<usize>>, x: int, y: int)
    requires
        table_ok(m, iv, dd),
        dd.len() <= usize::MAX,
        0 <= x < dd.len(),
        0 <= y < dd.len(),
        dd[x].contains(y as usize),
    ensures
        m.edge(iv[x], iv[y]),
{
    let k = choose|k: int| 0 <= k < dd[x].len() && dd[x][k] == y as usize;
    assert(row_ok(m, iv, x, dd[x]));
    assert(iv[dd[x][k] as int] == m.deps_of(iv[x])[k]);
}

/// A walk over rows that returns to a row gives a closed walk of `m`.
proof fn lemma_repeat_is_cycle(m: DependencyMap, iv: Seq<Seq<char>>, dd: Seq<Seq<usize>>, w: Seq<int>, a: int, b: int)
    requires
        table_ok(m, iv, dd),
        dd.len() <= usize::MAX,
        0 <= a < b < w.len(),
        w[a] == w[b],
        forall|i: int| 0 <= i < w.len() ==> 0 <= #[trigger] w[i] < dd.len(),
        forall|i: int| 0 <= i < w.len() - 1 ==> dd[#[trigger] w[i]].contains(w[i + 1] as usize),
    ensures
        m.has_cycle(),
{
    let c = w.subrange(a, b).map_values(|x: int| iv[x]);
    assert forall|i: int| 0 <= i < c.len() - 1 implies #[trigger] m.edge(c[i], c[i + 1]) by {
        assert(dd[w[a + i]].contains(w[a + i + 1] as usize));
        lemma_table_edge(m, iv, dd, w[a + i], w[a + i + 1]);
    }
    assert(dd[w[b - 1]].contains(w[b] as usize));
    lemma_table_edge(m, iv, dd, w[b - 1], w[b]);
    assert(m.is_closed_walk(c));
}

/// Where Kahn's algorithm is stuck on an unemitted row, a walk over unemitted
/// rows returns to a row it has passed.
proof fn lemma_stuck_repeats(dd: Seq<Seq<usize>>, done: Seq<bool>, j: int) -> (r: (Seq<int>, int, int))
    requires
        forall|t: int| 0 <= t < dd.len() ==> below(#[trigger] dd[t], dd.len() as int),
        done.len() == dd.len(),
        stuck(dd, done),
        0 <= j < dd.len(),
        !done[j],
    ensures
        0 <= r.1 < r.2 < r.0.len(),
        r.0[r.1] == r.0[r.2],
        forall|i: int| 0 <= i < r.0.len() ==> 0 <= #[trigger] r.0[i] < dd.len(),
        forall|i: int| 0 <= i < r.0.len() - 1 ==> dd[#[trigger] r.0[i]].contains(r.0[i + 1] as usize),
{
    let n = dd.len();
    lemma_stuck_walk(dd, done, j, n);
    let w = stuck_walk(dd, done, j, n);
    assert forall|i: int| 0 <= i < w.len() implies 0 <= #[trigger] w[i] < n by {
        assert(0 <= stuck_walk(dd, done, j, n)[i] < n);
    }
    assert forall|i: int| 0 <= i < w.len() - 1 implies dd[#[trigger] w[i]].contains(w[i + 1] as usize) by {
        assert(dd[stuck_walk(dd, done, j, n)[i]].contains(stuck_walk(dd, done, j, n)[i + 1] as usize));
    }
    lemma_pigeonhole(w, n as int);
    let (a, b) = choose|a: int, b: int| 0 <= a < b < w.len() && w[a] == w[b];
    (w, a, b)
}

/// Where Kahn's algorithm is stuck on an unemitted row, the map holds a cycle.
proof fn lemma_stuck_has_cycle(m: DependencyMap, iv: Seq<Seq<char>>, dd: Seq<Seq<usize>>, done: Seq<bool>, j: int)
    requires
        table_ok(m, iv, dd),
        dd.len() <= usize::MAX,
        done.len() == dd.len(),
        stuck(dd, done),
        0 <= j < dd.len(),
        !done[j],
    ensures
        m.has_cycle(),
{
    assert forall|t: int| 0 <= t < dd.len() implies below(#[trigger] dd[t], dd.len() as int) by {
        assert(row_ok(m, iv, t, dd[t]));
    }
    let (w, a, b) = lemma_stuck_repeats(dd, done, j);
    lemma_repeat_is_cycle(m, iv, dd, w, a, b);
}

/// A sequence that holds every identifier of `m` once, each after all of its
/// direct dependencies.
pub open spec fn is_topological_order(m: DependencyMap, v: Seq<Seq<char>>) -> bool {
    &&& v.no_duplicates()
    &&& forall|a: Seq<char>| v.contains(a) <==> m.appears(a)
    &&& forall|p: int, k: int|
        0 <= p < v.len() && 0 <= k < m.deps_of(v[p]).len() ==> v.take(p).contains(
            #[trigger] m.deps_of(v[p])[k],
        )
}

/// A topological order admits no cycle.
pub proof fn lemma_order_excludes_cycle(m: DependencyMap, v: Seq<Seq<char>>)
    requires
        is_topological_order(m, v),
    ensures
        !m.has_cycle(),
{
    if m.has_cycle() {
        let w = choose|w: Seq<Seq<char>>| m.is_closed_walk(w);
        assert forall|x: Seq<char>, y: Seq<char>| #[trigger] m.edge(x, y) implies v.contains(x) && v.contains(y) && v.index_of(y)
            < v.index_of(x) by {
            assert(m.has_key(x));
            assert(m.appears(x));
            let k = choose|k: int| 0 <= k < m.deps_of(x).len() && m.deps_of(x)[k] == y;
            let p = v.index_of(x);
            assert(v[p] == x);
            assert(v.take(p).contains(m.deps_of(v[p])[k]));
            let q = choose|q: int| 0 <= q < v.take(p).len() && v.take(p)[q] == y;
            assert(v[q] == y);
            crate::graph::lemma_index_of_unique(v, y, q);
        }
        let pos0 = v.index_of(w[0]);
        assert forall|i: int| 0 <= i < w.len() implies v.index_of(#[trigger] w[i]) <= pos0 - i by {
            lemma_walk_positions(m, v, w, i);
        }
        assert(m.edge(w.last(), w[0]));
        assert(v.index_of(w[w.len() - 1]) <= pos0 - (w.len() - 1));
    }
}

proof fn lemma_walk_positions(m: DependencyMap, v: Seq<Seq<char>>, w: Seq<Seq<char>>, i: int)
    requires
        m.is_closed_walk(w),
        0 <= i < w.len(),
        forall|x: Seq<char>, y: Seq<char>| #[trigger] m.edge(x, y) ==> v.index_of(y) < v.index_of(x),
    ensures
        v.index_of(w[i]) <= v.index_of(w[0]) - i,
    decreases i,
{
    if i > 0 {
        lemma_walk_positions(m, v, w, i - 1);
        let h = i - 1;
        assert(m.edge(w[h], w[h + 1]));
    }
}

/// Orders every identifier of `m` after all of its direct dependencies, by
/// Kahn's algorithm: each identifier starts with as many prerequisites as its
/// dependency list is long, those with none are emitted first, and emitting an
/// identifier takes one prerequisite from each of its dependents. Fails with
/// `CyclicGraph` exactly when `m` holds a cycle.
pub fn topological_order(m: &DependencyMap) -> (r: Result<Vec<String>, ResolveError>)
    requires
        m.wf(),
    ensures
        r.is_ok() <==> !m.has_cycle(),
        r matches Ok(v) ==> is_topological_order(*m, ids_of(v@)),
        r matches Err(e) ==> e == ResolveError::CyclicGraph,
{
    let ids = collect_ids(m);
    let d = index_table(m, &ids);
    let rev = reverse_table(&d);
    let ghost iv = ids_of(ids@);
    let ghost dd = rows_of(d@);
    proof {
        assert forall|j: int| 0 <= j < d@.len() implies below(#[trigger] dd[j], d@.len() as int) by {
            assert(row_ok(*m, iv, j, dd[j]));
        }
    }
    let (sorted, done) = kahn(&d, &rev);
    let n = ids.len();
    let mut j: usize = 0;
    while j < n
        invariant
            n == ids@.len(),
            n == d@.len(),
            done@.len() == n,
            j <= n,
            forall|t: int| 0 <= t < j ==> done@[t],
            iv == ids_of(ids@),
            dd == rows_of(d@),
            table_ok(*m, iv, dd),
            stuck(dd, done@),
        decreases n - j,
    {
        if !done[j] {
            proof {
                lemma_stuck_has_cycle(*m, iv, dd, done@, j as int);
            }
            return Err(ResolveError::CyclicGraph);
        }
        j = j + 1;
    }
    let mut out: Vec<String> = Vec::new();
    let mut p: usize = 0;
    while p < sorted.len()
        invariant
            n == ids@.len(),
            iv == ids_of(ids@),
            below(sorted@, n as int),
            p <= sorted@.len(),
            ids_of(out@) == sorted@.take(p as int).map_values(|x: usize| iv[x as int]),
        decreases sorted@.len() - p,
    {
        let ghost before = ids_of(out@);
        proof {
            assert(sorted@[p as int] < n);
        }
        out.push(ids[sorted[p]].clone());
        proof {
            assert(ids_of(out@) =~= before.push(iv[sorted@[p as int] as int]));
            assert(sorted@.take(p + 1) =~= sorted@.take(p as int).push(sorted@[p as int]));
            assert(ids_of(out@) =~= sorted@.take(p + 1).map_values(|x: usize| iv[x as int]));
        }
        p = p + 1;
    }
    proof {
        assert(sorted@.take(sorted@.len() as int) =~= sorted@);
        let v = ids_of(out@);
        let sv = sorted@;
        assert(v == sv.map_values(|x: usize| iv[x as int]));
        assert forall|a: int, b: int| 0 <= a < b < v.len() implies v[a] != v[b] by {
            assert(sv[a] < n && sv[b] < n);
            assert(sv[a] != sv[b]);
        }
        assert forall|x: Seq<char>| v.contains(x) <==> m.appears(x) by {
            if v.contains(x) {
                let q = choose|q: int| 0 <= q < v.len() && v[q] == x;
                assert(sv[q] < n);
                assert(iv.contains(iv[sv[q] as int]));
            }
            if m.appears(x) {
                let t = choose|t: int| 0 <= t < iv.len() && iv[t] == x;
                assert(done@[t]);
                let q = choose|q: int| 0 <= q < sv.len() && sv[q] == t as usize;
                assert(v[q] == x);
            }
        }
        assert forall|q: int, k: int|
            0 <= q < v.len() && 0 <= k < m.deps_of(v[q]).len() implies v.take(q).contains(
            #[trigger] m.deps_of(v[q])[k],
        ) by {
            let j = sv[q] as int;
            assert(j < n);
            assert(row_ok(*m, iv, j, dd[j]));
            assert(v[q] == iv[j]);
            assert(sv.take(q).contains(dd[j][k]));
            let q2 = choose|q2: int| 0 <= q2 < sv.take(q).len() && sv.take(q)[q2] == dd[j][k];
            assert(v.take(q)[q2] == iv[dd[j][k] as int]);
        }
        lemma_order_excludes_cycle(*m, v);
    }
    Ok(out)
}

} // verus!
