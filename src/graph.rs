//! The dependency map and its mathematical model.

use vstd::prelude::*;

verus! {

/// Why an analysis rejected its input.
#[derive(PartialEq, Eq, Structural, Debug, Clone, Copy)]
pub enum ResolveError {
    /// The queried root is not a key of the map.
    NotFound,
    /// A topological order was asked of a map that holds a cycle.
    CyclicGraph,
    /// The serialized form of a map could not be decoded.
    MalformedInput,
}

/// One asset of a dependency map: its identifier and its ordered list of
/// direct dependencies.
pub struct AssetEntry {
    pub path: String,
    pub dependencies: Vec<String>,
}

/// A mapping from asset identifier to its ordered list of direct
/// dependencies. Keys are unique (see `wf`); the order of the entries is the
/// order in which the analyses visit the keys.
pub struct DependencyMap {
    pub entries: Vec<AssetEntry>,
}

/// The identifiers held by a vector of strings.
pub open spec fn ids_of(v: Seq<String>) -> Seq<Seq<char>> {
    v.map_values(|s: String| s@)
}

impl AssetEntry {
    pub open spec fn key(&self) -> Seq<char> {
        self.path@
    }

    pub open spec fn deps(&self) -> Seq<Seq<char>> {
        ids_of(self.dependencies@)
    }
}

impl DependencyMap {
    /// The keys, in entry order.
    pub open spec fn keys(&self) -> Seq<Seq<char>> {
        self.entries@.map_values(|e: AssetEntry| e.path@)
    }

    /// Keys are unique.
    pub open spec fn wf(&self) -> bool {
        self.keys().no_duplicates()
    }

    pub open spec fn has_key(&self, a: Seq<char>) -> bool {
        self.keys().contains(a)
    }

    /// The direct dependencies of `a`; empty when `a` is not a key.
    pub open spec fn deps_of(&self, a: Seq<char>) -> Seq<Seq<char>> {
        if self.has_key(a) {
            self.entries@[self.keys().index_of(a)].deps()
        } else {
            Seq::empty()
        }
    }

    /// There is an edge `a -> b` when `b` is a direct dependency of `a`.
    pub open spec fn edge(&self, a: Seq<char>, b: Seq<char>) -> bool {
        self.deps_of(a).contains(b)
    }

    /// `a` occurs in the map, as a key or in some dependency list.
    pub open spec fn appears(&self, a: Seq<char>) -> bool {
        self.has_key(a) || exists|i: int| 0 <= i < self.entries@.len() && #[trigger] self.entries@[i].deps().contains(a)
    }

    /// Each identifier of `w` has the next one as a direct dependency.
    pub open spec fn is_walk(&self, w: Seq<Seq<char>>) -> bool {
        forall|i: int| 0 <= i < w.len() - 1 ==> #[trigger] self.edge(w[i], w[i + 1])
    }

    /// A nonempty walk whose last identifier has the first as a direct dependency.
    pub open spec fn is_closed_walk(&self, w: Seq<Seq<char>>) -> bool {
        w.len() > 0 && self.is_walk(w) && self.edge(w.last(), w[0])
    }

    /// The map holds a cycle: some closed walk of direct-dependency edges.
    pub open spec fn has_cycle(&self) -> bool {
        exists|w: Seq<Seq<char>>| self.is_closed_walk(w)
    }

    /// Keys of the first `n` entries whose dependency list holds `a`, in entry order.
    pub open spec fn dependents_upto(&self, a: Seq<char>, n: int) -> Seq<Seq<char>>
        decreases n,
    {
        if n <= 0 {
            Seq::empty()
        } else {
            let prev = self.dependents_upto(a, n - 1);
            if self.entries@[n - 1].deps().contains(a) {
                prev.push(self.entries@[n - 1].key())
            } else {
                prev
            }
        }
    }

    /// The direct dependents of `a`: the keys whose dependency list holds `a`,
    /// in entry order.
    pub open spec fn dependents(&self, a: Seq<char>) -> Seq<Seq<char>> {
        self.dependents_upto(a, self.entries@.len() as int)
    }

    /// A map with no entries.
    pub fn new() -> (r: DependencyMap)
        ensures
            r.wf(),
            r.entries@.len() == 0,
    {
        DependencyMap { entries: Vec::new() }
    }

    /// Number of keys.
    pub fn len(&self) -> (r: usize)
        ensures
            r == self.entries@.len(),
    {
        self.entries.len()
    }

    /// Index of the entry whose key is `a`, if any.
    pub fn find(&self, a: &String) -> (r: Option<usize>)
        requires
            self.wf(),
        ensures
            r.is_none() <==> !self.has_key(a@),
            r matches Some(i) ==> i < self.entries@.len() && self.keys()[i as int] == a@
                && self.keys().index_of(a@) == i,
    {
        let mut i: usize = 0;
        while i < self.entries.len()
            invariant
                i <= self.entries@.len(),
                self.wf(),
                forall|j: int| 0 <= j < i ==> self.keys()[j] != a@,
            decreases self.entries@.len() - i,
        {
            if self.entries[i].path == *a {
                proof {
                    assert(self.keys()[i as int] == a@);
                    assert(self.keys().contains(a@));
                    lemma_index_of_unique(self.keys(), a@, i as int);
                }
                return Some(i);
            }
            i = i + 1;
        }
        proof {
            if self.keys().contains(a@) {
                let j = choose|j: int| 0 <= j < self.keys().len() && self.keys()[j] == a@;
                assert(self.keys()[j] == a@);
            }
        }
        None
    }

    /// Inserts `path` with its dependency list, replacing the list of an
    /// existing key in place; a new key goes last.
    pub fn insert(&mut self, path: String, dependencies: Vec<String>)
        requires
            old(self).wf(),
        ensures
            final(self).wf(),
            final(self).has_key(path@),
            final(self).deps_of(path@) == ids_of(dependencies@),
            old(self).has_key(path@) ==> final(self).keys() == old(self).keys(),
            !old(self).has_key(path@) ==> final(self).keys() == old(self).keys().push(path@),
            forall|b: Seq<char>| b != path@ ==> (final(self).has_key(b) == old(self).has_key(b))
                && final(self).deps_of(b) == old(self).deps_of(b),
    {
        match self.find(&path) {
            Some(i) => {
                let ghost k = self.keys();
                self.entries.set(i, AssetEntry { path, dependencies });
                proof {
                    assert(self.keys() =~= k);
                }
            },
            None => {
                let ghost k = self.keys();
                let ghost p = path@;
                self.entries.push(AssetEntry { path, dependencies });
                proof {
                    assert(self.keys() =~= k.push(p));
                    assert(self.keys()[k.len() as int] == p);
                    lemma_index_of_unique(self.keys(), p, k.len() as int);
                    assert forall|b: Seq<char>| b != p && k.contains(b) implies self.keys().index_of(b)
                        == k.index_of(b) by {
                        let j = k.index_of(b);
                        assert(self.keys()[j] == b);
                        lemma_index_of_unique(self.keys(), b, j);
                    }
                    assert forall|b: Seq<char>| b != p implies self.has_key(b) == k.contains(b) by {
                        if self.keys().contains(b) {
                            let j = self.keys().index_of(b);
                            assert(j != k.len());
                            assert(k[j] == b);
                        }
                        if k.contains(b) {
                            let j = k.index_of(b);
                            assert(self.keys()[j] == b);
                        }
                    }
                }
            },
        }
    }
}

/// In a sequence without duplicates, `index_of` finds the one position of an element.
pub proof fn lemma_index_of_unique<A>(s: Seq<A>, x: A, i: int)
    requires
        s.no_duplicates(),
        0 <= i < s.len(),
        s[i] == x,
    ensures
        s.index_of(x) == i,
{
    assert(s.contains(x));
    let j = s.index_of(x);
    assert(s[j] == x);
}

/// Whether `v` holds an identifier equal to `a`.
pub fn contains_id(v: &Vec<String>, a: &String) -> (r: bool)
    ensures
        r == ids_of(v@).contains(a@),
{
    let mut i: usize = 0;
    while i < v.len()
        invariant
            i <= v@.len(),
            forall|j: int| 0 <= j < i ==> v@[j]@ != a@,
        decreases v@.len() - i,
    {
        if v[i] == *a {
            assert(ids_of(v@)[i as int] == a@);
            return true;
        }
        i = i + 1;
    }
    proof {
        if ids_of(v@).contains(a@) {
            let j = choose|j: int| 0 <= j < ids_of(v@).len() && ids_of(v@)[j] == a@;
            assert(v@[j]@ == a@);
        }
    }
    false
}

/// The first position of `x` in `s`; -1 when `x` does not occur.
pub open spec fn first_pos(s: Seq<Seq<char>>, x: Seq<char>) -> int {
    if s.contains(x) {
        choose|i: int| 0 <= i < s.len() && s[i] == x && forall|j: int| 0 <= j < i ==> s[j] != x
    } else {
        -1
    }
}

/// Position of the first occurrence of `a` in `v`, if it occurs.
pub fn position_of(v: &Vec<String>, a: &String) -> (r: Option<usize>)
    ensures
        r matches Some(i) ==> i < v@.len() && v@[i as int]@ == a@ && i == first_pos(ids_of(v@), a@),
        r.is_none() <==> !ids_of(v@).contains(a@),
        r.is_none() ==> first_pos(ids_of(v@), a@) == -1,
{
    let mut i: usize = 0;
    while i < v.len()
        invariant
            i <= v@.len(),
            forall|j: int| 0 <= j < i ==> v@[j]@ != a@,
        decreases v@.len() - i,
    {
        if v[i] == *a {
            proof {
                let s = ids_of(v@);
                assert(s[i as int] == a@);
                assert(forall|j: int| 0 <= j < i ==> s[j] != a@);
                let f = first_pos(s, a@);
                assert(0 <= f < s.len() && s[f] == a@ && forall|j: int| 0 <= j < f ==> s[j] != a@);
                if f < i {
                    assert(s[f] != a@);
                }
                if f > i {
                    assert(s[i as int] != a@);
                }
            }
            return Some(i);
        }
        i = i + 1;
    }
    proof {
        if ids_of(v@).contains(a@) {
            let j = choose|j: int| 0 <= j < ids_of(v@).len() && ids_of(v@)[j] == a@;
            assert(v@[j]@ == a@);
        }
    }
    None
}

/// The direct dependents of `a`: the key of every entry whose dependency list
/// holds `a`, in entry order.
pub fn dependents_of(m: &DependencyMap, a: &String) -> (r: Vec<String>)
    ensures
        ids_of(r@) == m.dependents(a@),
{
    let mut r: Vec<String> = Vec::new();
    let mut i: usize = 0;
    while i < m.entries.len()
        invariant
            i <= m.entries@.len(),
            ids_of(r@) == m.dependents_upto(a@, i as int),
        decreases m.entries@.len() - i,
    {
        let ghost before = r@;
        if contains_id(&m.entries[i].dependencies, a) {
            r.push(m.entries[i].path.clone());
            assert(ids_of(r@) =~= ids_of(before).push(m.entries@[i as int].key()));
        }
        i = i + 1;
    }
    r
}

} // verus!
