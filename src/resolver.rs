//! The resolver: the analyses over a caller's dependency map, with a
//! configured default depth limit.

use vstd::prelude::*;
use crate::analysis::{analysis_complete, analysis_exact, analysis_sound, analyze, DependencyAnalysis};
use crate::cycles::{all_closed_walks, circular_dependencies, cycle_ids, discovered_cycles};
use crate::depth::{chain_depth, chain_depth_from};
use crate::graph::{dependents_of, ids_of, DependencyMap, ResolveError};
use crate::topo::{is_topological_order, topological_order};

verus! {

/// Depth limit of a resolver made by `default`.
pub const DEFAULT_MAX_DEPTH: usize = 100;

/// Runs the analyses; holds no graph between calls, only its default depth limit.
pub struct DependencyResolver {
    pub max_depth: usize,
}

/// The limit that applies: the override if there is one, else the default.
pub open spec fn limit_of(max_depth: Option<usize>, default: usize) -> usize {
    match max_depth {
        Some(l) => l,
        None => default,
    }
}

impl DependencyResolver {
    /// A resolver whose default depth limit is `max_depth`.
    pub fn new(max_depth: usize) -> (r: DependencyResolver)
        ensures
            r.max_depth == max_depth,
    {
        DependencyResolver { max_depth }
    }

    fn limit(&self, max_depth: Option<usize>) -> (r: usize)
        ensures
            r == limit_of(max_depth, self.max_depth),
    {
        match max_depth {
            Some(l) => l,
            None => self.max_depth,
        }
    }

    /// Bounded breadth-first analysis from `asset_path`, with its rows and
    /// revisit markers; see `analyze`.
    pub fn analyze_dependencies(
        &self,
        asset_path: &str,
        map: &DependencyMap,
        max_depth: Option<usize>,
    ) -> (r: Result<DependencyAnalysis, ResolveError>)
        requires
            map.wf(),
        ensures
            r.is_err() <==> !map.has_key(asset_path@),
            r matches Err(e) ==> e == ResolveError::NotFound,
            r matches Ok(a) ==> analysis_exact(*map, asset_path@, limit_of(max_depth, self.max_depth), a)
                && analysis_sound(*map, asset_path@, limit_of(max_depth, self.max_depth), a)
                && analysis_complete(*map, asset_path@, limit_of(max_depth, self.max_depth), a),
    {
        let root = asset_path.to_owned();
        analyze(map, &root, self.limit(max_depth))
    }

    /// The direct dependents of `asset_path`, in entry order.
    pub fn find_dependents(&self, asset_path: &str, map: &DependencyMap) -> (r: Vec<String>)
        ensures
            ids_of(r@) == map.dependents(asset_path@),
    {
        let a = asset_path.to_owned();
        dependents_of(map, &a)
    }

    /// Length of the longest dependency chain from `asset_path` within the limit.
    pub fn calculate_depth(&self, asset_path: &str, map: &DependencyMap, max_depth: Option<usize>) -> (r: usize)
        requires
            map.wf(),
        ensures
            r == chain_depth(*map, asset_path@, limit_of(max_depth, self.max_depth) as nat, Seq::empty()),
    {
        let a = asset_path.to_owned();
        let mut path: Vec<String> = Vec::new();
        let r = chain_depth_from(map, &a, self.limit(max_depth), &mut path);
        assert(ids_of(Seq::<String>::empty()) =~= Seq::<Seq<char>>::empty());
        r
    }

    /// Every cycle that depth-first search from the keys finds within the
    /// limit, in order of discovery; each is a closed walk of `map`.
    pub fn find_circular_dependencies(&self, map: &DependencyMap, max_depth: Option<usize>) -> (r: Vec<Vec<String>>)
        requires
            map.wf(),
        ensures
            cycle_ids(r@) == discovered_cycles(*map, limit_of(max_depth, self.max_depth) as nat),
            all_closed_walks(*map, r@),
    {
        circular_dependencies(map, self.limit(max_depth))
    }

    /// Every identifier of `map`, each after its direct dependencies; fails
    /// with `CyclicGraph` exactly when `map` holds a cycle.
    pub fn topological_sort(&self, map: &DependencyMap) -> (r: Result<Vec<String>, ResolveError>)
        requires
            map.wf(),
        ensures
            r.is_ok() <==> !map.has_cycle(),
            r matches Ok(v) ==> is_topological_order(*map, ids_of(v@)),
            r matches Err(e) ==> e == ResolveError::CyclicGraph,
    {
        topological_order(map)
    }
}

impl Default for DependencyResolver {
    fn default() -> (r: DependencyResolver)
        ensures
            r.max_depth == DEFAULT_MAX_DEPTH,
    {
        DependencyResolver { max_depth: DEFAULT_MAX_DEPTH }
    }
}

} // verus!
