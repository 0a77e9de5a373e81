//! The dependency graph: resolving raw import strings into edges between
//! module identities, building the directed module graph, and answering
//! bounded reachability queries over it.

use vstd::prelude::*;

use crate::dependency_graph_store::{
    add_external_model, model_alias, spec_package_root, try_package_root, DependencyGraphStore,
    StoreModel,
};
use crate::depth_first_expansion::{
    edges_in_range, reach_bounded, DepthFirstExpansion,
};
use crate::file_system::{
    clean, cleaned_path, copy_chars, has_skipped_ext, has_skipped_extension, is_relative_import,
    join, join_paths, parent_dir, parent_of, starts_relative,
};
use crate::module::{Direction, Module, ModuleId};
use crate::module_graph::{
    graph_add_edge, graph_add_node, graph_edges, graph_nodes, graph_with_capacity, ModuleGraph,
};
use crate::tsconfig::TSConfig;

verus! {

// ---------------------------------------------------------------------------
// Resolution: the mathematical fold
// ---------------------------------------------------------------------------

/// A relative import that resolved to no known module: the import string
/// and the path that was tried.
#[derive(Debug)]
pub struct ResolutionError {
    pub dependency: Vec<char>,
    pub tried: Vec<char>,
}

/// A condition that ends the resolution pass.
pub enum ResolveFault {
    /// An owner file had no registered module.
    UnknownOwner { path: Seq<char> },
    /// A dependency string classified as an external package has a
    /// malformed package name.
    MalformedPackageName { dependency: Seq<char> },
}

/// What resolving one raw import string does: the store afterwards, the
/// edge it emits, the error it records, or the fatal condition it hits.
pub struct DepOutcome {
    pub model: StoreModel,
    pub edge: Option<(usize, usize)>,
    pub error: Option<(Seq<char>, Seq<char>)>,
    pub fatal: bool,
}

/// Resolve one raw import string `d` owned by `owner`, whose file sits in
/// the directory `parent`.
///
/// A string with a non-code extension is dropped silently. A relative
/// string is joined under the owner's directory, cleaned, and looked up;
/// a miss records an error. Any other string is looked up as it stands;
/// a miss makes it an external package reference, fatal when its package
/// name is malformed.
pub open spec fn resolve_dep(
    m: StoreModel,
    owner: Module,
    parent: Seq<char>,
    d: Seq<char>,
) -> DepOutcome {
    if has_skipped_extension(d) {
        DepOutcome { model: m, edge: None, error: None, fatal: false }
    } else if is_relative_import(d) {
        let tried = cleaned_path(join_paths(parent, d));
        match model_alias(m, tried) {
            Some(t) => DepOutcome {
                model: m,
                edge: Some((owner.module_id, t.module_id)),
                error: None,
                fatal: false,
            },
            None => DepOutcome { model: m, edge: None, error: Some((d, tried)), fatal: false },
        }
    } else {
        match model_alias(m, d) {
            Some(t) => DepOutcome {
                model: m,
                edge: Some((owner.module_id, t.module_id)),
                error: None,
                fatal: false,
            },
            None => {
                match spec_package_root(d) {
                    None => DepOutcome { model: m, edge: None, error: None, fatal: true },
                    Some(root) => {
                        let (m2, md) = add_external_model(m, d, root);
                        DepOutcome {
                            model: m2,
                            edge: Some((owner.module_id, md.module_id)),
                            error: None,
                            fatal: false,
                        }
                    },
                }
            },
        }
    }
}

/// The state of one owner's resolution: the store, the edges and errors
/// gathered so far, and the dependency that was fatal, if one was.
pub struct DepsOutcome {
    pub model: StoreModel,
    pub edges: Seq<(usize, usize)>,
    pub errors: Seq<(Seq<char>, Seq<char>)>,
    pub fatal: Option<Seq<char>>,
}

/// Resolve the owner's raw import strings from position `j` on, extending
/// the gathered edges and errors.
pub open spec fn resolve_deps_from(
    m: StoreModel,
    owner: Module,
    parent: Seq<char>,
    deps: Seq<Seq<char>>,
    j: int,
    acc_edges: Seq<(usize, usize)>,
    acc_errors: Seq<(Seq<char>, Seq<char>)>,
) -> DepsOutcome
    decreases deps.len() - j,
{
    if j < 0 || j >= deps.len() {
        DepsOutcome { model: m, edges: acc_edges, errors: acc_errors, fatal: None }
    } else {
        let head = resolve_dep(m, owner, parent, deps[j]);
        if head.fatal {
            DepsOutcome { model: head.model, edges: acc_edges, errors: acc_errors, fatal: Some(deps[j]) }
        } else {
            resolve_deps_from(
                head.model,
                owner,
                parent,
                deps,
                j + 1,
                match head.edge {
                    Some(e) => acc_edges.push(e),
                    None => acc_edges,
                },
                match head.error {
                    Some(e) => acc_errors.push(e),
                    None => acc_errors,
                },
            )
        }
    }
}

/// The state of the whole resolution pass.
pub struct ResolveOutcome {
    pub model: StoreModel,
    pub edges: Seq<(usize, usize)>,
    pub groups: Seq<(Seq<char>, Seq<(Seq<char>, Seq<char>)>)>,
    pub fault: Option<ResolveFault>,
}

/// Resolve the owners from position `i` on.
pub open spec fn resolve_from(
    m: StoreModel,
    inputs: Seq<(Seq<char>, Seq<Seq<char>>)>,
    i: int,
    acc_edges: Seq<(usize, usize)>,
    acc_groups: Seq<(Seq<char>, Seq<(Seq<char>, Seq<char>)>)>,
) -> ResolveOutcome
    decreases inputs.len() - i, 1int,
{
    if i < 0 || i >= inputs.len() {
        ResolveOutcome { model: m, edges: acc_edges, groups: acc_groups, fault: None }
    } else {
        let opath = inputs[i].0;
        match model_alias(m, opath) {
            None => ResolveOutcome {
                model: m,
                edges: acc_edges,
                groups: acc_groups,
                fault: Some(ResolveFault::UnknownOwner { path: opath }),
            },
            Some(owner) => resolve_owner_then(
                m,
                inputs,
                i,
                owner,
                inputs[i].1,
                0,
                acc_edges,
                Seq::empty(),
                acc_groups,
            ),
        }
    }
}

/// Finish owner `i` from dependency `j` on, then resolve the remaining
/// owners.
pub open spec fn resolve_owner_then(
    m: StoreModel,
    inputs: Seq<(Seq<char>, Seq<Seq<char>>)>,
    i: int,
    owner: Module,
    deps: Seq<Seq<char>>,
    j: int,
    acc_edges: Seq<(usize, usize)>,
    acc_errors: Seq<(Seq<char>, Seq<char>)>,
    acc_groups: Seq<(Seq<char>, Seq<(Seq<char>, Seq<char>)>)>,
) -> ResolveOutcome
    decreases inputs.len() - i, 0int,
{
    if i < 0 || i >= inputs.len() {
        ResolveOutcome { model: m, edges: acc_edges, groups: acc_groups, fault: None }
    } else {
        let opath = inputs[i].0;
        let inner = resolve_deps_from(m, owner, parent_of(opath), deps, j, acc_edges, acc_errors);
        match inner.fatal {
            Some(dep) => ResolveOutcome {
                model: inner.model,
                edges: inner.edges,
                groups: acc_groups,
                fault: Some(ResolveFault::MalformedPackageName { dependency: dep }),
            },
            None => resolve_from(
                inner.model,
                inputs,
                i + 1,
                inner.edges,
                if inner.errors.len() == 0 {
                    acc_groups
                } else {
                    acc_groups.push((opath, inner.errors))
                },
            ),
        }
    }
}

/// The outcome of the whole resolution pass over the given owners.
pub open spec fn resolution_outcome(
    m: StoreModel,
    inputs: Seq<(Seq<char>, Seq<Seq<char>>)>,
) -> ResolveOutcome {
    resolve_from(m, inputs, 0, Seq::empty(), Seq::empty())
}

// ---------------------------------------------------------------------------
// Views of the executable values
// ---------------------------------------------------------------------------

/// The mathematical view of a list of raw import strings.
pub open spec fn deps_view(ds: Seq<Vec<char>>) -> Seq<Seq<char>> {
    Seq::new(ds.len(), |j: int| ds[j]@)
}

/// The mathematical view of the resolver's input.
pub open spec fn inputs_view(raw: &Vec<(Vec<char>, Vec<Vec<char>>)>) -> Seq<
    (Seq<char>, Seq<Seq<char>>),
> {
    Seq::new(raw@.len(), |i: int| (raw@[i].0@, deps_view(raw@[i].1@)))
}

/// The mathematical view of gathered resolution errors.
pub open spec fn errors_view(es: Seq<ResolutionError>) -> Seq<(Seq<char>, Seq<char>)> {
    Seq::new(es.len(), |j: int| (es[j].dependency@, es[j].tried@))
}

/// The mathematical view of grouped resolution errors.
pub open spec fn groups_view(gs: Seq<(Vec<char>, Vec<ResolutionError>)>) -> Seq<
    (Seq<char>, Seq<(Seq<char>, Seq<char>)>),
> {
    Seq::new(gs.len(), |g: int| (gs[g].0@, errors_view(gs[g].1@)))
}

/// The character sequences of `found` are exactly the members of `s`.
pub open spec fn yields_path_set(found: Seq<Vec<char>>, s: Set<Seq<char>>) -> bool {
    forall|q: Seq<char>|
        (exists|t: int| 0 <= t < found.len() && #[trigger] found[t]@ == q) <==> s.contains(q)
}

// ---------------------------------------------------------------------------
// Laws of resolution
// ---------------------------------------------------------------------------

/// A dependency string with a skipped extension contributes neither an
/// edge nor an error, and leaves the store as it stands.
pub proof fn lemma_skipped_extension_inert(
    m: StoreModel,
    owner: Module,
    parent: Seq<char>,
    d: Seq<char>,
)
    requires
        has_skipped_extension(d),
    ensures
        resolve_dep(m, owner, parent, d) == (DepOutcome {
            model: m,
            edge: None,
            error: None,
            fatal: false,
        }),
{
}

// ---------------------------------------------------------------------------
// The graph
// ---------------------------------------------------------------------------

/// Why a reachability query could not be answered.
#[derive(Clone, Copy, PartialEq, Eq, Structural, Debug)]
pub enum QueryError {
    /// The graph has not been built yet.
    NotBuilt,
    /// The seed path names no known module.
    UnknownPath,
}

/// Why the resolution pass ended without a graph.
#[derive(Debug)]
pub enum ResolveError {
    /// An owner file had no registered module.
    UnknownOwner { path: Vec<char> },
    /// A dependency string classified as an external package has a
    /// malformed package name.
    MalformedPackageName { dependency: Vec<char> },
    /// The resolved modules or edges outgrow the graph's index type.
    GraphTooLarge,
}

/// The module graph over the interning store.
pub struct DependencyGraph {
    dependency_graph_store: DependencyGraphStore,
    graph_data: Option<ModuleGraph>,
}

impl DependencyGraph {
    /// The interning store beneath the graph.
    pub closed spec fn store(&self) -> DependencyGraphStore {
        self.dependency_graph_store
    }

    /// The built graph, if the resolution pass has run.
    pub closed spec fn graph(&self) -> Option<ModuleGraph> {
        self.graph_data
    }

    /// Well-formedness: the store is consistent, and a built graph has one
    /// node per module, in id order, with every edge between nodes.
    pub open spec fn wf(&self) -> bool {
        &&& self.store().wf()
        &&& self.store().aliases_cover_modules()
        &&& match self.graph() {
            Some(g) => {
                &&& graph_nodes(g) == Seq::new(
                    self.store().modules_seq().len(),
                    |i: int| i as usize,
                )
                &&& graph_nodes(g).len() < 0xFFFF_FFFF
                &&& edges_in_range(graph_edges(g), graph_nodes(g).len() as int)
            },
            None => true,
        }
    }

    /// Set up the graph over the scanned source files: interning, module
    /// registration, and the committed alias map; no edges yet.
    pub fn new(paths: &Vec<Vec<char>>, tsconfig: &TSConfig) -> (r: DependencyGraph)
        requires
            forall|i: int, j: int| 0 <= i < j < paths@.len() ==> paths@[i]@ != paths@[j]@,
        ensures
            r.wf(),
            r.graph() is None,
            r.store().source_count() == paths@.len(),
            r.store().modules_seq().len() == paths@.len(),
            forall|t: int| 0 <= t < paths@.len() ==> r.store().paths()[t] == #[trigger] paths@[t]@,
            crate::dependency_graph_store::alias_map_committed(
                r.store(),
                crate::dependency_graph_store::path_views(paths),
                crate::dependency_graph_store::base_view(tsconfig),
            ),
    {
        let dependency_graph_store = DependencyGraphStore::new(paths, tsconfig);
        DependencyGraph { dependency_graph_store, graph_data: None }
    }

    /// Resolve every owner's raw import strings into edges, gather the
    /// per-owner resolution errors, and build the module graph.
    ///
    /// The returned grouping holds one entry per owner with at least one
    /// unresolved relative import, in owner order; `None` when every
    /// import resolved. A fatal condition ends the pass with no graph.
    #[verifier::rlimit(100)]
    pub fn resolve_imports(&mut self, raw_dependencies: &Vec<(Vec<char>, Vec<Vec<char>>)>) -> (r:
        Result<Option<Vec<(Vec<char>, Vec<ResolutionError>)>>, ResolveError>)
        requires
            old(self).wf(),
        ensures
            final(self).wf(),
            ({
                let outcome = resolution_outcome(
                    old(self).store().model(),
                    inputs_view(raw_dependencies),
                );
                match r {
                    Ok(errs) => {
                        &&& outcome.fault is None
                        &&& final(self).store().model() == outcome.model
                        &&& outcome.model.modules.len() < 0xFFFF_FFFF
                        &&& outcome.edges.len() < 0xFFFF_FFFF
                        &&& final(self).graph() is Some
                        &&& graph_nodes(final(self).graph()->Some_0) == Seq::new(
                            outcome.model.modules.len(),
                            |i: int| i as usize,
                        )
                        &&& graph_edges(final(self).graph()->Some_0) == outcome.edges
                        &&& match errs {
                            Some(gs) => outcome.groups.len() > 0 && groups_view(gs@)
                                == outcome.groups,
                            None => outcome.groups.len() == 0,
                        }
                    },
                    Err(e) => {
                        &&& final(self).graph() is None
                        &&& final(self).store().model() == outcome.model
                        &&& match e {
                            ResolveError::UnknownOwner { path } => outcome.fault == Some(
                                ResolveFault::UnknownOwner { path: path@ },
                            ),
                            ResolveError::MalformedPackageName { dependency } => outcome.fault
                                == Some(
                                ResolveFault::MalformedPackageName { dependency: dependency@ },
                            ),
                            ResolveError::GraphTooLarge => outcome.fault is None && (
                            outcome.model.modules.len() >= 0xFFFF_FFFF || outcome.edges.len()
                                >= 0xFFFF_FFFF),
                        }
                    },
                }
            }),
    {
        let ghost m0 = old(self).store().model();
        let ghost iv = inputs_view(raw_dependencies);
        self.graph_data = None;
        let mut edge_list: Vec<(ModuleId, ModuleId)> = Vec::new();
        let mut groups: Vec<(Vec<char>, Vec<ResolutionError>)> = Vec::new();
        proof {
            assert(edge_list@ =~= Seq::<(usize, usize)>::empty());
            assert(groups_view(groups@) =~= Seq::<
                (Seq<char>, Seq<(Seq<char>, Seq<char>)>),
            >::empty());
        }
        let mut i: usize = 0;
        while i < raw_dependencies.len()
            invariant
                self.store().wf(),
                self.store().aliases_cover_modules(),
                self.graph() is None,
                m0 == old(self).store().model(),
                iv == inputs_view(raw_dependencies),
                i <= iv.len(),
                resolution_outcome(m0, iv) == resolve_from(
                    self.store().model(),
                    iv,
                    i as int,
                    edge_list@,
                    groups_view(groups@),
                ),
                forall|t: int|
                    0 <= t < edge_list@.len() ==> (#[trigger] edge_list@[t]).0
                        < self.store().modules_seq().len() && edge_list@[t].1
                        < self.store().modules_seq().len(),
            decreases iv.len() - i,
        {
            let (owner_path, deps) = &raw_dependencies[i];
            let owner = match self.dependency_graph_store.try_get_module_for_path(owner_path) {
                Some(owner) => owner,
                None => {
                    return Err(ResolveError::UnknownOwner { path: copy_chars(owner_path) });
                },
            };
            let parent = parent_dir(owner_path);
            let ghost owner_model = self.store().model();
            let mut errs: Vec<ResolutionError> = Vec::new();
            let mut j: usize = 0;
            proof {
                assert(iv[i as int].0 == owner_path@);
                assert(iv[i as int].1 == deps_view(deps@));
                assert(parent@ == parent_of(iv[i as int].0));
                assert(errors_view(errs@) =~= Seq::<(Seq<char>, Seq<char>)>::empty());
            }
            while j < deps.len()
                invariant
                    self.store().wf(),
                    self.store().aliases_cover_modules(),
                    self.graph() is None,
                    m0 == old(self).store().model(),
                    iv == inputs_view(raw_dependencies),
                    i < iv.len(),
                    iv[i as int].0 == owner_path@,
                    iv[i as int].1 == deps_view(deps@),
                    parent@ == parent_of(iv[i as int].0),
                    j <= deps@.len(),
                    owner.module_id < self.store().modules_seq().len(),
                    resolution_outcome(m0, iv) == resolve_owner_then(
                        self.store().model(),
                        iv,
                        i as int,
                        owner,
                        iv[i as int].1,
                        j as int,
                        edge_list@,
                        errors_view(errs@),
                        groups_view(groups@),
                    ),
                    forall|t: int|
                        0 <= t < edge_list@.len() ==> (#[trigger] edge_list@[t]).0
                            < self.store().modules_seq().len() && edge_list@[t].1
                            < self.store().modules_seq().len(),
                decreases deps@.len() - j,
            {
                let dep = &deps[j];
                proof {
                    assert(iv[i as int].1[j as int] == dep@);
                }
                if has_skipped_ext(dep) {
                } else if starts_relative(dep) {
                    let tried = clean(&join(&parent, dep));
                    match self.dependency_graph_store.try_get_module_for_path(&tried) {
                        Some(t) => {
                            edge_list.push((owner.module_id, t.module_id));
                        },
                        None => {
                            let ghost old_errs = errs@;
                            errs.push(
                                ResolutionError { dependency: copy_chars(dep), tried },
                            );
                            proof {
                                assert(errors_view(errs@) =~= errors_view(old_errs).push(
                                    (dep@, cleaned_path(join_paths(parent@, dep@))),
                                ));
                            }
                        },
                    }
                } else {
                    match self.dependency_graph_store.try_get_module_for_path(dep) {
                        Some(t) => {
                            edge_list.push((owner.module_id, t.module_id));
                        },
                        None => {
                            match try_package_root(dep) {
                                None => {
                                    self.graph_data = None;
                                    return Err(
                                        ResolveError::MalformedPackageName {
                                            dependency: copy_chars(dep),
                                        },
                                    );
                                },
                                Some(_) => {
                                    let md = self.dependency_graph_store.add_node_module(dep);
                                    edge_list.push((owner.module_id, md.module_id));
                                },
                            }
                        },
                    }
                }
                j += 1;
            }
            if errs.len() > 0 {
                let ghost old_groups = groups@;
                groups.push((copy_chars(owner_path), errs));
                proof {
                    assert(groups_view(groups@) =~= groups_view(old_groups).push(
                        (owner_path@, errors_view(groups@[groups@.len() - 1].1@)),
                    ));
                }
            }
            i += 1;
        }
        let module_count = self.dependency_graph_store.modules().len();
        if module_count >= 0xFFFF_FFFF || edge_list.len() >= 0xFFFF_FFFF {
            return Err(ResolveError::GraphTooLarge);
        }
        let mut graph = graph_with_capacity(module_count, edge_list.len());
        let mut z: usize = 0;
        while z < module_count
            invariant
                z <= module_count,
                module_count < 0xFFFF_FFFF,
                graph_nodes(graph) == Seq::new(z as nat, |t: int| t as usize),
                graph_edges(graph) == Seq::<(usize, usize)>::empty(),
            decreases module_count - z,
        {
            let ghost before = graph_nodes(graph);
            graph_add_node(&mut graph, z);
            proof {
                assert(graph_nodes(graph) =~= Seq::new((z + 1) as nat, |t: int| t as usize));
            }
            z += 1;
        }
        let mut w: usize = 0;
        while w < edge_list.len()
            invariant
                w <= edge_list@.len(),
                edge_list@.len() < 0xFFFF_FFFF,
                module_count < 0xFFFF_FFFF,
                module_count == self.store().modules_seq().len(),
                graph_nodes(graph) == Seq::new(module_count as nat, |t: int| t as usize),
                graph_edges(graph) == edge_list@.take(w as int),
                forall|t: int|
                    0 <= t < edge_list@.len() ==> (#[trigger] edge_list@[t]).0 < module_count
                        && edge_list@[t].1 < module_count,
            decreases edge_list@.len() - w,
        {
            let (a, b) = edge_list[w];
            proof {
                assert(edge_list@[w as int].0 == a && edge_list@[w as int].1 == b);
                assert(graph_edges(graph).len() == w as int);
            }
            graph_add_edge(&mut graph, a, b);
            proof {
                assert(graph_edges(graph) =~= edge_list@.take(w + 1));
            }
            w += 1;
        }
        proof {
            assert(edge_list@.take(edge_list@.len() as int) =~= edge_list@);
        }
        self.graph_data = Some(graph);
        let result = if groups.len() > 0 {
            Some(groups)
        } else {
            None
        };
        Ok(result)
    }

    /// The set of source paths reachable from the seed in the chosen
    /// direction within the depth bound.
    pub open spec fn reachable_paths(
        &self,
        seed: Module,
        direction: Direction,
        max_depth: u32,
    ) -> Set<Seq<char>> {
        Set::new(
            |q: Seq<char>|
                exists|v: usize|
                    #![auto]
                    reach_bounded(
                        graph_edges(self.graph()->Some_0),
                        direction,
                        seed.module_id,
                        max_depth,
                    ).contains(v) && v < self.store().modules_seq().len() && q == self.store().paths()[
                        self.store().modules_seq()[v as int].path_id as int
                    ],
        )
    }

    /// Map ascending node indices to the canonical paths of their modules.
    #[verifier::rlimit(100)]
    fn collect_paths(
        &self,
        nodes: &Vec<usize>,
        seed: Ghost<Module>,
        direction: Ghost<Direction>,
        max_depth: Ghost<u32>,
    ) -> (found: Vec<Vec<char>>)
        requires
            self.wf(),
            self.graph() is Some,
            forall|v: usize|
                #[trigger] nodes@.contains(v) <==> reach_bounded(
                    graph_edges(self.graph()->Some_0),
                    direction@,
                    seed@.module_id,
                    max_depth@,
                ).contains(v),
            forall|x: int, y: int| 0 <= x < y < nodes@.len() ==> nodes@[x] < nodes@[y],
            forall|v: usize|
                #[trigger] nodes@.contains(v) ==> (v as int) < self.store().modules_seq().len(),
        ensures
            yields_path_set(found@, self.reachable_paths(seed@, direction@, max_depth@)),
            forall|x: int, y: int| 0 <= x < y < found@.len() ==> found@[x]@ != found@[y]@,
    {
        let mut found: Vec<Vec<char>> = Vec::new();
        let mut t: usize = 0;
        while t < nodes.len()
            invariant
                self.wf(),
                self.graph() is Some,
                t <= nodes@.len(),
                forall|v: usize|
                    #[trigger] nodes@.contains(v) <==> reach_bounded(
                        graph_edges(self.graph()->Some_0),
                        direction@,
                        seed@.module_id,
                        max_depth@,
                    ).contains(v),
                forall|x: int, y: int| 0 <= x < y < nodes@.len() ==> nodes@[x] < nodes@[y],
                forall|v: usize|
                    #[trigger] nodes@.contains(v) ==> (v as int) < self.store().modules_seq().len(),
                found@.len() == t,
                forall|x: int|
                    0 <= x < t ==> #[trigger] found@[x]@ == self.store().paths()[
                        self.store().modules_seq()[nodes@[x] as int].path_id as int
                    ],
            decreases nodes@.len() - t,
        {
            let v = nodes[t];
            proof {
                assert(nodes@.contains(nodes@[t as int]));
                assert((v as int) < self.store().modules_seq().len());
            }
            let md = self.dependency_graph_store.get_module_for_id(v);
            let p = self.dependency_graph_store.get_path_for_module(&md);
            found.push(p);
            t += 1;
        }
        proof {
            assert forall|q: Seq<char>|
                (exists|x: int| 0 <= x < found@.len() && #[trigger] found@[x]@ == q)
                implies self.reachable_paths(seed@, direction@, max_depth@).contains(q) by {
                let x = choose|x: int| 0 <= x < found@.len() && #[trigger] found@[x]@ == q;
                let v = nodes@[x];
                assert(nodes@.contains(v));
            }
            assert forall|q: Seq<char>|
                self.reachable_paths(seed@, direction@, max_depth@).contains(q) implies (exists|
                x: int,
            | 0 <= x < found@.len() && #[trigger] found@[x]@ == q) by {
                let v = choose|v: usize|
                    #![auto]
                    reach_bounded(
                        graph_edges(self.graph()->Some_0),
                        direction@,
                        seed@.module_id,
                        max_depth@,
                    ).contains(v) && v < self.store().modules_seq().len() && q == self.store().paths()[
                        self.store().modules_seq()[v as int].path_id as int
                    ];
                assert(nodes@.contains(v));
                let x = choose|x: int| 0 <= x < nodes@.len() && nodes@[x] == v;
                assert(found@[x]@ == q);
            }
            assert forall|x: int, y: int| 0 <= x < y < found@.len() implies found@[x]@
                != found@[y]@ by {
                let vx = nodes@[x];
                let vy = nodes@[y];
                assert(vx < vy);
                assert(nodes@.contains(vx));
                assert(nodes@.contains(vy));
                assert(self.store().modules_seq()[vx as int].path_id != self.store().modules_seq()[
                    vy as int
                ].path_id);
                assert(self.store().modules_seq()[vx as int].path_id < self.store().paths().len());
                assert(self.store().modules_seq()[vy as int].path_id < self.store().paths().len());
            }
            assert(yields_path_set(
                found@,
                self.reachable_paths(seed@, direction@, max_depth@),
            ));
        }
        found
    }

    /// Answer a reachability query: the canonical paths of every module
    /// within `max_depth` steps of the seed in the chosen direction, a
    /// bound of zero meaning no bound.
    #[verifier::spinoff_prover]
    #[verifier::rlimit(100)]
    pub fn get_all_dependencies(
        &self,
        path: &Vec<char>,
        direction: Direction,
        max_depth: u32,
    ) -> (r: Result<Vec<Vec<char>>, QueryError>)
        requires
            self.wf(),
        ensures
            r is Ok <==> self.graph() is Some && self.store().alias_module(path@) is Some,
            r == Err::<Vec<Vec<char>>, QueryError>(QueryError::NotBuilt) <==> self.graph() is None,
            r == Err::<Vec<Vec<char>>, QueryError>(QueryError::UnknownPath) <==> self.graph() is Some
                && self.store().alias_module(path@) is None,
            r is Ok ==> yields_path_set(
                (r->Ok_0)@,
                self.reachable_paths(
                    self.store().alias_module(path@)->Some_0,
                    direction,
                    max_depth,
                ),
            ),
            r is Ok ==> forall|x: int, y: int|
                0 <= x < y < (r->Ok_0)@.len() ==> (r->Ok_0)@[x]@ != (r->Ok_0)@[y]@,
    {
        let graph = match &self.graph_data {
            Some(g) => g,
            None => {
                return Err(QueryError::NotBuilt);
            },
        };
        let seed = match self.dependency_graph_store.try_get_module_for_path(path) {
            Some(m) => m,
            None => {
                return Err(QueryError::UnknownPath);
            },
        };
        proof {
            assert(seed.module_id < self.store().modules_seq().len());
            assert(graph_nodes(*graph).len() == self.store().modules_seq().len());
        }
        let expansion = DepthFirstExpansion::new(graph, direction, max_depth, seed.module_id);
        let nodes = expansion.run();
        proof {
            let ghost_edges = graph_edges(*graph);
            let ghost_n = self.store().modules_seq().len() as int;
            assert forall|v: usize| #[trigger] nodes@.contains(v) implies (v as int) < ghost_n by {
                if max_depth == 0 {
                    assert(crate::depth_first_expansion::reaches(
                        ghost_edges,
                        direction,
                        seed.module_id,
                        v,
                    ));
                    let dd = choose|dd: nat|
                        crate::depth_first_expansion::reach_up_to(
                            ghost_edges,
                            direction,
                            seed.module_id,
                            dd,
                        ).contains(v);
                    crate::depth_first_expansion::lemma_reach_in_range(
                        ghost_edges,
                        direction,
                        seed.module_id,
                        dd,
                        ghost_n,
                    );
                } else {
                    crate::depth_first_expansion::lemma_reach_in_range(
                        ghost_edges,
                        direction,
                        seed.module_id,
                        max_depth as nat,
                        ghost_n,
                    );
                }
            }
        }
        let found = self.collect_paths(&nodes, Ghost(seed), Ghost(direction), Ghost(max_depth));
        proof {
            assert(seed == self.store().alias_module(path@)->Some_0);
            assert(self.reachable_paths(seed, direction, max_depth) == self.reachable_paths(
                self.store().alias_module(path@)->Some_0,
                direction,
                max_depth,
            ));
            assert(yields_path_set(
                found@,
                self.reachable_paths(
                    self.store().alias_module(path@)->Some_0,
                    direction,
                    max_depth,
                ),
            ));
        }
                Ok(found)
    }

    /// Reachability is reflexive: a query's result always holds the
    /// canonical path of its seed module.
    pub proof fn lemma_query_reflexive(
        &self,
        seed: Module,
        direction: Direction,
        max_depth: u32,
    )
        requires
            self.wf(),
            self.graph() is Some,
            seed.module_id < self.store().modules_seq().len(),
            self.store().modules_seq()[seed.module_id as int] == seed,
        ensures
            self.reachable_paths(seed, direction, max_depth).contains(
                self.store().paths()[seed.path_id as int],
            ),
    {
        crate::depth_first_expansion::lemma_reach_reflexive(
            graph_edges(self.graph()->Some_0),
            direction,
            seed.module_id,
            max_depth,
        );
        assert(self.store().modules_seq()[seed.module_id as int].path_id == seed.path_id);
    }

    /// Every committed alias pair of the underlying store: the spelling
    /// and the canonical path it resolves to, for debug dumps.
    pub fn aliases(&self) -> (r: Vec<(Vec<char>, Vec<char>)>)
        ensures
            forall|t: int| 0 <= t < r@.len() ==> self.store().alias_pair_ok(#[trigger] r@[t]),
            forall|id: crate::module::PathId|
                #[trigger] self.store().alias_ids().contains_key(id) && id
                    < self.store().paths().len() && self.store().alias_ids()[id].path_id
                    < self.store().paths().len() ==> self.store().alias_listed(r@, id),
    {
        self.dependency_graph_store.aliases()
    }

    /// Depth monotonicity: a query with a lower depth bound returns a
    /// subset of one with a higher bound, a bound of zero standing for no
    /// bound.
    pub proof fn lemma_query_depth_monotone(
        &self,
        seed: Module,
        direction: Direction,
        k1: u32,
        k2: u32,
    )
        requires
            self.wf(),
            self.graph() is Some,
            k2 == 0 || (k1 != 0 && k1 <= k2),
        ensures
            self.reachable_paths(seed, direction, k1) <= self.reachable_paths(seed, direction, k2),
    {
        let edges = graph_edges(self.graph()->Some_0);
        crate::depth_first_expansion::lemma_depth_monotone(
            edges,
            direction,
            seed.module_id,
            k1,
            k2,
        );
        assert forall|q: Seq<char>| self.reachable_paths(seed, direction, k1).contains(q)
            implies self.reachable_paths(seed, direction, k2).contains(q) by {
            let v = choose|v: usize|
                #![auto]
                reach_bounded(edges, direction, seed.module_id, k1).contains(v) && v
                    < self.store().modules_seq().len() && q == self.store().paths()[
                    self.store().modules_seq()[v as int].path_id as int
                ];
            assert(reach_bounded(edges, direction, seed.module_id, k2).contains(v));
        }
    }

    /// Direction duality: with no depth bound, module `v`'s path stands
    /// among `u`'s dependencies exactly when `u`'s path stands among `v`'s
    /// dependents.
    #[verifier::rlimit(100)]
    pub proof fn lemma_query_duality(&self, u: Module, v: Module)
        requires
            self.wf(),
            self.graph() is Some,
            u.module_id < self.store().modules_seq().len(),
            v.module_id < self.store().modules_seq().len(),
            self.store().modules_seq()[u.module_id as int] == u,
            self.store().modules_seq()[v.module_id as int] == v,
        ensures
            self.reachable_paths(u, Direction::Outgoing, 0).contains(
                self.store().paths()[v.path_id as int],
            ) == self.reachable_paths(v, Direction::Incoming, 0).contains(
                self.store().paths()[u.path_id as int],
            ),
    {
        let edges = graph_edges(self.graph()->Some_0);
        crate::depth_first_expansion::lemma_reach_duality(edges, u.module_id, v.module_id);
        let pu = self.store().paths()[u.path_id as int];
        let pv = self.store().paths()[v.path_id as int];
        if self.reachable_paths(u, Direction::Outgoing, 0).contains(pv) {
            let w = choose|w: usize|
                #![auto]
                reach_bounded(edges, Direction::Outgoing, u.module_id, 0).contains(w) && w
                    < self.store().modules_seq().len() && pv == self.store().paths()[
                    self.store().modules_seq()[w as int].path_id as int
                ];
            assert(w == v.module_id) by {
                let wp = self.store().modules_seq()[w as int].path_id;
                assert(wp < self.store().paths().len());
                assert(v.path_id < self.store().paths().len());
                if wp != v.path_id {
                    assert(self.store().paths()[wp as int] != self.store().paths()[
                        v.path_id as int
                    ]);
                }
                assert(wp == v.path_id);
                if w as int != v.module_id as int {
                    assert(self.store().modules_seq()[w as int].path_id != self.store(
                    ).modules_seq()[v.module_id as int].path_id);
                }
            }
            assert(crate::depth_first_expansion::reaches(
                edges,
                Direction::Incoming,
                v.module_id,
                u.module_id,
            ));
            assert(reach_bounded(edges, Direction::Incoming, v.module_id, 0).contains(
                u.module_id,
            ));
            assert(pu == self.store().paths()[
                self.store().modules_seq()[u.module_id as int].path_id as int
            ]);
            assert(self.reachable_paths(v, Direction::Incoming, 0).contains(pu));
        }
        if self.reachable_paths(v, Direction::Incoming, 0).contains(pu) {
            let w = choose|w: usize|
                #![auto]
                reach_bounded(edges, Direction::Incoming, v.module_id, 0).contains(w) && w
                    < self.store().modules_seq().len() && pu == self.store().paths()[
                    self.store().modules_seq()[w as int].path_id as int
                ];
            assert(w == u.module_id) by {
                let wp = self.store().modules_seq()[w as int].path_id;
                assert(wp < self.store().paths().len());
                assert(u.path_id < self.store().paths().len());
                if wp != u.path_id {
                    assert(self.store().paths()[wp as int] != self.store().paths()[
                        u.path_id as int
                    ]);
                }
                assert(wp == u.path_id);
                if w as int != u.module_id as int {
                    assert(self.store().modules_seq()[w as int].path_id != self.store(
                    ).modules_seq()[u.module_id as int].path_id);
                }
            }
            assert(crate::depth_first_expansion::reaches(
                edges,
                Direction::Outgoing,
                u.module_id,
                v.module_id,
            ));
            assert(reach_bounded(edges, Direction::Outgoing, u.module_id, 0).contains(
                v.module_id,
            ));
            assert(pv == self.store().paths()[
                self.store().modules_seq()[v.module_id as int].path_id as int
            ]);
            assert(self.reachable_paths(u, Direction::Outgoing, 0).contains(pv));
        }
    }

    /// No dangling edges: every edge of the built graph joins two
    /// registered modules.
    pub proof fn lemma_no_dangling_edges(&self)
        requires
            self.wf(),
            self.graph() is Some,
        ensures
            forall|k: int|
                0 <= k < graph_edges(self.graph()->Some_0).len() ==> (
                #[trigger] graph_edges(self.graph()->Some_0)[k]).0
                    < self.store().modules_seq().len() && graph_edges(self.graph()->Some_0)[k].1
                    < self.store().modules_seq().len(),
    {
    }
}

} // verus!
