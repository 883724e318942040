//! Partitioning the module graph into module groups, and groups into resource pots.
use vstd::prelude::*;
use crate::error::CompilationError;
use crate::module_graph::{
    contains_id, lemma_out_deps_from_edge, lemma_out_deps_has_edge, lists_id, out_deps, report,
    Dependency, GraphEdge, ModuleGraph,
};
use crate::module_group::{ModuleGroup, ModuleGroupMap};
use crate::resource::{pot_kind_of, same_pot_kind, ResourcePot, ResourcePotKind, ResourcePotMap};

verus! {

/// An edge `a -> b` that is not a dynamic import.
pub open spec fn static_edge(edges: Seq<GraphEdge>, a: Seq<char>, b: Seq<char>) -> bool {
    exists|j: int|
        0 <= j < edges.len() && #[trigger] edges[j].from@ == a && edges[j].to@ == b && !(
        edges[j].info.kind is DynamicImport)
}

/// An edge `a -> b` that is a dynamic import.
pub open spec fn dynamic_edge(edges: Seq<GraphEdge>, a: Seq<char>, b: Seq<char>) -> bool {
    exists|j: int|
        0 <= j < edges.len() && #[trigger] edges[j].from@ == a && edges[j].to@ == b
            && edges[j].info.kind is DynamicImport
}

/// A walk along static edges.
pub open spec fn is_static_path(edges: Seq<GraphEdge>, p: Seq<Seq<char>>) -> bool {
    &&& p.len() >= 1
    &&& forall|k: int| 0 <= k < p.len() - 1 ==> static_edge(edges, #[trigger] p[k], p[k + 1])
}

/// Whether `x` is reached from `root` without crossing a dynamic import.
pub open spec fn statically_reachable(edges: Seq<GraphEdge>, root: Seq<char>, x: Seq<char>) -> bool {
    exists|p: Seq<Seq<char>>| #[trigger] is_static_path(edges, p) && p[0] == root && p.last() == x
}

/// Whether no two strings of `ids` hold the same characters.
pub open spec fn unique_ids(ids: Seq<String>) -> bool {
    forall|a: int, b: int| 0 <= a < b < ids.len() ==> #[trigger] ids[a]@ != #[trigger] ids[b]@
}

/// Whether every static edge that leaves one of the first `n` ids of `vis` ends in `vis`.
pub open spec fn closed_upto(edges: Seq<GraphEdge>, vis: Seq<String>, n: int) -> bool {
    forall|j: int|
        #![trigger edges[j]]
        0 <= j < edges.len() && !(edges[j].info.kind is DynamicImport) && (exists|k: int|
            0 <= k < n && #[trigger] vis[k]@ == edges[j].from@) ==> lists_id(vis, edges[j].to@)
}

/// Whether every dynamic edge that leaves one of the first `n` ids of `vis` ends in `dyns`.
pub open spec fn dynamic_upto(edges: Seq<GraphEdge>, vis: Seq<String>, n: int, dyns: Seq<String>) -> bool {
    forall|j: int|
        #![trigger edges[j]]
        0 <= j < edges.len() && edges[j].info.kind is DynamicImport && (exists|k: int|
            0 <= k < n && #[trigger] vis[k]@ == edges[j].from@) ==> lists_id(dyns, edges[j].to@)
}

pub proof fn lemma_root_reachable(edges: Seq<GraphEdge>, root: Seq<char>)
    ensures
        statically_reachable(edges, root, root),
{
    let p = seq![root];
    assert(is_static_path(edges, p));
}

pub proof fn lemma_reach_step(edges: Seq<GraphEdge>, root: Seq<char>, a: Seq<char>, b: Seq<char>)
    requires
        statically_reachable(edges, root, a),
        static_edge(edges, a, b),
    ensures
        statically_reachable(edges, root, b),
{
    let p = choose|p: Seq<Seq<char>>| #[trigger] is_static_path(edges, p) && p[0] == root && p.last() == a;
    let q = p.push(b);
    assert forall|k: int| 0 <= k < q.len() - 1 implies static_edge(edges, #[trigger] q[k], q[k + 1]) by {
        if k < p.len() - 1 {
            assert(q[k] == p[k] && q[k + 1] == p[k + 1]);
        } else {
            assert(q[k] == a && q[k + 1] == b);
        }
    }
    assert(is_static_path(edges, q));
}

/// A set of ids that holds the root and is closed under static edges holds
/// everything the root reaches statically.
pub proof fn lemma_closed_holds_reachable(
    edges: Seq<GraphEdge>,
    root: Seq<char>,
    vis: Seq<String>,
    x: Seq<char>,
)
    requires
        lists_id(vis, root),
        closed_upto(edges, vis, vis.len() as int),
        statically_reachable(edges, root, x),
    ensures
        lists_id(vis, x),
{
    let p = choose|p: Seq<Seq<char>>| #[trigger] is_static_path(edges, p) && p[0] == root && p.last() == x;
    lemma_path_stays_in(edges, vis, p, p.len() - 1);
}

proof fn lemma_path_stays_in(edges: Seq<GraphEdge>, vis: Seq<String>, p: Seq<Seq<char>>, n: int)
    requires
        is_static_path(edges, p),
        lists_id(vis, p[0]),
        closed_upto(edges, vis, vis.len() as int),
        0 <= n < p.len(),
    ensures
        lists_id(vis, p[n]),
    decreases n,
{
    if n > 0 {
        lemma_path_stays_in(edges, vis, p, n - 1);
        assert(static_edge(edges, p[n - 1], p[n]));
        let j = choose|j: int|
            0 <= j < edges.len() && #[trigger] edges[j].from@ == p[n - 1] && edges[j].to@ == p[n]
                && !(edges[j].info.kind is DynamicImport);
        let k = choose|k: int| 0 <= k < vis.len() && #[trigger] vis[k]@ == p[n - 1];
        assert(vis[k]@ == edges[j].from@);
    }
}

/// Unique ids that all name modules of the graph are no more than its modules.
pub proof fn lemma_unique_ids_bound(g: &ModuleGraph, vis: Seq<String>)
    requires
        unique_ids(vis),
        forall|k: int| 0 <= k < vis.len() ==> g.has(#[trigger] vis[k]@),
    ensures
        vis.len() <= g.modules@.len(),
{
    let vs = vis.map_values(|s: String| s@);
    let ids = g.modules@.map_values(|m: crate::module::Module| m.id@);
    assert(vs.no_duplicates()) by {
        assert forall|a: int, b: int| 0 <= a < vs.len() && 0 <= b < vs.len() && a != b implies vs[a]
            != vs[b] by {
            if a < b {
                assert(vis[a]@ != vis[b]@);
            } else {
                assert(vis[b]@ != vis[a]@);
            }
        }
    }
    vs.unique_seq_to_set();
    assert(vs.to_set().subset_of(ids.to_set())) by {
        assert forall|x: Seq<char>| vs.to_set().contains(x) implies ids.to_set().contains(x) by {
            assert(vs.contains(x));
            let k = choose|k: int| 0 <= k < vs.len() && vs[k] == x;
            assert(g.has(vis[k]@));
            let i = choose|i: int| 0 <= i < g.modules@.len() && #[trigger] g.modules@[i].id@ == vis[k]@;
            assert(ids[i] == x);
        }
    }
    ids.lemma_cardinality_of_set();
    vstd::set_lib::lemma_len_subset(vs.to_set(), ids.to_set());
}

/// A dependency reported for `v` comes from an edge that leaves `v`.
proof fn lemma_dep_is_edge(edges: Seq<GraphEdge>, v: Seq<char>, deps: Seq<Dependency>, q: int)
    requires
        deps.to_multiset() == out_deps(edges, v).to_multiset(),
        0 <= q < deps.len(),
    ensures
        exists|j: int| 0 <= j < edges.len() && #[trigger] edges[j].from@ == v && report(edges[j]) == deps[q],
{
    deps.to_multiset_ensures();
    out_deps(edges, v).to_multiset_ensures();
    assert(deps.contains(deps[q]));
    assert(deps.to_multiset().count(deps[q]) > 0);
    assert(out_deps(edges, v).to_multiset().count(deps[q]) > 0);
    lemma_out_deps_from_edge(edges, v, deps[q]);
}

/// An edge that leaves `v` is among the dependencies reported for `v`.
proof fn lemma_edge_is_dep(edges: Seq<GraphEdge>, v: Seq<char>, deps: Seq<Dependency>, j: int)
    requires
        deps.to_multiset() == out_deps(edges, v).to_multiset(),
        0 <= j < edges.len(),
        edges[j].from@ == v,
    ensures
        exists|q: int| 0 <= q < deps.len() && #[trigger] deps[q] == report(edges[j]),
{
    deps.to_multiset_ensures();
    out_deps(edges, v).to_multiset_ensures();
    lemma_out_deps_has_edge(edges, v, j);
    assert(out_deps(edges, v).to_multiset().count(report(edges[j])) > 0);
    assert(deps.to_multiset().count(report(edges[j])) > 0);
    assert(deps.contains(report(edges[j])));
}

pub proof fn lemma_lists_push(ids: Seq<String>, x: String, id: Seq<char>)
    requires
        lists_id(ids, id),
    ensures
        lists_id(ids.push(x), id),
{
    let k = choose|k: int| 0 <= k < ids.len() && #[trigger] ids[k]@ == id;
    assert(ids.push(x)[k] == ids[k]);
}

/// Whether every static edge that leaves one of the first `n` ids of `vis`
/// ends in `vis` or in `stack`.
pub open spec fn pending_upto(edges: Seq<GraphEdge>, vis: Seq<String>, n: int, stack: Seq<String>) -> bool {
    forall|j: int|
        #![trigger edges[j]]
        0 <= j < edges.len() && !(edges[j].info.kind is DynamicImport) && (exists|k: int|
            0 <= k < n && #[trigger] vis[k]@ == edges[j].from@) ==> lists_id(vis, edges[j].to@) || lists_id(stack, edges[j].to@)
}

proof fn lemma_pending_pop(edges: Seq<GraphEdge>, vis: Seq<String>, n: int, s0: Seq<String>, x: String)
    requires
        0 <= n <= vis.len(),
        s0.len() > 0,
        x == s0.last(),
        pending_upto(edges, vis, n, s0),
    ensures
        pending_upto(edges, vis.push(x), n, s0.drop_last()),
        lists_id(vis, x@) ==> pending_upto(edges, vis, n, s0.drop_last()),
{
    let v2 = vis.push(x);
    assert forall|j: int|
        #![trigger edges[j]]
        0 <= j < edges.len() && !(edges[j].info.kind is DynamicImport) && (exists|k: int|
            0 <= k < n && #[trigger] v2[k]@ == edges[j].from@) implies lists_id(v2, edges[j].to@) || lists_id(s0.drop_last(), edges[j].to@) by {
        let k = choose|k: int| 0 <= k < n && #[trigger] v2[k]@ == edges[j].from@;
        if k < vis.len() {
            assert(vis[k] == v2[k]);
        }
        assert(v2[vis.len() as int] == x);
        if lists_id(vis, edges[j].to@) {
            lemma_lists_push(vis, x, edges[j].to@);
        } else if lists_id(s0, edges[j].to@) {
            let q = choose|q: int| 0 <= q < s0.len() && #[trigger] s0[q]@ == edges[j].to@;
            if q < s0.len() - 1 {
                assert(s0.drop_last()[q] == s0[q]);
            } else {
                assert(v2[vis.len() as int]@ == edges[j].to@);
            }
        }
    }
    if lists_id(vis, x@) {
        assert forall|j: int|
            #![trigger edges[j]]
            0 <= j < edges.len() && !(edges[j].info.kind is DynamicImport) && (exists|k: int|
                0 <= k < n && #[trigger] vis[k]@ == edges[j].from@) implies lists_id(vis, edges[j].to@) || lists_id(s0.drop_last(), edges[j].to@) by {
            if !lists_id(vis, edges[j].to@) {
                let q = choose|q: int| 0 <= q < s0.len() && #[trigger] s0[q]@ == edges[j].to@;
                if q < s0.len() - 1 {
                    assert(s0.drop_last()[q] == s0[q]);
                }
            }
        }
    }
}

proof fn lemma_pending_push_stack(edges: Seq<GraphEdge>, vis: Seq<String>, n: int, stack: Seq<String>, y: String)
    requires
        pending_upto(edges, vis, n, stack),
    ensures
        pending_upto(edges, vis, n, stack.push(y)),
{
    assert forall|j: int|
        #![trigger edges[j]]
        0 <= j < edges.len() && !(edges[j].info.kind is DynamicImport) && (exists|k: int|
            0 <= k < n && #[trigger] vis[k]@ == edges[j].from@) implies lists_id(vis, edges[j].to@) || lists_id(stack.push(y), edges[j].to@) by {
        if lists_id(stack, edges[j].to@) {
            lemma_lists_push(stack, y, edges[j].to@);
        }
    }
}

proof fn lemma_dynamic_push_vis(edges: Seq<GraphEdge>, v0: Seq<String>, n: int, dyns: Seq<String>, x: String)
    requires
        0 <= n <= v0.len(),
        dynamic_upto(edges, v0, n, dyns),
    ensures
        dynamic_upto(edges, v0.push(x), n, dyns),
{
    let v2 = v0.push(x);
    assert forall|j: int|
        #![trigger edges[j]]
        0 <= j < edges.len() && edges[j].info.kind is DynamicImport && (exists|k: int|
            0 <= k < n && #[trigger] v2[k]@ == edges[j].from@) implies lists_id(dyns, edges[j].to@) by {
        let k = choose|k: int| 0 <= k < n && #[trigger] v2[k]@ == edges[j].from@;
        assert(v0[k] == v2[k]);
    }
}

proof fn lemma_dynamic_push_dyn(edges: Seq<GraphEdge>, vis: Seq<String>, n: int, dyns: Seq<String>, y: String)
    requires
        dynamic_upto(edges, vis, n, dyns),
    ensures
        dynamic_upto(edges, vis, n, dyns.push(y)),
{
    assert forall|j: int|
        #![trigger edges[j]]
        0 <= j < edges.len() && edges[j].info.kind is DynamicImport && (exists|k: int|
            0 <= k < n && #[trigger] vis[k]@ == edges[j].from@) implies lists_id(dyns.push(y), edges[j].to@) by {
        lemma_lists_push(dyns, y, edges[j].to@);
    }
}

/// Walks the static edges from `root` depth first, each module's
/// dependencies in their order; returns the modules reached in the order
/// first met (the root first, each once), and the targets of the dynamic
/// imports among them.
pub fn collect_group(graph: &ModuleGraph, root: &str) -> (r: (Vec<String>, Vec<String>))
    requires
        graph.wf(),
        graph.has(root@),
    ensures
        r.0@.len() >= 1,
        r.0@[0]@ == root@,
        unique_ids(r.0@),
        forall|k: int|
            0 <= k < r.0@.len() ==> graph.has(#[trigger] r.0@[k]@) && statically_reachable(
                graph.edges@,
                root@,
                r.0@[k]@,
            ),
        forall|x: Seq<char>| statically_reachable(graph.edges@, root@, x) ==> lists_id(r.0@, x),
        closed_upto(graph.edges@, r.0@, r.0@.len() as int),
        dynamic_upto(graph.edges@, r.0@, r.0@.len() as int, r.1@),
        forall|k: int|
            0 <= k < r.1@.len() ==> graph.has(#[trigger] r.1@[k]@) && exists|a: Seq<char>|
                lists_id(r.0@, a) && dynamic_edge(graph.edges@, a, r.1@[k]@),
{
    let ghost edges = graph.edges@;
    let mut vis: Vec<String> = Vec::new();
    let mut dyns: Vec<String> = Vec::new();
    let mut stack: Vec<String> = Vec::new();
    stack.push(String::from_str(root));
    proof {
        lemma_root_reachable(edges, root@);
        assert(stack@[0]@ == root@);
    }
    while stack.len() > 0
        invariant
            graph.wf(),
            edges == graph.edges@,
            graph.has(root@),
            unique_ids(vis@),
            vis@.len() == 0 ==> stack@.len() == 1 && stack@[0]@ == root@,
            vis@.len() > 0 ==> vis@[0]@ == root@,
            forall|k: int|
                0 <= k < vis@.len() ==> graph.has(#[trigger] vis@[k]@) && statically_reachable(edges, root@, vis@[k]@),
            forall|k: int|
                0 <= k < stack@.len() ==> graph.has(#[trigger] stack@[k]@) && statically_reachable(edges, root@, stack@[k]@),
            pending_upto(edges, vis@, vis@.len() as int, stack@),
            dynamic_upto(edges, vis@, vis@.len() as int, dyns@),
            forall|k: int|
                0 <= k < dyns@.len() ==> graph.has(#[trigger] dyns@[k]@) && exists|a: Seq<char>|
                    lists_id(vis@, a) && dynamic_edge(edges, a, dyns@[k]@),
        decreases graph.modules@.len() - vis@.len(), stack@.len(),
    {
        proof {
            lemma_unique_ids_bound(graph, vis@);
        }
        let ghost s0 = stack@;
        let x = match stack.pop() {
            Some(v) => v,
            None => {
                proof {
                    assert(false);
                }
                String::new()
            },
        };
        proof {
            assert(x == s0.last());
            assert(stack@ =~= s0.drop_last());
            assert(graph.has(s0[s0.len() - 1]@));
        }
        if contains_id(&vis, x.as_str()) {
            proof {
                lemma_pending_pop(edges, vis@, vis@.len() as int, s0, x);
            }
        } else {
            let ghost v0 = vis@;
            let ghost d0 = dyns@;
            vis.push(x.clone());
            proof {
                assert(vis@[v0.len() as int] == x);
                assert forall|a: int, b: int| 0 <= a < b < vis@.len() implies #[trigger] vis@[a]@ != #[trigger] vis@[b]@ by {
                    assert(vis@[a] == v0[a]);
                    if b < v0.len() {
                        assert(vis@[b] == v0[b]);
                    }
                }
                assert forall|k: int| 0 <= k < vis@.len() implies graph.has(#[trigger] vis@[k]@) && statically_reachable(edges, root@, vis@[k]@) by {
                    if k < v0.len() {
                        assert(vis@[k] == v0[k]);
                    }
                }
                if v0.len() == 0 {
                    assert(vis@[0]@ == root@);
                } else {
                    assert(vis@[0] == v0[0]);
                }
                lemma_pending_pop(edges, v0, v0.len() as int, s0, x);
                lemma_dynamic_push_vis(edges, v0, v0.len() as int, dyns@, x);
                assert forall|k: int| 0 <= k < dyns@.len() implies graph.has(#[trigger] dyns@[k]@) && exists|a: Seq<char>|
                    lists_id(vis@, a) && dynamic_edge(edges, a, dyns@[k]@) by {
                    let a = choose|a: Seq<char>| lists_id(v0, a) && dynamic_edge(edges, a, dyns@[k]@);
                    lemma_lists_push(v0, x, a);
                }
            }
            let deps = match graph.dependencies(x.as_str()) {
                Ok(d) => d,
                Err(_) => {
                    proof {
                        assert(false);
                    }
                    Vec::new()
                },
            };
            let ghost xv = x@;
            let mut t: usize = deps.len();
            while t > 0
                invariant
                    graph.wf(),
                    edges == graph.edges@,
                    graph.has(root@),
                    unique_ids(vis@),
                    vis@.len() == v0.len() + 1,
                    vis@[v0.len() as int]@ == xv,
                    vis@[0]@ == root@,
                    t <= deps@.len(),
                    deps@.to_multiset() == out_deps(edges, xv).to_multiset(),
                    forall|k: int|
                        0 <= k < vis@.len() ==> graph.has(#[trigger] vis@[k]@) && statically_reachable(edges, root@, vis@[k]@),
                    forall|k: int|
                        0 <= k < stack@.len() ==> graph.has(#[trigger] stack@[k]@) && statically_reachable(edges, root@, stack@[k]@),
                    pending_upto(edges, vis@, v0.len() as int, stack@),
                    dynamic_upto(edges, vis@, v0.len() as int, dyns@),
                    forall|k: int|
                        0 <= k < dyns@.len() ==> graph.has(#[trigger] dyns@[k]@) && exists|a: Seq<char>|
                            lists_id(vis@, a) && dynamic_edge(edges, a, dyns@[k]@),
                    forall|q: int|
                        t <= q < deps@.len() ==> (!((#[trigger] deps@[q]).1.kind is DynamicImport) ==> (lists_id(
                            vis@,
                            deps@[q].0@,
                        ) || lists_id(stack@, deps@[q].0@))) && (deps@[q].1.kind is DynamicImport ==> lists_id(
                            dyns@,
                            deps@[q].0@,
                        )),
                decreases t,
            {
                t = t - 1;
                let d = &deps[t];
                proof {
                    lemma_dep_is_edge(edges, xv, deps@, t as int);
                    assert(lists_id(vis@, xv)) by {
                        assert(vis@[v0.len() as int]@ == xv);
                    }
                }
                let ghost j = choose|j: int|
                    0 <= j < edges.len() && #[trigger] edges[j].from@ == xv && report(edges[j]) == deps@[t as int];
                if d.1.kind.is_dynamic_import() {
                    let ghost before = dyns@;
                    let y = d.0.clone();
                    dyns.push(y);
                    proof {
                        lemma_dynamic_push_dyn(edges, vis@, v0.len() as int, before, y);
                        assert(graph.has(edges[j].to@));
                        assert(dynamic_edge(edges, xv, y@));
                        assert forall|k: int| 0 <= k < dyns@.len() implies graph.has(#[trigger] dyns@[k]@) && exists|a: Seq<char>|
                            lists_id(vis@, a) && dynamic_edge(edges, a, dyns@[k]@) by {
                            if k < before.len() {
                                assert(dyns@[k] == before[k]);
                            } else {
                                assert(dyns@[k] == y);
                            }
                        }
                        assert forall|q: int| t <= q < deps@.len() implies (!((#[trigger] deps@[q]).1.kind is DynamicImport) ==> (lists_id(
                            vis@, deps@[q].0@) || lists_id(stack@, deps@[q].0@))) && (deps@[q].1.kind is DynamicImport ==> lists_id(
                            dyns@, deps@[q].0@)) by {
                            if q > t {
                                if deps@[q].1.kind is DynamicImport {
                                    lemma_lists_push(before, y, deps@[q].0@);
                                }
                            } else {
                                assert(dyns@[before.len() as int] == y);
                            }
                        }
                    }
                } else {
                    let ghost before = stack@;
                    let y = d.0.clone();
                    stack.push(y);
                    proof {
                        lemma_pending_push_stack(edges, vis@, v0.len() as int, before, y);
                        assert(static_edge(edges, xv, y@));
                        lemma_reach_step(edges, root@, xv, y@);
                        assert(graph.has(edges[j].to@));
                        assert forall|k: int| 0 <= k < stack@.len() implies graph.has(#[trigger] stack@[k]@) && statically_reachable(edges, root@, stack@[k]@) by {
                            if k < before.len() {
                                assert(stack@[k] == before[k]);
                            } else {
                                assert(stack@[k] == y);
                            }
                        }
                        assert forall|q: int| t <= q < deps@.len() implies (!((#[trigger] deps@[q]).1.kind is DynamicImport) ==> (lists_id(
                            vis@, deps@[q].0@) || lists_id(stack@, deps@[q].0@))) && (deps@[q].1.kind is DynamicImport ==> lists_id(
                            dyns@, deps@[q].0@)) by {
                            if q > t {
                                if !(deps@[q].1.kind is DynamicImport) && lists_id(before, deps@[q].0@) {
                                    lemma_lists_push(before, y, deps@[q].0@);
                                }
                            } else {
                                assert(stack@[before.len() as int] == y);
                            }
                        }
                    }
                }
            }
            proof {
                lemma_unique_ids_bound(graph, vis@);
                assert forall|j: int|
                    #![trigger edges[j]]
                    0 <= j < edges.len() && !(edges[j].info.kind is DynamicImport) && (exists|k: int|
                        0 <= k < vis@.len() && #[trigger] vis@[k]@ == edges[j].from@) implies lists_id(vis@, edges[j].to@)
                    || lists_id(stack@, edges[j].to@) by {
                    let k = choose|k: int| 0 <= k < vis@.len() && #[trigger] vis@[k]@ == edges[j].from@;
                    if k == v0.len() {
                        lemma_edge_is_dep(edges, xv, deps@, j);
                        let q = choose|q: int| 0 <= q < deps@.len() && #[trigger] deps@[q] == report(edges[j]);
                        assert(deps@[q].1.kind == edges[j].info.kind);
                    } else {
                        assert(exists|k2: int| 0 <= k2 < v0.len() && #[trigger] vis@[k2]@ == edges[j].from@);
                    }
                }
                assert forall|j: int|
                    #![trigger edges[j]]
                    0 <= j < edges.len() && edges[j].info.kind is DynamicImport && (exists|k: int|
                        0 <= k < vis@.len() && #[trigger] vis@[k]@ == edges[j].from@) implies lists_id(dyns@, edges[j].to@) by {
                    let k = choose|k: int| 0 <= k < vis@.len() && #[trigger] vis@[k]@ == edges[j].from@;
                    if k == v0.len() {
                        lemma_edge_is_dep(edges, xv, deps@, j);
                        let q = choose|q: int| 0 <= q < deps@.len() && #[trigger] deps@[q] == report(edges[j]);
                        assert(deps@[q].1.kind == edges[j].info.kind);
                    } else {
                        assert(exists|k2: int| 0 <= k2 < v0.len() && #[trigger] vis@[k2]@ == edges[j].from@);
                    }
                }
            }
        }
    }
    proof {
        assert(vis@.len() > 0);
        assert(closed_upto(edges, vis@, vis@.len() as int)) by {
            assert forall|j: int|
                #![trigger edges[j]]
                0 <= j < edges.len() && !(edges[j].info.kind is DynamicImport) && (exists|k: int|
                    0 <= k < vis@.len() && #[trigger] vis@[k]@ == edges[j].from@) implies lists_id(vis@, edges[j].to@) by {
                if lists_id(stack@, edges[j].to@) {
                    let k = choose|k: int| 0 <= k < stack@.len() && #[trigger] stack@[k]@ == edges[j].to@;
                }
            }
        }
        assert(lists_id(vis@, root@)) by {
            assert(vis@[0]@ == root@);
        }
        assert forall|x: Seq<char>| statically_reachable(edges, root@, x) implies lists_id(vis@, x) by {
            lemma_closed_holds_reachable(edges, root@, vis@, x);
        }
    }
    (vis, dyns)
}

/// Whether the module `x` of the graph lists the group `gid`.
pub open spec fn in_group(graph: &ModuleGraph, x: Seq<char>, gid: Seq<char>) -> bool {
    exists|i: int|
        0 <= i < graph.modules@.len() && #[trigger] graph.modules@[i].id@ == x && lists_id(
            graph.modules@[i].module_groups@,
            gid,
        )
}

/// Whether `g` holds exactly what its root reaches statically, the root first and each once.
pub open spec fn group_exact(edges: Seq<GraphEdge>, g: ModuleGroup) -> bool {
    &&& g.module_ids@.len() >= 1
    &&& g.module_ids@[0]@ == g.id@
    &&& unique_ids(g.module_ids@)
    &&& forall|x: Seq<char>|
        statically_reachable(edges, g.id@, x) <==> #[trigger] lists_id(g.module_ids@, x)
}

/// Whether `b` has the ids, kinds and edges of `a`, and every group that a module of `a` lists.
pub open spec fn same_shape(a: &ModuleGraph, b: &ModuleGraph) -> bool {
    &&& b.wf()
    &&& b.edges@ == a.edges@
    &&& b.entries@ == a.entries@
    &&& b.entries_in_html@ == a.entries_in_html@
    &&& b.modules@.len() == a.modules@.len()
    &&& forall|k: int|
        0 <= k < b.modules@.len() ==> #[trigger] b.modules@[k].id == a.modules@[k].id
            && b.modules@[k].kind == a.modules@[k].kind
    &&& forall|x: Seq<char>, gid: Seq<char>| #[trigger] in_group(a, x, gid) ==> in_group(b, x, gid)
}

proof fn lemma_same_shape_has(a: &ModuleGraph, b: &ModuleGraph, x: Seq<char>)
    requires
        same_shape(a, b),
    ensures
        a.has(x) <==> b.has(x),
{
    if a.has(x) {
        let i = choose|i: int| 0 <= i < a.modules@.len() && #[trigger] a.modules@[i].id@ == x;
        assert(b.modules@[i].id == a.modules@[i].id);
    }
    if b.has(x) {
        let i = choose|i: int| 0 <= i < b.modules@.len() && #[trigger] b.modules@[i].id@ == x;
        assert(b.modules@[i].id == a.modules@[i].id);
    }
}

/// The group rooted at `id`, and the targets of the dynamic imports of its
/// modules. Each module of the group records the group's id.
pub fn module_group_from_entry(id: String, module_graph: &mut ModuleGraph) -> (r: Result<
    (ModuleGroup, Vec<String>),
    CompilationError,
>)
    requires
        old(module_graph).wf(),
    ensures
        same_shape(old(module_graph), final(module_graph)),
        r is Ok <==> old(module_graph).has(id@),
        r is Err ==> r->Err_0 is GenericError,
        r is Ok ==> ({
            let (g, dyns) = r->Ok_0;
            &&& g.id == id
            &&& g.resource_pot_ids@.len() == 0
            &&& group_exact(old(module_graph).edges@, g)
            &&& forall|k: int|
                0 <= k < g.module_ids@.len() ==> old(module_graph).has(#[trigger] g.module_ids@[k]@)
            &&& forall|x: Seq<char>| lists_id(g.module_ids@, x) ==> in_group(final(module_graph), x, id@)
            &&& forall|x: Seq<char>, gid: Seq<char>|
                #[trigger] in_group(final(module_graph), x, gid) ==> in_group(old(module_graph), x, gid) || (gid == id@
                    && lists_id(g.module_ids@, x))
            &&& dynamic_upto(old(module_graph).edges@, g.module_ids@, g.module_ids@.len() as int, dyns@)
            &&& forall|k: int|
                0 <= k < dyns@.len() ==> old(module_graph).has(#[trigger] dyns@[k]@) && exists|a: Seq<char>|
                    lists_id(g.module_ids@, a) && dynamic_edge(old(module_graph).edges@, a, dyns@[k]@)
        }),
{
    if module_graph.index_of(id.as_str()).is_none() {
        return Err(CompilationError::GenericError(String::from_str("module group root is not in the module graph")));
    }
    let (vis, dyns) = collect_group(module_graph, id.as_str());
    let ghost g0 = *module_graph;
    let mut k: usize = 0;
    while k < vis.len()
        invariant
            g0.wf(),
            same_shape(&g0, module_graph),
            forall|q: int| 0 <= q < vis@.len() ==> g0.has(#[trigger] vis@[q]@),
            k <= vis@.len(),
            forall|q: int| 0 <= q < k ==> in_group(module_graph, #[trigger] vis@[q]@, id@),
            forall|x: Seq<char>, gid: Seq<char>|
                #[trigger] in_group(module_graph, x, gid) ==> in_group(&g0, x, gid) || (gid == id@ && lists_id(vis@, x)),
        decreases vis@.len() - k,
    {
        proof {
            lemma_same_shape_has(&g0, module_graph, vis@[k as int]@);
        }
        let idx = match module_graph.index_of(vis[k].as_str()) {
            Some(i) => i,
            None => {
                proof {
                    assert(false);
                }
                0
            },
        };
        let ghost before = *module_graph;
        module_graph.add_module_group(idx, id.as_str());
        proof {
            assert forall|x: Seq<char>, gid: Seq<char>| #[trigger] in_group(&before, x, gid) implies in_group(
                module_graph,
                x,
                gid,
            ) by {
                let i = choose|i: int|
                    0 <= i < before.modules@.len() && #[trigger] before.modules@[i].id@ == x && lists_id(
                        before.modules@[i].module_groups@,
                        gid,
                    );
                assert(module_graph.modules@[i].id == before.modules@[i].id);
                if i != idx {
                    assert(module_graph.modules@[i] == before.modules@[i]);
                }
            }
            assert(module_graph.modules@[idx as int].id == before.modules@[idx as int].id);
            assert(in_group(module_graph, vis@[k as int]@, id@));
            assert forall|x: Seq<char>, gid: Seq<char>|
                #[trigger] in_group(module_graph, x, gid) implies in_group(&g0, x, gid) || (gid == id@ && lists_id(vis@, x)) by {
                let j = choose|j: int|
                    0 <= j < module_graph.modules@.len() && #[trigger] module_graph.modules@[j].id@ == x && lists_id(
                        module_graph.modules@[j].module_groups@,
                        gid,
                    );
                if j != idx {
                    assert(module_graph.modules@[j] == before.modules@[j]);
                    assert(in_group(&before, x, gid));
                } else if lists_id(before.modules@[j].module_groups@, gid) {
                    assert(before.modules@[j].id == module_graph.modules@[j].id);
                    assert(in_group(&before, x, gid));
                } else {
                    assert(gid == id@);
                    assert(vis@[k as int]@ == x);
                }
            }
            assert forall|q: int| 0 <= q < k + 1 implies in_group(module_graph, #[trigger] vis@[q]@, id@) by {
                if q < k {
                    assert(in_group(&before, vis@[q]@, id@));
                }
            }
        }
        k = k + 1;
    }
    let ghost edges = g0.edges@;
    let group = ModuleGroup { id, module_ids: vis, resource_pot_ids: Vec::new() };
    proof {
        assert forall|x: Seq<char>| lists_id(group.module_ids@, x) implies in_group(module_graph, x, group.id@) by {
            let q = choose|q: int| 0 <= q < vis@.len() && #[trigger] vis@[q]@ == x;
            assert(in_group(module_graph, vis@[q]@, group.id@));
        }
        assert forall|x: Seq<char>|
            statically_reachable(edges, group.id@, x) <==> #[trigger] lists_id(group.module_ids@, x) by {
            if lists_id(group.module_ids@, x) {
                let q = choose|q: int| 0 <= q < vis@.len() && #[trigger] vis@[q]@ == x;
                assert(statically_reachable(edges, group.id@, vis@[q]@));
            }
        }
    }
    Ok((group, dyns))
}

/// Whether every dynamic import that leaves a module of `g` ends in a module listed in `roots`.
pub open spec fn dynamic_targets_listed(edges: Seq<GraphEdge>, g: ModuleGroup, roots: Seq<String>) -> bool {
    forall|j: int|
        #![trigger edges[j]]
        0 <= j < edges.len() && edges[j].info.kind is DynamicImport && lists_id(
            g.module_ids@,
            edges[j].from@,
        ) ==> lists_id(roots, edges[j].to@)
}

/// Whether every dynamic import that leaves a module of a group of `map` ends in a group root.
pub open spec fn closed_under_dynamic(edges: Seq<GraphEdge>, map: &ModuleGroupMap) -> bool {
    forall|g: ModuleGroup, j: int|
        #![trigger map.groups@.contains(g), edges[j]]
        map.groups@.contains(g) && 0 <= j < edges.len() && edges[j].info.kind is DynamicImport
            && lists_id(g.module_ids@, edges[j].from@) ==> map.has(edges[j].to@)
}

/// Whether `x` is reached from one of `entries` along edges of any kind.
pub open spec fn reached(edges: Seq<GraphEdge>, entries: Seq<String>, x: Seq<char>) -> bool {
    exists|p: Seq<Seq<char>>| #[trigger] is_path(edges, p) && lists_id(entries, p[0]) && p.last() == x
}

proof fn lemma_reached_step(edges: Seq<GraphEdge>, entries: Seq<String>, a: Seq<char>, b: Seq<char>)
    requires
        reached(edges, entries, a),
        static_edge(edges, a, b) || dynamic_edge(edges, a, b),
    ensures
        reached(edges, entries, b),
{
    let p = choose|p: Seq<Seq<char>>| #[trigger] is_path(edges, p) && lists_id(entries, p[0]) && p.last() == a;
    let q = p.push(b);
    assert forall|k: int| 0 <= k < q.len() - 1 implies (static_edge(edges, #[trigger] q[k], q[k + 1]) || dynamic_edge(edges, q[k], q[k + 1])) by {
        if k < p.len() - 1 {
            assert(q[k] == p[k] && q[k + 1] == p[k + 1]);
        } else {
            assert(q[k] == a && q[k + 1] == b);
        }
    }
    assert(is_path(edges, q));
    assert(q[0] == p[0]);
}

proof fn lemma_reached_static(edges: Seq<GraphEdge>, entries: Seq<String>, r: Seq<char>, a: Seq<char>)
    requires
        reached(edges, entries, r),
        statically_reachable(edges, r, a),
    ensures
        reached(edges, entries, a),
{
    let p = choose|p: Seq<Seq<char>>| #[trigger] is_static_path(edges, p) && p[0] == r && p.last() == a;
    lemma_reached_along(edges, entries, p, p.len() - 1);
}

proof fn lemma_reached_along(edges: Seq<GraphEdge>, entries: Seq<String>, p: Seq<Seq<char>>, n: int)
    requires
        is_static_path(edges, p),
        reached(edges, entries, p[0]),
        0 <= n < p.len(),
    ensures
        reached(edges, entries, p[n]),
    decreases n,
{
    if n > 0 {
        lemma_reached_along(edges, entries, p, n - 1);
        assert(static_edge(edges, p[n - 1], p[n]));
        lemma_reached_step(edges, entries, p[n - 1], p[n]);
    }
}

/// With no entries there is no group: every group is rooted at a module
/// reached from an entry.
pub proof fn law_no_entries_no_groups(edges: Seq<GraphEdge>, entries: Seq<String>, map: &ModuleGroupMap)
    requires
        entries.len() == 0,
        forall|g: ModuleGroup| #[trigger] map.groups@.contains(g) ==> reached(edges, entries, g.id@),
    ensures
        map.groups@.len() == 0,
{
    if map.groups@.len() > 0 {
        let g = map.groups@[0];
        assert(map.groups@.contains(g));
        let p = choose|p: Seq<Seq<char>>| #[trigger] is_path(edges, p) && lists_id(entries, p[0]) && p.last() == g.id@;
    }
}

/// Whether every group that a module of `graph` lists, and `base` does not,
/// is a group of `map` holding that module, or `extra` holding it.
pub open spec fn groups_accounted(
    graph: &ModuleGraph,
    base: &ModuleGraph,
    map: &ModuleGroupMap,
    extra: Option<ModuleGroup>,
) -> bool {
    forall|x: Seq<char>, gid: Seq<char>|
        #[trigger] in_group(graph, x, gid) ==> in_group(base, x, gid) || (exists|g: ModuleGroup|
            #[trigger] map.groups@.contains(g) && g.id@ == gid && lists_id(g.module_ids@, x)) || (extra is Some
            && extra->Some_0.id@ == gid && lists_id(extra->Some_0.module_ids@, x))
}

/// Whether `d` is the target of a dynamic import met from a module of `g`.
pub open spec fn dynamic_from(edges: Seq<GraphEdge>, g: ModuleGroup, d: Seq<char>) -> bool {
    exists|a: Seq<char>| lists_id(g.module_ids@, a) && dynamic_edge(edges, a, d)
}

/// Whether `r` is an entry, or the target of a dynamic import met from a
/// module that one of `roots` reaches statically.
pub open spec fn root_justified(edges: Seq<GraphEdge>, entries: Seq<String>, roots: Seq<String>, r: Seq<char>) -> bool {
    lists_id(entries, r) || exists|m: int, a: Seq<char>|
        0 <= m < roots.len() && #[trigger] statically_reachable(edges, roots[m]@, a) && dynamic_edge(edges, a, r)
}

proof fn lemma_root_justified_push(edges: Seq<GraphEdge>, entries: Seq<String>, roots: Seq<String>, x: String, r: Seq<char>)
    requires
        root_justified(edges, entries, roots, r),
    ensures
        root_justified(edges, entries, roots.push(x), r),
{
    if !lists_id(entries, r) {
        let (m, a) = choose|m: int, a: Seq<char>|
            0 <= m < roots.len() && #[trigger] statically_reachable(edges, roots[m]@, a) && dynamic_edge(edges, a, r);
        assert(roots.push(x)[m] == roots[m]);
        assert(statically_reachable(edges, roots.push(x)[m]@, a));
    }
}

/// Whether every group of `map` is rooted at an entry or at the target of a
/// dynamic import met from another group of `map`.
pub open spec fn roots_justified(edges: Seq<GraphEdge>, entries: Seq<String>, map: &ModuleGroupMap) -> bool {
    forall|g: ModuleGroup|
        #[trigger] map.groups@.contains(g) ==> lists_id(entries, g.id@) || exists|s: Seq<char>, a: Seq<char>|
            #[trigger] statically_reachable(edges, s, a) && map.has(s) && dynamic_edge(edges, a, g.id@)
}

proof fn lemma_same_shape_trans(a: &ModuleGraph, b: &ModuleGraph, c: &ModuleGraph)
    requires
        same_shape(a, b),
        same_shape(b, c),
    ensures
        same_shape(a, c),
{
    assert forall|k: int| 0 <= k < c.modules@.len() implies #[trigger] c.modules@[k].id == a.modules@[k].id
        && c.modules@[k].kind == a.modules@[k].kind by {
        assert(0 <= k < b.modules@.len());
        let mb = b.modules@[k];
        let mc = c.modules@[k];
        let ma = a.modules@[k];
        assert(mb.id == ma.id);
        assert(mb.kind == ma.kind);
        assert(mc.id == mb.id);
        assert(mc.kind == mb.kind);
    }
    assert forall|x: Seq<char>, gid: Seq<char>| #[trigger] in_group(a, x, gid) implies in_group(c, x, gid) by {
        assert(in_group(b, x, gid));
    }
}

proof fn lemma_same_shape_refl(a: &ModuleGraph)
    requires
        a.wf(),
    ensures
        same_shape(a, a),
{
}

/// Groups the modules of the graph: one group for each entry and for each
/// target of a dynamic import met from those groups, transitively.
#[verifier::rlimit(80)]
pub fn analyze_module_graph(module_graph: &mut ModuleGraph) -> (r: ModuleGroupMap)
    requires
        old(module_graph).wf(),
        forall|k: int|
            0 <= k < old(module_graph).entries@.len() ==> old(module_graph).has(
                #[trigger] old(module_graph).entries@[k]@,
            ),
    ensures
        same_shape(old(module_graph), final(module_graph)),
        r.wf(),
        forall|k: int|
            0 <= k < old(module_graph).entries@.len() ==> r.has(
                #[trigger] old(module_graph).entries@[k]@,
            ),
        forall|g: ModuleGroup|
            #[trigger] r.groups@.contains(g) ==> group_exact(old(module_graph).edges@, g) && (forall|x: Seq<char>|
                lists_id(g.module_ids@, x) ==> in_group(final(module_graph), x, g.id@)),
        closed_under_dynamic(old(module_graph).edges@, &r),
        roots_justified(old(module_graph).edges@, old(module_graph).entries@, &r),
        forall|g: ModuleGroup|
            #[trigger] r.groups@.contains(g) ==> reached(old(module_graph).edges@, old(module_graph).entries@, g.id@),
        (forall|i: int| 0 <= i < old(module_graph).modules@.len() ==> (#[trigger] old(module_graph).modules@[i]).module_groups@.len() == 0)
            ==> forall|x: Seq<char>, gid: Seq<char>|
            #[trigger] in_group(final(module_graph), x, gid) ==> exists|g: ModuleGroup|
                #[trigger] r.groups@.contains(g) && g.id@ == gid && lists_id(g.module_ids@, x),
{
    let ghost g0 = *module_graph;
    let ghost edges = g0.edges@;
    let mut roots: Vec<String> = Vec::new();
    let mut e: usize = 0;
    while e < module_graph.entries.len()
        invariant
            *module_graph == g0,
            g0.wf(),
            forall|k: int| 0 <= k < g0.entries@.len() ==> g0.has(#[trigger] g0.entries@[k]@),
            e <= g0.entries@.len(),
            unique_ids(roots@),
            forall|k: int| 0 <= k < roots@.len() ==> g0.has(#[trigger] roots@[k]@),
            forall|k: int| 0 <= k < e ==> lists_id(roots@, #[trigger] g0.entries@[k]@),
            forall|k: int| 0 <= k < roots@.len() ==> lists_id(g0.entries@, #[trigger] roots@[k]@),
        decreases g0.entries@.len() - e,
    {
        if !contains_id(&roots, module_graph.entries[e].as_str()) {
            let ghost before = roots@;
            let x = module_graph.entries[e].clone();
            roots.push(x);
            proof {
                assert(roots@[before.len() as int] == x);
                assert forall|a: int, b: int| 0 <= a < b < roots@.len() implies #[trigger] roots@[a]@
                    != #[trigger] roots@[b]@ by {
                    assert(roots@[a] == before[a]);
                    if b < before.len() {
                        assert(roots@[b] == before[b]);
                    }
                }
                assert forall|k: int| 0 <= k < roots@.len() implies g0.has(#[trigger] roots@[k]@) by {
                    if k < before.len() {
                        assert(roots@[k] == before[k]);
                    }
                }
                assert forall|k: int| 0 <= k < e + 1 implies lists_id(roots@, #[trigger] g0.entries@[k]@) by {
                    if k < e {
                        lemma_lists_push(before, x, g0.entries@[k]@);
                    }
                }
                assert forall|k: int| 0 <= k < roots@.len() implies lists_id(g0.entries@, #[trigger] roots@[k]@) by {
                    if k < before.len() {
                        assert(roots@[k] == before[k]);
                    } else {
                        assert(g0.entries@[e as int]@ == roots@[k]@);
                    }
                }
            }
        }
        e = e + 1;
    }
    let mut map = ModuleGroupMap::new();
    let mut i: usize = 0;
    proof {
        lemma_same_shape_refl(&g0);
    }
    proof {
        assert forall|k: int| 0 <= k < roots@.len() implies reached(edges, g0.entries@, #[trigger] roots@[k]@) by {
            let p = seq![roots@[k]@];
            assert(is_path(edges, p));
            assert(lists_id(g0.entries@, p[0]));
        }
    }
    while i < roots.len()
        invariant
            g0.wf(),
            edges == g0.edges@,
            same_shape(&g0, module_graph),
            unique_ids(roots@),
            forall|k: int| 0 <= k < roots@.len() ==> g0.has(#[trigger] roots@[k]@),
            forall|k: int| 0 <= k < g0.entries@.len() ==> lists_id(roots@, #[trigger] g0.entries@[k]@),
            i <= roots@.len(),
            map.wf(),
            forall|k: int| 0 <= k < i ==> map.has(#[trigger] roots@[k]@),
            forall|k: int| 0 <= k < roots@.len() ==> root_justified(edges, g0.entries@, roots@, #[trigger] roots@[k]@),
            forall|k: int| 0 <= k < roots@.len() ==> reached(edges, g0.entries@, #[trigger] roots@[k]@),
            groups_accounted(module_graph, &g0, &map, None),
            forall|g: ModuleGroup| #[trigger] map.groups@.contains(g) ==> lists_id(roots@, g.id@),
            forall|g: ModuleGroup|
                #[trigger] map.groups@.contains(g) ==> group_exact(edges, g) && (forall|x: Seq<char>|
                    lists_id(g.module_ids@, x) ==> in_group(module_graph, x, g.id@))
                    && dynamic_targets_listed(edges, g, roots@),
        decreases g0.modules@.len() - i,
    {
        proof {
            lemma_unique_ids_bound(&g0, roots@);
            lemma_same_shape_has(&g0, module_graph, roots@[i as int]@);
        }
        let ghost before_graph = *module_graph;
        let (group, dyns) = match module_group_from_entry(roots[i].clone(), module_graph) {
            Ok(v) => v,
            Err(_) => {
                proof {
                    assert(false);
                }
                return map;
            },
        };
        proof {
            lemma_same_shape_trans(&g0, &before_graph, module_graph);
            assert forall|x: Seq<char>, gid: Seq<char>| #[trigger] in_group(module_graph, x, gid) implies in_group(&g0, x, gid)
                || (exists|g: ModuleGroup| #[trigger] map.groups@.contains(g) && g.id@ == gid && lists_id(g.module_ids@, x))
                || (Some(group) is Some && Some(group)->Some_0.id@ == gid && lists_id(Some(group)->Some_0.module_ids@, x)) by {
                if !(gid == roots@[i as int]@ && lists_id(group.module_ids@, x)) {
                    assert(in_group(&before_graph, x, gid));
                }
            }
            assert forall|g: ModuleGroup| #[trigger] map.groups@.contains(g) implies (forall|x: Seq<char>|
                lists_id(g.module_ids@, x) ==> in_group(module_graph, x, g.id@)) by {
                assert forall|x: Seq<char>| lists_id(g.module_ids@, x) implies in_group(module_graph, x, g.id@) by {
                    assert(in_group(&before_graph, x, g.id@));
                }
            }
        }
        proof {
            assert(before_graph.edges@ == edges);
            assert forall|k: int| 0 <= k < dyns@.len() implies #[trigger] dynamic_from(edges, group, dyns@[k]@) by {
                assert(before_graph.has(dyns@[k]@));
            }
        }
        let mut t: usize = 0;
        while t < dyns.len()
            invariant
                g0.wf(),
                edges == g0.edges@,
                same_shape(&g0, module_graph),
                unique_ids(roots@),
                forall|k: int| 0 <= k < roots@.len() ==> g0.has(#[trigger] roots@[k]@),
                forall|k: int| 0 <= k < g0.entries@.len() ==> lists_id(roots@, #[trigger] g0.entries@[k]@),
                i < roots@.len(),
                group.id@ == roots@[i as int]@,
                forall|k: int| 0 <= k < i ==> map.has(#[trigger] roots@[k]@),
                forall|k: int| 0 <= k < roots@.len() ==> root_justified(edges, g0.entries@, roots@, #[trigger] roots@[k]@),
                forall|k: int| 0 <= k < roots@.len() ==> reached(edges, g0.entries@, #[trigger] roots@[k]@),
                groups_accounted(module_graph, &g0, &map, Some(group)),
                group.id@ == roots@[i as int]@,
                forall|g: ModuleGroup| #[trigger] map.groups@.contains(g) ==> lists_id(roots@, g.id@),
                group_exact(edges, group),
                forall|k: int| 0 <= k < dyns@.len() ==> #[trigger] dynamic_from(edges, group, dyns@[k]@),
                forall|g: ModuleGroup|
                    #[trigger] map.groups@.contains(g) ==> dynamic_targets_listed(edges, g, roots@),
                forall|k: int| 0 <= k < dyns@.len() ==> g0.has(#[trigger] dyns@[k]@),
                t <= dyns@.len(),
                forall|q: int| 0 <= q < t ==> lists_id(roots@, #[trigger] dyns@[q]@),
            decreases dyns@.len() - t,
        {
            if !contains_id(&roots, dyns[t].as_str()) {
                let ghost before = roots@;
                let x = dyns[t].clone();
                roots.push(x);
                proof {
                    assert forall|k: int| 0 <= k < roots@.len() implies root_justified(edges, g0.entries@, roots@, #[trigger] roots@[k]@) by {
                        if k < before.len() {
                            assert(roots@[k] == before[k]);
                            lemma_root_justified_push(edges, g0.entries@, before, x, before[k]@);
                        } else {
                            assert(dynamic_from(edges, group, dyns@[t as int]@));
                            let a = choose|a: Seq<char>| lists_id(group.module_ids@, a) && dynamic_edge(edges, a, dyns@[t as int]@);
                            assert(statically_reachable(edges, group.id@, a));
                            assert(roots@[i as int] == before[i as int]);
                            assert(statically_reachable(edges, roots@[i as int]@, a));
                        }
                    }
                    assert forall|g: ModuleGroup| #[trigger] map.groups@.contains(g) implies lists_id(roots@, g.id@) by {
                        lemma_lists_push(before, x, g.id@);
                    }
                    assert forall|k: int| 0 <= k < roots@.len() implies reached(edges, g0.entries@, #[trigger] roots@[k]@) by {
                        if k < before.len() {
                            assert(roots@[k] == before[k]);
                        } else {
                            assert(dynamic_from(edges, group, dyns@[t as int]@));
                            let a = choose|a: Seq<char>| lists_id(group.module_ids@, a) && dynamic_edge(edges, a, dyns@[t as int]@);
                            assert(statically_reachable(edges, group.id@, a));
                            assert(roots@[i as int] == before[i as int]);
                            assert(reached(edges, g0.entries@, before[i as int]@));
                            lemma_reached_static(edges, g0.entries@, roots@[i as int]@, a);
                            lemma_reached_step(edges, g0.entries@, a, roots@[k]@);
                        }
                    }
                    assert(roots@[before.len() as int] == x);
                    assert forall|a: int, b: int| 0 <= a < b < roots@.len() implies #[trigger] roots@[a]@
                        != #[trigger] roots@[b]@ by {
                        assert(roots@[a] == before[a]);
                        if b < before.len() {
                            assert(roots@[b] == before[b]);
                        }
                    }
                    assert forall|k: int| 0 <= k < roots@.len() implies g0.has(#[trigger] roots@[k]@) by {
                        if k < before.len() {
                            assert(roots@[k] == before[k]);
                        }
                    }
                    assert forall|k: int| 0 <= k < g0.entries@.len() implies lists_id(roots@, #[trigger] g0.entries@[k]@) by {
                        lemma_lists_push(before, x, g0.entries@[k]@);
                    }
                    assert forall|k: int| 0 <= k < i implies map.has(#[trigger] roots@[k]@) by {
                        assert(roots@[k] == before[k]);
                    }
                    assert forall|g: ModuleGroup| #[trigger] map.groups@.contains(g) implies dynamic_targets_listed(edges, g, roots@) by {
                        assert forall|j: int|
                            #![trigger edges[j]]
                            0 <= j < edges.len() && edges[j].info.kind is DynamicImport && lists_id(
                                g.module_ids@,
                                edges[j].from@,
                            ) implies lists_id(roots@, edges[j].to@) by {
                            lemma_lists_push(before, x, edges[j].to@);
                        }
                    }
                    assert forall|q: int| 0 <= q < t + 1 implies lists_id(roots@, #[trigger] dyns@[q]@) by {
                        if q < t {
                            lemma_lists_push(before, x, dyns@[q]@);
                        }
                    }
                }
            }
            t = t + 1;
        }
        proof {
            assert forall|j: int|
                #![trigger edges[j]]
                0 <= j < edges.len() && edges[j].info.kind is DynamicImport && lists_id(
                    group.module_ids@,
                    edges[j].from@,
                ) implies lists_id(roots@, edges[j].to@) by {
                let k = choose|k: int| 0 <= k < group.module_ids@.len() && #[trigger] group.module_ids@[k]@ == edges[j].from@;
                assert(lists_id(dyns@, edges[j].to@));
                let q = choose|q: int| 0 <= q < dyns@.len() && #[trigger] dyns@[q]@ == edges[j].to@;
                assert(lists_id(roots@, dyns@[q]@));
            }
        }
        let ghost before_map = map;
        map.insert(group);
        proof {
            assert forall|x: Seq<char>, gid: Seq<char>| #[trigger] in_group(module_graph, x, gid) implies in_group(&g0, x, gid)
                || (exists|g: ModuleGroup| #[trigger] map.groups@.contains(g) && g.id@ == gid && lists_id(g.module_ids@, x)) by {
                if !in_group(&g0, x, gid) {
                    if gid == group.id@ && lists_id(group.module_ids@, x) {
                        assert(map.groups@.contains(group));
                    } else {
                        let g = choose|g: ModuleGroup| #[trigger] before_map.groups@.contains(g) && g.id@ == gid && lists_id(g.module_ids@, x);
                        if g.id@ != group.id@ {
                            assert(map.groups@.contains(g));
                        } else {
                            assert(group_exact(edges, g));
                            assert(statically_reachable(edges, g.id@, x));
                            assert(lists_id(group.module_ids@, x));
                            assert(map.groups@.contains(group));
                        }
                    }
                }
            }
            assert forall|g: ModuleGroup| #[trigger] map.groups@.contains(g) implies lists_id(roots@, g.id@) by {
                if g != group {
                    assert(before_map.groups@.contains(g));
                } else {
                    assert(roots@[i as int]@ == g.id@);
                }
            }
            assert forall|k: int| 0 <= k < i + 1 implies map.has(#[trigger] roots@[k]@) by {
                if k == i {
                    assert(map.has(group.id@));
                } else {
                    assert(before_map.has(roots@[k]@));
                    let gi = choose|gi: int| 0 <= gi < before_map.groups@.len() && #[trigger] before_map.groups@[gi].id@ == roots@[k]@;
                    if before_map.groups@[gi].id@ != group.id@ {
                        assert(map.groups@.contains(before_map.groups@[gi]));
                        let m = choose|m: int| 0 <= m < map.groups@.len() && map.groups@[m] == before_map.groups@[gi];
                        assert(map.groups@[m].id@ == roots@[k]@);
                    } else {
                        assert(map.has(group.id@));
                    }
                }
            }
            assert forall|g: ModuleGroup| #[trigger] map.groups@.contains(g) implies group_exact(edges, g) && (forall|x: Seq<char>|
                lists_id(g.module_ids@, x) ==> in_group(module_graph, x, g.id@))
                && dynamic_targets_listed(edges, g, roots@) by {
                if g != group {
                    assert(before_map.groups@.contains(g));
                }
            }
        }
        i = i + 1;
    }
    proof {
        assert forall|g: ModuleGroup, j: int|
            #![trigger map.groups@.contains(g), edges[j]]
            map.groups@.contains(g) && 0 <= j < edges.len() && edges[j].info.kind is DynamicImport
                && lists_id(g.module_ids@, edges[j].from@) implies map.has(edges[j].to@) by {
            assert(dynamic_targets_listed(edges, g, roots@));
            let k = choose|k: int| 0 <= k < roots@.len() && #[trigger] roots@[k]@ == edges[j].to@;
            assert(map.has(roots@[k]@));
        }
        assert forall|k: int| 0 <= k < g0.entries@.len() implies map.has(#[trigger] g0.entries@[k]@) by {
            let q = choose|q: int| 0 <= q < roots@.len() && #[trigger] roots@[q]@ == g0.entries@[k]@;
            assert(map.has(roots@[q]@));
        }
    }
    proof {
        assert forall|g: ModuleGroup| #[trigger] map.groups@.contains(g) implies lists_id(g0.entries@, g.id@) || exists|s: Seq<char>, a: Seq<char>|
            #[trigger] statically_reachable(edges, s, a) && map.has(s) && dynamic_edge(edges, a, g.id@) by {
            let k = choose|k: int| 0 <= k < roots@.len() && #[trigger] roots@[k]@ == g.id@;
            assert(root_justified(edges, g0.entries@, roots@, roots@[k]@));
            if !lists_id(g0.entries@, g.id@) {
                let (m, a) = choose|m: int, a: Seq<char>|
                    0 <= m < roots@.len() && #[trigger] statically_reachable(edges, roots@[m]@, a) && dynamic_edge(edges, a, g.id@);
                assert(map.has(roots@[m]@));
            }
        }
    }
    proof {
        assert forall|g: ModuleGroup| #[trigger] map.groups@.contains(g) implies reached(edges, g0.entries@, g.id@) by {
            let k = choose|k: int| 0 <= k < roots@.len() && #[trigger] roots@[k]@ == g.id@;
            assert(reached(edges, g0.entries@, roots@[k]@));
        }
    }
    proof {
        if forall|i: int| 0 <= i < g0.modules@.len() ==> (#[trigger] g0.modules@[i]).module_groups@.len() == 0 {
            assert forall|x: Seq<char>, gid: Seq<char>| #[trigger] in_group(module_graph, x, gid) implies exists|g: ModuleGroup|
                #[trigger] map.groups@.contains(g) && g.id@ == gid && lists_id(g.module_ids@, x) by {
                if in_group(&g0, x, gid) {
                    let j = choose|j: int| 0 <= j < g0.modules@.len() && #[trigger] g0.modules@[j].id@ == x && lists_id(
                        g0.modules@[j].module_groups@, gid);
                    assert(g0.modules@[j].module_groups@.len() == 0);
                }
            }
        }
    }
    map
}

/// Whether the module `x` of the graph goes into pots of kind `pk`.
pub open spec fn has_pot_kind(graph: &ModuleGraph, x: Seq<char>, pk: ResourcePotKind) -> bool {
    exists|i: int|
        0 <= i < graph.modules@.len() && #[trigger] graph.modules@[i].id@ == x && same_pot_kind(
            pot_kind_of(graph.modules@[i].kind),
            pk,
        )
}

/// Whether `x` is a module of the group `gid` among `groups`.
pub open spec fn member_of_group(groups: Seq<ModuleGroup>, gid: Seq<char>, x: Seq<char>) -> bool {
    exists|i: int|
        0 <= i < groups.len() && #[trigger] groups[i].id@ == gid && lists_id(groups[i].module_ids@, x)
}

/// Whether `pot` is named after its first module, holds modules of its own kind
/// only, and holds modules of its own group only.
pub open spec fn pot_ok(graph: &ModuleGraph, groups: Seq<ModuleGroup>, pot: ResourcePot) -> bool {
    &&& pot.module_ids@.len() >= 1
    &&& pot.module_ids@[0]@ == pot.id@
    &&& forall|k: int|
        0 <= k < pot.module_ids@.len() ==> has_pot_kind(graph, #[trigger] pot.module_ids@[k]@, pot.kind)
            && member_of_group(groups, pot.module_group_id@, pot.module_ids@[k]@)
}

/// The modules of `ms` that go into pots of kind `kind`, in order.
pub open spec fn bucket(graph: &ModuleGraph, ms: Seq<String>, kind: ResourcePotKind) -> Seq<Seq<char>>
    decreases ms.len(),
{
    if ms.len() == 0 {
        Seq::empty()
    } else {
        let rest = bucket(graph, ms.drop_last(), kind);
        if has_pot_kind(graph, ms.last()@, kind) {
            rest.push(ms.last()@)
        } else {
            rest
        }
    }
}

pub open spec fn id_names(v: Seq<String>) -> Seq<Seq<char>> {
    v.map_values(|s: String| s@)
}

/// Whether `p` holds exactly the modules of its kind of its group, in the
/// group's order.
pub open spec fn pot_exact(graph: &ModuleGraph, groups: Seq<ModuleGroup>, p: ResourcePot) -> bool {
    exists|gi: int|
        0 <= gi < groups.len() && #[trigger] groups[gi].id@ == p.module_group_id@ && id_names(p.module_ids@) == bucket(
            graph,
            groups[gi].module_ids@,
            p.kind,
        )
}

/// The modules of `ms` that are the first of their pot kind, in order.
pub open spec fn firsts(graph: &ModuleGraph, ms: Seq<String>) -> Seq<Seq<char>>
    decreases ms.len(),
{
    if ms.len() == 0 {
        Seq::empty()
    } else {
        let rest = firsts(graph, ms.drop_last());
        if exists|k: ResourcePotKind| #[trigger] has_pot_kind(graph, ms.last()@, k) && bucket(graph, ms.drop_last(), k).len() > 0 {
            rest
        } else {
            rest.push(ms.last()@)
        }
    }
}

proof fn lemma_other_kind(graph: &ModuleGraph, m: Seq<char>, pk: ResourcePotKind, kq: ResourcePotKind)
    requires
        graph.wf(),
        has_pot_kind(graph, m, pk),
        !same_pot_kind(kq, pk),
    ensures
        !has_pot_kind(graph, m, kq),
{
    if has_pot_kind(graph, m, kq) {
        lemma_kind_unique(graph, m, pk, kq);
    }
}

proof fn lemma_bucket_member(graph: &ModuleGraph, ms: Seq<String>, kind: ResourcePotKind)
    requires
        bucket(graph, ms, kind).len() > 0,
    ensures
        exists|q: int| 0 <= q < ms.len() && has_pot_kind(graph, (#[trigger] ms[q])@, kind),
    decreases ms.len(),
{
    if has_pot_kind(graph, ms.last()@, kind) {
        assert(has_pot_kind(graph, ms[ms.len() - 1]@, kind));
    } else {
        lemma_bucket_member(graph, ms.drop_last(), kind);
        let q = choose|q: int| 0 <= q < ms.drop_last().len() && has_pot_kind(graph, (#[trigger] ms.drop_last()[q])@, kind);
        assert(ms[q] == ms.drop_last()[q]);
    }
}

/// Whether every module of every group is in the graph.
pub open spec fn groups_in_graph(graph: &ModuleGraph, groups: Seq<ModuleGroup>) -> bool {
    forall|i: int, k: int|
        0 <= i < groups.len() && 0 <= k < groups[i].module_ids@.len() ==> graph.has(
            #[trigger] groups[i].module_ids@[k]@,
        )
}

/// Whether the module `m` of group `i` has a well-formed pot of its kind,
/// recorded by the group and represented in `result`.
pub open spec fn covered_by_some(
    graph: &ModuleGraph,
    g0: Seq<ModuleGroup>,
    groups: Seq<ModuleGroup>,
    result: &ResourcePotMap,
    i: int,
    m: Seq<char>,
) -> bool {
    exists|x: ResourcePot|
        pot_ok(graph, g0, x) && lists_id(groups[i].resource_pot_ids@, x.id@) && has_pot_kind(graph, m, x.kind)
            && represented(result, x)
}

/// Whether `result` holds a pot with the id and kind of `x`.
pub open spec fn represented(result: &ResourcePotMap, x: ResourcePot) -> bool {
    exists|p: ResourcePot| #[trigger] result.pots@.contains(p) && p.id@ == x.id@ && same_pot_kind(p.kind, x.kind)
}

/// Whether the module `x` of group `i` has, among the pots its group
/// records, one of its own kind that `result` holds.
pub open spec fn member_covered(
    graph: &ModuleGraph,
    groups: Seq<ModuleGroup>,
    result: &ResourcePotMap,
    i: int,
    x: Seq<char>,
) -> bool {
    exists|p: ResourcePot|
        #[trigger] result.pots@.contains(p) && lists_id(groups[i].resource_pot_ids@, p.id@) && has_pot_kind(graph, x, p.kind)
}

proof fn lemma_kind_unique(graph: &ModuleGraph, x: Seq<char>, a: ResourcePotKind, b: ResourcePotKind)
    requires
        graph.wf(),
        has_pot_kind(graph, x, a),
        has_pot_kind(graph, x, b),
    ensures
        same_pot_kind(a, b),
{
    let i = choose|i: int|
        0 <= i < graph.modules@.len() && #[trigger] graph.modules@[i].id@ == x && same_pot_kind(pot_kind_of(graph.modules@[i].kind), a);
    let j = choose|j: int|
        0 <= j < graph.modules@.len() && #[trigger] graph.modules@[j].id@ == x && same_pot_kind(pot_kind_of(graph.modules@[j].kind), b);
    if i != j {
        if i < j {
            assert(graph.modules@[i].id@ != graph.modules@[j].id@);
        } else {
            assert(graph.modules@[j].id@ != graph.modules@[i].id@);
        }
    }
}

proof fn lemma_has_pot_kind_same(graph: &ModuleGraph, x: Seq<char>, a: ResourcePotKind, b: ResourcePotKind)
    requires
        has_pot_kind(graph, x, a),
        same_pot_kind(a, b),
    ensures
        has_pot_kind(graph, x, b),
{
    let i = choose|i: int|
        0 <= i < graph.modules@.len() && #[trigger] graph.modules@[i].id@ == x && same_pot_kind(pot_kind_of(graph.modules@[i].kind), a);
    assert(same_pot_kind(pot_kind_of(graph.modules@[i].kind), b));
}

/// Inserting a well-formed pot keeps every well-formed pot represented.
proof fn lemma_insert_keeps_represented(
    graph: &ModuleGraph,
    g0: Seq<ModuleGroup>,
    before: &ResourcePotMap,
    after: &ResourcePotMap,
    q: ResourcePot,
    x: ResourcePot,
)
    requires
        graph.wf(),
        pot_ok(graph, g0, q),
        pot_ok(graph, g0, x),
        forall|p: ResourcePot| #[trigger] before.pots@.contains(p) ==> pot_ok(graph, g0, p),
        after.pots@.contains(q),
        forall|p: ResourcePot| before.pots@.contains(p) && p.id@ != q.id@ ==> after.pots@.contains(p),
        represented(before, x),
    ensures
        represented(after, x),
{
    let p = choose|p: ResourcePot| #[trigger] before.pots@.contains(p) && p.id@ == x.id@ && same_pot_kind(p.kind, x.kind);
    if p.id@ != q.id@ {
        assert(after.pots@.contains(p));
    } else {
        assert(pot_ok(graph, g0, p));
        assert(has_pot_kind(graph, p.module_ids@[0]@, p.kind));
        assert(has_pot_kind(graph, q.module_ids@[0]@, q.kind));
        lemma_kind_unique(graph, p.id@, p.kind, q.kind);
        assert(same_pot_kind(q.kind, x.kind));
    }
}

proof fn lemma_insert_keeps_coverage(
    graph: &ModuleGraph,
    g0: Seq<ModuleGroup>,
    groups: Seq<ModuleGroup>,
    before: &ResourcePotMap,
    after: &ResourcePotMap,
    q: ResourcePot,
    n: int,
)
    requires
        graph.wf(),
        pot_ok(graph, g0, q),
        forall|p: ResourcePot| #[trigger] before.pots@.contains(p) ==> pot_ok(graph, g0, p),
        after.pots@.contains(q),
        forall|p: ResourcePot| before.pots@.contains(p) && p.id@ != q.id@ ==> after.pots@.contains(p),
        forall|i: int, k: int|
            0 <= i < n && 0 <= k < g0[i].module_ids@.len() ==> covered_by_some(graph, g0, groups, before, i, #[trigger] g0[i].module_ids@[k]@),
    ensures
        forall|i: int, k: int|
            0 <= i < n && 0 <= k < g0[i].module_ids@.len() ==> covered_by_some(graph, g0, groups, after, i, #[trigger] g0[i].module_ids@[k]@),
{
    assert forall|i: int, k: int|
        0 <= i < n && 0 <= k < g0[i].module_ids@.len() implies covered_by_some(graph, g0, groups, after, i, #[trigger] g0[i].module_ids@[k]@) by {
        let x = choose|x: ResourcePot| pot_ok(graph, g0, x) && lists_id(groups[i].resource_pot_ids@, x.id@)
            && has_pot_kind(graph, g0[i].module_ids@[k]@, x.kind) && represented(before, x);
        lemma_insert_keeps_represented(graph, g0, before, after, q, x);
    }
}

/// Buckets the modules of each group by pot kind: one pot per kind and
/// group, named after its first module, which the group records.
#[verifier::rlimit(50)]
pub fn merge_modules(module_group_map: &mut ModuleGroupMap, module_graph: &ModuleGraph) -> (r: Result<
    ResourcePotMap,
    CompilationError,
>)
    requires
        old(module_group_map).wf(),
        module_graph.wf(),
    ensures
        final(module_group_map).wf(),
        final(module_group_map).groups@.len() == old(module_group_map).groups@.len(),
        forall|i: int|
            0 <= i < final(module_group_map).groups@.len() ==> (#[trigger] final(module_group_map).groups@[i]).id
                == old(module_group_map).groups@[i].id && final(module_group_map).groups@[i].module_ids
                == old(module_group_map).groups@[i].module_ids,
        r is Ok <==> groups_in_graph(module_graph, old(module_group_map).groups@),
        r is Err ==> r->Err_0 is GenericError,
        r is Ok ==> r->Ok_0.wf(),
        r is Ok ==> forall|p: ResourcePot|
            #[trigger] r->Ok_0.pots@.contains(p) ==> pot_ok(module_graph, old(module_group_map).groups@, p),
        r is Ok ==> forall|p: ResourcePot|
            #[trigger] r->Ok_0.pots@.contains(p) ==> pot_exact(module_graph, old(module_group_map).groups@, p),
        r is Ok ==> forall|i: int|
            0 <= i < old(module_group_map).groups@.len() ==> id_names(
                (#[trigger] final(module_group_map).groups@[i]).resource_pot_ids@,
            ) == id_names(old(module_group_map).groups@[i].resource_pot_ids@) + firsts(
                module_graph,
                old(module_group_map).groups@[i].module_ids@,
            ),
        r is Ok ==> forall|i: int, k: int|
            0 <= i < old(module_group_map).groups@.len() && 0 <= k < old(module_group_map).groups@[i].module_ids@.len()
                ==> member_covered(module_graph, final(module_group_map).groups@, &r->Ok_0, i,
                #[trigger] old(module_group_map).groups@[i].module_ids@[k]@),
{
    let ghost g0 = module_group_map.groups@;
    let mut result = ResourcePotMap::new();
    let mut gi: usize = 0;
    while gi < module_group_map.groups.len()
        invariant
            module_graph.wf(),
            module_group_map.wf(),
            old(module_group_map).wf(),
            old(module_group_map).groups@ == g0,
            module_group_map.groups@.len() == g0.len(),
            forall|i: int|
                0 <= i < g0.len() ==> (#[trigger] module_group_map.groups@[i]).id == g0[i].id
                    && module_group_map.groups@[i].module_ids == g0[i].module_ids,
            gi <= g0.len(),
            forall|i: int, k: int|
                0 <= i < gi && 0 <= k < g0[i].module_ids@.len() ==> module_graph.has(
                    #[trigger] g0[i].module_ids@[k]@,
                ),
            result.wf(),
            forall|p: ResourcePot| #[trigger] result.pots@.contains(p) ==> pot_ok(module_graph, g0, p),
            forall|p: ResourcePot| #[trigger] result.pots@.contains(p) ==> pot_exact(module_graph, g0, p),
            forall|i: int|
                0 <= i < g0.len() ==> id_names((#[trigger] module_group_map.groups@[i]).resource_pot_ids@) == id_names(
                    g0[i].resource_pot_ids@,
                ) + (if i < gi { firsts(module_graph, g0[i].module_ids@) } else { Seq::empty() }),
            forall|i: int, k: int|
                0 <= i < gi && 0 <= k < g0[i].module_ids@.len() ==> covered_by_some(
                    module_graph,
                    g0,
                    module_group_map.groups@,
                    &result,
                    i,
                    #[trigger] g0[i].module_ids@[k]@,
                ),
        decreases g0.len() - gi,
    {
        let ghost group = g0[gi as int];
        let ghost groups_start = module_group_map.groups@;
        let group_id = module_group_map.groups[gi].id.clone();
        let mut pots: Vec<ResourcePot> = Vec::new();
        let mut new_ids: Vec<String> = Vec::new();
        let mut k: usize = 0;
        let n = module_group_map.groups[gi].module_ids.len();
        while k < n
            invariant
                module_graph.wf(),
                module_group_map.wf(),
                module_group_map.groups@ == groups_start,
                old(module_group_map).wf(),
                old(module_group_map).groups@ == g0,
                module_group_map.groups@.len() == g0.len(),
                forall|i: int|
                    0 <= i < g0.len() ==> (#[trigger] module_group_map.groups@[i]).id == g0[i].id
                        && module_group_map.groups@[i].module_ids == g0[i].module_ids,
                forall|i: int, k: int|
                    0 <= i < gi && 0 <= k < g0[i].module_ids@.len() ==> module_graph.has(
                        #[trigger] g0[i].module_ids@[k]@,
                    ),
                result.wf(),
                forall|p: ResourcePot| #[trigger] result.pots@.contains(p) ==> pot_ok(module_graph, g0, p),
                forall|p: ResourcePot| #[trigger] result.pots@.contains(p) ==> pot_exact(module_graph, g0, p),
                forall|i: int|
                    0 <= i < g0.len() ==> id_names((#[trigger] module_group_map.groups@[i]).resource_pot_ids@) == id_names(
                        g0[i].resource_pot_ids@,
                    ) + (if i < gi { firsts(module_graph, g0[i].module_ids@) } else { Seq::empty() }),
                id_names(new_ids@) == firsts(module_graph, group.module_ids@.take(k as int)),
                forall|q: int| #![trigger pots@[q]] 0 <= q < pots@.len() ==> id_names(pots@[q].module_ids@) == bucket(
                    module_graph, group.module_ids@.take(k as int), pots@[q].kind),
                forall|q1: int, q2: int| 0 <= q1 < pots@.len() && 0 <= q2 < pots@.len() && q1 != q2 ==> !same_pot_kind(
                    (#[trigger] pots@[q1]).kind, (#[trigger] pots@[q2]).kind),
                forall|i: int, k: int|
                    0 <= i < gi && 0 <= k < g0[i].module_ids@.len() ==> covered_by_some(
                        module_graph,
                        g0,
                        module_group_map.groups@,
                        &result,
                        i,
                        #[trigger] g0[i].module_ids@[k]@,
                    ),
                gi < g0.len(),
                module_group_map.groups@[gi as int].module_ids == group.module_ids,
                module_group_map.groups@[gi as int].id == group.id,
                group == g0[gi as int],
                group_id == group.id,
                n == group.module_ids@.len(),
                k <= n,
                forall|q: int| 0 <= q < k ==> module_graph.has(#[trigger] group.module_ids@[q]@),
                forall|q: int| #![trigger pots@[q]] 0 <= q < pots@.len() ==> pots@[q].module_group_id == group_id && pot_ok(module_graph, g0, pots@[q]),
                pots@.len() == new_ids@.len(),
                forall|q: int| #![trigger pots@[q]] 0 <= q < pots@.len() ==> pots@[q].id == new_ids@[q],
                forall|q: int|
                    0 <= q < k ==> exists|t: int| 0 <= t < pots@.len() && has_pot_kind(module_graph, #[trigger] group.module_ids@[q]@, pots@[t].kind),
            decreases n - k,
        {
            let mid = &module_group_map.groups[gi].module_ids[k];
            let idx = match module_graph.index_of(mid.as_str()) {
                Some(i) => i,
                None => {
                    proof {
                        assert(g0[gi as int].module_ids@[k as int] == *mid);
                    }
                    return Err(CompilationError::GenericError(String::from_str("a module of a module group is not in the module graph")));
                },
            };
            let pk = ResourcePotKind::from_module_kind(module_graph.modules[idx].kind.duplicate());
            proof {
                assert(has_pot_kind(module_graph, mid@, pk));
                assert(member_of_group(g0, group_id@, mid@)) by {
                    assert(g0[gi as int].module_ids@[k as int] == *mid);
                }
                assert(group.module_ids@[k as int] == *mid);
            }
            let mut p: usize = 0;
            proof {
                assert(group.module_ids@.take(k + 1).drop_last() =~= group.module_ids@.take(k as int));
                assert(group.module_ids@.take(k + 1).last() == *mid);
            }
            while p < pots.len() && !pots[p].kind.same_as(&pk)
                invariant
                    p <= pots@.len(),
                    forall|q: int| 0 <= q < p ==> !same_pot_kind((#[trigger] pots@[q]).kind, pk),
                decreases pots@.len() - p,
            {
                p = p + 1;
            }
            if p < pots.len() {
                let ghost before = pots@;
                let mut pot = pots.remove(p);
                let m = mid.clone();
                pot.module_ids.push(m);
                proof {
                    assert forall|q: int| 0 <= q < pot.module_ids@.len() implies has_pot_kind(module_graph, #[trigger] pot.module_ids@[q]@, pot.kind)
                        && member_of_group(g0, pot.module_group_id@, pot.module_ids@[q]@) by {
                        if q < pot.module_ids@.len() - 1 {
                            assert(pot.module_ids@[q] == before[p as int].module_ids@[q]);
                        } else {
                            assert(pot.module_ids@[q] == m);
                            lemma_has_pot_kind_same(module_graph, mid@, pk, pot.kind);
                        }
                    }
                }
                pots.insert(p, pot);
                proof {
                    assert forall|q: int| #![trigger pots@[q]] 0 <= q < pots@.len() implies pots@[q].module_group_id == group_id && pot_ok(module_graph, g0, pots@[q]) by {
                        if q != p {
                            assert(pots@[q] == before[q]);
                        }
                    }
                    assert forall|q: int| #![trigger pots@[q]] 0 <= q < pots@.len() implies pots@[q].id == new_ids@[q] by {
                        if q != p {
                            assert(pots@[q] == before[q]);
                        } else {
                            assert(pots@[q].id == before[q].id);
                        }
                    }
                    assert forall|q: int|
                        0 <= q < k + 1 implies exists|t: int| 0 <= t < pots@.len() && has_pot_kind(module_graph, #[trigger] group.module_ids@[q]@, pots@[t].kind) by {
                        if q < k {
                            let t = choose|t: int| 0 <= t < before.len() && has_pot_kind(module_graph, group.module_ids@[q]@, before[t].kind);
                            if t != p {
                                assert(pots@[t] == before[t]);
                            } else {
                                assert(pots@[t].kind == before[t].kind);
                            }
                        } else {
                            lemma_has_pot_kind_same(module_graph, mid@, pk, pots@[p as int].kind);
                        }
                    }
                    let ms1 = group.module_ids@.take(k + 1);
                    assert(ms1.drop_last() =~= group.module_ids@.take(k as int));
                    assert(ms1.last() == *mid);
                    lemma_has_pot_kind_same(module_graph, mid@, pk, before[p as int].kind);
                    assert(pot_ok(module_graph, g0, before[p as int]));
                    assert(id_names(before[p as int].module_ids@).len() > 0);
                    assert(bucket(module_graph, group.module_ids@.take(k as int), before[p as int].kind).len() > 0);
                    assert(has_pot_kind(module_graph, ms1.last()@, before[p as int].kind));
                    assert(firsts(module_graph, ms1) == firsts(module_graph, group.module_ids@.take(k as int)));
                    assert forall|q: int| #![trigger pots@[q]] 0 <= q < pots@.len() implies id_names(pots@[q].module_ids@) == bucket(
                        module_graph, ms1, pots@[q].kind) by {
                        if q != p {
                            assert(pots@[q] == before[q]);
                            assert(!same_pot_kind(before[p as int].kind, before[q].kind));
                            assert(!same_pot_kind(before[q].kind, pk));
                            lemma_other_kind(module_graph, mid@, pk, before[q].kind);
                        } else {
                            lemma_has_pot_kind_same(module_graph, mid@, pk, pots@[q].kind);
                            assert(id_names(pots@[q].module_ids@) =~= id_names(before[q].module_ids@).push(mid@));
                        }
                    }
                    assert forall|q1: int, q2: int| 0 <= q1 < pots@.len() && 0 <= q2 < pots@.len() && q1 != q2 implies !same_pot_kind(
                        (#[trigger] pots@[q1]).kind, (#[trigger] pots@[q2]).kind) by {
                        assert(pots@[q1].kind == before[q1].kind);
                        assert(pots@[q2].kind == before[q2].kind);
                    }
                }
            } else {
                let pot = ResourcePot::new(mid.clone(), pk, group_id.clone());
                let ghost before_ids = new_ids@;
                new_ids.push(mid.clone());
                let ghost before = pots@;
                pots.push(pot);
                proof {
                    assert forall|q: int| #![trigger pots@[q]] 0 <= q < pots@.len() implies pots@[q].module_group_id == group_id && pot_ok(module_graph, g0, pots@[q]) by {
                        if q < before.len() {
                            assert(pots@[q] == before[q]);
                        } else {
                            assert(pots@[q] == pot);
                            assert(pot.module_ids@[0] == *mid);
                        }
                    }
                    assert forall|q: int| #![trigger pots@[q]] 0 <= q < pots@.len() implies pots@[q].id == new_ids@[q] by {
                        if q < before.len() {
                            assert(pots@[q] == before[q]);
                            assert(new_ids@[q] == before_ids[q]);
                        }
                    }
                    assert forall|q: int|
                        0 <= q < k + 1 implies exists|t: int| 0 <= t < pots@.len() && has_pot_kind(module_graph, #[trigger] group.module_ids@[q]@, pots@[t].kind) by {
                        if q < k {
                            let t = choose|t: int| 0 <= t < before.len() && has_pot_kind(module_graph, group.module_ids@[q]@, before[t].kind);
                            assert(pots@[t] == before[t]);
                        } else {
                            assert(pots@[before.len() as int] == pot);
                        }
                    }
                    let ms1 = group.module_ids@.take(k + 1);
                    let ms0 = group.module_ids@.take(k as int);
                    assert(ms1.drop_last() =~= ms0);
                    assert(ms1.last() == *mid);
                    if exists|k0: ResourcePotKind| #[trigger] has_pot_kind(module_graph, ms1.last()@, k0) && bucket(module_graph, ms1.drop_last(), k0).len() > 0 {
                        let k0 = choose|k0: ResourcePotKind| #[trigger] has_pot_kind(module_graph, ms1.last()@, k0) && bucket(module_graph, ms1.drop_last(), k0).len() > 0;
                        lemma_bucket_member(module_graph, ms0, k0);
                        let q0 = choose|q: int| 0 <= q < ms0.len() && has_pot_kind(module_graph, (#[trigger] ms0[q])@, k0);
                        assert(ms0[q0] == group.module_ids@[q0]);
                        let t0 = choose|t: int| 0 <= t < before.len() && has_pot_kind(module_graph, group.module_ids@[q0]@, before[t].kind);
                        lemma_kind_unique(module_graph, group.module_ids@[q0]@, k0, before[t0].kind);
                        lemma_kind_unique(module_graph, mid@, pk, k0);
                        assert(!same_pot_kind(before[t0].kind, pk));
                        assert(false);
                    }
                    assert(firsts(module_graph, ms1) == firsts(module_graph, ms0).push(mid@));
                    assert(id_names(new_ids@) =~= id_names(before_ids).push(mid@));
                    if bucket(module_graph, ms0, pk).len() > 0 {
                        lemma_bucket_member(module_graph, ms0, pk);
                        let q0 = choose|q: int| 0 <= q < ms0.len() && has_pot_kind(module_graph, (#[trigger] ms0[q])@, pk);
                        assert(ms0[q0] == group.module_ids@[q0]);
                        let t0 = choose|t: int| 0 <= t < before.len() && has_pot_kind(module_graph, group.module_ids@[q0]@, before[t].kind);
                        lemma_kind_unique(module_graph, group.module_ids@[q0]@, pk, before[t0].kind);
                        assert(!same_pot_kind(before[t0].kind, pk));
                        assert(false);
                    }
                    assert forall|q: int| #![trigger pots@[q]] 0 <= q < pots@.len() implies id_names(pots@[q].module_ids@) == bucket(
                        module_graph, ms1, pots@[q].kind) by {
                        if q < before.len() {
                            assert(pots@[q] == before[q]);
                            lemma_other_kind(module_graph, mid@, pk, before[q].kind);
                        } else {
                            assert(pots@[q] == pot);
                            assert(id_names(pot.module_ids@) =~= seq![mid@]);
                            assert(bucket(module_graph, ms1, pk) =~= seq![mid@]);
                        }
                    }
                    assert forall|q1: int, q2: int| 0 <= q1 < pots@.len() && 0 <= q2 < pots@.len() && q1 != q2 implies !same_pot_kind(
                        (#[trigger] pots@[q1]).kind, (#[trigger] pots@[q2]).kind) by {
                        if q1 < before.len() && q2 < before.len() {
                            assert(pots@[q1] == before[q1]);
                            assert(pots@[q2] == before[q2]);
                        } else if q1 < before.len() {
                            assert(pots@[q1] == before[q1]);
                            assert(!same_pot_kind(before[q1].kind, pk));
                        } else {
                            assert(pots@[q2] == before[q2]);
                            assert(!same_pot_kind(before[q2].kind, pk));
                        }
                    }
                }
            }
            k = k + 1;
        }
        proof {
            assert(group.module_ids@.take(n as int) =~= group.module_ids@);
            assert forall|q: int| #![trigger pots@[q]] 0 <= q < pots@.len() implies pot_exact(module_graph, g0, pots@[q]) by {
                assert(g0[gi as int].id@ == pots@[q].module_group_id@);
            }
        }
        let ghost local = pots@;
        let ghost ids = new_ids@;
        let mut group_now = module_group_map.groups.remove(gi);
        let ghost rp0 = group_now.resource_pot_ids@;
        let mut t: usize = 0;
        while t < new_ids.len()
            invariant
                group_now.id == group.id,
                group_now.module_ids == group.module_ids,
                t <= new_ids@.len(),
                group_now.resource_pot_ids@ == rp0 + new_ids@.take(t as int),
            decreases new_ids@.len() - t,
        {
            group_now.add_resource_pot_id(new_ids[t].clone());
            proof {
                assert(group_now.resource_pot_ids@ =~= rp0 + new_ids@.take(t + 1));
            }
            t = t + 1;
        }
        proof {
            assert(new_ids@.take(new_ids@.len() as int) =~= new_ids@);
            assert forall|q: int| 0 <= q < local.len() implies lists_id(group_now.resource_pot_ids@, (#[trigger] local[q]).id@) by {
                assert(group_now.resource_pot_ids@[rp0.len() + q] == ids[q]);
            }
        }
        let ghost removed = module_group_map.groups@;
        proof {
            assert(group.module_ids@.take(n as int) =~= group.module_ids@);
            assert(rp0 == groups_start[gi as int].resource_pot_ids@);
            assert(id_names(group_now.resource_pot_ids@) =~= id_names(rp0) + id_names(new_ids@));
        }
        module_group_map.groups.insert(gi, group_now);
        proof {
            assert forall|i: int| 0 <= i < g0.len() implies id_names((#[trigger] module_group_map.groups@[i]).resource_pot_ids@) == id_names(
                g0[i].resource_pot_ids@,
            ) + (if i < gi + 1 { firsts(module_graph, g0[i].module_ids@) } else { Seq::empty() }) by {
                if i < gi {
                    assert(module_group_map.groups@[i] == removed[i]);
                    assert(removed[i] == groups_start[i]);
                } else if i > gi {
                    assert(module_group_map.groups@[i] == removed[i - 1]);
                    assert(removed[i - 1] == groups_start[i]);
                } else {
                    assert(module_group_map.groups@[i] == group_now);
                }
            }
            assert forall|i: int| 0 <= i < g0.len() implies (#[trigger] module_group_map.groups@[i]).id == g0[i].id
                && module_group_map.groups@[i].module_ids == g0[i].module_ids by {
                if i < gi {
                    assert(module_group_map.groups@[i] == removed[i]);
                } else if i > gi {
                    assert(module_group_map.groups@[i] == removed[i - 1]);
                }
            }
            assert forall|a: int, b: int| 0 <= a < b < module_group_map.groups@.len() implies #[trigger] module_group_map.groups@[a].id@
                != #[trigger] module_group_map.groups@[b].id@ by {
                assert(module_group_map.groups@[a].id == g0[a].id);
                assert(module_group_map.groups@[b].id == g0[b].id);
                assert(old(module_group_map).wf());
            }
        }
        let ghost groups_now = module_group_map.groups@;
        proof {
            assert forall|i: int, k: int|
                0 <= i < gi && 0 <= k < g0[i].module_ids@.len() implies covered_by_some(
                    module_graph, g0, groups_now, &result, i, #[trigger] g0[i].module_ids@[k]@) by {
                assert(groups_now[i] == removed[i]);
                assert(removed[i] == groups_start[i]);
                assert(covered_by_some(module_graph, g0, groups_start, &result, i, g0[i].module_ids@[k]@));
            }
        }
        let total = pots.len();
        let mut c: usize = 0;
        while pots.len() > 0
            invariant
                local.len() == total,
                module_graph.wf(),
                result.wf(),
                forall|p: ResourcePot| #[trigger] result.pots@.contains(p) ==> pot_ok(module_graph, g0, p),
                forall|q: int| #![trigger pots@[q]] 0 <= q < pots@.len() ==> pot_ok(module_graph, g0, pots@[q]),
                c + pots@.len() == local.len(),
                pots@ == local.skip(c as int),
                forall|q: int| #![trigger local[q]] 0 <= q < local.len() ==> pot_ok(module_graph, g0, local[q]),
                forall|q: int| #![trigger local[q]] 0 <= q < local.len() ==> pot_exact(module_graph, g0, local[q]),
                forall|p: ResourcePot| #[trigger] result.pots@.contains(p) ==> pot_exact(module_graph, g0, p),
                forall|q: int| #![trigger local[q]] 0 <= q < c ==> represented(&result, local[q]),
                forall|i: int, k: int|
                    0 <= i < gi && 0 <= k < g0[i].module_ids@.len() ==> covered_by_some(
                        module_graph,
                        g0,
                        groups_now,
                        &result,
                        i,
                        #[trigger] g0[i].module_ids@[k]@,
                    ),
            decreases pots@.len(),
        {
            let ghost before = pots@;
            let ghost rb = result;
            let pot = pots.remove(0);
            proof {
                assert(pot == before[0]);
                assert(pots@ =~= local.skip(c + 1));
                assert(local[c as int] == pot);
                assert forall|q: int| #![trigger pots@[q]] 0 <= q < pots@.len() implies pot_ok(module_graph, g0, pots@[q]) by {
                    assert(pots@[q] == before[q + 1]);
                }
            }
            result.insert(pot);
            proof {
                assert forall|p: ResourcePot| #[trigger] result.pots@.contains(p) implies pot_exact(module_graph, g0, p) by {
                    if p != pot {
                        assert(rb.pots@.contains(p));
                    }
                }
                assert forall|q: int| #![trigger local[q]] 0 <= q < c + 1 implies represented(&result, local[q]) by {
                    if q < c {
                        lemma_insert_keeps_represented(module_graph, g0, &rb, &result, pot, local[q]);
                    } else {
                        assert(result.pots@.contains(pot));
                        assert(same_pot_kind(pot.kind, pot.kind));
                    }
                }
                lemma_insert_keeps_coverage(module_graph, g0, groups_now, &rb, &result, pot, gi as int);
            }
            c = c + 1;
        }
        proof {
            assert forall|k: int|
                0 <= k < g0[gi as int].module_ids@.len() implies covered_by_some(
                    module_graph, g0, groups_now, &result, gi as int, #[trigger] g0[gi as int].module_ids@[k]@) by {
                let t = choose|t: int| 0 <= t < local.len() && has_pot_kind(module_graph, group.module_ids@[k]@, local[t].kind);
                assert(lists_id(groups_now[gi as int].resource_pot_ids@, local[t].id@));
                assert(represented(&result, local[t]));
            }
        }
        gi = gi + 1;
    }
    proof {
        assert forall|i: int, k: int|
            0 <= i < g0.len() && 0 <= k < g0[i].module_ids@.len() implies member_covered(
                module_graph, module_group_map.groups@, &result, i, #[trigger] g0[i].module_ids@[k]@) by {
            let x = choose|x: ResourcePot| pot_ok(module_graph, g0, x) && lists_id(module_group_map.groups@[i].resource_pot_ids@, x.id@)
                && has_pot_kind(module_graph, g0[i].module_ids@[k]@, x.kind) && represented(&result, x);
            let p = choose|p: ResourcePot| #[trigger] result.pots@.contains(p) && p.id@ == x.id@ && same_pot_kind(p.kind, x.kind);
            lemma_has_pot_kind_same(module_graph, g0[i].module_ids@[k]@, x.kind, p.kind);
        }
    }
    Ok(result)
}

/// A dynamic import met inside a group starts a group of its own: the
/// target is the root of a group, first among that group's modules.
pub proof fn law_dynamic_import_roots_a_group(edges: Seq<GraphEdge>, map: &ModuleGroupMap, g: ModuleGroup, j: int)
    requires
        map.groups@.contains(g),
        forall|h: ModuleGroup| #[trigger] map.groups@.contains(h) ==> group_exact(edges, h),
        closed_under_dynamic(edges, map),
        0 <= j < edges.len(),
        edges[j].info.kind is DynamicImport,
        lists_id(g.module_ids@, edges[j].from@),
    ensures
        exists|h: ModuleGroup|
            #[trigger] map.groups@.contains(h) && h.id@ == edges[j].to@ && h.module_ids@[0]@ == edges[j].to@,
{
    assert(map.has(edges[j].to@));
    let i = choose|i: int| 0 <= i < map.groups@.len() && #[trigger] map.groups@[i].id@ == edges[j].to@;
    let h = map.groups@[i];
    assert(map.groups@.contains(h));
    assert(group_exact(edges, h));
}

/// A walk along edges of any kind.
pub open spec fn is_path(edges: Seq<GraphEdge>, p: Seq<Seq<char>>) -> bool {
    &&& p.len() >= 1
    &&& forall|k: int| 0 <= k < p.len() - 1 ==> (static_edge(edges, #[trigger] p[k], p[k + 1]) || dynamic_edge(edges, p[k], p[k + 1]))
}

/// Whether `x` is reached from one of the configured entries of `graph`.
pub open spec fn reachable_from_entry(graph: &ModuleGraph, x: Seq<char>) -> bool {
    exists|p: Seq<Seq<char>>| #[trigger] is_path(graph.edges@, p) && lists_id(graph.entries@, p[0]) && p.last() == x
}

/// Whether `x` is a module of some group of `map`.
pub open spec fn in_some_group(map: &ModuleGroupMap, x: Seq<char>) -> bool {
    exists|g: ModuleGroup| #[trigger] map.groups@.contains(g) && lists_id(g.module_ids@, x)
}

proof fn lemma_walk_in_groups(edges: Seq<GraphEdge>, map: &ModuleGroupMap, p: Seq<Seq<char>>, n: int)
    requires
        is_path(edges, p),
        0 <= n < p.len(),
        in_some_group(map, p[0]),
        forall|g: ModuleGroup| #[trigger] map.groups@.contains(g) ==> group_exact(edges, g),
        closed_under_dynamic(edges, map),
    ensures
        in_some_group(map, p[n]),
    decreases n,
{
    if n > 0 {
        lemma_walk_in_groups(edges, map, p, n - 1);
        let g = choose|g: ModuleGroup| #[trigger] map.groups@.contains(g) && lists_id(g.module_ids@, p[n - 1]);
        assert(group_exact(edges, g));
        if static_edge(edges, p[n - 1], p[n]) {
            assert(statically_reachable(edges, g.id@, p[n - 1]));
            lemma_reach_step(edges, g.id@, p[n - 1], p[n]);
            assert(lists_id(g.module_ids@, p[n]));
        } else {
            assert(dynamic_edge(edges, p[n - 1], p[n]));
            let j = choose|j: int|
                0 <= j < edges.len() && #[trigger] edges[j].from@ == p[n - 1] && edges[j].to@ == p[n]
                    && edges[j].info.kind is DynamicImport;
            assert(map.has(edges[j].to@));
            let i = choose|i: int| 0 <= i < map.groups@.len() && #[trigger] map.groups@[i].id@ == p[n];
            let h = map.groups@[i];
            assert(map.groups@.contains(h));
            assert(group_exact(edges, h));
            lemma_root_reachable(edges, h.id@);
            assert(lists_id(h.module_ids@, p[n]));
        }
    }
}

/// Grouping leaves no module behind: every module that an entry reaches
/// belongs to at least one group, and every group holds its own root, first.
pub proof fn law_every_module_grouped(before: &ModuleGraph, after: &ModuleGraph, map: &ModuleGroupMap, x: Seq<char>)
    requires
        before.wf(),
        same_shape(before, after),
        forall|k: int| 0 <= k < before.entries@.len() ==> map.has(#[trigger] before.entries@[k]@),
        forall|g: ModuleGroup|
            #[trigger] map.groups@.contains(g) ==> group_exact(before.edges@, g),
        closed_under_dynamic(before.edges@, map),
        reachable_from_entry(before, x),
    ensures
        in_some_group(map, x),
        forall|g: ModuleGroup| #[trigger] map.groups@.contains(g) ==> g.module_ids@[0]@ == g.id@,
{
    let edges = before.edges@;
    let p = choose|p: Seq<Seq<char>>| #[trigger] is_path(edges, p) && lists_id(before.entries@, p[0]) && p.last() == x;
    let k = choose|k: int| 0 <= k < before.entries@.len() && #[trigger] before.entries@[k]@ == p[0];
    assert(map.has(before.entries@[k]@));
    let i = choose|i: int| 0 <= i < map.groups@.len() && #[trigger] map.groups@[i].id@ == p[0];
    let h = map.groups@[i];
    assert(map.groups@.contains(h));
    lemma_root_reachable(edges, h.id@);
    assert(lists_id(h.module_ids@, p[0]));
    lemma_walk_in_groups(edges, map, p, p.len() - 1);
}

} // verus!

verus! {

/// The plugin that groups modules and merges groups into pots.
#[derive(Debug, Clone)]
pub struct PluginModules {}

impl PluginModules {
    pub fn new() -> (r: PluginModules) {
        PluginModules {}
    }
}

} // verus!
