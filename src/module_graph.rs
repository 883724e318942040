//! The module graph: modules keyed by a unique id, and ordered edges between them.
use vstd::prelude::*;
use crate::error::CompilationError;
use crate::module::{Module, ResolveKind};
use crate::text::str_eq;

verus! {

/// What an edge between two modules records.
#[derive(Debug, Clone, PartialEq, Eq)]
pub struct ModuleGraphEdge {
    pub kind: ResolveKind,
    /// The specifier as written in the importer, for example `./index.css`.
    pub source: String,
    /// The position of this reference among the importer's references, from 0.
    pub order: usize,
}

impl ModuleGraphEdge {
    /// A copy of this edge.
    pub fn duplicate(&self) -> (r: ModuleGraphEdge)
        ensures
            r == *self,
    {
        ModuleGraphEdge { kind: self.kind.duplicate(), source: self.source.clone(), order: self.order }
    }
}

/// An edge `from -> to` as the graph stores it.
#[derive(Debug, Clone)]
pub struct GraphEdge {
    pub from: String,
    pub to: String,
    pub info: ModuleGraphEdge,
}

/// A dependency as `dependencies` reports it: the target id and the edge.
pub type Dependency = (String, ModuleGraphEdge);

/// How a dependency reports the stored edge `e`.
pub open spec fn report(e: GraphEdge) -> Dependency {
    (e.to, e.info)
}

/// The edges of `edges` that leave `id`, in the order they were added, as dependencies.
pub open spec fn out_deps(edges: Seq<GraphEdge>, id: Seq<char>) -> Seq<Dependency>
    decreases edges.len(),
{
    if edges.len() == 0 {
        Seq::empty()
    } else if edges.last().from@ == id {
        out_deps(edges.drop_last(), id).push(report(edges.last()))
    } else {
        out_deps(edges.drop_last(), id)
    }
}

/// Every edge that leaves `id` is reported among its dependencies.
pub proof fn lemma_out_deps_has_edge(edges: Seq<GraphEdge>, id: Seq<char>, j: int)
    requires
        0 <= j < edges.len(),
        edges[j].from@ == id,
    ensures
        out_deps(edges, id).contains(report(edges[j])),
    decreases edges.len(),
{
    let rest = out_deps(edges.drop_last(), id);
    if j == edges.len() - 1 {
        assert(out_deps(edges, id).last() == report(edges[j]));
    } else {
        lemma_out_deps_has_edge(edges.drop_last(), id, j);
        let k = choose|k: int| 0 <= k < rest.len() && rest[k] == report(edges[j]);
        if edges.last().from@ == id {
            assert(out_deps(edges, id)[k] == rest[k]);
        }
    }
}

/// Every dependency of `id` reports an edge that leaves `id`.
pub proof fn lemma_out_deps_from_edge(edges: Seq<GraphEdge>, id: Seq<char>, d: Dependency)
    requires
        out_deps(edges, id).contains(d),
    ensures
        exists|j: int| 0 <= j < edges.len() && edges[j].from@ == id && report(edges[j]) == d,
    decreases edges.len(),
{
    let rest = out_deps(edges.drop_last(), id);
    let k = choose|k: int| 0 <= k < out_deps(edges, id).len() && out_deps(edges, id)[k] == d;
    if edges.last().from@ == id && k == rest.len() {
        assert(edges[edges.len() - 1].from@ == id && report(edges[edges.len() - 1]) == d);
    } else {
        assert(rest[k] == d);
        lemma_out_deps_from_edge(edges.drop_last(), id, d);
        let j = choose|j: int|
            0 <= j < edges.drop_last().len() && edges.drop_last()[j].from@ == id && report(
                edges.drop_last()[j],
            ) == d;
        assert(edges[j] == edges.drop_last()[j]);
    }
}

/// Inserting `x` anywhere adds one `x` to the multiset of a sequence.
pub proof fn lemma_insert_to_multiset<A>(s: Seq<A>, p: int, x: A)
    requires
        0 <= p <= s.len(),
    ensures
        s.insert(p, x).to_multiset() == s.to_multiset().insert(x),
{
    let t = s.insert(p, x);
    s.insert_ensures(p, x);
    assert(t.remove(p) =~= s);
    t.to_multiset_ensures();
    assert(t.to_multiset().count(x) > 0) by {
        assert(t[p] == x);
        assert(t.contains(x));
    }
    assert(t.to_multiset() =~= s.to_multiset().insert(x));
}

/// Whether the orders of `deps` do not decrease.
pub open spec fn sorted_by_order(deps: Seq<Dependency>) -> bool {
    forall|a: int, b: int| 0 <= a < b < deps.len() ==> deps[a].1.order <= deps[b].1.order
}

/// The directed graph of modules. Ids are unique, and every edge joins two
/// modules of the graph.
#[derive(Debug, Clone)]
pub struct ModuleGraph {
    pub modules: Vec<Module>,
    pub edges: Vec<GraphEdge>,
    /// The ids of the configured entries.
    pub entries: Vec<String>,
    /// The ids of the scripts and stylesheets that entry documents reference.
    pub entries_in_html: Vec<String>,
}

impl ModuleGraph {
    /// Whether a module with this id is in the graph.
    pub open spec fn has(&self, id: Seq<char>) -> bool {
        exists|i: int| 0 <= i < self.modules@.len() && #[trigger] self.modules@[i].id@ == id
    }

    pub open spec fn wf(&self) -> bool {
        &&& forall|i: int, j: int|
            0 <= i < j < self.modules@.len() ==> #[trigger] self.modules@[i].id@
                != #[trigger] self.modules@[j].id@
        &&& forall|j: int|
            0 <= j < self.edges@.len() ==> self.has(#[trigger] self.edges@[j].from@) && self.has(
                self.edges@[j].to@,
            )
    }

    pub fn new() -> (r: ModuleGraph)
        ensures
            r.wf(),
            r.modules@.len() == 0,
            r.edges@.len() == 0,
            r.entries@.len() == 0,
            r.entries_in_html@.len() == 0,
    {
        ModuleGraph {
            modules: Vec::new(),
            edges: Vec::new(),
            entries: Vec::new(),
            entries_in_html: Vec::new(),
        }
    }

    /// The position of the module `id`, if it is in the graph.
    pub fn index_of(&self, id: &str) -> (r: Option<usize>)
        ensures
            r is None <==> !self.has(id@),
            r is Some ==> r->Some_0 < self.modules@.len() && self.modules@[r->Some_0 as int].id@
                == id@,
    {
        let mut i: usize = 0;
        while i < self.modules.len()
            invariant
                i <= self.modules@.len(),
                forall|k: int| 0 <= k < i ==> self.modules@[k].id@ != id@,
            decreases self.modules@.len() - i,
        {
            if str_eq(self.modules[i].id.as_str(), id) {
                return Some(i);
            }
            i = i + 1;
        }
        None
    }

    /// Adds `module` unless a module with its id is there already; says whether it added it.
    pub fn add_module(&mut self, module: Module) -> (added: bool)
        requires
            old(self).wf(),
        ensures
            final(self).wf(),
            added == !old(self).has(module.id@),
            added ==> final(self).modules@ == old(self).modules@.push(module),
            !added ==> final(self).modules@ == old(self).modules@,
            final(self).edges@ == old(self).edges@,
            final(self).entries@ == old(self).entries@,
            final(self).entries_in_html@ == old(self).entries_in_html@,
    {
        if self.index_of(module.id.as_str()).is_some() {
            return false;
        }
        let ghost id = module.id@;
        self.modules.push(module);
        proof {
            let n = self.modules@.len() - 1;
            assert(self.modules@[n as int].id@ == id);
            assert forall|j: int| 0 <= j < self.edges@.len() implies self.has(
                #[trigger] self.edges@[j].from@,
            ) && self.has(self.edges@[j].to@) by {
                let e = self.edges@[j];
                assert(old(self).has(e.from@));
                assert(old(self).has(e.to@));
                let a = choose|i: int|
                    0 <= i < old(self).modules@.len() && #[trigger] old(self).modules@[i].id@
                        == e.from@;
                let b = choose|i: int|
                    0 <= i < old(self).modules@.len() && #[trigger] old(self).modules@[i].id@
                        == e.to@;
                assert(self.modules@[a].id@ == e.from@);
                assert(self.modules@[b].id@ == e.to@);
            }
        }
        true
    }

    /// The module `id`, if it is in the graph.
    pub fn module(&self, id: &str) -> (r: Option<&Module>)
        ensures
            r is None <==> !self.has(id@),
            r is Some ==> r->Some_0.id@ == id@ && self.modules@.contains(*r->Some_0),
    {
        match self.index_of(id) {
            Some(i) => {
                proof {
                    assert(self.modules@[i as int] == self.modules@[i as int]);
                }
                Some(&self.modules[i])
            },
            None => None,
        }
    }

    /// Records `edge_info` as an edge `from -> to`; both ends must be in the graph.
    pub fn add_edge(&mut self, from: &str, to: &str, edge_info: ModuleGraphEdge) -> (r: Result<
        (),
        CompilationError,
    >)
        requires
            old(self).wf(),
        ensures
            final(self).wf(),
            r is Ok <==> old(self).has(from@) && old(self).has(to@),
            r is Ok ==> final(self).edges@ == old(self).edges@.push(GraphEdge { from: final(self).edges@.last().from, to: final(self).edges@.last().to, info: edge_info }),
            r is Ok ==> final(self).edges@.last().from@ == from@,
            r is Ok ==> final(self).edges@.last().to@ == to@,
            r is Err ==> final(self).edges@ == old(self).edges@ && r->Err_0 is GenericError,
            final(self).modules@ == old(self).modules@,
            final(self).entries@ == old(self).entries@,
            final(self).entries_in_html@ == old(self).entries_in_html@,
    {
        if self.index_of(from).is_none() || self.index_of(to).is_none() {
            return Err(CompilationError::GenericError(missing_node_message(from)));
        }
        let e = GraphEdge { from: String::from_str(from), to: String::from_str(to), info: edge_info };
        self.edges.push(e);
        Ok(())
    }

    /// The edges that leave `id`, each with its target, ordered by `order`;
    /// edges of equal order keep the order in which they were added.
    pub fn dependencies(&self, id: &str) -> (r: Result<Vec<Dependency>, CompilationError>)
        ensures
            r is Err <==> !self.has(id@),
            r is Err ==> r->Err_0 is GenericError,
            r is Ok ==> sorted_by_order(r->Ok_0@),
            r is Ok ==> r->Ok_0@.to_multiset() == out_deps(self.edges@, id@).to_multiset(),
    {
        if self.index_of(id).is_none() {
            return Err(CompilationError::GenericError(unknown_id_message(id)));
        }
        let mut deps: Vec<Dependency> = Vec::new();
        let mut j: usize = 0;
        while j < self.edges.len()
            invariant
                j <= self.edges@.len(),
                sorted_by_order(deps@),
                deps@.to_multiset() == out_deps(self.edges@.take(j as int), id@).to_multiset(),
            decreases self.edges@.len() - j,
        {
            proof {
                assert(self.edges@.take(j as int + 1).drop_last() =~= self.edges@.take(j as int));
            }
            let e = &self.edges[j];
            if str_eq(e.from.as_str(), id) {
                let item: Dependency = (e.to.clone(), e.info.duplicate());
                let ghost before = deps@;
                let p = insert_by_order(&mut deps, item);
                proof {
                    lemma_insert_to_multiset(before, p as int, item);
                    out_deps(self.edges@.take(j as int), id@).to_multiset_ensures();
                }
            }
            j = j + 1;
        }
        proof {
            assert(self.edges@.take(self.edges@.len() as int) =~= self.edges@);
        }
        Ok(deps)
    }

    /// Records that the module at position `i` belongs to the group `group_id`.
    pub fn add_module_group(&mut self, i: usize, group_id: &str)
        requires
            old(self).wf(),
            i < old(self).modules@.len(),
        ensures
            final(self).wf(),
            final(self).edges@ == old(self).edges@,
            final(self).entries@ == old(self).entries@,
            final(self).entries_in_html@ == old(self).entries_in_html@,
            final(self).modules@.len() == old(self).modules@.len(),
            forall|k: int|
                0 <= k < final(self).modules@.len() ==> #[trigger] final(self).modules@[k].id
                    == old(self).modules@[k].id && final(self).modules@[k].kind == old(
                    self,
                ).modules@[k].kind,
            forall|k: int|
                0 <= k < final(self).modules@.len() && k != i ==> #[trigger] final(self).modules@[k]
                    == old(self).modules@[k],
            lists_id(final(self).modules@[i as int].module_groups@, group_id@),
            forall|g: Seq<char>|
                lists_id(old(self).modules@[i as int].module_groups@, g) ==> lists_id(
                    final(self).modules@[i as int].module_groups@,
                    g,
                ),
            forall|g: Seq<char>|
                lists_id(final(self).modules@[i as int].module_groups@, g) ==> lists_id(
                    old(self).modules@[i as int].module_groups@,
                    g,
                ) || g == group_id@,
    {
        let ghost before = self.modules@;
        if contains_id(&self.modules[i].module_groups, group_id) {
            return;
        }
        let mut m = self.modules.remove(i);
        m.module_groups.push(String::from_str(group_id));
        proof {
            assert forall|g: Seq<char>| lists_id(m.module_groups@, g) implies lists_id(before[i as int].module_groups@, g)
                || g == group_id@ by {
                let k = choose|k: int| 0 <= k < m.module_groups@.len() && #[trigger] m.module_groups@[k]@ == g;
                if k < m.module_groups@.len() - 1 {
                    assert(m.module_groups@[k] == before[i as int].module_groups@[k]);
                }
            }
            let n = m.module_groups@.len() - 1;
            assert(m.module_groups@[n]@ == group_id@);
            assert forall|g: Seq<char>|
                lists_id(before[i as int].module_groups@, g) implies lists_id(m.module_groups@, g) by {
                let k = choose|k: int|
                    0 <= k < before[i as int].module_groups@.len()
                        && #[trigger] before[i as int].module_groups@[k]@ == g;
                assert(m.module_groups@[k] == before[i as int].module_groups@[k]);
            }
        }
        self.modules.insert(i, m);
        proof {
            assert(self.modules@ =~= before.update(i as int, m));
            assert forall|a: int, b: int| 0 <= a < b < self.modules@.len() implies #[trigger] self.modules@[a].id@
                != #[trigger] self.modules@[b].id@ by {
                assert(self.modules@[a].id == before[a].id);
                assert(self.modules@[b].id == before[b].id);
            }
            assert forall|j: int| 0 <= j < self.edges@.len() implies self.has(
                #[trigger] self.edges@[j].from@,
            ) && self.has(self.edges@[j].to@) by {
                let e = self.edges@[j];
                assert(old(self).has(e.from@));
                assert(old(self).has(e.to@));
                let a = choose|x: int|
                    0 <= x < before.len() && #[trigger] before[x].id@ == e.from@;
                let b = choose|x: int|
                    0 <= x < before.len() && #[trigger] before[x].id@ == e.to@;
                assert(self.modules@[a].id@ == e.from@);
                assert(self.modules@[b].id@ == e.to@);
            }
        }
    }

    /// The specifiers of the edges that leave `id`, ordered by `order`.
    pub fn dependency_sources(&self, id: &str) -> (r: Result<Vec<String>, CompilationError>)
        ensures
            r is Err <==> !self.has(id@),
            r is Ok ==> forall|s: Seq<char>|
                lists_id(r->Ok_0@, s) <==> exists|j: int|
                    0 <= j < self.edges@.len() && #[trigger] self.edges@[j].from@ == id@ && self.edges@[j].info.source@ == s,
    {
        let deps = self.dependencies(id)?;
        let ghost dv = deps@;
        let mut out: Vec<String> = Vec::new();
        let mut i: usize = 0;
        while i < deps.len()
            invariant
                dv == deps@,
                i <= dv.len(),
                out@.len() == i,
                forall|k: int| 0 <= k < i ==> (#[trigger] out@[k])@ == dv[k].1.source@,
            decreases dv.len() - i,
        {
            out.push(deps[i].1.source.clone());
            i = i + 1;
        }
        proof {
            dv.to_multiset_ensures();
            out_deps(self.edges@, id@).to_multiset_ensures();
            assert forall|s: Seq<char>| lists_id(out@, s) implies exists|j: int|
                0 <= j < self.edges@.len() && #[trigger] self.edges@[j].from@ == id@ && self.edges@[j].info.source@ == s by {
                let k = choose|k: int| 0 <= k < out@.len() && #[trigger] out@[k]@ == s;
                assert(dv.contains(dv[k]));
                assert(dv.to_multiset().count(dv[k]) > 0);
                assert(out_deps(self.edges@, id@).to_multiset().count(dv[k]) > 0);
                lemma_out_deps_from_edge(self.edges@, id@, dv[k]);
            }
            assert forall|s: Seq<char>| (exists|j: int|
                0 <= j < self.edges@.len() && #[trigger] self.edges@[j].from@ == id@ && self.edges@[j].info.source@ == s) implies lists_id(out@, s) by {
                let j = choose|j: int| 0 <= j < self.edges@.len() && #[trigger] self.edges@[j].from@ == id@ && self.edges@[j].info.source@ == s;
                lemma_out_deps_has_edge(self.edges@, id@, j);
                assert(out_deps(self.edges@, id@).to_multiset().count(report(self.edges@[j])) > 0);
                assert(dv.to_multiset().count(report(self.edges@[j])) > 0);
                assert(dv.contains(report(self.edges@[j])));
                let k = choose|k: int| 0 <= k < dv.len() && dv[k] == report(self.edges@[j]);
                assert(out@[k]@ == s);
            }
        }
        Ok(out)
    }

    /// Whether `id` is a configured entry, or, when `check_entries_in_html`
    /// is set, one that an entry document references.
    pub fn is_entry_module(&self, id: &str, check_entries_in_html: bool) -> (r: bool)
        ensures
            r == (lists_id(self.entries@, id@) || (check_entries_in_html
                && lists_id(self.entries_in_html@, id@))),
    {
        let ret = contains_id(&self.entries, id);
        if check_entries_in_html {
            ret || contains_id(&self.entries_in_html, id)
        } else {
            ret
        }
    }
}

/// Inserts `item` after every dependency of order at most its own; returns where.
fn insert_by_order(deps: &mut Vec<Dependency>, item: Dependency) -> (p: usize)
    requires
        sorted_by_order(old(deps)@),
    ensures
        p <= old(deps)@.len(),
        final(deps)@ == old(deps)@.insert(p as int, item),
        sorted_by_order(final(deps)@),
{
    let mut p: usize = 0;
    while p < deps.len() && deps[p].1.order <= item.1.order
        invariant
            p <= deps@.len(),
            forall|q: int| 0 <= q < p ==> deps@[q].1.order <= item.1.order,
        decreases deps@.len() - p,
    {
        p = p + 1;
    }
    let ghost before = deps@;
    deps.insert(p, item);
    proof {
        before.insert_ensures(p as int, item);
        assert forall|a: int, b: int| 0 <= a < b < deps@.len() implies deps@[a].1.order
            <= deps@[b].1.order by {
            if a < p && b > p {
                assert(deps@[b] == before[b - 1]);
            } else if a == p && b > p {
                assert(deps@[b] == before[b - 1]);
                assert(before[p as int].1.order > item.1.order);
            } else if a > p {
                assert(deps@[a] == before[a - 1]);
                assert(deps@[b] == before[b - 1]);
            }
        }
    }
    p
}

/// Whether some string of `ids` holds the characters `id`.
pub open spec fn lists_id(ids: Seq<String>, id: Seq<char>) -> bool {
    exists|k: int| 0 <= k < ids.len() && #[trigger] ids[k]@ == id
}

/// Whether one of `ids` holds the characters of `id`.
pub fn contains_id(ids: &Vec<String>, id: &str) -> (r: bool)
    ensures
        r == lists_id(ids@, id@),
{
    let mut i: usize = 0;
    while i < ids.len()
        invariant
            i <= ids@.len(),
            forall|k: int| 0 <= k < i ==> ids@[k]@ != id@,
        decreases ids@.len() - i,
    {
        if str_eq(ids[i].as_str(), id) {
            return true;
        }
        i = i + 1;
    }
    false
}

/// The message for an edge whose start or end is not in the graph.
fn missing_node_message(from: &str) -> (r: String)
    ensures
        r@ == "from node \""@ + from@ + "\" is not found in module graph"@,
{
    let mut m = String::from_str("from node \"");
    m.append(from);
    m.append("\" is not found in module graph");
    m
}

/// The message for a lookup of an id that is not in the graph.
fn unknown_id_message(id: &str) -> (r: String)
    ensures
        r@ == "id \""@ + id@ + "\" is not found in module graph"@,
{
    let mut m = String::from_str("id \"");
    m.append(id);
    m.append("\" is not found in module graph");
    m
}

} // verus!
