//! The decisions of the build driver: which resolved ids to load and parse,
//! and how references become edges of the module graph.
use vstd::prelude::*;
use crate::error::CompilationError;
use crate::module::{Module, ResolveKind};
use crate::module_graph::{contains_id, lists_id, GraphEdge, ModuleGraph, ModuleGraphEdge};
use crate::partition::{dynamic_edge, is_path, reachable_from_entry, static_edge};

verus! {

/// What the build has learned so far: the ids claimed for parsing, in the
/// order they were claimed, the references met, and the parsed modules.
#[derive(Debug, Clone)]
pub struct BuildState {
    pub graph: ModuleGraph,
    pub claimed: Vec<String>,
    pub references: Vec<GraphEdge>,
    pub entry_ids: Vec<String>,
}

/// Whether the id at position `k` of `claimed` is an entry or is referenced
/// from an id claimed before it.
pub open spec fn claim_justified(s: &BuildState, k: int) -> bool {
    lists_id(s.entry_ids@, s.claimed@[k]@) || exists|j: int, m: int|
        0 <= j < s.references@.len() && 0 <= m < k && #[trigger] s.references@[j].to@ == s.claimed@[k]@
            && s.references@[j].from@ == #[trigger] s.claimed@[m]@
}

impl BuildState {
    pub open spec fn wf(&self) -> bool {
        &&& self.graph.wf()
        &&& self.graph.edges@.len() == 0
        &&& forall|k: int| 0 <= k < self.claimed@.len() ==> claim_justified(self, k)
        &&& forall|i: int|
            0 <= i < self.graph.modules@.len() ==> lists_id(self.claimed@, #[trigger] self.graph.modules@[i].id@)
        &&& forall|j: int|
            0 <= j < self.references@.len() ==> lists_id(self.claimed@, #[trigger] self.references@[j].from@)
                && lists_id(self.claimed@, self.references@[j].to@)
        &&& forall|k: int| 0 <= k < self.entry_ids@.len() ==> lists_id(self.claimed@, #[trigger] self.entry_ids@[k]@)
    }

    pub fn new() -> (r: BuildState)
        ensures
            r.wf(),
            r.claimed@.len() == 0,
    {
        BuildState {
            graph: ModuleGraph::new(),
            claimed: Vec::new(),
            references: Vec::new(),
            entry_ids: Vec::new(),
        }
    }

    /// Records that `source` (of kind `kind`, at position `order` among the
    /// references of `importer`, or an entry) resolved to `id`. Returns
    /// whether the caller goes on to load and parse `id`: only the first time
    /// an id is met.
    pub fn on_resolved(
        &mut self,
        id: &str,
        importer: Option<&str>,
        kind: ResolveKind,
        source: String,
        order: usize,
    ) -> (load: bool)
        requires
            old(self).wf(),
            importer is Some ==> lists_id(old(self).claimed@, importer->Some_0@),
        ensures
            final(self).wf(),
            load == !lists_id(old(self).claimed@, id@),
            lists_id(final(self).claimed@, id@),
            final(self).claimed@.len() == old(self).claimed@.len() + if load { 1int } else { 0int },
            forall|x: Seq<char>| lists_id(old(self).claimed@, x) ==> lists_id(final(self).claimed@, x),
            final(self).graph == old(self).graph,
            importer is None ==> lists_id(final(self).entry_ids@, id@),
            importer is Some ==> final(self).references@.len() == old(self).references@.len() + 1 && final(self).references@.last().from@
                == importer->Some_0@ && final(self).references@.last().to@ == id@
                && final(self).references@.last().info == (ModuleGraphEdge { kind, source, order }),
    {
        let ghost s0 = *self;
        let load = !contains_id(&self.claimed, id);
        if load {
            self.claimed.push(String::from_str(id));
            proof {
                let n = s0.claimed@.len() as int;
                assert(self.claimed@[n]@ == id@);
                assert forall|x: Seq<char>| lists_id(s0.claimed@, x) implies lists_id(self.claimed@, x) by {
                    let k = choose|k: int| 0 <= k < s0.claimed@.len() && #[trigger] s0.claimed@[k]@ == x;
                    assert(self.claimed@[k] == s0.claimed@[k]);
                }
            }
        }
        let ghost s1 = *self;
        match importer {
            None => {
                if !contains_id(&self.entry_ids, id) {
                    self.entry_ids.push(String::from_str(id));
                    proof {
                        assert(self.entry_ids@[self.entry_ids@.len() - 1]@ == id@);
                    }
                }
            },
            Some(imp) => {
                self.references.push(
                    GraphEdge { from: String::from_str(imp), to: String::from_str(id), info: ModuleGraphEdge { kind, source, order } },
                );
            },
        }
        proof {
            assert forall|k: int| 0 <= k < self.claimed@.len() implies claim_justified(self, k) by {
                if k < s0.claimed@.len() {
                    assert(self.claimed@[k] == s0.claimed@[k]);
                    assert(claim_justified(&s0, k));
                    if !lists_id(s0.entry_ids@, s0.claimed@[k]@) {
                        let (j, m) = choose|j: int, m: int|
                            0 <= j < s0.references@.len() && 0 <= m < k && #[trigger] s0.references@[j].to@
                                == s0.claimed@[k]@ && s0.references@[j].from@ == #[trigger] s0.claimed@[m]@;
                        assert(self.references@[j] == s0.references@[j]);
                        assert(self.claimed@[m] == s0.claimed@[m]);
                    } else {
                        let q = choose|q: int| 0 <= q < s0.entry_ids@.len() && #[trigger] s0.entry_ids@[q]@ == s0.claimed@[k]@;
                        assert(self.entry_ids@[q] == s0.entry_ids@[q]);
                    }
                } else {
                    assert(self.claimed@[k]@ == id@);
                    match importer {
                        None => {},
                        Some(imp) => {
                            let j = self.references@.len() - 1;
                            let m = choose|m: int| 0 <= m < s0.claimed@.len() && #[trigger] s0.claimed@[m]@ == imp@;
                            assert(self.claimed@[m] == s0.claimed@[m]);
                            assert(self.references@[j].to@ == self.claimed@[k]@);
                            assert(self.references@[j].from@ == self.claimed@[m]@);
                        },
                    }
                }
            }
            assert forall|i: int| 0 <= i < self.graph.modules@.len() implies lists_id(self.claimed@, #[trigger] self.graph.modules@[i].id@) by {
                assert(lists_id(s0.claimed@, s0.graph.modules@[i].id@));
            }
            assert forall|j: int| 0 <= j < self.references@.len() implies lists_id(self.claimed@, #[trigger] self.references@[j].from@)
                && lists_id(self.claimed@, self.references@[j].to@) by {
                if j < s0.references@.len() {
                    assert(self.references@[j] == s0.references@[j]);
                }
            }
            assert forall|k: int| 0 <= k < self.entry_ids@.len() implies lists_id(self.claimed@, #[trigger] self.entry_ids@[k]@) by {
                if k < s0.entry_ids@.len() {
                    assert(self.entry_ids@[k] == s0.entry_ids@[k]);
                }
            }
        }
        load
    }

    /// The module graph of the build: the parsed modules, one edge per
    /// reference, and the entries. Fails where an id was claimed but its
    /// module never came.
    pub fn finish(state: BuildState) -> (r: Result<ModuleGraph, CompilationError>)
        requires
            state.wf(),
        ensures
            all_claimed_parsed(&state) ==> r is Ok,
            r is Err ==> r->Err_0 is GenericError,
            r is Ok ==> finished_from(&state, &r->Ok_0),
    {
        let ghost s0 = state;
        let BuildState { graph, claimed: _, references: refs, entry_ids: entries } = state;
        let mut graph = graph;
        let mut j: usize = 0;
        while j < refs.len()
            invariant
                graph.wf(),
                graph.modules@ == s0.graph.modules@,
                refs@ == s0.references@,
                j <= refs@.len(),
                graph.edges@.len() == j,
                forall|q: int| #![trigger graph.edges@[q]] 0 <= q < j ==> graph.edges@[q].from@ == refs@[q].from@,
                forall|q: int| #![trigger graph.edges@[q]] 0 <= q < j ==> graph.edges@[q].to@ == refs@[q].to@,
                forall|q: int| #![trigger graph.edges@[q]] 0 <= q < j ==> graph.edges@[q].info == refs@[q].info,
                s0.wf(),
                all_claimed_parsed(&s0) == all_claimed_parsed(&state),
            decreases refs@.len() - j,
        {
            let e = &refs[j];
            let ghost before = graph.edges@;
            match graph.add_edge(e.from.as_str(), e.to.as_str(), e.info.duplicate()) {
                Ok(()) => {
                    proof {
                        assert(graph.edges@.last().from@ == e.from@);
                        assert(graph.edges@.last().info == e.info);
                        assert forall|q: int| #![trigger graph.edges@[q]] 0 <= q < j + 1 implies graph.edges@[q].from@ == refs@[q].from@
                            && graph.edges@[q].to@ == refs@[q].to@ && graph.edges@[q].info == refs@[q].info by {
                            if q < j {
                                assert(graph.edges@[q] == before[q]);
                            } else {
                                assert(graph.edges@[q] == graph.edges@.last());
                            }
                        }
                    }
                },
                Err(err) => {
                    proof {
                        assert(refs@[j as int] == s0.references@[j as int]);
                        if all_claimed_parsed(&s0) {
                            assert(lists_id(s0.claimed@, e.from@));
                            assert(lists_id(s0.claimed@, e.to@));
                            let a = choose|k: int| 0 <= k < s0.claimed@.len() && #[trigger] s0.claimed@[k]@ == e.from@;
                            let b = choose|k: int| 0 <= k < s0.claimed@.len() && #[trigger] s0.claimed@[k]@ == e.to@;
                            assert(s0.graph.has(s0.claimed@[a]@));
                            assert(s0.graph.has(s0.claimed@[b]@));
                            assert(graph.has(e.from@) && graph.has(e.to@));
                        }
                    }
                    return Err(err);
                },
            }
            j = j + 1;
        }
        let mut k: usize = 0;
        while k < entries.len()
            invariant
                graph.modules@ == s0.graph.modules@,
                entries@ == s0.entry_ids@,
                k <= entries@.len(),
                forall|q: int| 0 <= q < k ==> s0.graph.has(#[trigger] entries@[q]@),
                s0.wf(),
                all_claimed_parsed(&s0) == all_claimed_parsed(&state),
            decreases entries@.len() - k,
        {
            if graph.index_of(entries[k].as_str()).is_none() {
                proof {
                    if all_claimed_parsed(&s0) {
                        assert(lists_id(s0.claimed@, entries@[k as int]@));
                        let a = choose|c: int| 0 <= c < s0.claimed@.len() && #[trigger] s0.claimed@[c]@ == entries@[k as int]@;
                        assert(s0.graph.has(s0.claimed@[a]@));
                    }
                }
                return Err(CompilationError::GenericError(String::from_str("an entry was never parsed")));
            }
            k = k + 1;
        }
        graph.entries = entries;
        proof {
            assert forall|q: int| 0 <= q < graph.edges@.len() implies graph.has(#[trigger] graph.edges@[q].from@) && graph.has(graph.edges@[q].to@) by {
            }
        }
        Ok(graph)
    }

    /// Adds a parsed module, whose id was claimed, to the graph.
    pub fn on_parsed(&mut self, module: Module)
        requires
            old(self).wf(),
            lists_id(old(self).claimed@, module.id@),
        ensures
            final(self).wf(),
            final(self).claimed == old(self).claimed,
            final(self).references == old(self).references,
            final(self).entry_ids == old(self).entry_ids,
            final(self).graph.has(module.id@),
            forall|x: Seq<char>| old(self).graph.has(x) ==> final(self).graph.has(x),
    {
        let ghost s0 = *self;
        let ghost mid = module.id@;
        let added = self.graph.add_module(module);
        proof {
            if added {
                let n = s0.graph.modules@.len() as int;
                assert(self.graph.modules@[n].id@ == mid);
            }
            assert forall|x: Seq<char>| s0.graph.has(x) implies self.graph.has(x) by {
                let i = choose|i: int| 0 <= i < s0.graph.modules@.len() && #[trigger] s0.graph.modules@[i].id@ == x;
                assert(self.graph.modules@[i] == s0.graph.modules@[i]);
            }
            assert forall|i: int| 0 <= i < self.graph.modules@.len() implies lists_id(self.claimed@, #[trigger] self.graph.modules@[i].id@) by {
                if i < s0.graph.modules@.len() {
                    assert(self.graph.modules@[i] == s0.graph.modules@[i]);
                }
            }
            assert forall|k: int| 0 <= k < self.claimed@.len() implies claim_justified(self, k) by {
                assert(claim_justified(&s0, k));
            }
        }
    }
}

/// Whether every claimed id has its module in the graph.
pub open spec fn all_claimed_parsed(s: &BuildState) -> bool {
    forall|k: int| 0 <= k < s.claimed@.len() ==> s.graph.has(#[trigger] s.claimed@[k]@)
}

/// Whether `g` is the graph that `finish` makes of `s`: its modules, one edge
/// per reference, and its entries.
pub open spec fn finished_from(s: &BuildState, g: &ModuleGraph) -> bool {
    &&& g.wf()
    &&& g.modules@ == s.graph.modules@
    &&& g.entries@ == s.entry_ids@
    &&& g.edges@.len() == s.references@.len()
    &&& forall|q: int| #![trigger g.edges@[q]] 0 <= q < g.edges@.len() ==> g.edges@[q].from@ == s.references@[q].from@
    &&& forall|q: int| #![trigger g.edges@[q]] 0 <= q < g.edges@.len() ==> g.edges@[q].to@ == s.references@[q].to@
    &&& forall|q: int| #![trigger g.edges@[q]] 0 <= q < g.edges@.len() ==> g.edges@[q].info == s.references@[q].info
}

proof fn lemma_claimed_reachable(s: &BuildState, g: &ModuleGraph, k: int)
    requires
        s.wf(),
        finished_from(s, g),
        0 <= k < s.claimed@.len(),
    ensures
        reachable_from_entry(g, s.claimed@[k]@),
    decreases k,
{
    let x = s.claimed@[k]@;
    assert(claim_justified(s, k));
    if lists_id(s.entry_ids@, x) {
        let p = seq![x];
        assert(is_path(g.edges@, p));
        assert(lists_id(g.entries@, p[0]));
    } else {
        let (j, m) = choose|j: int, m: int|
            0 <= j < s.references@.len() && 0 <= m < k && #[trigger] s.references@[j].to@ == s.claimed@[k]@
                && s.references@[j].from@ == #[trigger] s.claimed@[m]@;
        lemma_claimed_reachable(s, g, m);
        let y = s.claimed@[m]@;
        let p = choose|p: Seq<Seq<char>>| #[trigger] is_path(g.edges@, p) && lists_id(g.entries@, p[0]) && p.last() == y;
        assert(0 <= j < g.edges@.len());
        let ej = g.edges@[j];
        assert(ej.from@ == s.references@[j].from@);
        assert(ej.to@ == s.references@[j].to@);
        assert(ej.info == s.references@[j].info);
        assert(s.references@[j].from@ == y);
        assert(s.references@[j].to@ == x);
        if g.edges@[j].info.kind is DynamicImport {
            assert(dynamic_edge(g.edges@, y, x));
        } else {
            assert(static_edge(g.edges@, y, x));
        }
        let q = p.push(x);
        assert forall|i: int| 0 <= i < q.len() - 1 implies (static_edge(g.edges@, #[trigger] q[i], q[i + 1]) || dynamic_edge(g.edges@, q[i], q[i + 1])) by {
            if i < p.len() - 1 {
                assert(q[i] == p[i] && q[i + 1] == p[i + 1]);
            } else {
                assert(q[i] == y && q[i + 1] == x);
            }
        }
        assert(is_path(g.edges@, q));
        assert(q[0] == p[0]);
    }
}

/// Every module of a finished build is reached from one of its entries.
pub proof fn law_every_module_reachable(s: &BuildState, g: &ModuleGraph, x: Seq<char>)
    requires
        s.wf(),
        finished_from(s, g),
        g.has(x),
    ensures
        reachable_from_entry(g, x),
{
    let i = choose|i: int| 0 <= i < g.modules@.len() && #[trigger] g.modules@[i].id@ == x;
    assert(s.graph.modules@[i].id@ == x);
    assert(lists_id(s.claimed@, s.graph.modules@[i].id@));
    let k = choose|k: int| 0 <= k < s.claimed@.len() && #[trigger] s.claimed@[k]@ == x;
    lemma_claimed_reachable(s, g, k);
}

/// An id is handed out for parsing at most once: once `on_resolved` has met
/// an id, the answer of every later call with it (`load`, which `on_resolved`
/// gives as whether the id was unclaimed) is that there is nothing to load.
pub proof fn law_parsed_at_most_once(earlier: &BuildState, later: &BuildState, id: Seq<char>, load: bool)
    requires
        lists_id(earlier.claimed@, id),
        forall|x: Seq<char>| lists_id(earlier.claimed@, x) ==> lists_id(later.claimed@, x),
        load == !lists_id(later.claimed@, id),
    ensures
        !load,
{
}

} // verus!
