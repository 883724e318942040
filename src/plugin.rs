//! The plugin hook protocol: the parameters and results of hooks, the order
//! plugins run in, and how the results of one hook's plugins combine.
use vstd::prelude::*;
use crate::error::CompilationError;
use crate::esm::AnalyzeDep;
use crate::module::{Module, ModuleKind, ResolveKind};
use crate::resolve::Query;

verus! {

/// The priority a plugin has unless it says otherwise; lower runs first.
pub const DEFAULT_PRIORITY: i32 = 100;

#[derive(Debug, Clone)]
pub struct ResolveHookParams {
    pub source: String,
    pub importer: Option<String>,
    pub kind: ResolveKind,
}

#[derive(Debug, Clone)]
pub struct LoadHookParams {
    pub id: String,
    pub query: Query,
}

#[derive(Debug, Clone)]
pub struct LoadHookResult {
    pub content: String,
    pub module_kind: ModuleKind,
}

#[derive(Debug, Clone)]
pub struct TransformHookParams {
    pub id: String,
    pub query: Query,
    pub content: String,
    pub module_kind: ModuleKind,
}

#[derive(Debug, Clone)]
pub struct TransformHookResult {
    pub content: String,
    pub module_kind: Option<ModuleKind>,
    pub source_map: Option<String>,
}

#[derive(Debug, Clone)]
pub struct ParseHookParams {
    pub id: String,
    pub query: Query,
    pub content: String,
    pub module_kind: ModuleKind,
}

pub struct AnalyzeDepsHookParams<'a> {
    pub module: &'a Module,
    pub deps: Vec<AnalyzeDep>,
}

/// What a resolve step is asked: a specifier, who references it, and why.
#[derive(Debug, Clone)]
pub struct ResolveParams {
    pub source: String,
    pub importer: Option<String>,
    pub kind: ResolveKind,
}

/// Where a resolve step found a module.
#[derive(Debug, Clone)]
pub struct ResolveResult {
    pub id: String,
    pub query: Query,
}

/// What a load step is asked.
#[derive(Debug, Clone)]
pub struct LoadParams {
    pub id: String,
    pub query: Query,
}

/// What a load step read.
#[derive(Debug, Clone)]
pub struct LoadResult {
    pub content: String,
    pub module_kind: ModuleKind,
}

/// What a transform step is asked.
#[derive(Debug, Clone)]
pub struct TransformParams {
    pub id: String,
    pub query: Query,
    pub content: String,
    pub module_kind: ModuleKind,
}

/// What a transform step made.
#[derive(Debug, Clone)]
pub struct TransformResult {
    pub content: String,
    pub source_map_chain: Vec<String>,
    pub module_kind: ModuleKind,
}

/// What a parse step is asked.
#[derive(Debug, Clone)]
pub struct ParseParams {
    pub id: String,
    pub query: Query,
    pub content: String,
    pub module_kind: ModuleKind,
}

/// What a parse step made.
#[derive(Debug, Clone)]
pub struct ParseResult {
    pub module: Module,
}

/// The transform step with no plugin to run: the content and kind pass
/// through unchanged, with no source map.
pub fn transform(params: TransformParams) -> (r: TransformResult)
    ensures
        r.content == params.content,
        r.module_kind == params.module_kind,
        r.source_map_chain@.len() == 0,
{
    TransformResult { content: params.content, source_map_chain: Vec::new(), module_kind: params.module_kind }
}

/// What the transform hook leaves once every plugin has run.
#[derive(Debug, Clone)]
pub struct PluginContainerTransformHookResult {
    pub content: String,
    pub module_kind: ModuleKind,
    pub source_map_chain: Vec<String>,
}

/// First-wins: the first error or the first value, in priority order; none if every plugin passes.
pub open spec fn first_wins_spec<T>(outcomes: Seq<Result<Option<T>, CompilationError>>) -> Result<Option<T>, CompilationError>
    decreases outcomes.len(),
{
    if outcomes.len() == 0 {
        Ok(None)
    } else {
        match outcomes[0] {
            Err(e) => Err(e),
            Ok(Some(v)) => Ok(Some(v)),
            Ok(None) => first_wins_spec(outcomes.drop_first()),
        }
    }
}

/// Combines the outcomes of a first-wins hook, in priority order.
pub fn first_wins<T>(outcomes: Vec<Result<Option<T>, CompilationError>>) -> (r: Result<Option<T>, CompilationError>)
    ensures
        r == first_wins_spec(outcomes@),
{
    let mut rest = outcomes;
    let ghost all = rest@;
    while rest.len() > 0
        invariant
            all == outcomes@,
            first_wins_spec(all) == first_wins_spec(rest@),
        decreases rest@.len(),
    {
        let ghost before = rest@;
        let o = rest.remove(0);
        proof {
            assert(rest@ =~= before.drop_first());
            assert(o == before[0]);
        }
        match o {
            Err(e) => {
                return Err(e);
            },
            Ok(Some(v)) => {
                return Ok(Some(v));
            },
            Ok(None) => {},
        }
    }
    Ok(None)
}

/// The first error of the outcomes, in priority order.
pub open spec fn first_error_spec(outcomes: Seq<Result<(), CompilationError>>) -> Result<(), CompilationError>
    decreases outcomes.len(),
{
    if outcomes.len() == 0 {
        Ok(())
    } else if outcomes[0] is Err {
        outcomes[0]
    } else {
        first_error_spec(outcomes.drop_first())
    }
}

/// Combines the outcomes of a parallel hook: the first error by priority, if any.
pub fn first_error(outcomes: Vec<Result<(), CompilationError>>) -> (r: Result<(), CompilationError>)
    ensures
        r == first_error_spec(outcomes@),
{
    let mut rest = outcomes;
    let ghost all = rest@;
    while rest.len() > 0
        invariant
            all == outcomes@,
            first_error_spec(all) == first_error_spec(rest@),
        decreases rest@.len(),
    {
        let ghost before = rest@;
        let o = rest.remove(0);
        proof {
            assert(rest@ =~= before.drop_first());
            assert(o == before[0]);
        }
        if o.is_err() {
            return o;
        }
    }
    Ok(())
}

/// The content after every plugin's transform in turn: each result replaces
/// the content, may replace the kind, and may add a source map to the chain.
pub open spec fn transform_content(content: Seq<char>, outcomes: Seq<Option<TransformHookResult>>) -> Seq<char>
    decreases outcomes.len(),
{
    if outcomes.len() == 0 {
        content
    } else {
        match outcomes.last() {
            Some(t) => t.content@,
            None => transform_content(content, outcomes.drop_last()),
        }
    }
}

pub open spec fn transform_kind(kind: ModuleKind, outcomes: Seq<Option<TransformHookResult>>) -> ModuleKind
    decreases outcomes.len(),
{
    if outcomes.len() == 0 {
        kind
    } else {
        match outcomes.last() {
            Some(t) if t.module_kind is Some => t.module_kind->Some_0,
            _ => transform_kind(kind, outcomes.drop_last()),
        }
    }
}

pub open spec fn transform_maps(outcomes: Seq<Option<TransformHookResult>>) -> Seq<Seq<char>>
    decreases outcomes.len(),
{
    if outcomes.len() == 0 {
        Seq::empty()
    } else {
        let rest = transform_maps(outcomes.drop_last());
        match outcomes.last() {
            Some(t) if t.source_map is Some => rest.push(t.source_map->Some_0@),
            _ => rest,
        }
    }
}

/// Folds the results of the transform hook's plugins, in priority order,
/// over the loaded content and kind.
pub fn serial_transform(
    content: String,
    module_kind: ModuleKind,
    outcomes: Vec<Option<TransformHookResult>>,
) -> (r: PluginContainerTransformHookResult)
    ensures
        r.content@ == transform_content(content@, outcomes@),
        r.module_kind == transform_kind(module_kind, outcomes@),
        r.source_map_chain@.map_values(|m: String| m@) == transform_maps(outcomes@),
{
    let ghost c0 = content@;
    let ghost k0 = module_kind;
    let ghost all = outcomes@;
    let mut ret = PluginContainerTransformHookResult { content, module_kind, source_map_chain: Vec::new() };
    let n = outcomes.len();
    let mut rest = outcomes;
    let mut i: usize = 0;
    proof {
        assert(all.take(0) =~= Seq::<Option<TransformHookResult>>::empty());
        assert(ret.source_map_chain@.map_values(|m: String| m@) =~= Seq::<Seq<char>>::empty());
    }
    while rest.len() > 0
        invariant
            i + rest@.len() == all.len(),
            n == all.len(),
            rest@ == all.skip(i as int),
            ret.content@ == transform_content(c0, all.take(i as int)),
            ret.module_kind == transform_kind(k0, all.take(i as int)),
            ret.source_map_chain@.map_values(|m: String| m@) == transform_maps(all.take(i as int)),
        decreases rest@.len(),
    {
        let ghost before = rest@;
        let o = rest.remove(0);
        proof {
            assert(rest@ =~= all.skip(i + 1));
            assert(o == all[i as int]);
            assert(all.take(i + 1).drop_last() =~= all.take(i as int));
            assert(all.take(i + 1).last() == o);
        }
        match o {
            Some(t) => {
                ret.content = t.content;
                match t.module_kind {
                    Some(k) => {
                        ret.module_kind = k;
                    },
                    None => {},
                }
                match t.source_map {
                    Some(m) => {
                        let ghost b = ret.source_map_chain@.map_values(|m: String| m@);
                        ret.source_map_chain.push(m);
                        proof {
                            assert(ret.source_map_chain@.map_values(|m: String| m@) =~= b.push(m@));
                        }
                    },
                    None => {},
                }
            },
            None => {},
        }
        i = i + 1;
    }
    proof {
        assert(all.take(i as int) =~= all);
    }
    ret
}

/// The transform hook in progress: the content and kind that the plugins
/// run so far left, the source maps they added, and the first error, after
/// which no plugin runs.
#[derive(Debug, Clone)]
pub struct TransformRun {
    pub current: PluginContainerTransformHookResult,
    pub failed: Option<CompilationError>,
}

impl TransformRun {
    pub fn new(content: String, module_kind: ModuleKind) -> (r: TransformRun)
        ensures
            r.current.content == content,
            r.current.module_kind == module_kind,
            r.current.source_map_chain@.len() == 0,
            r.failed is None,
    {
        TransformRun {
            current: PluginContainerTransformHookResult { content, module_kind, source_map_chain: Vec::new() },
            failed: None,
        }
    }

    /// Takes the outcome of the next plugin, which ran on the current content
    /// and kind. Returns whether the next plugin is to run: not after an error.
    pub fn feed(&mut self, outcome: Result<Option<TransformHookResult>, CompilationError>) -> (go_on: bool)
        requires
            old(self).failed is None,
        ensures
            go_on == (outcome is Ok),
            outcome is Err ==> final(self).failed == Some(outcome->Err_0) && final(self).current == old(self).current,
            outcome is Ok ==> final(self).failed is None,
            outcome matches Ok(None) ==> final(self).current == old(self).current,
            outcome matches Ok(Some(t)) ==> final(self).current.content == t.content
                && final(self).current.module_kind == (if t.module_kind is Some { t.module_kind->Some_0 } else { old(self).current.module_kind })
                && final(self).current.source_map_chain@ == (if t.source_map is Some {
                    old(self).current.source_map_chain@.push(t.source_map->Some_0)
                } else {
                    old(self).current.source_map_chain@
                }),
    {
        match outcome {
            Err(e) => {
                self.failed = Some(e);
                false
            },
            Ok(None) => true,
            Ok(Some(t)) => {
                self.current.content = t.content;
                match t.module_kind {
                    Some(k) => {
                        self.current.module_kind = k;
                    },
                    None => {},
                }
                match t.source_map {
                    Some(m) => {
                        self.current.source_map_chain.push(m);
                    },
                    None => {},
                }
                true
            },
        }
    }

    /// The first error, or what the plugins left.
    pub fn finish(self) -> (r: Result<PluginContainerTransformHookResult, CompilationError>)
        ensures
            self.failed is Some ==> r == Err::<PluginContainerTransformHookResult, CompilationError>(self.failed->Some_0),
            self.failed is None ==> r == Ok::<PluginContainerTransformHookResult, CompilationError>(self.current),
    {
        match self.failed {
            Some(e) => Err(e),
            None => Ok(self.current),
        }
    }
}

/// Whether `order` holds the position `j`.
pub open spec fn lists_index(order: Seq<usize>, j: int) -> bool {
    exists|k: int| 0 <= k < order.len() && order[k] as int == j
}

/// Whether `order` lists positions of `priorities` by ascending priority,
/// equal priorities by position.
pub open spec fn by_priority(priorities: Seq<i32>, order: Seq<usize>) -> bool {
    forall|a: int, b: int|
        0 <= a < b < order.len() ==> (priorities[order[a] as int] < priorities[order[b] as int] || (
        priorities[order[a] as int] == priorities[order[b] as int] && order[a] < order[b]))
}

/// The order plugins run in: every position of `priorities` once, by
/// ascending priority, equal priorities in the order given.
pub fn sort_by_priority(priorities: &Vec<i32>) -> (r: Vec<usize>)
    ensures
        r@.len() == priorities@.len(),
        forall|k: int| 0 <= k < r@.len() ==> r@[k] < priorities@.len(),
        forall|i: int| 0 <= i < priorities@.len() ==> #[trigger] lists_index(r@, i),
        by_priority(priorities@, r@),
{
    let mut order: Vec<usize> = Vec::new();
    let mut i: usize = 0;
    while i < priorities.len()
        invariant
            i <= priorities@.len(),
            order@.len() == i,
            forall|k: int| 0 <= k < order@.len() ==> order@[k] < i,
            forall|j: int| 0 <= j < i ==> #[trigger] lists_index(order@, j),
            by_priority(priorities@, order@),
        decreases priorities@.len() - i,
    {
        let p = priorities[i];
        let mut q: usize = 0;
        while q < order.len() && priorities[order[q]] <= p
            invariant
                q <= order@.len(),
                i < priorities@.len(),
                p == priorities@[i as int],
                forall|k: int| 0 <= k < order@.len() ==> order@[k] < i,
                forall|k: int| 0 <= k < q ==> priorities@[order@[k] as int] <= p,
                order@.len() == i,
                forall|j: int| 0 <= j < i ==> #[trigger] lists_index(order@, j),
                by_priority(priorities@, order@),
            decreases order@.len() - q,
        {
            q = q + 1;
        }
        let ghost before = order@;
        order.insert(q, i);
        proof {
            before.insert_ensures(q as int, i);
            assert forall|a: int, b: int| 0 <= a < b < order@.len() implies (priorities@[order@[a] as int]
                < priorities@[order@[b] as int] || (priorities@[order@[a] as int] == priorities@[order@[b] as int]
                && order@[a] < order@[b])) by {
                if a < q && b > q {
                    assert(order@[b] == before[b - 1]);
                } else if a == q && b > q {
                    assert(order@[b] == before[b - 1]);
                    assert(priorities@[before[q as int] as int] > p);
                } else if a < q && b == q {
                } else if a > q {
                    assert(order@[a] == before[a - 1]);
                    assert(order@[b] == before[b - 1]);
                }
            }
            assert forall|j: int| 0 <= j < i + 1 implies #[trigger] lists_index(order@, j) by {
                if j < i {
                    assert(lists_index(before, j));
                    let k = choose|k: int| 0 <= k < before.len() && before[k] as int == j;
                    if k < q {
                        assert(order@[k] == before[k]);
                    } else {
                        assert(order@[k + 1] == before[k]);
                    }
                } else {
                    assert(order@[q as int] == i);
                }
            }
        }
        i = i + 1;
    }
    order
}

} // verus!
