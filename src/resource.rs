//! Resource pots (per-group, per-kind bundles) and the resources they become.
use vstd::prelude::*;
use crate::module::ModuleKind;
use crate::text::str_eq;

verus! {

/// The kind of a bundle; every script kind becomes `Js`.
#[derive(Debug, Clone, PartialEq, Eq, Hash)]
pub enum ResourcePotKind {
    Runtime,
    Html,
    Css,
    Js,
    Asset,
    Custom(String),
}

/// The pot kind that modules of kind `k` go into.
pub open spec fn pot_kind_of(k: ModuleKind) -> ResourcePotKind {
    match k {
        ModuleKind::Html => ResourcePotKind::Html,
        ModuleKind::Css => ResourcePotKind::Css,
        ModuleKind::Js | ModuleKind::Jsx | ModuleKind::Ts | ModuleKind::Tsx => ResourcePotKind::Js,
        ModuleKind::Asset => ResourcePotKind::Asset,
        ModuleKind::Custom(c) => ResourcePotKind::Custom(c),
    }
}

/// Whether two pot kinds are the same kind, a custom kind by its name.
pub open spec fn same_pot_kind(a: ResourcePotKind, b: ResourcePotKind) -> bool {
    if a is Custom || b is Custom {
        a is Custom && b is Custom && a->Custom_0@ == b->Custom_0@
    } else {
        a == b
    }
}

impl ResourcePotKind {
    pub fn from_module_kind(module_kind: ModuleKind) -> (r: ResourcePotKind)
        ensures
            r == pot_kind_of(module_kind),
    {
        match module_kind {
            ModuleKind::Html => ResourcePotKind::Html,
            ModuleKind::Css => ResourcePotKind::Css,
            ModuleKind::Js | ModuleKind::Jsx | ModuleKind::Ts | ModuleKind::Tsx => ResourcePotKind::Js,
            ModuleKind::Asset => ResourcePotKind::Asset,
            ModuleKind::Custom(c) => ResourcePotKind::Custom(c),
        }
    }

    /// Whether the two kinds are equal.
    pub fn same_as(&self, other: &ResourcePotKind) -> (r: bool)
        ensures
            r == same_pot_kind(*self, *other),
    {
        match (self, other) {
            (ResourcePotKind::Runtime, ResourcePotKind::Runtime) => true,
            (ResourcePotKind::Html, ResourcePotKind::Html) => true,
            (ResourcePotKind::Css, ResourcePotKind::Css) => true,
            (ResourcePotKind::Js, ResourcePotKind::Js) => true,
            (ResourcePotKind::Asset, ResourcePotKind::Asset) => true,
            (ResourcePotKind::Custom(a), ResourcePotKind::Custom(b)) => str_eq(a.as_str(), b.as_str()),
            _ => false,
        }
    }
}

/// What rendering a pot produced.
#[derive(Debug, Clone)]
pub enum ResourcePotMeta {
    Html(HtmlResourcePotMeta),
    Css(CssResourcePotMeta),
    Js(JsResourcePotMeta),
    Custom,
}

/// A rendered HTML pot: the document's code, emitted once its dependencies are known.
#[derive(Debug, Clone)]
pub struct HtmlResourcePotMeta {
    pub code: String,
}

/// A rendered stylesheet pot.
#[derive(Debug, Clone)]
pub struct CssResourcePotMeta {
    pub code: String,
}

/// A rendered script pot.
#[derive(Debug, Clone)]
pub struct JsResourcePotMeta {
    pub code: String,
}

/// The modules of one kind of one module group, bundled.
#[derive(Debug, Clone)]
pub struct ResourcePot {
    pub id: String,
    pub kind: ResourcePotKind,
    pub module_group_id: String,
    pub module_ids: Vec<String>,
    pub resource_ids: Vec<String>,
    pub meta: ResourcePotMeta,
}

impl ResourcePot {
    /// A pot that holds the module `id` alone and is named after it.
    pub fn new(id: String, kind: ResourcePotKind, module_group_id: String) -> (r: ResourcePot)
        ensures
            r.id == id,
            r.kind == kind,
            r.module_group_id == module_group_id,
            r.module_ids@ == seq![id],
            r.resource_ids@.len() == 0,
            r.meta is Custom,
    {
        let first = id.clone();
        ResourcePot {
            id,
            kind,
            module_group_id,
            module_ids: vec![first],
            resource_ids: Vec::new(),
            meta: ResourcePotMeta::Custom,
        }
    }
}

/// The resource pots of a compilation, at most one per id.
#[derive(Debug, Clone)]
pub struct ResourcePotMap {
    pub pots: Vec<ResourcePot>,
}

impl ResourcePotMap {
    pub open spec fn has(&self, id: Seq<char>) -> bool {
        exists|i: int| 0 <= i < self.pots@.len() && #[trigger] self.pots@[i].id@ == id
    }

    pub open spec fn wf(&self) -> bool {
        forall|i: int, j: int|
            0 <= i < j < self.pots@.len() ==> #[trigger] self.pots@[i].id@ != #[trigger] self.pots@[j].id@
    }

    pub fn new() -> (r: ResourcePotMap)
        ensures
            r.wf(),
            r.pots@.len() == 0,
    {
        ResourcePotMap { pots: Vec::new() }
    }

    /// The position of the pot `id`, if there is one.
    pub fn index_of(&self, id: &str) -> (r: Option<usize>)
        ensures
            r is None <==> !self.has(id@),
            r is Some ==> r->Some_0 < self.pots@.len() && self.pots@[r->Some_0 as int].id@ == id@,
    {
        let mut i: usize = 0;
        while i < self.pots.len()
            invariant
                i <= self.pots@.len(),
                forall|k: int| 0 <= k < i ==> self.pots@[k].id@ != id@,
            decreases self.pots@.len() - i,
        {
            if str_eq(self.pots[i].id.as_str(), id) {
                return Some(i);
            }
            i = i + 1;
        }
        None
    }

    /// Puts `pot` in the map, in place of a pot with the same id if there is one.
    pub fn insert(&mut self, pot: ResourcePot)
        requires
            old(self).wf(),
        ensures
            final(self).wf(),
            final(self).pots@.contains(pot),
            forall|p: ResourcePot| final(self).pots@.contains(p) ==> p == pot || old(self).pots@.contains(p),
            forall|p: ResourcePot| old(self).pots@.contains(p) && p.id@ != pot.id@ ==> final(self).pots@.contains(p),
    {
        let ghost before = self.pots@;
        match self.index_of(pot.id.as_str()) {
            Some(i) => {
                self.pots.set(i, pot);
                proof {
                    assert(self.pots@[i as int] == pot);
                    assert forall|p: ResourcePot| before.contains(p) && p.id@ != pot.id@ implies self.pots@.contains(p) by {
                        let k = choose|k: int| 0 <= k < before.len() && before[k] == p;
                        assert(k != i);
                        assert(self.pots@[k] == p);
                    }
                    assert forall|p: ResourcePot| self.pots@.contains(p) implies p == pot || before.contains(p) by {
                        let k = choose|k: int| 0 <= k < self.pots@.len() && self.pots@[k] == p;
                        if k != i {
                            assert(before[k] == p);
                        }
                    }
                }
            },
            None => {
                self.pots.push(pot);
                proof {
                    let n = before.len() as int;
                    assert(self.pots@[n] == pot);
                    assert forall|p: ResourcePot| before.contains(p) && p.id@ != pot.id@ implies self.pots@.contains(p) by {
                        let k = choose|k: int| 0 <= k < before.len() && before[k] == p;
                        assert(self.pots@[k] == p);
                    }
                    assert forall|p: ResourcePot| self.pots@.contains(p) implies p == pot || before.contains(p) by {
                        let k = choose|k: int| 0 <= k < self.pots@.len() && self.pots@[k] == p;
                        if k != n {
                            assert(before[k] == p);
                        }
                    }
                }
            },
        }
    }
}

/// The kind of an emitted artifact.
#[derive(Debug, Clone, PartialEq, Eq)]
pub enum ResourceKind {
    Runtime,
    Html,
    Css,
    Js,
    SourceMap,
    Asset,
    Custom(String),
}

/// A named artifact to be written to the output directory.
#[derive(Debug, Clone)]
pub struct Resource {
    pub name: String,
    pub content: String,
    pub resource_kind: ResourceKind,
    /// Whether the resource has been written.
    pub emitted: bool,
    pub resource_pot_id: String,
}

} // verus!
