//! Module groups: the modules statically reachable from one root.
use vstd::prelude::*;
use crate::text::str_eq;

verus! {

/// The modules that one entry, or one target of a dynamic import, reaches
/// without crossing a dynamic import.
#[derive(Debug, Clone, PartialEq)]
pub struct ModuleGroup {
    /// The root of the group.
    pub id: String,
    /// The modules of the group, the root first.
    pub module_ids: Vec<String>,
    /// The resource pots this group was merged into.
    pub resource_pot_ids: Vec<String>,
}

impl ModuleGroup {
    pub fn new(id: String) -> (r: ModuleGroup)
        ensures
            r.id == id,
            r.module_ids@ == seq![id],
            r.resource_pot_ids@.len() == 0,
    {
        let root = id.clone();
        ModuleGroup { id, module_ids: vec![root], resource_pot_ids: Vec::new() }
    }

    pub fn add_module_id(&mut self, module_id: String)
        ensures
            final(self).module_ids@ == old(self).module_ids@.push(module_id),
            final(self).id == old(self).id,
            final(self).resource_pot_ids == old(self).resource_pot_ids,
    {
        self.module_ids.push(module_id);
    }

    pub fn module_ids(&self) -> (r: &Vec<String>)
        ensures
            *r == self.module_ids,
    {
        &self.module_ids
    }

    pub fn add_resource_pot_id(&mut self, resource_pot_id: String)
        ensures
            final(self).resource_pot_ids@ == old(self).resource_pot_ids@.push(resource_pot_id),
            final(self).id == old(self).id,
            final(self).module_ids == old(self).module_ids,
    {
        self.resource_pot_ids.push(resource_pot_id);
    }

    pub fn resource_pot_ids(&self) -> (r: &Vec<String>)
        ensures
            *r == self.resource_pot_ids,
    {
        &self.resource_pot_ids
    }
}

/// The module groups of a compilation, at most one per root id.
#[derive(Debug, Clone)]
pub struct ModuleGroupMap {
    pub groups: Vec<ModuleGroup>,
}

impl ModuleGroupMap {
    /// Whether a group with this root is in the map.
    pub open spec fn has(&self, id: Seq<char>) -> bool {
        exists|i: int| 0 <= i < self.groups@.len() && #[trigger] self.groups@[i].id@ == id
    }

    pub open spec fn wf(&self) -> bool {
        forall|i: int, j: int|
            0 <= i < j < self.groups@.len() ==> #[trigger] self.groups@[i].id@
                != #[trigger] self.groups@[j].id@
    }

    pub fn new() -> (r: ModuleGroupMap)
        ensures
            r.wf(),
            r.groups@.len() == 0,
    {
        ModuleGroupMap { groups: Vec::new() }
    }

    /// The position of the group with root `id`, if there is one.
    pub fn index_of(&self, id: &str) -> (r: Option<usize>)
        ensures
            r is None <==> !self.has(id@),
            r is Some ==> r->Some_0 < self.groups@.len() && self.groups@[r->Some_0 as int].id@
                == id@,
    {
        let mut i: usize = 0;
        while i < self.groups.len()
            invariant
                i <= self.groups@.len(),
                forall|k: int| 0 <= k < i ==> self.groups@[k].id@ != id@,
            decreases self.groups@.len() - i,
        {
            if str_eq(self.groups[i].id.as_str(), id) {
                return Some(i);
            }
            i = i + 1;
        }
        None
    }

    /// The group with root `id`, if there is one.
    pub fn get(&self, id: &str) -> (r: Option<&ModuleGroup>)
        ensures
            r is None <==> !self.has(id@),
            r is Some ==> r->Some_0.id@ == id@ && self.groups@.contains(*r->Some_0),
    {
        match self.index_of(id) {
            Some(i) => {
                proof {
                    assert(self.groups@[i as int] == self.groups@[i as int]);
                }
                Some(&self.groups[i])
            },
            None => None,
        }
    }

    /// Puts `group` in the map, in place of a group with the same root if there is one.
    pub fn insert(&mut self, group: ModuleGroup)
        requires
            old(self).wf(),
        ensures
            final(self).wf(),
            final(self).has(group.id@),
            final(self).groups@.contains(group),
            forall|i: int|
                0 <= i < old(self).groups@.len() && old(self).groups@[i].id@ != group.id@
                    ==> final(self).groups@.contains(#[trigger] old(self).groups@[i]),
            forall|g: ModuleGroup|
                final(self).groups@.contains(g) ==> g == group || old(self).groups@.contains(g),
    {
        match self.index_of(group.id.as_str()) {
            Some(i) => {
                let ghost before = self.groups@;
                self.groups.set(i, group);
                proof {
                    assert(self.groups@[i as int] == group);
                    assert forall|k: int|
                        0 <= k < before.len() && before[k].id@ != group.id@ implies self.groups@.contains(
                        #[trigger] before[k],
                    ) by {
                        assert(self.groups@[k] == before[k]);
                    }
                    assert forall|g: ModuleGroup| self.groups@.contains(g) implies g == group
                        || before.contains(g) by {
                        let k = choose|k: int| 0 <= k < self.groups@.len() && self.groups@[k] == g;
                        if k != i {
                            assert(before[k] == g);
                        }
                    }
                }
            },
            None => {
                let ghost before = self.groups@;
                self.groups.push(group);
                proof {
                    let n = before.len() as int;
                    assert(self.groups@[n] == group);
                    assert forall|k: int|
                        0 <= k < before.len() && before[k].id@ != group.id@ implies self.groups@.contains(
                        #[trigger] before[k],
                    ) by {
                        assert(self.groups@[k] == before[k]);
                    }
                    assert forall|g: ModuleGroup| self.groups@.contains(g) implies g == group
                        || before.contains(g) by {
                        let k = choose|k: int| 0 <= k < self.groups@.len() && self.groups@[k] == g;
                        if k != n {
                            assert(before[k] == g);
                        }
                    }
                }
            },
        }
    }
}

} // verus!
