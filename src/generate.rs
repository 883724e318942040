//! Turning rendered pots into resources, and choosing which resources to write.
use vstd::prelude::*;
use crate::resolve::{stripe_root_prefix, stripped_id};
use crate::resource::{Resource, ResourceKind, ResourcePot, ResourcePotMeta};

verus! {

/// The resources of a compilation.
#[derive(Debug, Clone)]
pub struct ResourceMap {
    pub resources: Vec<Resource>,
}

impl ResourceMap {
    pub fn new() -> (r: ResourceMap)
        ensures
            r.resources@.len() == 0,
    {
        ResourceMap { resources: Vec::new() }
    }

    /// Adds a resource.
    pub fn insert(&mut self, resource: Resource)
        ensures
            final(self).resources@ == old(self).resources@.push(resource),
    {
        self.resources.push(resource);
    }

    pub fn len(&self) -> (r: usize)
        ensures
            r == self.resources@.len(),
    {
        self.resources.len()
    }
}

/// The kind of resource that a pot rendered as `meta` becomes.
pub open spec fn resource_kind_of(meta: ResourcePotMeta) -> Option<ResourceKind> {
    match meta {
        ResourcePotMeta::Html(_) => Some(ResourceKind::Html),
        ResourcePotMeta::Css(_) => Some(ResourceKind::Css),
        ResourcePotMeta::Js(_) => Some(ResourceKind::Js),
        ResourcePotMeta::Custom => None,
    }
}

/// The resource that a rendered pot becomes: named after the pot's id
/// without its `root:` prefix, holding the rendered code (an HTML document's
/// code is filled in when it is written). The pot records the resource.
pub fn generate_resources(pot: &mut ResourcePot) -> (r: Option<Resource>)
    ensures
        r is None <==> old(pot).meta is Custom,
        r is None ==> *final(pot) == *old(pot),
        r is Some ==> ({
            let res = r->Some_0;
            &&& res.name@ == stripped_id(old(pot).id@)
            &&& Some(res.resource_kind) == resource_kind_of(old(pot).meta)
            &&& !res.emitted
            &&& res.resource_pot_id == old(pot).id
            &&& (old(pot).meta matches ResourcePotMeta::Js(m) ==> res.content == m.code)
            &&& (old(pot).meta matches ResourcePotMeta::Css(m) ==> res.content == m.code)
            &&& (old(pot).meta is Html ==> res.content@.len() == 0)
            &&& final(pot).resource_ids@ == old(pot).resource_ids@.push(old(pot).id)
            &&& final(pot).id == old(pot).id
            &&& final(pot).meta == old(pot).meta
            &&& final(pot).module_ids == old(pot).module_ids
            &&& final(pot).module_group_id == old(pot).module_group_id
            &&& final(pot).kind == old(pot).kind
        }),
{
    let (kind, content) = match &pot.meta {
        ResourcePotMeta::Html(_) => (ResourceKind::Html, String::new()),
        ResourcePotMeta::Css(m) => (ResourceKind::Css, m.code.clone()),
        ResourcePotMeta::Js(m) => (ResourceKind::Js, m.code.clone()),
        ResourcePotMeta::Custom => {
            return None;
        },
    };
    let name = stripe_root_prefix(pot.id.as_str());
    pot.resource_ids.push(pot.id.clone());
    Some(Resource { name, content, resource_kind: kind, emitted: false, resource_pot_id: pot.id.clone() })
}

/// Marks every resource that is not yet emitted as emitted, and returns their
/// positions, ascending: the resources to write now, each once.
pub fn plan_writes(resources: &mut ResourceMap) -> (r: Vec<usize>)
    ensures
        final(resources).resources@.len() == old(resources).resources@.len(),
        forall|i: int|
            0 <= i < final(resources).resources@.len() ==> (#[trigger] final(resources).resources@[i]).emitted,
        forall|i: int|
            0 <= i < final(resources).resources@.len() ==> #[trigger] final(resources).resources@[i] == (Resource {
                emitted: true,
                ..old(resources).resources@[i]
            }),
        forall|a: int, b: int| 0 <= a < b < r@.len() ==> r@[a] < r@[b],
        forall|k: int|
            0 <= k < r@.len() ==> r@[k] < old(resources).resources@.len() && !old(resources).resources@[r@[k] as int].emitted,
        forall|i: int|
            0 <= i < old(resources).resources@.len() && !old(resources).resources@[i].emitted ==> r@.contains(
                i as usize,
            ),
{
    let mut out: Vec<usize> = Vec::new();
    let n = resources.resources.len();
    let mut i: usize = 0;
    while i < n
        invariant
            n == old(resources).resources@.len(),
            resources.resources@.len() == n,
            i <= n,
            forall|j: int| 0 <= j < i ==> (#[trigger] resources.resources@[j]).emitted,
            forall|j: int| i <= j < n ==> #[trigger] resources.resources@[j] == old(resources).resources@[j],
            forall|j: int|
                0 <= j < i ==> #[trigger] resources.resources@[j] == (Resource { emitted: true, ..old(resources).resources@[j] }),
            forall|a: int, b: int| 0 <= a < b < out@.len() ==> out@[a] < out@[b],
            forall|k: int| 0 <= k < out@.len() ==> out@[k] < i && !old(resources).resources@[out@[k] as int].emitted,
            forall|j: int| 0 <= j < i && !old(resources).resources@[j].emitted ==> out@.contains(j as usize),
        decreases n - i,
    {
        if !resources.resources[i].emitted {
            let ghost before = resources.resources@;
            let mut res = resources.resources.remove(i);
            res.emitted = true;
            resources.resources.insert(i, res);
            proof {
                assert(resources.resources@ =~= before.update(i as int, res));
            }
            let ghost before = out@;
            out.push(i);
            proof {
                assert(out@[out@.len() - 1] == i);
                assert forall|j: int| 0 <= j < i + 1 && !old(resources).resources@[j].emitted implies out@.contains(j as usize) by {
                    if j < i {
                        let k = choose|k: int| 0 <= k < before.len() && before[k] == j as usize;
                        assert(out@[k] == before[k]);
                    } else {
                        assert(out@[out@.len() - 1] == j as usize);
                    }
                }
            }
        } else {
            proof {
                assert(resources.resources@[i as int] == (Resource { emitted: true, ..old(resources).resources@[i as int] }));
            }
        }
        i = i + 1;
    }
    out
}

/// Writing twice writes nothing the second time: after `plan_writes`, every
/// resource is emitted, so a second plan has no position to write.
pub proof fn law_no_resource_written_twice(after_first: &ResourceMap, second: Seq<usize>)
    requires
        forall|i: int| 0 <= i < after_first.resources@.len() ==> (#[trigger] after_first.resources@[i]).emitted,
        forall|k: int|
            0 <= k < second.len() ==> second[k] < after_first.resources@.len() && !after_first.resources@[second[k] as int].emitted,
    ensures
        second.len() == 0,
{
    if second.len() > 0 {
        assert(after_first.resources@[second[0] as int].emitted);
    }
}

} // verus!

verus! {

/// The plugin that writes resources to the output directory.
#[derive(Debug, Clone)]
pub struct PluginResources {}

impl PluginResources {
    pub fn new() -> (r: PluginResources) {
        PluginResources {}
    }
}

} // verus!
