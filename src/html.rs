//! The HTML side: the dependencies a document names, and the resources
//! injected into it in place of the references it was written with.
use vstd::prelude::*;
use crate::esm::AnalyzeDep;
use crate::generate::ResourceMap;
use crate::module::ResolveKind;
use crate::module_graph::{contains_id, lists_id};
use crate::module_group::{ModuleGroup, ModuleGroupMap};
use crate::resource::{Resource, ResourceKind, ResourcePotMap};
use crate::text::str_eq;
use crate::module_graph::ModuleGraph;
use crate::error::CompilationError;
use crate::resource::ResourcePot;

verus! {

/// An element of a document: its tag name and its attributes, a value
/// missing where the attribute has none.
#[derive(Debug, Clone, PartialEq, Eq)]
pub struct HtmlElement {
    pub tag_name: String,
    pub attributes: Vec<(String, Option<String>)>,
}

/// The value of the first attribute of `el` named `name`, if it has one.
pub open spec fn attr_value(attrs: Seq<(String, Option<String>)>, name: Seq<char>) -> Option<Seq<char>>
    decreases attrs.len(),
{
    if attrs.len() == 0 {
        None
    } else if attrs[0].0@ == name {
        if attrs[0].1 is Some {
            Some(attrs[0].1->Some_0@)
        } else {
            None
        }
    } else {
        attr_value(attrs.drop_first(), name)
    }
}

/// The value of attribute `attr` of `el` where `el` is a `tag` element.
pub open spec fn tagged_attr(el: HtmlElement, tag: Seq<char>, attr: Seq<char>) -> Option<Seq<char>> {
    if el.tag_name@ == tag {
        attr_value(el.attributes@, attr)
    } else {
        None
    }
}

fn find_attr(attrs: &Vec<(String, Option<String>)>, name: &str) -> (r: Option<String>)
    ensures
        r is None <==> attr_value(attrs@, name@) is None,
        r is Some ==> r->Some_0@ == attr_value(attrs@, name@)->Some_0,
{
    let mut i: usize = 0;
    proof {
        assert(attrs@.skip(0) =~= attrs@);
    }
    while i < attrs.len()
        invariant
            i <= attrs@.len(),
            attr_value(attrs@, name@) == attr_value(attrs@.skip(i as int), name@),
        decreases attrs@.len() - i,
    {
        proof {
            assert(attrs@.skip(i as int).drop_first() =~= attrs@.skip(i + 1));
            assert(attrs@.skip(i as int)[0] == attrs@[i as int]);
        }
        if str_eq(attrs[i].0.as_str(), name) {
            return match &attrs[i].1 {
                Some(v) => Some(v.clone()),
                None => None,
            };
        }
        i = i + 1;
    }
    proof {
        assert(attrs@.skip(i as int).len() == 0);
    }
    None
}

/// The `src` of a `<script>` element.
pub fn get_script_src(el: &HtmlElement) -> (r: Option<String>)
    ensures
        r is None <==> tagged_attr(*el, "script"@, "src"@) is None,
        r is Some ==> r->Some_0@ == tagged_attr(*el, "script"@, "src"@)->Some_0,
{
    if str_eq(el.tag_name.as_str(), "script") {
        find_attr(&el.attributes, "src")
    } else {
        None
    }
}

/// The `href` of a `<link>` element.
pub fn get_link_href(el: &HtmlElement) -> (r: Option<String>)
    ensures
        r is None <==> tagged_attr(*el, "link"@, "href"@) is None,
        r is Some ==> r->Some_0@ == tagged_attr(*el, "link"@, "href"@)->Some_0,
{
    if str_eq(el.tag_name.as_str(), "link") {
        find_attr(&el.attributes, "href")
    } else {
        None
    }
}

/// The dependency that one element names.
pub open spec fn element_dep(el: HtmlElement) -> Option<(Seq<char>, ResolveKind)> {
    if tagged_attr(el, "script"@, "src"@) is Some {
        Some((tagged_attr(el, "script"@, "src"@)->Some_0, ResolveKind::ScriptSrc))
    } else if tagged_attr(el, "link"@, "href"@) is Some {
        Some((tagged_attr(el, "link"@, "href"@)->Some_0, ResolveKind::LinkHref))
    } else {
        None
    }
}

/// The dependencies that the elements name, in order.
pub open spec fn elements_deps(els: Seq<HtmlElement>) -> Seq<(Seq<char>, ResolveKind)>
    decreases els.len(),
{
    if els.len() == 0 {
        Seq::empty()
    } else {
        let rest = elements_deps(els.drop_last());
        match element_dep(els.last()) {
            Some(d) => rest.push(d),
            None => rest,
        }
    }
}

/// The dependencies of a document whose elements are `els`, in document
/// order: each `<script src>` and each `<link href>`.
pub fn analyze_html_deps(els: &Vec<HtmlElement>) -> (r: Vec<AnalyzeDep>)
    ensures
        r@.map_values(|d: AnalyzeDep| (d.source@, d.resolve_kind)) == elements_deps(els@),
{
    let mut deps: Vec<AnalyzeDep> = Vec::new();
    let mut i: usize = 0;
    while i < els.len()
        invariant
            i <= els@.len(),
            deps@.map_values(|d: AnalyzeDep| (d.source@, d.resolve_kind)) == elements_deps(els@.take(i as int)),
        decreases els@.len() - i,
    {
        proof {
            assert(els@.take(i + 1).drop_last() =~= els@.take(i as int));
        }
        let ghost before = deps@;
        let dep = match get_script_src(&els[i]) {
            Some(src) => Some(AnalyzeDep { source: src, resolve_kind: ResolveKind::ScriptSrc }),
            None => match get_link_href(&els[i]) {
                Some(href) => Some(AnalyzeDep { source: href, resolve_kind: ResolveKind::LinkHref }),
                None => None,
            },
        };
        match dep {
            Some(d) => {
                deps.push(d);
                proof {
                    assert(deps@.map_values(|d: AnalyzeDep| (d.source@, d.resolve_kind)) =~= before.map_values(
                        |d: AnalyzeDep| (d.source@, d.resolve_kind),
                    ).push((d.source@, d.resolve_kind)));
                }
            },
            None => {},
        }
        i = i + 1;
    }
    proof {
        assert(els@.take(els@.len() as int) =~= els@);
    }
    deps
}

/// What to change in a document: the references to drop, and the
/// stylesheets and scripts to add.
#[derive(Debug, Clone)]
pub struct ResourcesInjector {
    /// The references the document was written with.
    pub deps: Vec<String>,
    pub css_resources: Vec<String>,
    pub js_resources: Vec<String>,
}

/// `<tag>` with these attributes, each with a value.
pub open spec fn element_with(el: HtmlElement, tag: Seq<char>, attrs: Seq<(Seq<char>, Seq<char>)>) -> bool {
    &&& el.tag_name@ == tag
    &&& el.attributes@.len() == attrs.len()
    &&& forall|k: int|
        0 <= k < attrs.len() ==> (#[trigger] el.attributes@[k]).0@ == attrs[k].0 && el.attributes@[k].1 is Some
            && el.attributes@[k].1->Some_0@ == attrs[k].1
}

fn attr(name: &str, value: &str) -> (r: (String, Option<String>))
    ensures
        r.0@ == name@,
        r.1 is Some && r.1->Some_0@ == value@,
{
    (String::from_str(name), Some(String::from_str(value)))
}

impl ResourcesInjector {
    pub fn new(deps: Vec<String>, css_resources: Vec<String>, js_resources: Vec<String>) -> (r: ResourcesInjector)
        ensures
            r.deps == deps,
            r.css_resources == css_resources,
            r.js_resources == js_resources,
    {
        ResourcesInjector { deps, css_resources, js_resources }
    }

    /// Whether `el` is a `<script src>` or `<link href>` that refers to one
    /// of the references the document was written with, and so goes.
    pub fn removes(&self, el: &HtmlElement) -> (r: bool)
        ensures
            r == (element_dep(*el) is Some && lists_id(self.deps@, element_dep(*el)->Some_0.0)),
    {
        let target = match get_script_src(el) {
            Some(s) => Some(s),
            None => get_link_href(el),
        };
        match target {
            Some(t) => contains_id(&self.deps, t.as_str()),
            None => false,
        }
    }

    /// The `<link rel="stylesheet" href>` elements to add to `<head>`, one per stylesheet.
    pub fn head_elements(&self) -> (r: Vec<HtmlElement>)
        ensures
            r@.len() == self.css_resources@.len(),
            forall|k: int|
                0 <= k < r@.len() ==> element_with(
                    #[trigger] r@[k],
                    "link"@,
                    seq![("rel"@, "stylesheet"@), ("href"@, self.css_resources@[k]@)],
                ),
    {
        let mut out: Vec<HtmlElement> = Vec::new();
        let mut i: usize = 0;
        while i < self.css_resources.len()
            invariant
                i <= self.css_resources@.len(),
                out@.len() == i,
                forall|k: int|
                    0 <= k < i ==> element_with(
                        #[trigger] out@[k],
                        "link"@,
                        seq![("rel"@, "stylesheet"@), ("href"@, self.css_resources@[k]@)],
                    ),
            decreases self.css_resources@.len() - i,
        {
            let el = HtmlElement {
                tag_name: String::from_str("link"),
                attributes: vec![attr("rel", "stylesheet"), attr("href", self.css_resources[i].as_str())],
            };
            out.push(el);
            proof {
                assert(out@[i as int] == el);
            }
            i = i + 1;
        }
        out
    }

    /// The `<script src>` elements to add to `<body>`, one per script.
    pub fn body_elements(&self) -> (r: Vec<HtmlElement>)
        ensures
            r@.len() == self.js_resources@.len(),
            forall|k: int|
                0 <= k < r@.len() ==> element_with(#[trigger] r@[k], "script"@, seq![("src"@, self.js_resources@[k]@)]),
    {
        let mut out: Vec<HtmlElement> = Vec::new();
        let mut i: usize = 0;
        while i < self.js_resources.len()
            invariant
                i <= self.js_resources@.len(),
                out@.len() == i,
                forall|k: int|
                    0 <= k < i ==> element_with(#[trigger] out@[k], "script"@, seq![("src"@, self.js_resources@[k]@)]),
            decreases self.js_resources@.len() - i,
        {
            let el = HtmlElement {
                tag_name: String::from_str("script"),
                attributes: vec![attr("src", self.js_resources[i].as_str())],
            };
            out.push(el);
            proof {
                assert(out@[i as int] == el);
            }
            i = i + 1;
        }
        out
    }
}

/// The position of the pot with id `id`, where there is one.
pub open spec fn pot_with(pots: Seq<ResourcePot>, id: Seq<char>) -> int {
    choose|i: int| 0 <= i < pots.len() && #[trigger] pots[i].id@ == id
}

/// The position of the group with root `id`, where there is one.
pub open spec fn group_with(groups: Seq<ModuleGroup>, id: Seq<char>) -> int {
    choose|i: int| 0 <= i < groups.len() && #[trigger] groups[i].id@ == id
}

/// The first resource recorded under the pot id `rid`, if there is one.
pub open spec fn first_resource(res: Seq<Resource>, rid: Seq<char>) -> Option<int> {
    if exists|t: int| 0 <= t < res.len() && #[trigger] res[t].resource_pot_id@ == rid {
        Some(choose|t: int|
            0 <= t < res.len() && #[trigger] res[t].resource_pot_id@ == rid && forall|u: int|
                0 <= u < t ==> res[u].resource_pot_id@ != rid)
    } else {
        None
    }
}

/// Whether every id of `rids` has a resource.
pub open spec fn rids_present(res: Seq<Resource>, rids: Seq<String>) -> bool {
    forall|k: int| 0 <= k < rids.len() ==> first_resource(res, (#[trigger] rids[k])@) is Some
}

/// The names of the resources of kind `kind` recorded under `rids`, in order.
pub open spec fn rid_names(res: Seq<Resource>, rids: Seq<String>, kind: ResourceKind) -> Seq<Seq<char>>
    decreases rids.len(),
{
    if rids.len() == 0 {
        Seq::empty()
    } else {
        let rest = rid_names(res, rids.drop_last(), kind);
        let t = first_resource(res, rids.last()@);
        if t is Some && res[t->Some_0].resource_kind == kind {
            rest.push(res[t->Some_0].name@)
        } else {
            rest
        }
    }
}

/// Whether every pot listed in `pids`, other than `html`, and each of its
/// resources, exists.
pub open spec fn group_present(pots: Seq<ResourcePot>, res: Seq<Resource>, pids: Seq<String>, html: Seq<char>) -> bool {
    forall|k: int|
        0 <= k < pids.len() && (#[trigger] pids[k])@ != html ==> (exists|i: int| 0 <= i < pots.len() && #[trigger] pots[i].id@ == pids[k]@)
            && rids_present(res, pots[pot_with(pots, pids[k]@)].resource_ids@)
}

/// The names of the resources of kind `kind` of the pots listed in `pids`,
/// other than `html`, in the listed order.
pub open spec fn group_names(
    pots: Seq<ResourcePot>,
    res: Seq<Resource>,
    pids: Seq<String>,
    html: Seq<char>,
    kind: ResourceKind,
) -> Seq<Seq<char>>
    decreases pids.len(),
{
    if pids.len() == 0 {
        Seq::empty()
    } else {
        let rest = group_names(pots, res, pids.drop_last(), html, kind);
        if pids.last()@ == html {
            rest
        } else {
            rest + rid_names(res, pots[pot_with(pots, pids.last()@)].resource_ids@, kind)
        }
    }
}

pub open spec fn names(v: Seq<String>) -> Seq<Seq<char>> {
    v.map_values(|s: String| s@)
}

/// The first resource recorded under the pot id `rid`.
fn find_resource(resources: &ResourceMap, rid: &str) -> (r: Option<usize>)
    ensures
        r is None <==> first_resource(resources.resources@, rid@) is None,
        r is Some ==> first_resource(resources.resources@, rid@) == Some(r->Some_0 as int),
        r is Some ==> r->Some_0 < resources.resources@.len(),
{
    let ghost res = resources.resources@;
    let mut t: usize = 0;
    while t < resources.resources.len()
        invariant
            res == resources.resources@,
            t <= res.len(),
            forall|u: int| 0 <= u < t ==> res[u].resource_pot_id@ != rid@,
        decreases res.len() - t,
    {
        if str_eq(resources.resources[t].resource_pot_id.as_str(), rid) {
            proof {
                let c = choose|c: int|
                    0 <= c < res.len() && #[trigger] res[c].resource_pot_id@ == rid@ && forall|u: int|
                        0 <= u < c ==> res[u].resource_pot_id@ != rid@;
                if c < t {
                } else if c > t {
                    assert(res[t as int].resource_pot_id@ != rid@);
                }
            }
            return Some(t);
        }
        t = t + 1;
    }
    None
}

/// The stylesheet and script names among the resources recorded under `rids`.
#[verifier::rlimit(60)]
fn rid_name_lists(resources: &ResourceMap, rids: &Vec<String>) -> (r: Option<(Vec<String>, Vec<String>)>)
    ensures
        r is Some <==> rids_present(resources.resources@, rids@),
        r is Some ==> names(r->Some_0.0@) == rid_names(resources.resources@, rids@, ResourceKind::Css)
            && names(r->Some_0.1@) == rid_names(resources.resources@, rids@, ResourceKind::Js),
{
    let ghost res = resources.resources@;
    let mut css: Vec<String> = Vec::new();
    let mut js: Vec<String> = Vec::new();
    let mut q: usize = 0;
    while q < rids.len()
        invariant
            res == resources.resources@,
            q <= rids@.len(),
            forall|k: int| 0 <= k < q ==> first_resource(res, (#[trigger] rids@[k])@) is Some,
            names(css@) == rid_names(res, rids@.take(q as int), ResourceKind::Css),
            names(js@) == rid_names(res, rids@.take(q as int), ResourceKind::Js),
        decreases rids@.len() - q,
    {
        proof {
            assert(rids@.take(q + 1).drop_last() =~= rids@.take(q as int));
            assert(rids@.take(q + 1).last() == rids@[q as int]);
        }
        let t = match find_resource(resources, rids[q].as_str()) {
            Some(t) => t,
            None => {
                proof {
                    let k = q as int;
                    assert(first_resource(res, rids@[k]@) is None);
                }
                return None;
            },
        };
        let res_t = &resources.resources[t];
        let ghost bc = names(css@);
        let ghost bj = names(js@);
        proof {
            let tk = rids@.take(q + 1);
            assert(first_resource(res, tk.last()@) == Some(t as int));
        }
        match res_t.resource_kind {
            ResourceKind::Css => {
                css.push(res_t.name.clone());
                proof {
                    assert(names(css@) =~= bc.push(res_t.name@));
                }
            },
            ResourceKind::Js => {
                js.push(res_t.name.clone());
                proof {
                    assert(names(js@) =~= bj.push(res_t.name@));
                }
            },
            _ => {},
        }
        q = q + 1;
    }
    proof {
        assert(rids@.take(rids@.len() as int) =~= rids@);
    }
    Some((css, js))
}

/// The names of the stylesheet and script resources of the pots that share
/// the HTML pot's group, other than the HTML pot itself, in the group's pot
/// order; `None` where the pot, its group, or a resource is missing.
pub fn html_dep_resources(
    html_pot_id: &str,
    pots: &ResourcePotMap,
    groups: &ModuleGroupMap,
    resources: &ResourceMap,
) -> (r: Option<(Vec<String>, Vec<String>)>)
    requires
        pots.wf(),
        groups.wf(),
    ensures
        r is Some <==> ({
            let hp = pot_with(pots.pots@, html_pot_id@);
            let gi = group_with(groups.groups@, pots.pots@[hp].module_group_id@);
            &&& pots.has(html_pot_id@)
            &&& groups.has(pots.pots@[hp].module_group_id@)
            &&& group_present(pots.pots@, resources.resources@, groups.groups@[gi].resource_pot_ids@, html_pot_id@)
        }),
        r is Some ==> ({
            let hp = pot_with(pots.pots@, html_pot_id@);
            let gi = group_with(groups.groups@, pots.pots@[hp].module_group_id@);
            let pids = groups.groups@[gi].resource_pot_ids@;
            &&& names(r->Some_0.0@) == group_names(pots.pots@, resources.resources@, pids, html_pot_id@, ResourceKind::Css)
            &&& names(r->Some_0.1@) == group_names(pots.pots@, resources.resources@, pids, html_pot_id@, ResourceKind::Js)
        }),
{
    let ghost ps = pots.pots@;
    let ghost res = resources.resources@;
    let pi = match pots.index_of(html_pot_id) {
        Some(i) => i,
        None => {
            return None;
        },
    };
    proof {
        lemma_pot_with(pots, pi as int);
    }
    let gi = match groups.index_of(pots.pots[pi].module_group_id.as_str()) {
        Some(i) => i,
        None => {
            return None;
        },
    };
    proof {
        lemma_group_with(groups, gi as int);
    }
    let group = &groups.groups[gi];
    let ghost pids = group.resource_pot_ids@;
    let mut css: Vec<String> = Vec::new();
    let mut js: Vec<String> = Vec::new();
    let mut k: usize = 0;
    while k < group.resource_pot_ids.len()
        invariant
            pots.wf(),
            ps == pots.pots@,
            res == resources.resources@,
            pids == group.resource_pot_ids@,
            groups.wf(),
            pi < ps.len(),
            gi < groups.groups@.len(),
            *group == groups.groups@[gi as int],
            ps[pi as int].id@ == html_pot_id@,
            pot_with(ps, html_pot_id@) == pi,
            groups.groups@[gi as int].id@ == ps[pi as int].module_group_id@,
            group_with(groups.groups@, ps[pi as int].module_group_id@) == gi,
            k <= pids.len(),
            group_present(ps, res, pids.take(k as int), html_pot_id@),
            names(css@) == group_names(ps, res, pids.take(k as int), html_pot_id@, ResourceKind::Css),
            names(js@) == group_names(ps, res, pids.take(k as int), html_pot_id@, ResourceKind::Js),
        decreases pids.len() - k,
    {
        let ghost pk = pids.take(k + 1);
        proof {
            assert(pk.drop_last() =~= pids.take(k as int));
            assert(pk.last() == pids[k as int]);
        }
        let pot_id = &group.resource_pot_ids[k];
        if !str_eq(pot_id.as_str(), html_pot_id) {
            let di = match pots.index_of(pot_id.as_str()) {
                Some(i) => i,
                None => {
                    proof {
                        assert(pk[k as int] == pids[k as int]);
                        assert(!group_present(ps, res, pk, html_pot_id@));
                        lemma_present_prefix(ps, res, pids, html_pot_id@, k as int + 1);
                    }
                    return None;
                },
            };
            proof {
                lemma_pot_with(pots, di as int);
            }
            let (c, j) = match rid_name_lists(resources, &pots.pots[di].resource_ids) {
                Some(v) => v,
                None => {
                    proof {
                        assert(pk[k as int] == pids[k as int]);
                        assert(!group_present(ps, res, pk, html_pot_id@));
                        lemma_present_prefix(ps, res, pids, html_pot_id@, k as int + 1);
                    }
                    return None;
                },
            };
            let ghost bc = names(css@);
            let ghost bj = names(js@);
            let mut x: usize = 0;
            while x < c.len()
                invariant
                    x <= c@.len(),
                    names(css@) == bc + names(c@).take(x as int),
                decreases c@.len() - x,
            {
                let ghost before = names(css@);
                css.push(c[x].clone());
                proof {
                    assert(names(c@)[x as int] == c@[x as int]@);
                    assert(names(css@) =~= before.push(c@[x as int]@));
                    assert(names(c@).take(x + 1) =~= names(c@).take(x as int).push(c@[x as int]@));
                    assert(names(css@) =~= bc + names(c@).take(x + 1));
                }
                x = x + 1;
            }
            let mut y: usize = 0;
            while y < j.len()
                invariant
                    y <= j@.len(),
                    names(js@) == bj + names(j@).take(y as int),
                decreases j@.len() - y,
            {
                let ghost before = names(js@);
                js.push(j[y].clone());
                proof {
                    assert(names(j@)[y as int] == j@[y as int]@);
                    assert(names(js@) =~= before.push(j@[y as int]@));
                    assert(names(j@).take(y + 1) =~= names(j@).take(y as int).push(j@[y as int]@));
                    assert(names(js@) =~= bj + names(j@).take(y + 1));
                }
                y = y + 1;
            }
            proof {
                assert(names(c@).take(c@.len() as int) =~= names(c@));
                assert(names(j@).take(j@.len() as int) =~= names(j@));
                assert forall|q: int| 0 <= q < pk.len() && (#[trigger] pk[q])@ != html_pot_id@ implies (exists|i: int|
                    0 <= i < ps.len() && #[trigger] ps[i].id@ == pk[q]@) && rids_present(res, ps[pot_with(ps, pk[q]@)].resource_ids@) by {
                    if q < k {
                        assert(pk[q] == pids.take(k as int)[q]);
                    } else {
                        assert(ps[di as int].id@ == pk[q]@);
                    }
                }
            }
        } else {
            proof {
                assert forall|q: int| 0 <= q < pk.len() && (#[trigger] pk[q])@ != html_pot_id@ implies (exists|i: int|
                    0 <= i < ps.len() && #[trigger] ps[i].id@ == pk[q]@) && rids_present(res, ps[pot_with(ps, pk[q]@)].resource_ids@) by {
                    assert(q < k);
                    assert(pk[q] == pids.take(k as int)[q]);
                }
            }
        }
        k = k + 1;
    }
    proof {
        assert(pids.take(pids.len() as int) =~= pids);
    }
    Some((css, js))
}

/// What to change in the page of the HTML pot `html_pot_id`: drop the
/// references its document was written with (the specifiers of its
/// module's edges) and add the stylesheets and scripts of the other pots of
/// its group, in the group's pot order.
pub fn plan_html_injection(
    html_pot_id: &str,
    pots: &ResourcePotMap,
    groups: &ModuleGroupMap,
    resources: &ResourceMap,
    graph: &ModuleGraph,
) -> (r: Option<ResourcesInjector>)
    requires
        pots.wf(),
        groups.wf(),
    ensures
        r is Some <==> ({
            let hp = pot_with(pots.pots@, html_pot_id@);
            let gi = group_with(groups.groups@, pots.pots@[hp].module_group_id@);
            &&& pots.has(html_pot_id@)
            &&& groups.has(pots.pots@[hp].module_group_id@)
            &&& group_present(pots.pots@, resources.resources@, groups.groups@[gi].resource_pot_ids@, html_pot_id@)
            &&& pots.pots@[hp].module_ids@.len() > 0
            &&& graph.has(pots.pots@[hp].module_ids@[0]@)
        }),
        r is Some ==> ({
            let hp = pot_with(pots.pots@, html_pot_id@);
            let gi = group_with(groups.groups@, pots.pots@[hp].module_group_id@);
            let pids = groups.groups@[gi].resource_pot_ids@;
            let m = pots.pots@[hp].module_ids@[0]@;
            &&& names(r->Some_0.css_resources@) == group_names(pots.pots@, resources.resources@, pids, html_pot_id@, ResourceKind::Css)
            &&& names(r->Some_0.js_resources@) == group_names(pots.pots@, resources.resources@, pids, html_pot_id@, ResourceKind::Js)
            &&& forall|s: Seq<char>|
                lists_id(r->Some_0.deps@, s) <==> exists|j: int|
                    0 <= j < graph.edges@.len() && #[trigger] graph.edges@[j].from@ == m && graph.edges@[j].info.source@ == s
        }),
{
    let (css, js) = match html_dep_resources(html_pot_id, pots, groups, resources) {
        Some(v) => v,
        None => {
            return None;
        },
    };
    let pi = match pots.index_of(html_pot_id) {
        Some(i) => i,
        None => {
            return None;
        },
    };
    proof {
        lemma_pot_with(pots, pi as int);
    }
    if pots.pots[pi].module_ids.len() == 0 {
        return None;
    }
    let deps = match graph.dependency_sources(pots.pots[pi].module_ids[0].as_str()) {
        Ok(d) => d,
        Err(_) => {
            return None;
        },
    };
    Some(ResourcesInjector::new(deps, css, js))
}

proof fn lemma_pot_with(pots: &ResourcePotMap, i: int)
    requires
        pots.wf(),
        0 <= i < pots.pots@.len(),
    ensures
        pot_with(pots.pots@, pots.pots@[i].id@) == i,
{
    let j = pot_with(pots.pots@, pots.pots@[i].id@);
    if j < i {
        assert(pots.pots@[j].id@ != pots.pots@[i].id@);
    } else if j > i {
        assert(pots.pots@[i].id@ != pots.pots@[j].id@);
    }
}

proof fn lemma_group_with(groups: &ModuleGroupMap, i: int)
    requires
        groups.wf(),
        0 <= i < groups.groups@.len(),
    ensures
        group_with(groups.groups@, groups.groups@[i].id@) == i,
{
    let j = group_with(groups.groups@, groups.groups@[i].id@);
    if j < i {
        assert(groups.groups@[j].id@ != groups.groups@[i].id@);
    } else if j > i {
        assert(groups.groups@[i].id@ != groups.groups@[j].id@);
    }
}

/// A listing that fails early fails in full.
proof fn lemma_present_prefix(ps: Seq<ResourcePot>, res: Seq<Resource>, pids: Seq<String>, html: Seq<char>, n: int)
    requires
        0 <= n <= pids.len(),
        !group_present(ps, res, pids.take(n), html),
    ensures
        !group_present(ps, res, pids, html),
{
    let q = choose|q: int|
        !(0 <= q < pids.take(n).len() && (#[trigger] pids.take(n)[q])@ != html ==> (exists|i: int|
            0 <= i < ps.len() && #[trigger] ps[i].id@ == pids.take(n)[q]@) && rids_present(res, ps[pot_with(ps, pids.take(n)[q]@)].resource_ids@));
    assert(pids.take(n)[q] == pids[q]);
}

} // verus!

verus! {

/// Collects the `<script src>` and `<link href>` of documents.
#[derive(Debug, Clone)]
pub struct DepsVisitor {
    pub deps: Vec<AnalyzeDep>,
}

impl DepsVisitor {
    pub fn new() -> (r: DepsVisitor)
        ensures
            r.deps@.len() == 0,
    {
        DepsVisitor { deps: Vec::new() }
    }

    /// Sets the dependencies to those of a document whose elements, in
    /// document order, are `els`.
    pub fn visit_elements(&mut self, els: &Vec<HtmlElement>)
        ensures
            final(self).deps@.map_values(|d: AnalyzeDep| (d.source@, d.resolve_kind)) == elements_deps(els@),
    {
        self.deps = analyze_html_deps(els);
    }
}

/// The HTML plugin: finds a document's references and checks its pot.
#[derive(Debug, Clone)]
pub struct PluginHtml {}

impl PluginHtml {
    pub fn new() -> (r: PluginHtml) {
        PluginHtml {}
    }

    /// An HTML pot holds exactly one document; none or more is an error.
    pub fn check_pot(&self, pot: &ResourcePot) -> (r: Result<(), CompilationError>)
        ensures
            r is Ok <==> pot.module_ids@.len() == 1,
            r is Err ==> r->Err_0 is GenericError,
    {
        if pot.module_ids.len() == 0 {
            Err(CompilationError::GenericError(String::from_str("An html pot holds no module")))
        } else if pot.module_ids.len() > 1 {
            Err(CompilationError::GenericError(String::from_str("Multiple html modules are not supported")))
        } else {
            Ok(())
        }
    }
}

} // verus!
