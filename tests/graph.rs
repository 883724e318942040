use toy::module::{Module, ModuleKind, ResolveKind};
use toy::module_graph::{ModuleGraph, ModuleGraphEdge};
use toy::module_group::ModuleGroup;
use toy::partition::{analyze_module_graph, merge_modules, module_group_from_entry};
use toy::resource::ResourcePotKind;

fn edge(kind: ResolveKind, source: &str, order: usize) -> ModuleGraphEdge {
    ModuleGraphEdge { kind, source: source.to_string(), order }
}

/// a and b are entries; a -> c, c -> f, d -> f, b -> e are static imports and
/// a -> d is a dynamic import.
fn mock_module_graph() -> ModuleGraph {
    let mut module_graph = ModuleGraph::new();
    for id in ["a", "b", "c", "d", "e", "f"] {
        module_graph.add_module(Module::new(id.to_string(), ModuleKind::Js, None));
    }
    module_graph.add_edge("a", "c", edge(ResolveKind::Import, "c", 0)).unwrap();
    module_graph.add_edge("a", "d", edge(ResolveKind::DynamicImport, "d", 1)).unwrap();
    module_graph.add_edge("c", "f", edge(ResolveKind::Import, "f", 0)).unwrap();
    module_graph.add_edge("d", "f", edge(ResolveKind::Import, "f", 0)).unwrap();
    module_graph.add_edge("b", "e", edge(ResolveKind::Import, "e", 0)).unwrap();
    module_graph
}

#[test]
fn test_module_graph() {
    let module_graph = mock_module_graph();

    let a_deps = module_graph.dependencies("a").unwrap();
    assert_eq!(a_deps.len(), 2);
    assert_eq!(a_deps.get(0).unwrap(), &("c".to_string(), edge(ResolveKind::Import, "c", 0)));
    assert_eq!(a_deps.get(1).unwrap(), &("d".to_string(), edge(ResolveKind::DynamicImport, "d", 1)));

    let b_deps = module_graph.dependencies("b").unwrap();
    assert_eq!(b_deps.len(), 1);
    assert_eq!(b_deps.get(0).unwrap(), &("e".to_string(), edge(ResolveKind::Import, "e", 0)));

    let c_deps = module_graph.dependencies("c").unwrap();
    assert_eq!(c_deps.len(), 1);
    assert_eq!(c_deps.get(0).unwrap(), &("f".to_string(), edge(ResolveKind::Import, "f", 0)));

    let d_deps = module_graph.dependencies("d").unwrap();
    assert_eq!(d_deps.len(), 1);
    assert_eq!(d_deps.get(0).unwrap(), &("f".to_string(), edge(ResolveKind::Import, "f", 0)));

    let f_deps = module_graph.dependencies("f").unwrap();
    assert_eq!(f_deps.len(), 0);
}

#[test]
fn test_module_group_from_entry() {
    let mut module_graph = mock_module_graph();

    let (module_group, dynamic_deps) = module_group_from_entry("a".to_string(), &mut module_graph).unwrap();
    let mut right_module_group = ModuleGroup::new("a".to_string());
    right_module_group.add_module_id("c".to_string());
    right_module_group.add_module_id("f".to_string());
    assert_eq!(module_group, right_module_group);
    assert_eq!(dynamic_deps, vec!["d".to_string()]);

    let (module_group, dynamic_deps) = module_group_from_entry("b".to_string(), &mut module_graph).unwrap();
    let mut right_module_group = ModuleGroup::new("b".to_string());
    let right_dynamic_deps: Vec<String> = vec![];
    right_module_group.add_module_id("e".to_string());
    assert_eq!(module_group, right_module_group);
    assert_eq!(dynamic_deps, right_dynamic_deps);

    let (module_group, dynamic_deps) = module_group_from_entry("d".to_string(), &mut module_graph).unwrap();
    let mut right_module_group = ModuleGroup::new("d".to_string());
    let right_dynamic_deps: Vec<String> = vec![];
    right_module_group.add_module_id("f".to_string());
    assert_eq!(module_group, right_module_group);
    assert_eq!(dynamic_deps, right_dynamic_deps);
}

#[test]
fn dependencies_sort_by_order_keeping_insertion_for_ties() {
    let mut g = ModuleGraph::new();
    for id in ["x", "p", "q", "r"] {
        g.add_module(Module::new(id.to_string(), ModuleKind::Js, None));
    }
    g.add_edge("x", "r", edge(ResolveKind::Import, "./r", 2)).unwrap();
    g.add_edge("x", "p", edge(ResolveKind::Import, "./p", 0)).unwrap();
    g.add_edge("x", "q", edge(ResolveKind::Import, "./q", 1)).unwrap();
    let deps = g.dependencies("x").unwrap();
    let orders: Vec<usize> = deps.iter().map(|d| d.1.order).collect();
    assert_eq!(orders, vec![0, 1, 2]);
    let targets: Vec<&str> = deps.iter().map(|d| d.0.as_str()).collect();
    assert_eq!(targets, vec!["p", "q", "r"]);
}

#[test]
fn graph_rejects_unknown_ids() {
    let mut g = mock_module_graph();
    assert!(g.dependencies("zzz").is_err());
    assert!(g.add_edge("a", "zzz", edge(ResolveKind::Import, "z", 3)).is_err());
    assert!(g.add_edge("zzz", "a", edge(ResolveKind::Import, "z", 3)).is_err());
    assert!(!g.add_module(Module::new("a".to_string(), ModuleKind::Css, None)));
    assert_eq!(g.module("a").unwrap().kind, ModuleKind::Js);
}

#[test]
fn every_group_holds_its_root_and_every_module_is_grouped() {
    let mut g = mock_module_graph();
    g.entries = vec!["a".to_string(), "b".to_string()];
    let groups = analyze_module_graph(&mut g);
    let mut ids: Vec<&str> = groups.groups.iter().map(|x| x.id.as_str()).collect();
    ids.sort();
    assert_eq!(ids, vec!["a", "b", "d"]);
    for group in &groups.groups {
        assert_eq!(group.module_ids[0], group.id);
    }
    for m in ["a", "b", "c", "d", "e", "f"] {
        assert!(groups.groups.iter().any(|x| x.module_ids.iter().any(|y| y == m)));
        assert!(!g.module(m).unwrap().module_groups.is_empty());
    }
    let d_group = groups.get("d").unwrap();
    assert_eq!(d_group.module_ids, vec!["d".to_string(), "f".to_string()]);
}

#[test]
fn dynamic_import_starts_a_new_group() {
    let mut g = ModuleGraph::new();
    g.add_module(Module::new("root:index.js".to_string(), ModuleKind::Js, None));
    g.add_module(Module::new("root:lazy.js".to_string(), ModuleKind::Js, None));
    g.add_edge("root:index.js", "root:lazy.js", edge(ResolveKind::DynamicImport, "./lazy", 0)).unwrap();
    g.entries = vec!["root:index.js".to_string()];
    let mut groups = analyze_module_graph(&mut g);
    assert_eq!(groups.groups.len(), 2);
    assert_eq!(groups.get("root:index.js").unwrap().module_ids, vec!["root:index.js".to_string()]);
    assert_eq!(groups.get("root:lazy.js").unwrap().module_ids, vec!["root:lazy.js".to_string()]);
    let pots = merge_modules(&mut groups, &g).unwrap();
    assert_eq!(pots.pots.len(), 2);
    assert!(pots.pots.iter().all(|p| p.kind == ResourcePotKind::Js));
}

#[test]
fn pots_split_a_group_by_kind() {
    let mut g = ModuleGraph::new();
    g.add_module(Module::new("root:index.html".to_string(), ModuleKind::Html, None));
    g.add_module(Module::new("root:app.js".to_string(), ModuleKind::Js, None));
    g.add_module(Module::new("root:util.ts".to_string(), ModuleKind::Ts, None));
    g.add_module(Module::new("root:style.css".to_string(), ModuleKind::Css, None));
    g.add_edge("root:index.html", "root:app.js", edge(ResolveKind::ScriptSrc, "./app.js", 0)).unwrap();
    g.add_edge("root:index.html", "root:style.css", edge(ResolveKind::LinkHref, "./style.css", 1)).unwrap();
    g.add_edge("root:app.js", "root:util.ts", edge(ResolveKind::Import, "./util", 0)).unwrap();
    g.entries = vec!["root:index.html".to_string()];
    let mut groups = analyze_module_graph(&mut g);
    let pots = merge_modules(&mut groups, &g).unwrap();
    assert_eq!(pots.pots.len(), 3);
    let js = pots.pots.iter().find(|p| p.kind == ResourcePotKind::Js).unwrap();
    assert_eq!(js.id, "root:app.js");
    assert_eq!(js.module_ids, vec!["root:app.js".to_string(), "root:util.ts".to_string()]);
    assert_eq!(js.module_group_id, "root:index.html");
    let html = pots.pots.iter().find(|p| p.kind == ResourcePotKind::Html).unwrap();
    assert_eq!(html.module_ids, vec!["root:index.html".to_string()]);
    assert_eq!(groups.get("root:index.html").unwrap().resource_pot_ids.len(), 3);
}

#[test]
fn merge_fails_on_a_module_missing_from_the_graph() {
    let mut g = ModuleGraph::new();
    g.add_module(Module::new("a".to_string(), ModuleKind::Js, None));
    let mut groups = toy::module_group::ModuleGroupMap::new();
    let mut group = ModuleGroup::new("a".to_string());
    group.add_module_id("ghost".to_string());
    groups.insert(group);
    assert!(merge_modules(&mut groups, &g).is_err());
}

#[test]
fn module_kinds_from_extensions() {
    assert_eq!(ModuleKind::from_ext("html"), ModuleKind::Html);
    assert_eq!(ModuleKind::from_ext("css"), ModuleKind::Css);
    assert_eq!(ModuleKind::from_ext("mjs"), ModuleKind::Js);
    assert_eq!(ModuleKind::from_ext("cjs"), ModuleKind::Js);
    assert_eq!(ModuleKind::from_ext("tsx"), ModuleKind::Tsx);
    assert_eq!(ModuleKind::from_ext("png"), ModuleKind::Custom("png".to_string()));
    assert!(ModuleKind::Ts.is_script());
    assert!(!ModuleKind::Css.is_script());
    assert!(ModuleKind::Css.is_style());
    assert!(ModuleKind::Html.is_html());
    assert_eq!(ResourcePotKind::from_module_kind(ModuleKind::Tsx), ResourcePotKind::Js);
    assert_eq!(ResourcePotKind::from_module_kind(ModuleKind::Custom("png".to_string())), ResourcePotKind::Custom("png".to_string()));
}

#[test]
fn groups_list_modules_depth_first() {
    let mut g = ModuleGraph::new();
    for id in ["a", "b", "c", "d"] {
        g.add_module(Module::new(id.to_string(), ModuleKind::Js, None));
    }
    g.add_edge("a", "b", edge(ResolveKind::Import, "./b", 0)).unwrap();
    g.add_edge("a", "c", edge(ResolveKind::Import, "./c", 1)).unwrap();
    g.add_edge("b", "d", edge(ResolveKind::Import, "./d", 0)).unwrap();
    let (group, dynamic_deps) = module_group_from_entry("a".to_string(), &mut g).unwrap();
    assert_eq!(group.module_ids, vec!["a".to_string(), "b".to_string(), "d".to_string(), "c".to_string()]);
    assert!(dynamic_deps.is_empty());
    assert_eq!(g.module("d").unwrap().module_groups, vec!["a".to_string()]);
}
