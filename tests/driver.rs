use toy::driver::BuildState;
use toy::module::{Module, ModuleKind, ResolveKind};
use toy::partition::analyze_module_graph;

fn js(id: &str) -> Module {
    Module::new(id.to_string(), ModuleKind::Js, None)
}

#[test]
fn empty_input_builds_an_empty_graph() {
    let state = BuildState::new();
    let mut graph = BuildState::finish(state).unwrap();
    assert!(graph.modules.is_empty());
    assert!(graph.entries.is_empty());
    let groups = analyze_module_graph(&mut graph);
    assert!(groups.groups.is_empty());
}

#[test]
fn self_import_is_one_node_with_a_self_edge_parsed_once() {
    let mut s = BuildState::new();
    assert!(s.on_resolved("root:a.js", None, ResolveKind::Entry, "./a.js".to_string(), 0));
    s.on_parsed(js("root:a.js"));
    assert!(!s.on_resolved("root:a.js", Some("root:a.js"), ResolveKind::Import, "./a".to_string(), 0));
    let graph = BuildState::finish(s).unwrap();
    assert_eq!(graph.modules.len(), 1);
    let deps = graph.dependencies("root:a.js").unwrap();
    assert_eq!(deps.len(), 1);
    assert_eq!(deps[0].0, "root:a.js");
    assert_eq!(graph.entries, vec!["root:a.js".to_string()]);
}

#[test]
fn cycle_parses_each_once_with_both_edges() {
    let mut s = BuildState::new();
    assert!(s.on_resolved("root:a.js", None, ResolveKind::Entry, "./a.js".to_string(), 0));
    s.on_parsed(js("root:a.js"));
    assert!(s.on_resolved("root:b.js", Some("root:a.js"), ResolveKind::Import, "./b".to_string(), 0));
    s.on_parsed(js("root:b.js"));
    assert!(!s.on_resolved("root:a.js", Some("root:b.js"), ResolveKind::Import, "./a".to_string(), 0));
    let graph = BuildState::finish(s).unwrap();
    assert_eq!(graph.modules.len(), 2);
    assert_eq!(graph.dependencies("root:a.js").unwrap()[0].0, "root:b.js");
    assert_eq!(graph.dependencies("root:b.js").unwrap()[0].0, "root:a.js");
}

#[test]
fn a_module_met_from_two_importers_is_parsed_once() {
    let mut s = BuildState::new();
    assert!(s.on_resolved("root:a.js", None, ResolveKind::Entry, "./a.js".to_string(), 0));
    s.on_parsed(js("root:a.js"));
    assert!(s.on_resolved("root:b.js", Some("root:a.js"), ResolveKind::Import, "./b".to_string(), 0));
    assert!(s.on_resolved("root:c.js", Some("root:a.js"), ResolveKind::Import, "./c".to_string(), 1));
    s.on_parsed(js("root:b.js"));
    s.on_parsed(js("root:c.js"));
    assert!(s.on_resolved("root:d.js", Some("root:b.js"), ResolveKind::Import, "./d".to_string(), 0));
    assert!(!s.on_resolved("root:d.js", Some("root:c.js"), ResolveKind::Import, "./d".to_string(), 0));
    s.on_parsed(js("root:d.js"));
    let graph = BuildState::finish(s).unwrap();
    assert_eq!(graph.modules.len(), 4);
    assert_eq!(graph.edges.len(), 4);
}

#[test]
fn finish_fails_when_a_claimed_module_never_came() {
    let mut s = BuildState::new();
    assert!(s.on_resolved("root:a.js", None, ResolveKind::Entry, "./a.js".to_string(), 0));
    s.on_parsed(js("root:a.js"));
    assert!(s.on_resolved("root:b.js", Some("root:a.js"), ResolveKind::Import, "./b".to_string(), 0));
    assert!(BuildState::finish(s).is_err());
}
