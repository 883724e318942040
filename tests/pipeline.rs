use toy::bundle::render_bundle;
use toy::driver::BuildState;
use toy::esm::{EsmVisitor, ImportSpecifier, ModuleDecl};
use toy::generate::{generate_resources, plan_writes, ResourceMap};
use toy::html::{html_dep_resources, plan_html_injection, ResourcesInjector};
use toy::module::{Module, ModuleKind, ResolveKind};
use toy::module_graph::ModuleGraph;
use toy::partition::{analyze_module_graph, merge_modules};
use toy::resource::{CssResourcePotMeta, HtmlResourcePotMeta, JsResourcePotMeta, ResourceKind, ResourcePotKind, ResourcePotMeta};

fn module(id: &str, kind: ModuleKind) -> Module {
    Module::new(id.to_string(), kind, None)
}

fn lower(graph: &ModuleGraph, id: &str, decls: Vec<ModuleDecl>, rest: &str) -> String {
    let deps = graph.dependencies(id).unwrap().into_iter().map(|(to, e)| (e.source, to)).collect();
    let mut v = EsmVisitor::new(id.to_string(), deps);
    let lowered = v.visit_program(&decls).unwrap();
    let mut body = lowered.import_stmts.join("\n");
    body.push_str(rest);
    if let Some(e) = lowered.export_stmt {
        body.push('\n');
        body.push_str(&e);
    }
    body
}

#[test]
fn basic_script_bundle() {
    let mut s = BuildState::new();
    assert!(s.on_resolved("root:index.js", None, ResolveKind::Entry, "./index.js".to_string(), 0));
    s.on_parsed(module("root:index.js", ModuleKind::Js));
    assert!(s.on_resolved("root:a.js", Some("root:index.js"), ResolveKind::Import, "./a".to_string(), 0));
    s.on_parsed(module("root:a.js", ModuleKind::Js));
    let mut graph = BuildState::finish(s).unwrap();
    let mut groups = analyze_module_graph(&mut graph);
    let mut pots = merge_modules(&mut groups, &graph).unwrap();
    assert_eq!(pots.pots.len(), 1);
    let pot = &mut pots.pots[0];
    assert_eq!(pot.module_ids, vec!["root:index.js".to_string(), "root:a.js".to_string()]);
    let index = lower(
        &graph,
        "root:index.js",
        vec![ModuleDecl::Import {
            source: "./a".to_string(),
            is_type: false,
            specifiers: Some(vec![ImportSpecifier::Named { imported: "a".to_string(), local: "a".to_string(), is_type: false }]),
        }],
        "\nconsole.log(a);",
    );
    let a = lower(
        &graph,
        "root:a.js",
        vec![ModuleDecl::ExportNamed {
            source: None,
            is_type: false,
            specifiers: vec![],
            has_declaration: true,
            declared: vec!["a".to_string()],
        }],
        "const a = 1;",
    );
    assert_eq!(index, "const { a } = __toyRequire__(\"root:a.js\");\nconsole.log(a);");
    assert_eq!(a, "const a = 1;\n__toyModule__.exports = { a };");
    let code = render_bundle(&vec![("root:index.js".to_string(), index), ("root:a.js".to_string(), a)], &pot.id);
    pot.meta = ResourcePotMeta::Js(JsResourcePotMeta { code });
    let resource = generate_resources(pot).unwrap();
    assert_eq!(resource.name, "index.js");
    assert!(resource.content.contains("bootstrap({\n\"root:index.js\""));
    assert!(resource.content.ends_with("}, \"root:index.js\");\n"));
}

#[test]
fn html_with_script_and_stylesheet() {
    let mut s = BuildState::new();
    assert!(s.on_resolved("root:index.html", None, ResolveKind::Entry, "./index.html".to_string(), 0));
    s.on_parsed(module("root:index.html", ModuleKind::Html));
    assert!(s.on_resolved("root:app.js", Some("root:index.html"), ResolveKind::ScriptSrc, "./app.js".to_string(), 0));
    assert!(s.on_resolved("root:style.css", Some("root:index.html"), ResolveKind::LinkHref, "./style.css".to_string(), 1));
    s.on_parsed(module("root:app.js", ModuleKind::Js));
    s.on_parsed(module("root:style.css", ModuleKind::Css));
    let mut graph = BuildState::finish(s).unwrap();
    let mut groups = analyze_module_graph(&mut graph);
    let mut pots = merge_modules(&mut groups, &graph).unwrap();
    assert_eq!(pots.pots.len(), 3);
    let mut resources = ResourceMap::new();
    for pot in pots.pots.iter_mut() {
        pot.meta = match pot.kind {
            ResourcePotKind::Html => ResourcePotMeta::Html(HtmlResourcePotMeta { code: String::new() }),
            ResourcePotKind::Css => ResourcePotMeta::Css(CssResourcePotMeta { code: "a{}".to_string() }),
            _ => ResourcePotMeta::Js(JsResourcePotMeta { code: "x".to_string() }),
        };
        resources.insert(generate_resources(pot).unwrap());
    }
    let (css, js) = html_dep_resources("root:index.html", &pots, &groups, &resources).unwrap();
    assert_eq!(css, vec!["style.css".to_string()]);
    assert_eq!(js, vec!["app.js".to_string()]);
    let deps: Vec<String> = graph.dependencies("root:index.html").unwrap().into_iter().map(|(_, e)| e.source).collect();
    assert_eq!(deps, vec!["./app.js".to_string(), "./style.css".to_string()]);
    let injector = ResourcesInjector::new(deps, css, js);
    let planned = plan_html_injection("root:index.html", &pots, &groups, &resources, &graph).unwrap();
    assert_eq!(planned.css_resources, vec!["style.css".to_string()]);
    assert_eq!(planned.js_resources, vec!["app.js".to_string()]);
    assert_eq!(planned.deps.len(), 2);
    assert!(planned.deps.contains(&"./app.js".to_string()));
    assert_eq!(injector.head_elements().len(), 1);
    assert_eq!(injector.body_elements().len(), 1);
    let written = plan_writes(&mut resources);
    assert_eq!(written.len(), 3);
    assert!(resources.resources.iter().all(|r| r.emitted));
    assert_eq!(resources.resources.iter().filter(|r| r.resource_kind == ResourceKind::Html).count(), 1);
}

#[test]
fn dynamic_import_gives_two_resources() {
    let mut s = BuildState::new();
    assert!(s.on_resolved("root:index.js", None, ResolveKind::Entry, "./index.js".to_string(), 0));
    s.on_parsed(module("root:index.js", ModuleKind::Js));
    assert!(s.on_resolved("root:lazy.js", Some("root:index.js"), ResolveKind::DynamicImport, "./lazy".to_string(), 0));
    s.on_parsed(module("root:lazy.js", ModuleKind::Js));
    let mut graph = BuildState::finish(s).unwrap();
    let mut groups = analyze_module_graph(&mut graph);
    assert_eq!(groups.groups.len(), 2);
    let mut pots = merge_modules(&mut groups, &graph).unwrap();
    let mut resources = ResourceMap::new();
    for pot in pots.pots.iter_mut() {
        pot.meta = ResourcePotMeta::Js(JsResourcePotMeta { code: String::new() });
        resources.insert(generate_resources(pot).unwrap());
    }
    let mut names: Vec<String> = resources.resources.iter().map(|r| r.name.clone()).collect();
    names.sort();
    assert_eq!(names, vec!["index.js".to_string(), "lazy.js".to_string()]);
}
