use toy::plugin::{TransformHookResult, TransformRun};
use toy::bundle::{RuntimeVisitor, MODULE_SYSTEM};
use toy::css::{DepsVisitor as CssDeps, LightningStyleSheet, PluginCss};
use toy::error::CompilationError;
use toy::esm::{DepsVisitor as ScriptDeps, ModuleDecl, PluginScript, ScriptItem};
use toy::html::{DepsVisitor as HtmlDeps, HtmlElement, PluginHtml};
use toy::module::{Module, ModuleKind, ResolveKind};
use toy::module_graph::ModuleGraph;
use toy::partition::PluginModules;
use toy::generate::PluginResources;
use toy::resource::{ResourcePot, ResourcePotKind};

#[test]
fn stylesheet_plugin_finds_imports_and_merges() {
    let sheet = LightningStyleSheet::build("@import './a.css';\nb { color: red }".to_string(), "root:x.css".to_string()).unwrap();
    assert_eq!(sheet.rules.len(), 2);
    let mut visitor = CssDeps::new();
    assert!(visitor.deps.is_empty());
    visitor.visit_rules(&sheet);
    assert_eq!(visitor.deps.len(), 1);
    assert_eq!(visitor.deps[0].source, "./a.css");
    let plugin = PluginCss::new();
    assert_eq!(plugin.analyze_deps(&sheet).len(), 1);
    let merged = plugin.render(&vec![sheet.rules.clone()]);
    assert!(merged.contains("color") && !merged.contains("@import"));
}

#[test]
fn script_plugin_reports_dependencies() {
    let items = vec![
        ScriptItem::Decl(ModuleDecl::Import { source: "./a".to_string(), is_type: false, specifiers: None }),
        ScriptItem::DynamicImport("./b".to_string()),
    ];
    let mut visitor = ScriptDeps::new();
    assert!(visitor.deps.is_empty());
    visitor.visit_program(&items);
    assert_eq!(visitor.deps.len(), 2);
    assert_eq!(visitor.deps[1].resolve_kind, ResolveKind::DynamicImport);
    assert_eq!(PluginScript::new().analyze_deps(&items).len(), 2);
}

#[test]
fn html_plugin_allows_one_document_per_pot() {
    let mut pot = ResourcePot::new("root:a.html".to_string(), ResourcePotKind::Html, "root:a.html".to_string());
    assert!(PluginHtml::new().check_pot(&pot).is_ok());
    pot.module_ids.push("root:b.html".to_string());
    assert_eq!(
        PluginHtml::new().check_pot(&pot),
        Err(CompilationError::GenericError("Multiple html modules are not supported".to_string()))
    );
    let mut visitor = HtmlDeps::new();
    visitor.visit_elements(&vec![HtmlElement {
        tag_name: "script".to_string(),
        attributes: vec![("src".to_string(), Some("./x.js".to_string()))],
    }]);
    assert_eq!(visitor.deps.len(), 1);
    assert_eq!(visitor.deps[0].resolve_kind, ResolveKind::ScriptSrc);
}

#[test]
fn runtime_starts_the_entry() {
    let v = RuntimeVisitor::new(vec![("root:a.js".to_string(), "x();".to_string())], "root:a.js".to_string());
    let code = v.render();
    assert!(code.starts_with(MODULE_SYSTEM));
    assert!(code.ends_with("bootstrap({\n\"root:a.js\": function(__toyModule__, __toyRequire__, __toyDynamicRequire__) {\nx();\n},\n}, \"root:a.js\");\n"));
    let _ = PluginModules::new();
    let _ = PluginResources::new();
}

#[test]
fn entries_are_recognised() {
    let mut g = ModuleGraph::new();
    g.add_module(Module::new("root:a.js".to_string(), ModuleKind::Js, None));
    g.entries = vec!["root:a.js".to_string()];
    g.entries_in_html = vec!["root:b.js".to_string()];
    assert!(g.is_entry_module("root:a.js", false));
    assert!(!g.is_entry_module("root:b.js", false));
    assert!(g.is_entry_module("root:b.js", true));
}

#[test]
fn errors_read_as_messages() {
    let e = CompilationError::ResolveError {
        src: "./missing".to_string(),
        base: "/p".to_string(),
        cause: Some("NotFound".to_string()),
    };
    assert_eq!(e.message(), "Can not resolve `./missing` from `/p`.\nError: NotFound");
    let e = CompilationError::LoadError { id: "root:a.js".to_string(), cause: None };
    assert_eq!(e.message(), "Load `root:a.js` failed.");
    assert_eq!(CompilationError::GenericError("x".to_string()).message(), "x");
}

#[test]
fn transform_without_plugins_passes_content_through() {
    let r = toy::plugin::transform(toy::plugin::TransformParams {
        id: "root:a.js".to_string(),
        query: toy::resolve::Query::new(),
        content: "let a = 1;".to_string(),
        module_kind: ModuleKind::Js,
    });
    assert_eq!(r.content, "let a = 1;");
    assert_eq!(r.module_kind, ModuleKind::Js);
    assert!(r.source_map_chain.is_empty());
}

#[test]
fn an_empty_html_pot_is_refused() {
    let mut pot = ResourcePot::new("root:a.html".to_string(), ResourcePotKind::Html, "root:a.html".to_string());
    pot.module_ids.clear();
    assert!(PluginHtml::new().check_pot(&pot).is_err());
}

#[test]
fn transform_run_stops_at_the_first_error() {
    let mut run = TransformRun::new("a".to_string(), ModuleKind::Js);
    assert!(run.feed(Ok(Some(TransformHookResult { content: "b".to_string(), module_kind: Some(ModuleKind::Ts), source_map: Some("m".to_string()) }))));
    assert!(run.feed(Ok(None)));
    assert_eq!(run.current.content, "b");
    assert!(!run.feed(Err(CompilationError::GenericError("stop".to_string()))));
    assert_eq!(run.finish().unwrap_err(), CompilationError::GenericError("stop".to_string()));
    let mut run = TransformRun::new("a".to_string(), ModuleKind::Js);
    assert!(run.feed(Ok(Some(TransformHookResult { content: "c".to_string(), module_kind: None, source_map: None }))));
    let r = run.finish().unwrap();
    assert_eq!(r.content, "c");
    assert_eq!(r.module_kind, ModuleKind::Js);
}

#[test]
fn chunks_register_their_modules() {
    let code = toy::bundle::render_chunk(&vec![("root:lazy.js".to_string(), "run();".to_string())]);
    assert_eq!(
        code,
        "__toyRegister__({\n\"root:lazy.js\": function(__toyModule__, __toyRequire__, __toyDynamicRequire__) {\nrun();\n},\n});\n"
    );
}

#[test]
fn resolver_options_need_dotted_extensions() {
    let mut c = toy::resolve::ResolveConfig::default_options();
    assert!(c.extensions_valid());
    c.extensions.push("js".to_string());
    assert!(!c.extensions_valid());
    c.extensions.pop();
    c.extensions.push(String::new());
    assert!(c.extensions_valid());
}

#[test]
fn a_relative_base_is_refused_before_resolving() {
    let plugin = toy::resolve::PluginResolve::new(&toy::resolve::ResolveConfig::default_options());
    match toy::resolve::resolve_id(&plugin.resolver, "./a", "relative/dir", "/p") {
        Err(CompilationError::ResolveError { src, base, cause }) => {
            assert_eq!(src, "./a");
            assert_eq!(base, "relative/dir");
            assert!(cause.is_some());
        }
        _ => panic!("expected a resolve error"),
    }
}
