use toy::css::{analyze_css_deps, merge_css, LightningStyleSheet};
use toy::generate::{generate_resources, plan_writes, ResourceMap};
use toy::html::{analyze_html_deps, get_link_href, get_script_src, html_dep_resources, HtmlElement, ResourcesInjector};
use toy::module::ResolveKind;
use toy::module_group::{ModuleGroup, ModuleGroupMap};
use toy::plugin::{first_error, first_wins, serial_transform, sort_by_priority, TransformHookResult};
use toy::module::ModuleKind;
use toy::error::CompilationError;
use toy::resource::{CssResourcePotMeta, JsResourcePotMeta, Resource, ResourceKind, ResourcePot, ResourcePotKind, ResourcePotMap, ResourcePotMeta};

fn el(tag: &str, attrs: &[(&str, &str)]) -> HtmlElement {
    HtmlElement {
        tag_name: tag.to_string(),
        attributes: attrs.iter().map(|(k, v)| (k.to_string(), Some(v.to_string()))).collect(),
    }
}

#[test]
fn css_import_rules_are_dependencies_and_are_stripped_on_merge() {
    let index = LightningStyleSheet::build("@import \"./base.css\"; body { color: red; }".to_string(), "root:index.css".to_string()).unwrap();
    assert_eq!(index.rules.len(), 2);
    assert_eq!(index.rules[0].import_url, Some("./base.css".to_string()));
    assert_eq!(index.rules[1].import_url, None);
    let deps = analyze_css_deps(&index.rules);
    assert_eq!(deps.len(), 1);
    assert_eq!(deps[0].source, "./base.css");
    assert_eq!(deps[0].resolve_kind, ResolveKind::CssAtImport);
    let base = LightningStyleSheet::build("h1 { color: blue; }".to_string(), "root:base.css".to_string()).unwrap();
    let merged = merge_css(&vec![index.rules, base.rules]);
    assert!(!merged.contains("@import"));
    let body = merged.find("body").unwrap();
    let h1 = merged.find("h1").unwrap();
    assert!(body < h1);
    assert_eq!(merged.matches("color").count(), 2);
}

#[test]
fn nested_css_blocks_stay_one_rule() {
    let sheet = LightningStyleSheet::build("@media print { a { color: red; } }\n p { margin: 0 }".to_string(), "root:x.css".to_string()).unwrap();
    assert_eq!(sheet.rules.len(), 2);
    assert!(sheet.rules.iter().all(|r| r.import_url.is_none()));
    assert!(sheet.rules[0].text.contains("@media"));
}

#[test]
fn html_references_and_injection() {
    let els = vec![
        el("html", &[]),
        el("link", &[("rel", "stylesheet"), ("href", "./style.css")]),
        el("script", &[("src", "./app.js")]),
        el("div", &[("src", "nope")]),
    ];
    let deps = analyze_html_deps(&els);
    assert_eq!(deps.len(), 2);
    assert_eq!(deps[0].source, "./style.css");
    assert_eq!(deps[0].resolve_kind, ResolveKind::LinkHref);
    assert_eq!(deps[1].source, "./app.js");
    assert_eq!(deps[1].resolve_kind, ResolveKind::ScriptSrc);
    assert_eq!(get_script_src(&els[2]), Some("./app.js".to_string()));
    assert_eq!(get_link_href(&els[2]), None);

    let injector = ResourcesInjector::new(
        vec!["./app.js".to_string(), "./style.css".to_string()],
        vec!["style.css".to_string()],
        vec!["app.js".to_string()],
    );
    assert!(injector.removes(&els[1]));
    assert!(injector.removes(&els[2]));
    assert!(!injector.removes(&el("script", &[("src", "./other.js")])));
    assert_eq!(injector.head_elements(), vec![el("link", &[("rel", "stylesheet"), ("href", "style.css")])]);
    assert_eq!(injector.body_elements(), vec![el("script", &[("src", "app.js")])]);
}

fn pot(id: &str, kind: ResourcePotKind, group: &str, meta: ResourcePotMeta) -> ResourcePot {
    let mut p = ResourcePot::new(id.to_string(), kind, group.to_string());
    p.meta = meta;
    p
}

#[test]
fn html_page_gets_the_resources_of_its_group() {
    let mut html = pot("root:index.html", ResourcePotKind::Html, "root:index.html", ResourcePotMeta::Custom);
    html.resource_ids.push("root:index.html".to_string());
    let mut js = pot("root:app.js", ResourcePotKind::Js, "root:index.html", ResourcePotMeta::Js(JsResourcePotMeta { code: "x".to_string() }));
    let mut css = pot("root:style.css", ResourcePotKind::Css, "root:index.html", ResourcePotMeta::Css(CssResourcePotMeta { code: "y".to_string() }));
    let mut resources = ResourceMap::new();
    resources.insert(generate_resources(&mut js).unwrap());
    resources.insert(generate_resources(&mut css).unwrap());
    let mut pots = ResourcePotMap::new();
    pots.insert(html);
    pots.insert(js);
    pots.insert(css);
    let mut group = ModuleGroup::new("root:index.html".to_string());
    group.add_resource_pot_id("root:index.html".to_string());
    group.add_resource_pot_id("root:app.js".to_string());
    group.add_resource_pot_id("root:style.css".to_string());
    let mut groups = ModuleGroupMap::new();
    groups.insert(group);
    let (css_names, js_names) = html_dep_resources("root:index.html", &pots, &groups, &resources).unwrap();
    assert_eq!(css_names, vec!["style.css".to_string()]);
    assert_eq!(js_names, vec!["app.js".to_string()]);
    assert!(html_dep_resources("root:nowhere.html", &pots, &groups, &resources).is_none());
}

#[test]
fn resources_are_named_after_their_pot() {
    let mut js = pot("root:index.js", ResourcePotKind::Js, "root:index.js", ResourcePotMeta::Js(JsResourcePotMeta { code: "code".to_string() }));
    let r = generate_resources(&mut js).unwrap();
    assert_eq!(r.name, "index.js");
    assert_eq!(r.content, "code");
    assert_eq!(r.resource_kind, ResourceKind::Js);
    assert!(!r.emitted);
    assert_eq!(js.resource_ids, vec!["root:index.js".to_string()]);
    let mut bare = pot("root:x", ResourcePotKind::Asset, "root:x", ResourcePotMeta::Custom);
    assert!(generate_resources(&mut bare).is_none());
}

fn resource(name: &str, emitted: bool) -> Resource {
    Resource {
        name: name.to_string(),
        content: String::new(),
        resource_kind: ResourceKind::Js,
        emitted,
        resource_pot_id: name.to_string(),
    }
}

#[test]
fn every_resource_is_written_once() {
    let mut map = ResourceMap::new();
    map.insert(resource("a.js", false));
    map.insert(resource("b.js", true));
    map.insert(resource("c.js", false));
    assert_eq!(plan_writes(&mut map), vec![0, 2]);
    assert!(map.resources.iter().all(|r| r.emitted));
    assert!(plan_writes(&mut map).is_empty());
}

#[test]
fn plugins_run_by_priority() {
    assert_eq!(sort_by_priority(&vec![100, 50, 100, 10]), vec![3, 1, 0, 2]);
    assert!(sort_by_priority(&vec![]).is_empty());
}

#[test]
fn first_wins_stops_at_the_first_answer() {
    let r: Result<Option<u32>, CompilationError> = first_wins(vec![Ok(None), Ok(Some(2)), Ok(Some(3))]);
    assert_eq!(r, Ok(Some(2)));
    let r: Result<Option<u32>, CompilationError> =
        first_wins(vec![Ok(None), Err(CompilationError::GenericError("boom".to_string())), Ok(Some(3))]);
    assert_eq!(r, Err(CompilationError::GenericError("boom".to_string())));
    let r: Result<Option<u32>, CompilationError> = first_wins(vec![Ok(None)]);
    assert_eq!(r, Ok(None));
    let e = first_error(vec![Ok(()), Err(CompilationError::GenericError("x".to_string())), Err(CompilationError::GenericError("y".to_string()))]);
    assert_eq!(e, Err(CompilationError::GenericError("x".to_string())));
}

#[test]
fn transforms_fold_in_order() {
    let r = serial_transform(
        "a".to_string(),
        ModuleKind::Js,
        vec![
            Some(TransformHookResult { content: "b".to_string(), module_kind: Some(ModuleKind::Ts), source_map: Some("m1".to_string()) }),
            None,
            Some(TransformHookResult { content: "c".to_string(), module_kind: None, source_map: None }),
        ],
    );
    assert_eq!(r.content, "c");
    assert_eq!(r.module_kind, ModuleKind::Ts);
    assert_eq!(r.source_map_chain, vec!["m1".to_string()]);
}
