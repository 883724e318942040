use toy::config::Config;
use toy::error::CompilationError;
use toy::resolve::{
    fulfill_root_prefix, module_id, parent_dir, parse_query, split_query, stripe_root_prefix, to_relative, finish_resolve,
    PluginResolve, ResolveConfig,
};

#[test]
fn test_parse_query() {
    assert!(parse_query("").is_empty());

    let query = parse_query("import&foo=bar&bar=baz");
    assert_eq!(query.get("import").unwrap(), "");
    assert_eq!(query.get("foo").unwrap(), "bar");
    assert_eq!(query.get("bar").unwrap(), "baz");
}

#[test]
fn a_later_query_pair_overrides_an_earlier_one() {
    let query = parse_query("a=1&a=2&b");
    assert_eq!(query.get("a").unwrap(), "2");
    assert_eq!(query.get("b").unwrap(), "");
    assert!(query.get("c").is_none());
}

#[test]
fn relative_ids_under_the_root() {
    assert_eq!(to_relative("/p/src/a.js", "/p"), "src/a.js");
    assert_eq!(to_relative("/p/src/a.js", "/p/"), "src/a.js");
    assert_eq!(to_relative("/pq/a.js", "/p"), "/pq/a.js");
    assert_eq!(to_relative("/p", "/p"), "/p");
    assert_eq!(to_relative("p/a.js", "p"), "p/a.js");
    assert_eq!(module_id("/p/index.js", "/p"), "root:index.js");
    assert_eq!(module_id("/elsewhere/x.js", "/p"), "/elsewhere/x.js");
}

#[test]
fn root_prefix_round_trip() {
    assert_eq!(fulfill_root_prefix("root:src/a.js", "/p"), "/p/src/a.js");
    assert_eq!(fulfill_root_prefix("./a.js", "/p"), "/p/./a.js");
    assert_eq!(fulfill_root_prefix("/abs/a.js", "/p"), "/abs/a.js");
    assert_eq!(stripe_root_prefix("root:index.js"), "index.js");
    assert_eq!(stripe_root_prefix("/abs/a.js"), "/abs/a.js");
    assert_eq!(parent_dir("/p/src/a.js"), "/p/src");
    assert_eq!(parent_dir("/a.js"), "/");
    assert_eq!(parent_dir("a.js"), "");
}

#[test]
fn queries_are_split_off_the_specifier() {
    let (s, q) = split_query("./index?foo=bar");
    assert_eq!(s, "./index");
    assert_eq!(q, "foo=bar");
    let (s, q) = split_query("./index");
    assert_eq!(s, "./index");
    assert_eq!(q, "");
}

#[test]
fn a_resolution_becomes_a_root_relative_id() {
    let r = finish_resolve("./index?foo=bar", "/p", "/p", Ok("/p/index.js".to_string())).unwrap();
    assert_eq!(r.id, "root:index.js");
    assert_eq!(r.query.get("foo").unwrap(), "bar");
    assert!(!r.external);
}

#[test]
fn a_failed_resolution_names_the_specifier_and_the_base() {
    let r = finish_resolve("./missing", "/p/src", "/p", Err("not found".to_string()));
    match r {
        Err(CompilationError::ResolveError { src, base, cause }) => {
            assert_eq!(src, "./missing");
            assert_eq!(base, "/p/src");
            assert_eq!(cause, Some("not found".to_string()));
        },
        _ => panic!("expected a resolve error"),
    }
}

#[test]
fn resolve_failure_surfaces_from_the_resolver() {
    let plugin = PluginResolve::new(&ResolveConfig::default_options());
    let r = plugin.resolve("./missing", &Some("root:src/index.js".to_string()), "/nonexistent-toy-root");
    match r {
        Err(CompilationError::ResolveError { src, base, cause }) => {
            assert_eq!(src, "./missing");
            assert_eq!(base, "/nonexistent-toy-root/src");
            assert!(cause.is_some());
        },
        _ => panic!("expected a resolve error"),
    }
}

#[test]
fn default_config() {
    let c = Config::new("/p".to_string(), vec![("main".to_string(), "./index.js".to_string())]);
    assert_eq!(c.output.dir, "./dist");
    assert_eq!(c.resolve.extensions, vec![".js", ".jsx", ".ts", ".tsx"]);
    assert_eq!(c.resolve.main_fields, vec!["browser", "module", "main"]);
    assert_eq!(c.resolve.main_files, vec!["index"]);
}
