use toy::bundle::{render_bundle, wrap_module, MODULE_SYSTEM};
use toy::esm::{
    analyze_script_deps, is_import_type, DefaultExport, EsmVisitor, ExportSpecifier, ImportSpecifier, ModuleDecl,
    Replacement, ScriptItem, ToyExport, ToyImport,
};
use toy::module::ResolveKind;

fn named(imported: &str, local: &str, is_type: bool) -> ImportSpecifier {
    ImportSpecifier::Named { imported: imported.to_string(), local: local.to_string(), is_type }
}

fn import(source: &str, specs: Vec<ImportSpecifier>) -> ModuleDecl {
    ModuleDecl::Import { source: source.to_string(), is_type: false, specifiers: Some(specs) }
}

#[test]
fn type_only_import_names_no_dependency() {
    let items = vec![
        ScriptItem::Decl(ModuleDecl::Import {
            source: "./types".to_string(),
            is_type: true,
            specifiers: Some(vec![named("T", "T", false)]),
        }),
        ScriptItem::Decl(ModuleDecl::ExportNamed {
            source: None,
            is_type: false,
            specifiers: vec![],
            has_declaration: true,
            declared: vec!["x".to_string()],
        }),
    ];
    assert!(analyze_script_deps(&items).is_empty());
    assert!(is_import_type(&import("./t", vec![named("A", "A", true)])));
    assert!(!is_import_type(&import("./t", vec![named("A", "A", true), named("b", "b", false)])));
}

#[test]
fn script_dependencies_in_source_order() {
    let items = vec![
        ScriptItem::Decl(import("./a", vec![named("a", "a", false)])),
        ScriptItem::DynamicImport("./lazy".to_string()),
        ScriptItem::Decl(ModuleDecl::ExportAll { source: "./b".to_string(), exported: None, is_type: false }),
        ScriptItem::Decl(ModuleDecl::ExportDefault(DefaultExport::Expression)),
    ];
    let deps = analyze_script_deps(&items);
    let seen: Vec<(&str, ResolveKind)> = deps.iter().map(|d| (d.source.as_str(), d.resolve_kind.clone())).collect();
    assert_eq!(
        seen,
        vec![("./a", ResolveKind::Import), ("./lazy", ResolveKind::DynamicImport), ("./b", ResolveKind::Import)]
    );
}

#[test]
fn named_import_lowers_to_a_require() {
    let mut v = EsmVisitor::new(
        "root:index.js".to_string(),
        vec![("./a".to_string(), "root:a.js".to_string())],
    );
    let decls = vec![import("./a", vec![named("a", "a", false)])];
    let lowered = v.visit_program(&decls).unwrap();
    assert_eq!(lowered.replacements, vec![Replacement::Remove]);
    assert_eq!(lowered.import_stmts, vec!["const { a } = __toyRequire__(\"root:a.js\");".to_string()]);
    assert!(lowered.export_stmt.is_none());
}

#[test]
fn default_and_namespace_imports() {
    let mut v = EsmVisitor::new("root:index.js".to_string(), vec![("./m".to_string(), "root:m.js".to_string())]);
    let decl = import(
        "./m",
        vec![
            ImportSpecifier::Default { local: "m".to_string() },
            named("x", "y", false),
            named("T", "T", true),
            ImportSpecifier::Namespace { local: "ns".to_string() },
        ],
    );
    assert_eq!(v.match_module_decl(&decl), Replacement::Remove);
    assert_eq!(
        v.imports,
        vec![ToyImport {
            source: "./m".to_string(),
            kv: vec![
                ("default".to_string(), "m".to_string()),
                ("x".to_string(), "y".to_string()),
                ("*".to_string(), "ns".to_string())
            ],
        }]
    );
    let stmt = v.build_toy_import_stmt(&v.imports[0]).unwrap();
    assert_eq!(stmt, "const { default: m, x: y, *: ns } = __toyRequire__(\"root:m.js\");");
}

#[test]
fn stylesheet_imports_are_dropped() {
    let mut v = EsmVisitor::new("root:index.js".to_string(), vec![]);
    assert_eq!(v.match_module_decl(&import("./style.css", vec![])), Replacement::Remove);
    assert!(v.imports.is_empty());
}

#[test]
fn export_default_expression_gets_a_fresh_local() {
    let mut v = EsmVisitor::new("root:src/my-page.js".to_string(), vec![]);
    let r = v.match_module_decl(&ModuleDecl::ExportDefault(DefaultExport::Expression));
    assert_eq!(r, Replacement::BindDefault("_my_page$toy1".to_string()));
    assert_eq!(v.exports, vec![ToyExport { spread: false, kv: vec![("default".to_string(), "_my_page$toy1".to_string())] }]);
    let r = v.match_module_decl(&ModuleDecl::ExportDefault(DefaultExport::Function { name: Some("run".to_string()) }));
    assert_eq!(r, Replacement::KeepDeclaration);
    assert_eq!(v.js_var_index, 1);
    assert_eq!(v.id_to_js_var("root:a.b.js"), "_root_a_b$toy2");
    assert_eq!(v.id_to_js_var("root:lib/a.b.js"), "_a_b$toy3");
}

#[test]
fn exports_lower_to_one_assignment() {
    let mut v = EsmVisitor::new("root:a.js".to_string(), vec![("./b".to_string(), "root:b.js".to_string())]);
    v.match_module_decl(&ModuleDecl::ExportNamed {
        source: None,
        is_type: false,
        specifiers: vec![],
        has_declaration: true,
        declared: vec!["a".to_string()],
    });
    v.match_module_decl(&ModuleDecl::ExportAll { source: "./b".to_string(), exported: None, is_type: false });
    v.match_module_decl(&ModuleDecl::ExportNamed {
        source: None,
        is_type: false,
        specifiers: vec![ExportSpecifier { local: "x".to_string(), exported: "y".to_string(), is_type: false }],
        has_declaration: false,
        declared: vec![],
    });
    assert_eq!(v.build_toy_export_stmt(), "__toyModule__.exports = { a, ..._b$toy1, y: x };");
    assert_eq!(v.imports[0].kv, vec![("*".to_string(), "_b$toy1".to_string())]);
}

#[test]
fn reexports_read_through_fresh_locals() {
    let mut v = EsmVisitor::new("root:a.js".to_string(), vec![("./b".to_string(), "root:b.js".to_string())]);
    let r = v.match_module_decl(&ModuleDecl::ExportNamed {
        source: Some("./b".to_string()),
        is_type: false,
        specifiers: vec![
            ExportSpecifier { local: "f".to_string(), exported: "g".to_string(), is_type: false },
            ExportSpecifier { local: "T".to_string(), exported: "T".to_string(), is_type: true },
        ],
        has_declaration: false,
        declared: vec![],
    });
    assert_eq!(r, Replacement::Remove);
    assert_eq!(v.imports[0].kv, vec![("f".to_string(), "_f$toy1".to_string())]);
    assert_eq!(v.exports[0].kv, vec![("g".to_string(), "_f$toy1".to_string())]);
}

#[test]
fn an_unresolved_import_is_an_error() {
    let v = EsmVisitor::new("root:a.js".to_string(), vec![]);
    let i = ToyImport { source: "./nowhere".to_string(), kv: vec![] };
    assert!(v.build_toy_import_stmt(&i).is_err());
}

#[test]
fn bundle_wraps_modules_and_starts_the_entry() {
    let w = wrap_module("console.log(1);");
    assert_eq!(w, "function(__toyModule__, __toyRequire__, __toyDynamicRequire__) {\nconsole.log(1);\n}");
    let b = render_bundle(
        &vec![
            ("root:index.js".to_string(), "const { a } = __toyRequire__(\"root:a.js\");\nconsole.log(a);".to_string()),
            ("root:a.js".to_string(), "const a = 1;\n__toyModule__.exports = { a };".to_string()),
        ],
        "root:index.js",
    );
    assert!(b.starts_with(MODULE_SYSTEM));
    assert!(b.contains("\"root:index.js\": function(__toyModule__"));
    assert!(b.contains("\"root:a.js\": function(__toyModule__"));
    assert!(b.ends_with("}, \"root:index.js\");\n"));
}
