//! Lowering ES module declarations into the bundle's call-site form, and
//! the dependencies a script declares.
use vstd::prelude::*;
use crate::module::ResolveKind;
use crate::text::{find_last_char, last_index_of, push_char, str_eq, suffix_from, prefix_to};
use crate::error::CompilationError;
use crate::resolve::pairs_view;

verus! {

/// One specifier of an `import` declaration.
#[derive(Debug, Clone, PartialEq, Eq)]
pub enum ImportSpecifier {
    /// `import local from 's'`
    Default { local: String },
    /// `import { imported as local } from 's'`, possibly `type`.
    Named { imported: String, local: String, is_type: bool },
    /// `import * as local from 's'`
    Namespace { local: String },
}

/// One specifier of an `export { ... }` declaration.
#[derive(Debug, Clone, PartialEq, Eq)]
pub struct ExportSpecifier {
    pub local: String,
    pub exported: String,
    pub is_type: bool,
}

/// What follows `export default`.
#[derive(Debug, Clone, PartialEq, Eq)]
pub enum DefaultExport {
    /// A function declaration, with its name if it has one.
    Function { name: Option<String> },
    /// A class declaration, with its name if it has one.
    Class { name: Option<String> },
    /// A bare identifier.
    Identifier { name: String },
    /// Any other expression.
    Expression,
}

/// A module-level import or export declaration of a script.
#[derive(Debug, Clone, PartialEq, Eq)]
pub enum ModuleDecl {
    Import { source: String, is_type: bool, specifiers: Option<Vec<ImportSpecifier>> },
    /// `export { ... } [from 's']` or `export <declaration>`; `declared` holds
    /// the names that the declaration binds.
    ExportNamed {
        source: Option<String>,
        is_type: bool,
        specifiers: Vec<ExportSpecifier>,
        has_declaration: bool,
        declared: Vec<String>,
    },
    ExportDefault(DefaultExport),
    /// `export * [as exported] from 's'`
    ExportAll { source: String, exported: Option<String>, is_type: bool },
}

/// A dependency that a module declares, and why.
#[derive(Debug, Clone, PartialEq, Eq)]
pub struct AnalyzeDep {
    pub source: String,
    pub resolve_kind: ResolveKind,
}

/// A module-level item of a script that may name a dependency, in source order.
#[derive(Debug, Clone, PartialEq, Eq)]
pub enum ScriptItem {
    Decl(ModuleDecl),
    /// `import('source')` with a string literal.
    DynamicImport(String),
}

pub open spec fn all_named_types(specs: Seq<ImportSpecifier>) -> bool {
    forall|i: int| 0 <= i < specs.len() ==> (#[trigger] specs[i] matches ImportSpecifier::Named { is_type, .. } && is_type)
}

pub open spec fn all_export_types(specs: Seq<ExportSpecifier>) -> bool {
    forall|i: int| 0 <= i < specs.len() ==> (#[trigger] specs[i]).is_type
}

/// Whether the declaration only moves types: `import type`, an import whose
/// specifiers are all `type`, and the same for re-exports.
pub open spec fn spec_is_import_type(decl: ModuleDecl) -> bool {
    match decl {
        ModuleDecl::Import { is_type, specifiers, .. } => is_type || (specifiers is Some && all_named_types(
            specifiers->Some_0@,
        )),
        ModuleDecl::ExportNamed { source, is_type, specifiers, .. } => source is Some && (is_type
            || all_export_types(specifiers@)),
        ModuleDecl::ExportAll { is_type, .. } => is_type,
        ModuleDecl::ExportDefault(_) => false,
    }
}

fn all_named_types_exec(specs: &Vec<ImportSpecifier>) -> (r: bool)
    ensures
        r == all_named_types(specs@),
{
    let mut i: usize = 0;
    while i < specs.len()
        invariant
            i <= specs@.len(),
            forall|j: int| 0 <= j < i ==> (#[trigger] specs@[j] matches ImportSpecifier::Named { is_type, .. } && is_type),
        decreases specs@.len() - i,
    {
        let ok = match &specs[i] {
            ImportSpecifier::Named { is_type, .. } => *is_type,
            _ => false,
        };
        if !ok {
            proof {
                let k = i as int;
                assert(!(specs@[k] matches ImportSpecifier::Named { is_type, .. } && is_type));
            }
            return false;
        }
        i = i + 1;
    }
    true
}

fn all_export_types_exec(specs: &Vec<ExportSpecifier>) -> (r: bool)
    ensures
        r == all_export_types(specs@),
{
    let mut i: usize = 0;
    while i < specs.len()
        invariant
            i <= specs@.len(),
            forall|j: int| 0 <= j < i ==> (#[trigger] specs@[j]).is_type,
        decreases specs@.len() - i,
    {
        if !specs[i].is_type {
            proof {
                let k = i as int;
                assert(!specs@[k].is_type);
            }
            return false;
        }
        i = i + 1;
    }
    true
}

pub fn is_import_type(decl: &ModuleDecl) -> (r: bool)
    ensures
        r == spec_is_import_type(*decl),
{
    match decl {
        ModuleDecl::Import { is_type, specifiers, .. } => {
            *is_type || match specifiers {
                Some(specs) => all_named_types_exec(specs),
                None => false,
            }
        },
        ModuleDecl::ExportNamed { source, is_type, specifiers, .. } => {
            source.is_some() && (*is_type || all_export_types_exec(specifiers))
        },
        ModuleDecl::ExportAll { is_type, .. } => *is_type,
        ModuleDecl::ExportDefault(_) => false,
    }
}

/// The dependency that an item names, if it names one that is not a type.
pub open spec fn dep_of_item(item: ScriptItem) -> Option<(Seq<char>, ResolveKind)> {
    match item {
        ScriptItem::DynamicImport(s) => Some((s@, ResolveKind::DynamicImport)),
        ScriptItem::Decl(decl) => if spec_is_import_type(decl) {
            None
        } else {
            match decl {
                ModuleDecl::Import { source, .. } => Some((source@, ResolveKind::Import)),
                ModuleDecl::ExportNamed { source, .. } => if source is Some {
                    Some((source->Some_0@, ResolveKind::Import))
                } else {
                    None
                },
                ModuleDecl::ExportAll { source, .. } => Some((source@, ResolveKind::Import)),
                ModuleDecl::ExportDefault(_) => None,
            }
        },
    }
}

/// The dependencies that `items` name, in order.
pub open spec fn deps_of_items(items: Seq<ScriptItem>) -> Seq<(Seq<char>, ResolveKind)>
    decreases items.len(),
{
    if items.len() == 0 {
        Seq::empty()
    } else {
        let rest = deps_of_items(items.drop_last());
        match dep_of_item(items.last()) {
            Some(d) => rest.push(d),
            None => rest,
        }
    }
}

/// The dependencies that a script's items declare: static imports and
/// re-exports (not those of types only) as `Import`, and `import('s')` as
/// `DynamicImport`, in source order.
pub fn analyze_script_deps(items: &Vec<ScriptItem>) -> (r: Vec<AnalyzeDep>)
    ensures
        r@.map_values(|d: AnalyzeDep| (d.source@, d.resolve_kind)) == deps_of_items(items@),
{
    let mut deps: Vec<AnalyzeDep> = Vec::new();
    let mut i: usize = 0;
    while i < items.len()
        invariant
            i <= items@.len(),
            deps@.map_values(|d: AnalyzeDep| (d.source@, d.resolve_kind)) == deps_of_items(items@.take(i as int)),
        decreases items@.len() - i,
    {
        proof {
            assert(items@.take(i + 1).drop_last() =~= items@.take(i as int));
        }
        let ghost before = deps@;
        let dep: Option<AnalyzeDep> = match &items[i] {
            ScriptItem::DynamicImport(s) => Some(AnalyzeDep { source: s.clone(), resolve_kind: ResolveKind::DynamicImport }),
            ScriptItem::Decl(decl) => {
                if is_import_type(decl) {
                    None
                } else {
                    match decl {
                        ModuleDecl::Import { source, .. } => Some(AnalyzeDep { source: source.clone(), resolve_kind: ResolveKind::Import }),
                        ModuleDecl::ExportNamed { source, .. } => match source {
                            Some(s) => Some(AnalyzeDep { source: s.clone(), resolve_kind: ResolveKind::Import }),
                            None => None,
                        },
                        ModuleDecl::ExportAll { source, .. } => Some(AnalyzeDep { source: source.clone(), resolve_kind: ResolveKind::Import }),
                        ModuleDecl::ExportDefault(_) => None,
                    }
                }
            },
        };
        match dep {
            Some(d) => {
                deps.push(d);
                proof {
                    assert(deps@.map_values(|d: AnalyzeDep| (d.source@, d.resolve_kind)) =~= before.map_values(
                        |d: AnalyzeDep| (d.source@, d.resolve_kind),
                    ).push((d.source@, d.resolve_kind)));
                }
            },
            None => {},
        }
        i = i + 1;
    }
    proof {
        assert(items@.take(items@.len() as int) =~= items@);
    }
    deps
}

/// The file name of `path` without its extension, as `Path::file_stem` gives it.
pub open spec fn stem_of(path: Seq<char>) -> Seq<char> {
    let name = path.skip(last_index_of(path, '/') + 1);
    let i = last_index_of(name, '.');
    if i <= 0 {
        name
    } else {
        name.take(i)
    }
}

pub fn file_stem(path: &str) -> (r: String)
    ensures
        r@ == stem_of(path@),
{
    let n = path.unicode_len();
    let name = match find_last_char(path, '/') {
        Some(i) => {
            assert(i < n);
            suffix_from(path, i + 1)
        },
        None => String::from_str(path),
    };
    proof {
        assert(name@ =~= path@.skip(last_index_of(path@, '/') + 1));
    }
    match find_last_char(name.as_str(), '.') {
        Some(i) => {
            if i == 0 {
                name
            } else {
                let r = prefix_to(name.as_str(), i);
                proof {
                    assert(r@ =~= name@.take(i as int));
                }
                r
            }
        },
        None => name,
    }
}

/// A character kept in a variable name, or `_` in its place.
pub open spec fn var_char(c: char) -> char {
    if ('a' <= c && c <= 'z') || ('A' <= c && c <= 'Z') || ('0' <= c && c <= '9') || c == '_' {
        c
    } else {
        '_'
    }
}

/// The decimal digit `d`.
pub open spec fn digit(d: nat) -> char {
    if d == 0 { '0' } else if d == 1 { '1' } else if d == 2 { '2' } else if d == 3 { '3' } else if d == 4 {
        '4'
    } else if d == 5 { '5' } else if d == 6 { '6' } else if d == 7 { '7' } else if d == 8 { '8' } else { '9' }
}

/// The decimal representation of `n`.
pub open spec fn decimal(n: nat) -> Seq<char>
    decreases n,
{
    if n < 10 {
        seq![digit(n)]
    } else {
        decimal(n / 10).push(digit(n % 10))
    }
}

fn digit_char(d: usize) -> (c: char)
    requires
        d < 10,
    ensures
        c == digit(d as nat),
{
    if d == 0 { '0' } else if d == 1 { '1' } else if d == 2 { '2' } else if d == 3 { '3' } else if d == 4 {
        '4'
    } else if d == 5 { '5' } else if d == 6 { '6' } else if d == 7 { '7' } else if d == 8 { '8' } else { '9' }
}

pub fn decimal_string(n: usize) -> (r: String)
    ensures
        r@ == decimal(n as nat),
    decreases n,
{
    if n < 10 {
        let mut r = String::new();
        push_char(&mut r, digit_char(n));
        proof {
            assert(r@ =~= seq![digit(n as nat)]);
        }
        r
    } else {
        let mut r = decimal_string(n / 10);
        push_char(&mut r, digit_char(n % 10));
        r
    }
}

/// The fresh variable name made from `id` with counter value `n`:
/// `_<stem>$toy<n>`, the stem's other characters than letters, digits and `_` as `_`.
pub open spec fn js_var_name(id: Seq<char>, n: nat) -> Seq<char> {
    seq!['_'] + stem_of(id).map_values(|c: char| var_char(c)) + "$toy"@ + decimal(n)
}

/// A lowered `import`: the module it reads, and imported name to local name.
#[derive(Debug, Clone, PartialEq, Eq)]
pub struct ToyImport {
    pub source: String,
    pub kv: Vec<(String, String)>,
}

/// A lowered export: exported name to local name, or a spread of a namespace.
#[derive(Debug, Clone, PartialEq, Eq)]
pub struct ToyExport {
    pub spread: bool,
    pub kv: Vec<(String, String)>,
}

/// What becomes of a declaration's statement once it is lowered.
#[derive(Debug, Clone, PartialEq, Eq)]
pub enum Replacement {
    /// The statement goes.
    Remove,
    /// The declaration stays, without its `export`.
    KeepDeclaration,
    /// The exported expression is bound: `const <local> = <expression>;`.
    BindDefault(String),
}


/// The entries of an import with these specifiers: `default`, the imported
/// name, or `*`, each to its local name; `type` specifiers left out.
pub open spec fn import_kv(specs: Seq<ImportSpecifier>) -> Seq<(Seq<char>, Seq<char>)>
    decreases specs.len(),
{
    if specs.len() == 0 {
        Seq::empty()
    } else {
        let rest = import_kv(specs.drop_last());
        match specs.last() {
            ImportSpecifier::Default { local } => rest.push(("default"@, local@)),
            ImportSpecifier::Named { imported, local, is_type } => if is_type {
                rest
            } else {
                rest.push((imported@, local@))
            },
            ImportSpecifier::Namespace { local } => rest.push(("*"@, local@)),
        }
    }
}

/// Whether the import source names a stylesheet, which bundling leaves out.
pub open spec fn is_style_source(source: Seq<char>) -> bool {
    source.len() >= 4 && source.skip(source.len() - 4) == ".css"@
}

pub fn is_style_import(source: &str) -> (r: bool)
    ensures
        r == is_style_source(source@),
{
    let n = source.unicode_len();
    if n < 4 {
        return false;
    }
    let tail = suffix_from(source, n - 4);
    str_eq(tail.as_str(), ".css")
}

/// The lowering of one module's declarations.
pub struct EsmVisitor {
    pub module_id: String,
    pub js_var_index: usize,
    pub imports: Vec<ToyImport>,
    pub exports: Vec<ToyExport>,
    /// Each dependency's specifier, with the id it resolved to.
    pub dep_source_to_module_id: Vec<(String, String)>,
}

impl EsmVisitor {
    pub fn new(module_id: String, dep_source_to_module_id: Vec<(String, String)>) -> (r: EsmVisitor)
        ensures
            r.module_id == module_id,
            r.js_var_index == 0,
            r.imports@.len() == 0,
            r.exports@.len() == 0,
            r.dep_source_to_module_id == dep_source_to_module_id,
    {
        EsmVisitor { module_id, js_var_index: 0, imports: Vec::new(), exports: Vec::new(), dep_source_to_module_id }
    }

    /// A fresh variable name made from `id`.
    pub fn id_to_js_var(&mut self, id: &str) -> (r: String)
        requires
            old(self).js_var_index < usize::MAX,
        ensures
            final(self).js_var_index == old(self).js_var_index + 1,
            r@ == js_var_name(id@, final(self).js_var_index as nat),
            final(self).module_id == old(self).module_id,
            final(self).imports == old(self).imports,
            final(self).exports == old(self).exports,
            final(self).dep_source_to_module_id == old(self).dep_source_to_module_id,
    {
        let stem = file_stem(id);
        let n = stem.unicode_len();
        let mut r = String::new();
        push_char(&mut r, '_');
        let mut i: usize = 0;
        while i < n
            invariant
                n == stem@.len(),
                i <= n,
                r@ == seq!['_'] + stem@.take(i as int).map_values(|c: char| var_char(c)),
            decreases n - i,
        {
            let c = stem.as_str().get_char(i);
            let k = if ('a' <= c && c <= 'z') || ('A' <= c && c <= 'Z') || ('0' <= c && c <= '9') || c == '_' {
                c
            } else {
                '_'
            };
            push_char(&mut r, k);
            proof {
                assert(stem@.take(i + 1).map_values(|c: char| var_char(c)) =~= stem@.take(i as int).map_values(
                    |c: char| var_char(c),
                ).push(var_char(c)));
            }
            i = i + 1;
        }
        proof {
            assert(stem@.take(n as int) =~= stem@);
        }
        self.js_var_index = self.js_var_index + 1;
        r.append("$toy");
        let digits = decimal_string(self.js_var_index);
        r.append(digits.as_str());
        r
    }
}

/// How many specifiers are not `type`.
pub open spec fn nontype_count(specs: Seq<ExportSpecifier>) -> nat
    decreases specs.len(),
{
    if specs.len() == 0 {
        0
    } else {
        nontype_count(specs.drop_last()) + if specs.last().is_type { 0nat } else { 1nat }
    }
}

/// For a re-export, each specifier that is not `type`: its local name, its
/// exported name, and the fresh variable it is read into, the counter
/// starting after `start`.
pub open spec fn reexport_entries(specs: Seq<ExportSpecifier>, start: nat) -> Seq<(Seq<char>, Seq<char>, Seq<char>)>
    decreases specs.len(),
{
    if specs.len() == 0 {
        Seq::empty()
    } else {
        let rest = reexport_entries(specs.drop_last(), start);
        let s = specs.last();
        if s.is_type {
            rest
        } else {
            rest.push((s.local@, s.exported@, js_var_name(s.local@, start + nontype_count(specs.drop_last()) + 1)))
        }
    }
}

/// For a local `export { ... }`: exported name to local name, `type` ones left out.
pub open spec fn local_export_kv(specs: Seq<ExportSpecifier>) -> Seq<(Seq<char>, Seq<char>)>
    decreases specs.len(),
{
    if specs.len() == 0 {
        Seq::empty()
    } else {
        let rest = local_export_kv(specs.drop_last());
        if specs.last().is_type {
            rest
        } else {
            rest.push((specs.last().exported@, specs.last().local@))
        }
    }
}

/// Each name to itself.
pub open spec fn identity_kv(names: Seq<String>) -> Seq<(Seq<char>, Seq<char>)> {
    names.map_values(|n: String| (n@, n@))
}

pub open spec fn entry_import_kv(e: Seq<(Seq<char>, Seq<char>, Seq<char>)>) -> Seq<(Seq<char>, Seq<char>)> {
    e.map_values(|t: (Seq<char>, Seq<char>, Seq<char>)| (t.0, t.2))
}

pub open spec fn entry_export_kv(e: Seq<(Seq<char>, Seq<char>, Seq<char>)>) -> Seq<(Seq<char>, Seq<char>)> {
    e.map_values(|t: (Seq<char>, Seq<char>, Seq<char>)| (t.1, t.2))
}

/// An upper bound on the fresh variables that lowering `decl` makes.
pub open spec fn fresh_bound(decl: ModuleDecl) -> nat {
    match decl {
        ModuleDecl::ExportNamed { specifiers, .. } => specifiers@.len() + 1,
        _ => 1,
    }
}

/// Whether `v` is `old` with one more import, of `source` with these entries.
pub open spec fn imports_pushed(old_v: Seq<ToyImport>, v: Seq<ToyImport>, source: Seq<char>, kv: Seq<(Seq<char>, Seq<char>)>) -> bool {
    &&& v.len() == old_v.len() + 1
    &&& v.drop_last() == old_v
    &&& v.last().source@ == source
    &&& pairs_view(v.last().kv@) == kv
}

/// Whether `v` is `old` with one more export, with these entries.
pub open spec fn exports_pushed(old_v: Seq<ToyExport>, v: Seq<ToyExport>, spread: bool, kv: Seq<(Seq<char>, Seq<char>)>) -> bool {
    &&& v.len() == old_v.len() + 1
    &&& v.drop_last() == old_v
    &&& v.last().spread == spread
    &&& pairs_view(v.last().kv@) == kv
}

/// Whether the visitor went from `a` to `b` by lowering `decl` into `r`:
/// what each kind of declaration records, and what becomes of its statement.
pub open spec fn lowered_as(a: EsmVisitor, b: EsmVisitor, decl: ModuleDecl, r: Replacement) -> bool {
    match decl {
        ModuleDecl::Import { source, is_type, specifiers } => if is_type || is_style_source(source@) {
            b.imports == a.imports && b.exports == a.exports
                && r is Remove
        } else {
            imports_pushed(a.imports@, b.imports@, source@, if specifiers is Some {
                import_kv(specifiers->Some_0@)
            } else {
                Seq::empty()
            }) && b.exports == a.exports && r is Remove
        },
        ModuleDecl::ExportDefault(d) => b.imports == a.imports && match d {
            DefaultExport::Function { name } => if name is Some {
                exports_pushed(a.exports@, b.exports@, false, seq![("default"@, name->Some_0@)])
                    && r is KeepDeclaration
            } else {
                exports_pushed(a.exports@, b.exports@, false, seq![("default"@, js_var_name(a.module_id@, (a.js_var_index + 1) as nat))])
                    && (r matches Replacement::BindDefault(l) && l@ == js_var_name(a.module_id@, (a.js_var_index + 1) as nat))
            },
            DefaultExport::Class { name } => if name is Some {
                exports_pushed(a.exports@, b.exports@, false, seq![("default"@, name->Some_0@)])
                    && r is KeepDeclaration
            } else {
                exports_pushed(a.exports@, b.exports@, false, seq![("default"@, js_var_name(a.module_id@, (a.js_var_index + 1) as nat))])
                    && (r matches Replacement::BindDefault(l) && l@ == js_var_name(a.module_id@, (a.js_var_index + 1) as nat))
            },
            DefaultExport::Identifier { name } => exports_pushed(a.exports@, b.exports@, false, seq![("default"@, name@)])
                && r is Remove,
            DefaultExport::Expression => exports_pushed(a.exports@, b.exports@, false, seq![("default"@, js_var_name(a.module_id@, (a.js_var_index + 1) as nat))])
                && (r matches Replacement::BindDefault(l) && l@ == js_var_name(a.module_id@, (a.js_var_index + 1) as nat)),
        },
        ModuleDecl::ExportNamed { source, is_type, specifiers, has_declaration, declared } => if is_type || (source is Some && is_style_source(source->Some_0@)) {
            b.imports == a.imports && b.exports == a.exports
                && r is Remove
        } else if source is Some {
            imports_pushed(a.imports@, b.imports@, source->Some_0@, entry_import_kv(reexport_entries(specifiers@, a.js_var_index as nat)))
                && exports_pushed(a.exports@, b.exports@, false, entry_export_kv(reexport_entries(specifiers@, a.js_var_index as nat)) + identity_kv(declared@))
                && (if has_declaration { r is KeepDeclaration } else { r is Remove })
        } else {
            b.imports == a.imports
                && exports_pushed(a.exports@, b.exports@, false, local_export_kv(specifiers@) + identity_kv(declared@))
                && (if has_declaration { r is KeepDeclaration } else { r is Remove })
        },
        ModuleDecl::ExportAll { source, exported, is_type } => if is_type || is_style_source(source@) {
            b.imports == a.imports && b.exports == a.exports
                && r is Remove
        } else {
            imports_pushed(a.imports@, b.imports@, source@, seq![("*"@, js_var_name(source@, (a.js_var_index + 1) as nat))])
                && (if exported is Some {
                    exports_pushed(a.exports@, b.exports@, false, seq![(exported->Some_0@, js_var_name(source@, (a.js_var_index + 1) as nat))])
                } else {
                    exports_pushed(a.exports@, b.exports@, true, seq![(js_var_name(source@, (a.js_var_index + 1) as nat), js_var_name(source@, (a.js_var_index + 1) as nat))])
                }) && r is Remove
        },
    }
}

impl EsmVisitor {
    /// Builds the entries of an import with these specifiers.
    fn import_entries(specs: &Vec<ImportSpecifier>) -> (r: Vec<(String, String)>)
        ensures
            pairs_view(r@) == import_kv(specs@),
    {
        let mut kv: Vec<(String, String)> = Vec::new();
        let mut i: usize = 0;
        while i < specs.len()
            invariant
                i <= specs@.len(),
                pairs_view(kv@) == import_kv(specs@.take(i as int)),
            decreases specs@.len() - i,
        {
            proof {
                assert(specs@.take(i + 1).drop_last() =~= specs@.take(i as int));
            }
            let ghost before = kv@;
            match &specs[i] {
                ImportSpecifier::Default { local } => {
                    kv.push((String::from_str("default"), local.clone()));
                    proof {
                        assert(pairs_view(kv@) =~= pairs_view(before).push(("default"@, local@)));
                    }
                },
                ImportSpecifier::Named { imported, local, is_type } => {
                    if !*is_type {
                        kv.push((imported.clone(), local.clone()));
                        proof {
                            assert(pairs_view(kv@) =~= pairs_view(before).push((imported@, local@)));
                        }
                    }
                },
                ImportSpecifier::Namespace { local } => {
                    kv.push((String::from_str("*"), local.clone()));
                    proof {
                        assert(pairs_view(kv@) =~= pairs_view(before).push(("*"@, local@)));
                    }
                },
            }
            i = i + 1;
        }
        proof {
            assert(specs@.take(specs@.len() as int) =~= specs@);
        }
        kv
    }

    /// Lowers one declaration: records its imports and exports and says what
    /// becomes of its statement. Type-only declarations and stylesheet
    /// imports are dropped and record nothing.
    pub fn match_module_decl(&mut self, decl: &ModuleDecl) -> (r: Replacement)
        requires
            old(self).js_var_index + fresh_bound(*decl) < usize::MAX,
        ensures
            final(self).module_id == old(self).module_id,
            final(self).dep_source_to_module_id == old(self).dep_source_to_module_id,
            final(self).js_var_index >= old(self).js_var_index,
            final(self).js_var_index <= old(self).js_var_index + fresh_bound(*decl),
            lowered_as(*old(self), *final(self), *decl, r),
    {
        match decl {
            ModuleDecl::Import { source, is_type, specifiers } => {
                if *is_type || is_style_import(source.as_str()) {
                    return Replacement::Remove;
                }
                let kv = match specifiers {
                    Some(specs) => EsmVisitor::import_entries(specs),
                    None => Vec::new(),
                };
                let ghost before = self.imports@;
                let ghost kvv = pairs_view(kv@);
                let item = ToyImport { source: source.clone(), kv };
                self.imports.push(item);
                proof {
                    assert(self.imports@.drop_last() =~= before);
                    assert(self.imports@.last() == item);
                    assert(pairs_view(item.kv@) == kvv);
                    assert(item.source@ == source@);
                    if specifiers is None {
                        assert(pairs_view(self.imports@.last().kv@) =~= Seq::<(Seq<char>, Seq<char>)>::empty());
                    }
                }
                Replacement::Remove
            },
            ModuleDecl::ExportDefault(d) => {
                let ghost before = self.exports@;
                let ghost idx = self.js_var_index;
                let mid = self.module_id.clone();
                let (name, r) = match d {
                    DefaultExport::Function { name } => match name {
                        Some(n) => (n.clone(), Replacement::KeepDeclaration),
                        None => {
                            let l = self.id_to_js_var(mid.as_str());
                            (l.clone(), Replacement::BindDefault(l))
                        },
                    },
                    DefaultExport::Class { name } => match name {
                        Some(n) => (n.clone(), Replacement::KeepDeclaration),
                        None => {
                            let l = self.id_to_js_var(mid.as_str());
                            (l.clone(), Replacement::BindDefault(l))
                        },
                    },
                    DefaultExport::Identifier { name } => (name.clone(), Replacement::Remove),
                    DefaultExport::Expression => {
                        let l = self.id_to_js_var(mid.as_str());
                        (l.clone(), Replacement::BindDefault(l))
                    },
                };
                let kv = vec![(String::from_str("default"), name)];
                self.exports.push(ToyExport { spread: false, kv });
                proof {
                    assert(self.exports@.drop_last() =~= before);
                    assert(pairs_view(self.exports@.last().kv@) =~= seq![("default"@, name@)]);
                }
                r
            },
            ModuleDecl::ExportNamed { source, is_type, specifiers, has_declaration, declared } => {
                if *is_type {
                    return Replacement::Remove;
                }
                let ghost start = self.js_var_index as nat;
                let ghost imports0 = self.imports@;
                let ghost exports0 = self.exports@;
                let mut export_kv: Vec<(String, String)> = Vec::new();
                match source {
                    Some(src) => {
                        if is_style_import(src.as_str()) {
                            return Replacement::Remove;
                        }
                        let mut import_kv: Vec<(String, String)> = Vec::new();
                        let mut i: usize = 0;
                        while i < specifiers.len()
                            invariant
                                i <= specifiers@.len(),
                                self.js_var_index == start + nontype_count(specifiers@.take(i as int)),
                                nontype_count(specifiers@.take(i as int)) <= i,
                                start + specifiers@.len() + 1 < usize::MAX,
                                pairs_view(import_kv@) == entry_import_kv(reexport_entries(specifiers@.take(i as int), start)),
                                pairs_view(export_kv@) == entry_export_kv(reexport_entries(specifiers@.take(i as int), start)),
                                self.module_id == old(self).module_id,
                                self.dep_source_to_module_id == old(self).dep_source_to_module_id,
                                self.imports == old(self).imports,
                                self.exports == old(self).exports,
                            decreases specifiers@.len() - i,
                        {
                            proof {
                                assert(specifiers@.take(i + 1).drop_last() =~= specifiers@.take(i as int));
                            }
                            let sp = &specifiers[i];
                            if !sp.is_type {
                                let ghost bi = import_kv@;
                                let ghost be = export_kv@;
                                let local = self.id_to_js_var(sp.local.as_str());
                                import_kv.push((sp.local.clone(), local.clone()));
                                export_kv.push((sp.exported.clone(), local));
                                proof {
                                    let e = reexport_entries(specifiers@.take(i as int), start);
                                    let t = (sp.local@, sp.exported@, js_var_name(sp.local@, start + nontype_count(specifiers@.take(i as int)) + 1));
                                    assert(reexport_entries(specifiers@.take(i + 1), start) == e.push(t));
                                    assert(entry_import_kv(e.push(t)) =~= entry_import_kv(e).push((t.0, t.2)));
                                    assert(entry_export_kv(e.push(t)) =~= entry_export_kv(e).push((t.1, t.2)));
                                    assert(pairs_view(import_kv@) =~= pairs_view(bi).push((t.0, t.2)));
                                    assert(pairs_view(export_kv@) =~= pairs_view(be).push((t.1, t.2)));
                                }
                            }
                            i = i + 1;
                        }
                        proof {
                            assert(specifiers@.take(specifiers@.len() as int) =~= specifiers@);
                        }
                        self.imports.push(ToyImport { source: src.clone(), kv: import_kv });
                        proof {
                            assert(self.imports@.drop_last() =~= imports0);
                        }
                    },
                    None => {
                        let mut i: usize = 0;
                        while i < specifiers.len()
                            invariant
                                i <= specifiers@.len(),
                                pairs_view(export_kv@) == local_export_kv(specifiers@.take(i as int)),
                            decreases specifiers@.len() - i,
                        {
                            proof {
                                assert(specifiers@.take(i + 1).drop_last() =~= specifiers@.take(i as int));
                            }
                            let sp = &specifiers[i];
                            if !sp.is_type {
                                let ghost be = export_kv@;
                                export_kv.push((sp.exported.clone(), sp.local.clone()));
                                proof {
                                    assert(pairs_view(export_kv@) =~= pairs_view(be).push((sp.exported@, sp.local@)));
                                }
                            }
                            i = i + 1;
                        }
                        proof {
                            assert(specifiers@.take(specifiers@.len() as int) =~= specifiers@);
                        }
                    },
                }
                let ghost named = pairs_view(export_kv@);
                let mut j: usize = 0;
                while j < declared.len()
                    invariant
                        j <= declared@.len(),
                        pairs_view(export_kv@) == named + identity_kv(declared@.take(j as int)),
                    decreases declared@.len() - j,
                {
                    let ghost be = export_kv@;
                    export_kv.push((declared[j].clone(), declared[j].clone()));
                    proof {
                        assert(identity_kv(declared@.take(j + 1)) =~= identity_kv(declared@.take(j as int)).push((declared@[j as int]@, declared@[j as int]@)));
                        assert(pairs_view(export_kv@) =~= pairs_view(be).push((declared@[j as int]@, declared@[j as int]@)));
                    }
                    j = j + 1;
                }
                proof {
                    assert(declared@.take(declared@.len() as int) =~= declared@);
                }
                self.exports.push(ToyExport { spread: false, kv: export_kv });
                proof {
                    assert(self.exports@.drop_last() =~= exports0);
                }
                if *has_declaration {
                    Replacement::KeepDeclaration
                } else {
                    Replacement::Remove
                }
            },
            ModuleDecl::ExportAll { source, exported, is_type } => {
                if *is_type || is_style_import(source.as_str()) {
                    return Replacement::Remove;
                }
                let ghost imports0 = self.imports@;
                let ghost exports0 = self.exports@;
                let local = self.id_to_js_var(source.as_str());
                self.imports.push(ToyImport { source: source.clone(), kv: vec![(String::from_str("*"), local.clone())] });
                let ghost lv = local@;
                let export = match exported {
                    Some(name) => {
                        let e = ToyExport { spread: false, kv: vec![(name.clone(), local)] };
                        proof {
                            assert(pairs_view(e.kv@) =~= seq![(name@, lv)]);
                        }
                        e
                    },
                    None => {
                        let e = ToyExport { spread: true, kv: vec![(local.clone(), local)] };
                        proof {
                            assert(pairs_view(e.kv@) =~= seq![(lv, lv)]);
                        }
                        e
                    },
                };
                self.exports.push(export);
                proof {
                    assert(self.imports@.drop_last() =~= imports0);
                    assert(self.exports@.drop_last() =~= exports0);
                    assert(pairs_view(self.imports@.last().kv@) =~= seq![("*"@, local@)]);
                    assert(pairs_view(self.exports@.last().kv@) =~= pairs_view(export.kv@));
                }
                Replacement::Remove
            },
        }
    }
}

/// One property of an object: `...v` for a spread, `k` where it equals `v`, else `k: v`.
pub open spec fn entry_text(e: (bool, Seq<char>, Seq<char>)) -> Seq<char> {
    if e.0 {
        "..."@ + e.2
    } else if e.1 == e.2 {
        e.1
    } else {
        e.1 + ": "@ + e.2
    }
}

/// The properties, separated by `, `.
pub open spec fn entries_text(es: Seq<(bool, Seq<char>, Seq<char>)>) -> Seq<char>
    decreases es.len(),
{
    if es.len() == 0 {
        Seq::empty()
    } else if es.len() == 1 {
        entry_text(es[0])
    } else {
        entries_text(es.drop_last()) + ", "@ + entry_text(es.last())
    }
}

pub open spec fn plain_entries(kv: Seq<(Seq<char>, Seq<char>)>) -> Seq<(bool, Seq<char>, Seq<char>)> {
    kv.map_values(|p: (Seq<char>, Seq<char>)| (false, p.0, p.1))
}

/// The properties `kv`, each marked as a spread or not.
pub open spec fn tagged_entries(spread: bool, kv: Seq<(Seq<char>, Seq<char>)>) -> Seq<(bool, Seq<char>, Seq<char>)> {
    kv.map_values(|p: (Seq<char>, Seq<char>)| (spread, p.0, p.1))
}

/// The properties of all exports, in order.
pub open spec fn export_entries(exports: Seq<ToyExport>) -> Seq<(bool, Seq<char>, Seq<char>)>
    decreases exports.len(),
{
    if exports.len() == 0 {
        Seq::empty()
    } else {
        let e = exports.last();
        export_entries(exports.drop_last()) + tagged_entries(e.spread, pairs_view(e.kv@))
    }
}

/// `const { <props> } = __toyRequire__("<id>");`
pub open spec fn import_stmt_text(kv: Seq<(Seq<char>, Seq<char>)>, id: Seq<char>) -> Seq<char> {
    "const { "@ + entries_text(plain_entries(kv)) + " } = __toyRequire__(\""@ + id + "\");"@
}

/// `__toyModule__.exports = { <props> };`
pub open spec fn export_stmt_text(exports: Seq<ToyExport>) -> Seq<char> {
    "__toyModule__.exports = { "@ + entries_text(export_entries(exports)) + " };"@
}

fn entry_string(spread: bool, k: &str, v: &str) -> (r: String)
    ensures
        r@ == entry_text((spread, k@, v@)),
{
    if spread {
        let mut r = String::from_str("...");
        r.append(v);
        r
    } else if str_eq(k, v) {
        String::from_str(k)
    } else {
        let mut r = String::from_str(k);
        r.append(": ");
        r.append(v);
        r
    }
}

/// Appends one property, after a separator where some came before.
fn append_entry(out: &mut String, after_another: bool, spread: bool, k: &str, v: &str)
    ensures
        final(out)@ == old(out)@ + (if after_another { ", "@ } else { Seq::empty() }) + entry_text((spread, k@, v@)),
{
    if after_another {
        out.append(", ");
    }
    let e = entry_string(spread, k, v);
    out.append(e.as_str());
}

impl EsmVisitor {
    /// The id that the dependency `source` resolved to.
    pub fn resolved_id(&self, source: &str) -> (r: Option<&String>)
        ensures
            r is None <==> crate::resolve::lookup(pairs_view(self.dep_source_to_module_id@), source@) is None,
            r is Some ==> r->Some_0@ == crate::resolve::lookup(pairs_view(self.dep_source_to_module_id@), source@)->Some_0,
    {
        crate::resolve::lookup_pairs(&self.dep_source_to_module_id, source)
    }

    /// `const { <k>: <v>, ... } = __toyRequire__("<id>");` for `import`,
    /// where `<id>` is the id its source resolved to.
    pub fn build_toy_import_stmt(&self, import: &ToyImport) -> (r: Result<String, CompilationError>)
        ensures
            r is Ok <==> crate::resolve::lookup(pairs_view(self.dep_source_to_module_id@), import.source@) is Some,
            r is Ok ==> r->Ok_0@ == import_stmt_text(
                pairs_view(import.kv@),
                crate::resolve::lookup(pairs_view(self.dep_source_to_module_id@), import.source@)->Some_0,
            ),
            r is Err ==> r->Err_0 is GenericError,
    {
        let id = match self.resolved_id(import.source.as_str()) {
            Some(id) => id,
            None => {
                return Err(CompilationError::GenericError(String::from_str("an import's source did not resolve")));
            },
        };
        let mut out = String::from_str("const { ");
        let ghost head = out@;
        let mut i: usize = 0;
        while i < import.kv.len()
            invariant
                i <= import.kv@.len(),
                out@ == head + entries_text(plain_entries(pairs_view(import.kv@)).take(i as int)),
            decreases import.kv@.len() - i,
        {
            let ghost es = plain_entries(pairs_view(import.kv@));
            proof {
                assert(es.take(i + 1).drop_last() =~= es.take(i as int));
                assert(es.take(i + 1).last() == (false, import.kv@[i as int].0@, import.kv@[i as int].1@));
                if i == 0 {
                    assert(es.take(0).len() == 0);
                    assert(es.take(1)[0] == es.take(1).last());
                }
            }
            append_entry(&mut out, i > 0, false, import.kv[i].0.as_str(), import.kv[i].1.as_str());
            proof {
                if i == 0 {
                    assert(out@ =~= head + entries_text(es.take(1)));
                } else {
                    assert(out@ =~= head + entries_text(es.take(i + 1)));
                }
            }
            i = i + 1;
        }
        proof {
            assert(plain_entries(pairs_view(import.kv@)).take(import.kv@.len() as int) =~= plain_entries(pairs_view(import.kv@)));
        }
        out.append(" } = __toyRequire__(\"");
        out.append(id.as_str());
        out.append("\");");
        Ok(out)
    }

    /// `__toyModule__.exports = { ... };` for all exports recorded so far.
    pub fn build_toy_export_stmt(&self) -> (r: String)
        ensures
            r@ == export_stmt_text(self.exports@),
    {
        let mut out = String::from_str("__toyModule__.exports = { ");
        let ghost head = out@;
        let mut any = false;
        let mut x: usize = 0;
        while x < self.exports.len()
            invariant
                x <= self.exports@.len(),
                any == (export_entries(self.exports@.take(x as int)).len() > 0),
                out@ == head + entries_text(export_entries(self.exports@.take(x as int))),
            decreases self.exports@.len() - x,
        {
            let e = &self.exports[x];
            let ghost done = export_entries(self.exports@.take(x as int));
            let ghost more = tagged_entries(e.spread, pairs_view(e.kv@));
            proof {
                assert(self.exports@.take(x + 1).drop_last() =~= self.exports@.take(x as int));
                assert(export_entries(self.exports@.take(x + 1)) == done + more);
            }
            let mut i: usize = 0;
            while i < e.kv.len()
                invariant
                    i <= e.kv@.len(),
                    more == tagged_entries(e.spread, pairs_view(e.kv@)),
                    more.len() == e.kv@.len(),
                    any == (done.len() + i > 0),
                    out@ == head + entries_text(done + more.take(i as int)),
                decreases e.kv@.len() - i,
            {
                proof {
                    let all = done + more.take(i + 1);
                    assert(pairs_view(e.kv@)[i as int] == (e.kv@[i as int].0@, e.kv@[i as int].1@));
                    assert(more[i as int] == (e.spread, e.kv@[i as int].0@, e.kv@[i as int].1@));
                    assert(all.drop_last() =~= done + more.take(i as int));
                    assert(all.last() == more[i as int]);
                    assert(all.last() == (e.spread, e.kv@[i as int].0@, e.kv@[i as int].1@));
                    if done.len() + i == 0 {
                        assert(all.len() == 1);
                        assert(all[0] == all.last());
                    }
                }
                append_entry(&mut out, any, e.spread, e.kv[i].0.as_str(), e.kv[i].1.as_str());
                any = true;
                i = i + 1;
            }
            proof {
                assert(more.take(e.kv@.len() as int) =~= more);
            }
            x = x + 1;
        }
        proof {
            assert(self.exports@.take(self.exports@.len() as int) =~= self.exports@);
        }
        out.append(" };");
        out
    }
}

/// An upper bound on the fresh variables that lowering all of `decls` makes.
pub open spec fn total_fresh(decls: Seq<ModuleDecl>) -> nat
    decreases decls.len(),
{
    if decls.len() == 0 {
        0
    } else {
        total_fresh(decls.drop_last()) + fresh_bound(decls.last())
    }
}

proof fn lemma_total_fresh_prefix(decls: Seq<ModuleDecl>, i: int)
    requires
        0 <= i < decls.len(),
    ensures
        total_fresh(decls.take(i + 1)) == total_fresh(decls.take(i)) + fresh_bound(decls[i]),
        total_fresh(decls.take(i + 1)) <= total_fresh(decls),
    decreases decls.len() - i,
{
    assert(decls.take(i + 1).drop_last() =~= decls.take(i));
    if i + 1 < decls.len() {
        lemma_total_fresh_prefix(decls, i + 1);
    } else {
        assert(decls.take(i + 1) =~= decls);
    }
}

/// A module's declarations once lowered.
#[derive(Debug, Clone)]
pub struct LoweredModule {
    /// What becomes of each declaration, in order.
    pub replacements: Vec<Replacement>,
    /// The statements that go at the top of the body, in order.
    pub import_stmts: Vec<String>,
    /// The statement that goes at the end of the body, if the module exports anything.
    pub export_stmt: Option<String>,
}

impl EsmVisitor {
    /// Lowers the declarations of a module in order, then builds the
    /// statements for all its imports and its exports.
    pub fn visit_program(&mut self, decls: &Vec<ModuleDecl>) -> (r: Result<LoweredModule, CompilationError>)
        ensures
            final(self).module_id == old(self).module_id,
            final(self).dep_source_to_module_id == old(self).dep_source_to_module_id,
            r is Ok ==> r->Ok_0.replacements@.len() == decls@.len(),
            r is Ok ==> exists|states: Seq<EsmVisitor>|
                states.len() == decls@.len() + 1 && states[0] == *old(self) && states.last().imports == final(self).imports
                    && states.last().exports == final(self).exports && forall|k: int|
                    0 <= k < decls@.len() ==> #[trigger] lowered_as(states[k], states[k + 1], decls@[k], r->Ok_0.replacements@[k]),
            r is Ok ==> r->Ok_0.import_stmts@.len() == final(self).imports@.len(),
            r is Ok ==> forall|k: int|
                0 <= k < final(self).imports@.len() ==> (#[trigger] r->Ok_0.import_stmts@[k])@ == import_stmt_text(
                    pairs_view(final(self).imports@[k].kv@),
                    crate::resolve::lookup(pairs_view(final(self).dep_source_to_module_id@), final(self).imports@[k].source@)->Some_0,
                ),
            r is Ok ==> (r->Ok_0.export_stmt is Some <==> final(self).exports@.len() > 0),
            r is Ok && final(self).exports@.len() > 0 ==> r->Ok_0.export_stmt->Some_0@ == export_stmt_text(final(self).exports@),
            r is Err ==> r->Err_0 is GenericError,
            (old(self).js_var_index + total_fresh(decls@) < usize::MAX - 2 && forall|k: int|
                0 <= k < final(self).imports@.len() ==> crate::resolve::lookup(
                    pairs_view(final(self).dep_source_to_module_id@),
                    (#[trigger] final(self).imports@[k]).source@,
                ) is Some) ==> r is Ok,
    {
        let mut replacements: Vec<Replacement> = Vec::new();
        let mut i: usize = 0;
        let ghost mut states: Seq<EsmVisitor> = seq![*self];
        while i < decls.len()
            invariant
                i <= decls@.len(),
                replacements@.len() == i,
                states.len() == i + 1,
                states[0] == *old(self),
                states.last() == *self,
                forall|k: int| 0 <= k < i ==> #[trigger] lowered_as(states[k], states[k + 1], decls@[k], replacements@[k]),
                self.js_var_index <= old(self).js_var_index + total_fresh(decls@.take(i as int)),
                self.js_var_index >= old(self).js_var_index,
                self.module_id == old(self).module_id,
                self.dep_source_to_module_id == old(self).dep_source_to_module_id,
            decreases decls@.len() - i,
        {
            let bound: usize = match &decls[i] {
                ModuleDecl::ExportNamed { specifiers, .. } => specifiers.len(),
                _ => 0,
            };
            proof {
                lemma_total_fresh_prefix(decls@, i as int);
            }
            if self.js_var_index >= usize::MAX - 2 || bound >= usize::MAX - 2 - self.js_var_index {
                return Err(CompilationError::GenericError(String::from_str("too many declarations to name")));
            }
            let ghost before_states = states;
            let ghost before_repl = replacements@;
            let r = self.match_module_decl(&decls[i]);
            replacements.push(r);
            proof {
                states = states.push(*self);
                assert forall|k: int| 0 <= k < i + 1 implies #[trigger] lowered_as(states[k], states[k + 1], decls@[k], replacements@[k]) by {
                    if k < i {
                        assert(states[k] == before_states[k]);
                        assert(states[k + 1] == before_states[k + 1]);
                        assert(replacements@[k] == before_repl[k]);
                    } else {
                        assert(states[k] == before_states.last());
                        assert(states[k + 1] == *self);
                    }
                }
            }
            i = i + 1;
        }
        let mut import_stmts: Vec<String> = Vec::new();
        let mut k: usize = 0;
        while k < self.imports.len()
            invariant
                forall|q: int| 0 <= q < k ==> crate::resolve::lookup(
                    pairs_view(self.dep_source_to_module_id@),
                    (#[trigger] self.imports@[q]).source@,
                ) is Some,
                k <= self.imports@.len(),
                import_stmts@.len() == k,
                states.len() == decls@.len() + 1,
                states[0] == *old(self),
                states.last().imports == self.imports,
                states.last().exports == self.exports,
                replacements@.len() == decls@.len(),
                forall|q: int| 0 <= q < decls@.len() ==> #[trigger] lowered_as(states[q], states[q + 1], decls@[q], replacements@[q]),
                self.module_id == old(self).module_id,
                self.dep_source_to_module_id == old(self).dep_source_to_module_id,
                forall|q: int|
                    0 <= q < k ==> (#[trigger] import_stmts@[q])@ == import_stmt_text(
                        pairs_view(self.imports@[q].kv@),
                        crate::resolve::lookup(pairs_view(self.dep_source_to_module_id@), self.imports@[q].source@)->Some_0,
                    ),
            decreases self.imports@.len() - k,
        {
            let stmt = self.build_toy_import_stmt(&self.imports[k])?;
            import_stmts.push(stmt);
            k = k + 1;
        }
        let export_stmt = if self.exports.len() > 0 {
            Some(self.build_toy_export_stmt())
        } else {
            None
        };
        Ok(LoweredModule { replacements, import_stmts, export_stmt })
    }
}

} // verus!

verus! {

/// Collects the dependencies of scripts.
#[derive(Debug, Clone)]
pub struct DepsVisitor {
    pub deps: Vec<AnalyzeDep>,
}

impl DepsVisitor {
    pub fn new() -> (r: DepsVisitor)
        ensures
            r.deps@.len() == 0,
    {
        DepsVisitor { deps: Vec::new() }
    }

    /// Sets the dependencies to those that a script's items declare.
    pub fn visit_program(&mut self, items: &Vec<ScriptItem>)
        ensures
            final(self).deps@.map_values(|d: AnalyzeDep| (d.source@, d.resolve_kind)) == deps_of_items(items@),
    {
        self.deps = analyze_script_deps(items);
    }
}

/// The script plugin: finds the dependencies of scripts.
#[derive(Debug, Clone)]
pub struct PluginScript {}

impl PluginScript {
    pub fn new() -> (r: PluginScript) {
        PluginScript {}
    }

    /// The dependencies of a script.
    pub fn analyze_deps(&self, items: &Vec<ScriptItem>) -> (r: Vec<AnalyzeDep>)
        ensures
            r@.map_values(|d: AnalyzeDep| (d.source@, d.resolve_kind)) == deps_of_items(items@),
    {
        analyze_script_deps(items)
    }
}

} // verus!
