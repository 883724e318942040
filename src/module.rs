//! Module kinds and the reasons a reference exists.
use vstd::prelude::*;
use crate::text::str_eq;

verus! {

/// The kind of a module, derived from its file extension.
#[derive(Debug, Clone, PartialEq, Eq)]
pub enum ModuleKind {
    Html,
    Css,
    Js,
    Jsx,
    Ts,
    Tsx,
    Asset,
    Custom(String),
}

/// Why a reference between two modules exists.
#[derive(Debug, Clone, PartialEq, Eq)]
pub enum ResolveKind {
    /// An entry of the configuration.
    Entry,
    /// A static import, `import a from './a'`.
    Import,
    /// A dynamic import, `import('./a')`.
    DynamicImport,
    /// A CommonJS `require('./a')`.
    Require,
    /// A CSS `@import './a.css'`.
    CssAtImport,
    /// A CSS `url('./a.png')`.
    CssUrl,
    /// A `<script src>` of an HTML document.
    ScriptSrc,
    /// A `<link href>` of an HTML document.
    LinkHref,
    /// Any other reason.
    Custom(String),
}

/// The module kind that the extension `ext` names.
pub open spec fn kind_of_ext(ext: Seq<char>) -> ModuleKind {
    if ext == "html"@ {
        ModuleKind::Html
    } else if ext == "css"@ {
        ModuleKind::Css
    } else if ext == "js"@ || ext == "cjs"@ || ext == "mjs"@ {
        ModuleKind::Js
    } else if ext == "jsx"@ {
        ModuleKind::Jsx
    } else if ext == "ts"@ {
        ModuleKind::Ts
    } else if ext == "tsx"@ {
        ModuleKind::Tsx
    } else {
        ModuleKind::Custom(arbitrary())
    }
}

/// Whether `k` is the kind that `ext` names (a custom kind carries `ext` itself).
pub open spec fn is_kind_of_ext(k: ModuleKind, ext: Seq<char>) -> bool {
    match kind_of_ext(ext) {
        ModuleKind::Custom(_) => k is Custom && k->Custom_0@ == ext,
        other => k == other,
    }
}

pub open spec fn spec_is_script(k: ModuleKind) -> bool {
    k is Js || k is Jsx || k is Ts || k is Tsx
}

impl ModuleKind {
    /// The kind that a file extension names: `"html"` is `Html`, `"css"` is `Css`,
    /// `"js"`, `"cjs"` and `"mjs"` are `Js`, and an unknown one is `Custom(ext)`.
    pub fn from_ext(ext: &str) -> (r: ModuleKind)
        ensures
            is_kind_of_ext(r, ext@),
    {
        if str_eq(ext, "html") {
            ModuleKind::Html
        } else if str_eq(ext, "css") {
            ModuleKind::Css
        } else if str_eq(ext, "js") || str_eq(ext, "cjs") || str_eq(ext, "mjs") {
            ModuleKind::Js
        } else if str_eq(ext, "jsx") {
            ModuleKind::Jsx
        } else if str_eq(ext, "ts") {
            ModuleKind::Ts
        } else if str_eq(ext, "tsx") {
            ModuleKind::Tsx
        } else {
            ModuleKind::Custom(String::from_str(ext))
        }
    }

    pub fn is_html(&self) -> (r: bool)
        ensures
            r == (*self is Html),
    {
        matches!(self, ModuleKind::Html)
    }

    pub fn is_style(&self) -> (r: bool)
        ensures
            r == (*self is Css),
    {
        matches!(self, ModuleKind::Css)
    }

    pub fn is_script(&self) -> (r: bool)
        ensures
            r == spec_is_script(*self),
    {
        matches!(self, ModuleKind::Js | ModuleKind::Jsx | ModuleKind::Ts | ModuleKind::Tsx)
    }
}

} // verus!

verus! {

impl ResolveKind {
    /// A copy of this kind.
    pub fn duplicate(&self) -> (r: ResolveKind)
        ensures
            r == *self,
    {
        match self {
            ResolveKind::Entry => ResolveKind::Entry,
            ResolveKind::Import => ResolveKind::Import,
            ResolveKind::DynamicImport => ResolveKind::DynamicImport,
            ResolveKind::Require => ResolveKind::Require,
            ResolveKind::CssAtImport => ResolveKind::CssAtImport,
            ResolveKind::CssUrl => ResolveKind::CssUrl,
            ResolveKind::ScriptSrc => ResolveKind::ScriptSrc,
            ResolveKind::LinkHref => ResolveKind::LinkHref,
            ResolveKind::Custom(s) => ResolveKind::Custom(s.clone()),
        }
    }

    pub fn is_dynamic_import(&self) -> (r: bool)
        ensures
            r == (*self is DynamicImport),
    {
        matches!(self, ResolveKind::DynamicImport)
    }
}

impl ModuleKind {
    /// A copy of this kind.
    pub fn duplicate(&self) -> (r: ModuleKind)
        ensures
            r == *self,
    {
        match self {
            ModuleKind::Html => ModuleKind::Html,
            ModuleKind::Css => ModuleKind::Css,
            ModuleKind::Js => ModuleKind::Js,
            ModuleKind::Jsx => ModuleKind::Jsx,
            ModuleKind::Ts => ModuleKind::Ts,
            ModuleKind::Tsx => ModuleKind::Tsx,
            ModuleKind::Asset => ModuleKind::Asset,
            ModuleKind::Custom(s) => ModuleKind::Custom(s.clone()),
        }
    }
}

/// What the parse step learned of a module's source.
#[derive(Debug, Clone)]
pub enum ModuleMeta {
    Html(HtmlModuleMeta),
    Css(CssModuleMeta),
    Script(ScriptModuleMeta),
    Custom,
}

/// An HTML document, kept as its source text.
#[derive(Debug, Clone)]
pub struct HtmlModuleMeta {
    pub code: String,
}

/// A stylesheet, kept as its source text.
#[derive(Debug, Clone)]
pub struct CssModuleMeta {
    pub code: String,
}

/// A script program, kept as its source text.
#[derive(Debug, Clone)]
pub struct ScriptModuleMeta {
    pub code: String,
}

/// A node of the module graph.
#[derive(Debug, Clone)]
pub struct Module {
    pub id: String,
    pub kind: ModuleKind,
    pub meta: ModuleMeta,
    /// The ids of the module groups this module belongs to.
    pub module_groups: Vec<String>,
}

impl Module {
    pub fn new(id: String, kind: ModuleKind, meta: Option<ModuleMeta>) -> (r: Module)
        ensures
            r.id == id,
            r.kind == kind,
            r.module_groups@.len() == 0,
            meta is Some ==> r.meta == meta->Some_0,
            meta is None ==> r.meta is Custom,
    {
        let meta = match meta {
            Some(m) => m,
            None => ModuleMeta::Custom,
        };
        Module { id, kind, meta, module_groups: Vec::new() }
    }
}

} // verus!
