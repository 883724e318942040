//! The text of a script bundle: each module wrapped in a function, all of
//! them in one object, and the runtime that starts the entry.
use vstd::prelude::*;

verus! {

/// The runtime scaffold: a module registry, `__toyRequire__`, a dynamic
/// variant that answers with a promise, and `bootstrap`, which the bundle
/// calls with its modules and its entry's id.
pub const MODULE_SYSTEM: &'static str = "(function () {\n  var registry = {};\n  var cache = {};\n  function __toyRequire__(id) {\n    if (cache[id]) {\n      return cache[id].exports;\n    }\n    var __toyModule__ = { exports: {} };\n    cache[id] = __toyModule__;\n    registry[id](__toyModule__, __toyRequire__, __toyDynamicRequire__);\n    return __toyModule__.exports;\n  }\n  function __toyDynamicRequire__(id) {\n    return Promise.resolve().then(function () {\n      return __toyRequire__(id);\n    });\n  }\n  globalThis.__toyRegister__ = function (modules) {\n    for (var id in modules) {\n      registry[id] = modules[id];\n    }\n  };\n  globalThis.bootstrap = function bootstrap(modules, entry) {\n    for (var id in modules) {\n      registry[id] = modules[id];\n    }\n    return __toyRequire__(entry);\n  };\n})();\n";

/// `function(__toyModule__, __toyRequire__, __toyDynamicRequire__) {` body `}`
pub open spec fn wrapped_text(body: Seq<char>) -> Seq<char> {
    "function(__toyModule__, __toyRequire__, __toyDynamicRequire__) {\n"@ + body + "\n}"@
}

/// Wraps a module's lowered body in the function that the runtime calls.
pub fn wrap_module(body: &str) -> (r: String)
    ensures
        r@ == wrapped_text(body@),
{
    let mut r = String::from_str("function(__toyModule__, __toyRequire__, __toyDynamicRequire__) {\n");
    r.append(body);
    r.append("\n}");
    r
}

/// `"id": <wrapped body>,` and a line break, for each module.
pub open spec fn members_text(modules: Seq<(Seq<char>, Seq<char>)>) -> Seq<char>
    decreases modules.len(),
{
    if modules.len() == 0 {
        Seq::empty()
    } else {
        members_text(modules.drop_last()) + "\""@ + modules.last().0 + "\": "@ + wrapped_text(modules.last().1)
            + ",\n"@
    }
}

/// The bundle: the runtime, then `bootstrap({ ... }, "<entry>");`.
pub open spec fn bundle_text(modules: Seq<(Seq<char>, Seq<char>)>, entry: Seq<char>) -> Seq<char> {
    MODULE_SYSTEM@ + "bootstrap({\n"@ + members_text(modules) + "}, \""@ + entry + "\");\n"@
}

/// A pot that is not an entry: its modules, registered with the runtime.
pub open spec fn chunk_text(modules: Seq<(Seq<char>, Seq<char>)>) -> Seq<char> {
    "__toyRegister__({\n"@ + members_text(modules) + "});\n"@
}

/// The code of a script pot that is not an entry: each `(id, lowered body)`
/// wrapped, keyed by its id and registered with the runtime.
pub fn render_chunk(modules: &Vec<(String, String)>) -> (r: String)
    ensures
        r@ == chunk_text(crate::resolve::pairs_view(modules@)),
{
    let mut out = String::from_str("__toyRegister__({\n");
    let ghost head = out@;
    let mut i: usize = 0;
    while i < modules.len()
        invariant
            i <= modules@.len(),
            out@ == head + members_text(crate::resolve::pairs_view(modules@).take(i as int)),
        decreases modules@.len() - i,
    {
        let ghost pv = crate::resolve::pairs_view(modules@);
        proof {
            assert(pv.take(i + 1).drop_last() =~= pv.take(i as int));
            assert(pv.take(i + 1).last() == (modules@[i as int].0@, modules@[i as int].1@));
        }
        out.append("\"");
        out.append(modules[i].0.as_str());
        out.append("\": ");
        let w = wrap_module(modules[i].1.as_str());
        out.append(w.as_str());
        out.append(",\n");
        proof {
            assert(out@ =~= head + members_text(pv.take(i + 1)));
        }
        i = i + 1;
    }
    proof {
        assert(crate::resolve::pairs_view(modules@).take(modules@.len() as int) =~= crate::resolve::pairs_view(modules@));
    }
    out.append("});\n");
    out
}

/// The bundle of an entry script pot: each `(id, lowered body)` wrapped and
/// keyed by its id, started from `entry_id`.
pub fn render_bundle(modules: &Vec<(String, String)>, entry_id: &str) -> (r: String)
    ensures
        r@ == bundle_text(crate::resolve::pairs_view(modules@), entry_id@),
{
    let mut out = String::from_str(MODULE_SYSTEM);
    out.append("bootstrap({\n");
    let ghost head = out@;
    let mut i: usize = 0;
    while i < modules.len()
        invariant
            i <= modules@.len(),
            out@ == head + members_text(crate::resolve::pairs_view(modules@).take(i as int)),
        decreases modules@.len() - i,
    {
        let ghost pv = crate::resolve::pairs_view(modules@);
        proof {
            assert(pv.take(i + 1).drop_last() =~= pv.take(i as int));
            assert(pv.take(i + 1).last() == (modules@[i as int].0@, modules@[i as int].1@));
        }
        out.append("\"");
        out.append(modules[i].0.as_str());
        out.append("\": ");
        let w = wrap_module(modules[i].1.as_str());
        out.append(w.as_str());
        out.append(",\n");
        proof {
            assert(out@ =~= head + members_text(pv.take(i + 1)));
        }
        i = i + 1;
    }
    proof {
        assert(crate::resolve::pairs_view(modules@).take(modules@.len() as int) =~= crate::resolve::pairs_view(modules@));
    }
    out.append("}, \"");
    out.append(entry_id);
    out.append("\");\n");
    out
}

} // verus!

verus! {

/// The call that starts a bundle: its modules and its entry.
#[derive(Debug, Clone)]
pub struct RuntimeVisitor {
    pub modules: Vec<(String, String)>,
    pub entry_id: String,
}

impl RuntimeVisitor {
    pub fn new(modules: Vec<(String, String)>, entry_id: String) -> (r: RuntimeVisitor)
        ensures
            r.modules == modules,
            r.entry_id == entry_id,
    {
        RuntimeVisitor { modules, entry_id }
    }

    /// The bundle: the runtime with `bootstrap` called on these modules and entry.
    pub fn render(&self) -> (r: String)
        ensures
            r@ == bundle_text(crate::resolve::pairs_view(self.modules@), self.entry_id@),
    {
        render_bundle(&self.modules, self.entry_id.as_str())
    }
}

} // verus!
