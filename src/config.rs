//! The configuration of a compilation.
use vstd::prelude::*;
use crate::resolve::{extensions_ok, ResolveConfig};

verus! {

/// Where the output goes, relative to the root.
#[derive(Debug, Clone)]
pub struct OutputConfig {
    pub dir: String,
}

/// Entries, root, output and resolver options. `input` maps names to entry
/// specifiers; its order is the order of the entries.
#[derive(Debug, Clone)]
pub struct Config {
    pub root: String,
    pub input: Vec<(String, String)>,
    pub output: OutputConfig,
    pub resolve: ResolveConfig,
}

/// The strings of `v`.
pub open spec fn strs(v: Seq<String>) -> Seq<Seq<char>> {
    v.map_values(|s: String| s@)
}

impl ResolveConfig {
    /// Script extensions `.js`, `.jsx`, `.ts`, `.tsx`; main fields `browser`,
    /// `module`, `main`; main file `index`.
    pub fn default_options() -> (r: ResolveConfig)
        ensures
            strs(r.extensions@) == seq![".js"@, ".jsx"@, ".ts"@, ".tsx"@],
            strs(r.main_fields@) == seq!["browser"@, "module"@, "main"@],
            strs(r.main_files@) == seq!["index"@],
            extensions_ok(r.extensions@),
    {
        let mut extensions: Vec<String> = Vec::new();
        extensions.push(String::from_str(".js"));
        extensions.push(String::from_str(".jsx"));
        extensions.push(String::from_str(".ts"));
        extensions.push(String::from_str(".tsx"));
        let mut main_fields: Vec<String> = Vec::new();
        main_fields.push(String::from_str("browser"));
        main_fields.push(String::from_str("module"));
        main_fields.push(String::from_str("main"));
        let mut main_files: Vec<String> = Vec::new();
        main_files.push(String::from_str("index"));
        proof {
            assert(strs(extensions@) =~= seq![".js"@, ".jsx"@, ".ts"@, ".tsx"@]);
            assert(strs(main_fields@) =~= seq!["browser"@, "module"@, "main"@]);
            assert(strs(main_files@) =~= seq!["index"@]);
            reveal_strlit(".js");
            reveal_strlit(".jsx");
            reveal_strlit(".ts");
            reveal_strlit(".tsx");
            assert(extensions@[0]@ == ".js"@);
            assert(extensions@[1]@ == ".jsx"@);
            assert(extensions@[2]@ == ".ts"@);
            assert(extensions@[3]@ == ".tsx"@);
        }
        ResolveConfig { extensions, main_fields, main_files }
    }
}

impl Config {
    /// A configuration rooted at `root` with these entries, writing to
    /// `./dist` with the default resolver options.
    pub fn new(root: String, input: Vec<(String, String)>) -> (r: Config)
        ensures
            r.root == root,
            r.input == input,
            r.output.dir@ == "./dist"@,
            extensions_ok(r.resolve.extensions@),
    {
        Config {
            root,
            input,
            output: OutputConfig { dir: String::from_str("./dist") },
            resolve: ResolveConfig::default_options(),
        }
    }
}

} // verus!
