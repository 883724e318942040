//! Module ids: query strings, root-relative ids, and resolution through the path resolver.
use vstd::prelude::*;
use crate::error::CompilationError;
use crate::text::{find_char, first_index_of, last_index_of, has_prefix, prefix_to, push_char, starts_with, str_eq, suffix_from};

verus! {

/// The parts of `s` between the occurrences of `sep`; an empty `s` is one empty part.
pub open spec fn split_parts(s: Seq<char>, sep: char) -> Seq<Seq<char>>
    decreases s.len(),
{
    if s.len() == 0 {
        seq![Seq::empty()]
    } else {
        let rest = split_parts(s.drop_last(), sep);
        if s.last() == sep {
            rest.push(Seq::empty())
        } else {
            rest.update(rest.len() - 1, rest.last().push(s.last()))
        }
    }
}

/// The key and value of one `key[=value]` part; a missing value is empty.
pub open spec fn pair_of(part: Seq<char>) -> (Seq<char>, Seq<char>) {
    let i = first_index_of(part, '=');
    if i < 0 {
        (part, Seq::empty())
    } else {
        (part.take(i), part.skip(i + 1))
    }
}

/// The pairs of a query string `key[=value][&...]`, in order.
pub open spec fn query_pairs(s: Seq<char>) -> Seq<(Seq<char>, Seq<char>)> {
    if s.len() == 0 {
        Seq::empty()
    } else {
        split_parts(s, '&').map_values(|p: Seq<char>| pair_of(p))
    }
}

/// The value of the last pair with this key.
pub open spec fn lookup(pairs: Seq<(Seq<char>, Seq<char>)>, key: Seq<char>) -> Option<Seq<char>>
    decreases pairs.len(),
{
    if pairs.len() == 0 {
        None
    } else if pairs.last().0 == key {
        Some(pairs.last().1)
    } else {
        lookup(pairs.drop_last(), key)
    }
}

/// The characters of each string of the pairs.
pub open spec fn pairs_view(kv: Seq<(String, String)>) -> Seq<(Seq<char>, Seq<char>)> {
    kv.map_values(|p: (String, String)| (p.0@, p.1@))
}

/// The value of the last pair with key `key`.
pub fn lookup_pairs<'a>(pairs: &'a Vec<(String, String)>, key: &str) -> (r: Option<&'a String>)
    ensures
        r is None <==> lookup(pairs_view(pairs@), key@) is None,
        r is Some ==> r->Some_0@ == lookup(pairs_view(pairs@), key@)->Some_0,
{
    let mut i: usize = pairs.len();
    proof {
        assert(pairs_view(pairs@).take(i as int) =~= pairs_view(pairs@));
    }
    while i > 0
        invariant
            i <= pairs@.len(),
            lookup(pairs_view(pairs@), key@) == lookup(pairs_view(pairs@).take(i as int), key@),
        decreases i,
    {
        proof {
            assert(pairs_view(pairs@).take(i as int).drop_last() =~= pairs_view(pairs@).take(i - 1));
        }
        if str_eq(pairs[i - 1].0.as_str(), key) {
            return Some(&pairs[i - 1].1);
        }
        i = i - 1;
    }
    None
}

/// The parameters of a query string; a later pair overrides an earlier one with the same key.
#[derive(Debug, Clone)]
pub struct Query {
    pub pairs: Vec<(String, String)>,
}

impl Query {
    pub open spec fn view_pairs(&self) -> Seq<(Seq<char>, Seq<char>)> {
        pairs_view(self.pairs@)
    }

    pub fn new() -> (r: Query)
        ensures
            r.view_pairs().len() == 0,
    {
        Query { pairs: Vec::new() }
    }

    /// The value of `key`.
    pub fn get(&self, key: &str) -> (r: Option<&String>)
        ensures
            r is None <==> lookup(self.view_pairs(), key@) is None,
            r is Some ==> r->Some_0@ == lookup(self.view_pairs(), key@)->Some_0,
    {
        lookup_pairs(&self.pairs, key)
    }

    /// Whether the query has no parameter.
    pub fn is_empty(&self) -> (r: bool)
        ensures
            r == (self.view_pairs().len() == 0),
    {
        self.pairs.len() == 0
    }
}

/// The parts of `s` between the occurrences of `sep`.
pub fn split_by(s: &str, sep: char) -> (r: Vec<String>)
    ensures
        r@.map_values(|p: String| p@) == split_parts(s@, sep),
{
    let n = s.unicode_len();
    let mut parts: Vec<String> = Vec::new();
    let mut cur = String::new();
    let mut i: usize = 0;
    proof {
        assert(s@.take(0) =~= Seq::<char>::empty());
        assert(parts@.map_values(|p: String| p@).push(cur@) =~= split_parts(s@.take(0), sep));
    }
    while i < n
        invariant
            n == s@.len(),
            i <= n,
            parts@.map_values(|p: String| p@).push(cur@) == split_parts(s@.take(i as int), sep),
        decreases n - i,
    {
        let c = s.get_char(i);
        proof {
            assert(s@.take(i + 1).drop_last() =~= s@.take(i as int));
            assert(s@.take(i + 1).last() == c);
        }
        let ghost before = parts@.map_values(|p: String| p@).push(cur@);
        if c == sep {
            let done = cur;
            parts.push(done);
            cur = String::new();
            proof {
                assert(parts@.map_values(|p: String| p@).push(cur@) =~= before.push(Seq::empty()));
            }
        } else {
            push_char(&mut cur, c);
            proof {
                assert(parts@.map_values(|p: String| p@).push(cur@) =~= before.update(
                    before.len() - 1,
                    before.last().push(c),
                ));
            }
        }
        i = i + 1;
    }
    parts.push(cur);
    proof {
        assert(s@.take(n as int) =~= s@);
        assert(parts@.map_values(|p: String| p@) =~= split_parts(s@, sep));
    }
    parts
}

/// The key and value of one `key[=value]` part.
pub fn split_pair(part: &str) -> (r: (String, String))
    ensures
        (r.0@, r.1@) == pair_of(part@),
{
    let n = part.unicode_len();
    match find_char(part, '=') {
        Some(i) => {
            assert(i < n);
            let key = prefix_to(part, i);
            let value = suffix_from(part, i + 1);
            proof {
                assert(key@ =~= part@.take(i as int));
                assert(value@ =~= part@.skip(i + 1));
            }
            (key, value)
        },
        None => (String::from_str(part), String::new()),
    }
}

/// Parses `key[=value][&...]`; a missing value is the empty string.
pub fn parse_query(query_str: &str) -> (r: Query)
    ensures
        r.view_pairs() == query_pairs(query_str@),
{
    let mut query = Query::new();
    if query_str.unicode_len() == 0 {
        proof {
            assert(query.view_pairs() =~= query_pairs(query_str@));
        }
        return query;
    }
    let parts = split_by(query_str, '&');
    let ghost pv = parts@.map_values(|p: String| p@);
    let mut i: usize = 0;
    while i < parts.len()
        invariant
            pv == parts@.map_values(|p: String| p@),
            i <= parts@.len(),
            query.view_pairs() == pv.take(i as int).map_values(|p: Seq<char>| pair_of(p)),
        decreases parts@.len() - i,
    {
        let pair = split_pair(parts[i].as_str());
        let ghost before = query.view_pairs();
        query.pairs.push(pair);
        proof {
            assert(pv[i as int] == parts@[i as int]@);
            assert(query.view_pairs() =~= before.push((pair.0@, pair.1@)));
            assert(pv.take(i + 1).map_values(|p: Seq<char>| pair_of(p)) =~= pv.take(i as int).map_values(
                |p: Seq<char>| pair_of(p),
            ).push(pair_of(pv[i as int])));
        }
        i = i + 1;
    }
    proof {
        assert(pv.take(parts@.len() as int) =~= pv);
    }
    query
}

/// Whether `path` is an absolute path that lies strictly under the directory `root`.
pub open spec fn lies_under(path: Seq<char>, root: Seq<char>) -> bool {
    &&& root.len() > 0
    &&& path.len() > 0
    &&& path[0] == '/'
    &&& path != root
    &&& has_prefix(path, root)
    &&& (root.last() == '/' || (path.len() > root.len() && path[root.len() as int] == '/'))
}

/// Where the part of `path` relative to `root` begins.
pub open spec fn relative_start(root: Seq<char>) -> int {
    if root.last() == '/' {
        root.len() as int
    } else {
        root.len() as int + 1
    }
}

/// `path` relative to `root` where it lies under it, else `path` itself.
pub open spec fn relative_of(path: Seq<char>, root: Seq<char>) -> Seq<char> {
    if lies_under(path, root) {
        path.skip(relative_start(root))
    } else {
        path
    }
}

/// Converts `path` into a path relative to `root` if it lies under it; an
/// outside or relative path is returned as it is.
pub fn to_relative(path: &str, root: &str) -> (r: String)
    ensures
        r@ == relative_of(path@, root@),
{
    let n = path.unicode_len();
    let m = root.unicode_len();
    if m == 0 || n == 0 || path.get_char(0) != '/' || str_eq(path, root) || !starts_with(path, root) {
        return String::from_str(path);
    }
    let root_ends_with_slash = root.get_char(m - 1) == '/';
    if root_ends_with_slash {
        let r = suffix_from(path, m);
        proof {
            assert(r@ =~= path@.skip(m as int));
        }
        r
    } else if n > m && path.get_char(m) == '/' {
        let r = suffix_from(path, m + 1);
        proof {
            assert(r@ =~= path@.skip(m + 1));
        }
        r
    } else {
        String::from_str(path)
    }
}

/// `rest` joined to the directory `dir` with one separator.
pub open spec fn joined(dir: Seq<char>, rest: Seq<char>) -> Seq<char> {
    if dir.len() > 0 && dir.last() == '/' {
        dir + rest
    } else {
        dir + seq!['/'] + rest
    }
}

/// Joins `rest` to the directory `dir`.
pub fn join_path(dir: &str, rest: &str) -> (r: String)
    ensures
        r@ == joined(dir@, rest@),
{
    let n = dir.unicode_len();
    let mut r = String::from_str(dir);
    if !(n > 0 && dir.get_char(n - 1) == '/') {
        push_char(&mut r, '/');
    }
    r.append(rest);
    r
}

/// The prefix that marks a module id as relative to the project root.
pub const ROOT_PREFIX: &'static str = "root:";

/// The id of the module at the absolute path `path`: `root:` and the path
/// relative to `root` where it lies under it, else the path itself.
pub open spec fn module_id_of(path: Seq<char>, root: Seq<char>) -> Seq<char> {
    if lies_under(path, root) {
        ROOT_PREFIX@ + path.skip(relative_start(root))
    } else {
        path
    }
}

pub fn module_id(path: &str, root: &str) -> (r: String)
    ensures
        r@ == module_id_of(path@, root@),
{
    let rel = to_relative(path, root);
    if str_eq(rel.as_str(), path) && !lies_under_exec(path, root) {
        return rel;
    }
    let mut id = String::from_str(ROOT_PREFIX);
    id.append(rel.as_str());
    id
}

/// Whether `path` lies strictly under `root`.
pub fn lies_under_exec(path: &str, root: &str) -> (r: bool)
    ensures
        r == lies_under(path@, root@),
{
    let n = path.unicode_len();
    let m = root.unicode_len();
    if m == 0 || n == 0 || path.get_char(0) != '/' || str_eq(path, root) || !starts_with(path, root) {
        return false;
    }
    root.get_char(m - 1) == '/' || (n > m && path.get_char(m) == '/')
}

/// The file that the id `path` names: an id relative to the root, or a path
/// beginning `./`, is joined to `root`; anything else is returned as it is.
pub open spec fn file_of(path: Seq<char>, root: Seq<char>) -> Seq<char> {
    if has_prefix(path, ROOT_PREFIX@) {
        joined(root, path.skip(ROOT_PREFIX@.len() as int))
    } else if has_prefix(path, "./"@) {
        joined(root, path)
    } else {
        path
    }
}

pub fn fulfill_root_prefix(path: &str, root: &str) -> (r: String)
    ensures
        r@ == file_of(path@, root@),
{
    if starts_with(path, ROOT_PREFIX) {
        let rest = suffix_from(path, ROOT_PREFIX.unicode_len());
        proof {
            assert(rest@ =~= path@.skip(ROOT_PREFIX@.len() as int));
        }
        join_path(root, rest.as_str())
    } else if starts_with(path, "./") {
        join_path(root, path)
    } else {
        String::from_str(path)
    }
}

/// The id without its `root:` prefix.
pub open spec fn stripped_id(id: Seq<char>) -> Seq<char> {
    if has_prefix(id, ROOT_PREFIX@) {
        id.skip(ROOT_PREFIX@.len() as int)
    } else {
        id
    }
}

pub fn stripe_root_prefix(id: &str) -> (r: String)
    ensures
        r@ == stripped_id(id@),
{
    if starts_with(id, ROOT_PREFIX) {
        let r = suffix_from(id, ROOT_PREFIX.unicode_len());
        proof {
            assert(r@ =~= id@.skip(ROOT_PREFIX@.len() as int));
        }
        r
    } else {
        String::from_str(id)
    }
}

/// The specifier part of `s`, before its first `?`.
pub open spec fn specifier_part(s: Seq<char>) -> Seq<char> {
    let i = first_index_of(s, '?');
    if i < 0 {
        s
    } else {
        s.take(i)
    }
}

/// The query part of `s`, after its first `?`; empty if it has none.
pub open spec fn query_part(s: Seq<char>) -> Seq<char> {
    let i = first_index_of(s, '?');
    if i < 0 {
        Seq::empty()
    } else {
        s.skip(i + 1)
    }
}

/// Splits `s` at its first `?` into the specifier and the query string.
pub fn split_query(s: &str) -> (r: (String, String))
    ensures
        r.0@ == specifier_part(s@),
        r.1@ == query_part(s@),
{
    let n = s.unicode_len();
    match find_char(s, '?') {
        Some(i) => {
            assert(i < n);
            let a = prefix_to(s, i);
            let b = suffix_from(s, i + 1);
            proof {
                assert(a@ =~= s@.take(i as int));
                assert(b@ =~= s@.skip(i + 1));
            }
            (a, b)
        },
        None => (String::from_str(s), String::new()),
    }
}

/// Where a reference resolved to.
#[derive(Debug, Clone)]
pub struct ResolveHookResult {
    pub id: String,
    pub query: Query,
    pub external: bool,
}

/// The options that the path resolver is built with.
#[derive(Debug, Clone)]
pub struct ResolveConfig {
    pub extensions: Vec<String>,
    pub main_fields: Vec<String>,
    pub main_files: Vec<String>,
}

/// Resolving `source` from the directory `base`, once the resolver has
/// answered `resolution` (a path, or a description of its failure).
pub fn finish_resolve(
    source: &str,
    base: &str,
    root: &str,
    resolution: Result<String, String>,
) -> (r: Result<ResolveHookResult, CompilationError>)
    ensures
        r is Ok <==> resolution is Ok,
        r is Ok ==> r->Ok_0.id@ == module_id_of(resolution->Ok_0@, root@) && r->Ok_0.query.view_pairs()
            == query_pairs(query_part(source@)) && !r->Ok_0.external,
        r is Err ==> (r->Err_0 matches CompilationError::ResolveError { src, base: b, cause }
            && cause == Some(resolution->Err_0) && src@ == specifier_part(source@) && b@ == base@),
{
    let (spec_src, query_str) = split_query(source);
    match resolution {
        Ok(path) => {
            let id = module_id(path.as_str(), root);
            let query = parse_query(query_str.as_str());
            Ok(ResolveHookResult { id, query, external: false })
        },
        Err(cause) => Err(
            CompilationError::ResolveError { src: spec_src, base: String::from_str(base), cause: Some(cause) },
        ),
    }
}

#[verifier::external_type_specification]
#[verifier::external_body]
#[verifier::reject_recursive_types(Fs)]
pub struct ExResolverGeneric<Fs>(oxc_resolver::ResolverGeneric<Fs>);

#[verifier::external_type_specification]
#[verifier::external_body]
pub struct ExFileSystemOs(oxc_resolver::FileSystemOs);

#[verifier::external_type_specification]
#[verifier::external_body]
pub struct ExResolveError(oxc_resolver::ResolveError);

/// Whether every non-empty extension begins with a dot, as the resolver
/// asserts when it is built.
pub open spec fn extensions_ok(exts: Seq<String>) -> bool {
    forall|k: int| 0 <= k < exts.len() && (#[trigger] exts[k])@.len() > 0 ==> exts[k]@[0] == '.'
}

/// Whether `path` is absolute.
pub open spec fn is_absolute(path: Seq<char>) -> bool {
    path.len() > 0 && path[0] == '/'
}

impl ResolveConfig {
    /// Whether every non-empty extension begins with a dot.
    pub fn extensions_valid(&self) -> (r: bool)
        ensures
            r == extensions_ok(self.extensions@),
    {
        let mut i: usize = 0;
        while i < self.extensions.len()
            invariant
                i <= self.extensions@.len(),
                forall|k: int| 0 <= k < i && (#[trigger] self.extensions@[k])@.len() > 0 ==> self.extensions@[k]@[0] == '.',
            decreases self.extensions@.len() - i,
        {
            let e = self.extensions[i].as_str();
            if e.unicode_len() > 0 && e.get_char(0) != '.' {
                proof {
                    let k = i as int;
                    assert(self.extensions@[k]@.len() > 0 && self.extensions@[k]@[0] != '.');
                }
                return false;
            }
            i = i + 1;
        }
        true
    }
}

/// Relies on `oxc_resolver::ResolverGeneric::new`, given these extensions,
/// main fields and main files and `oxc_resolver::ResolveOptions::default` for
/// the other options. Nothing is stated of the resolver it builds.
#[verifier::external_body]
fn new_resolver(config: &ResolveConfig) -> oxc_resolver::Resolver
    requires
        extensions_ok(config.extensions@),
{
    oxc_resolver::Resolver::new(oxc_resolver::ResolveOptions {
        extensions: config.extensions.clone(),
        main_fields: config.main_fields.clone(),
        main_files: config.main_files.clone(),
        ..oxc_resolver::ResolveOptions::default()
    })
}

/// Relies on `oxc_resolver::ResolverImpl::resolve` and `Resolution::path`:
/// the path that `specifier` resolves to from the directory `base`, or the
/// resolver's error. The answer depends on the file system, so nothing is
/// stated of it. The directory must be absolute, as the resolver documents.
#[verifier::external_body]
fn resolve_path(resolver: &oxc_resolver::Resolver, base: &str, specifier: &str) -> Result<String, oxc_resolver::ResolveError>
    requires
        is_absolute(base@),
{
    match resolver.resolve(base, specifier) {
        Ok(resolution) => Ok(resolution.path().to_string_lossy().to_string()),
        Err(e) => Err(e),
    }
}

/// Relies on the `Debug` impl of `oxc_resolver::ResolveError`: a description of the failure.
#[verifier::external_body]
fn describe_resolve_error(e: &oxc_resolver::ResolveError) -> String {
    format!("{:?}", e)
}

/// Resolves `source` (a specifier, with an optional `?query`) from the directory `base`.
pub fn resolve_id(
    resolver: &oxc_resolver::Resolver,
    source: &str,
    base: &str,
    root: &str,
) -> (r: Result<ResolveHookResult, CompilationError>)
    ensures
        r is Ok ==> r->Ok_0.query.view_pairs() == query_pairs(query_part(source@)) && !r->Ok_0.external,
        r is Err ==> (r->Err_0 matches CompilationError::ResolveError { src, base: b, cause }
            && src@ == specifier_part(source@) && b@ == base@ && cause is Some),
        !is_absolute(base@) ==> r is Err,
{
    let (spec_src, _query_str) = split_query(source);
    if base.unicode_len() == 0 || base.get_char(0) != '/' {
        return Err(CompilationError::ResolveError {
            src: spec_src,
            base: String::from_str(base),
            cause: Some(String::from_str("the base directory is not absolute")),
        });
    }
    let resolution = match resolve_path(resolver, base, spec_src.as_str()) {
        Ok(path) => Ok(path),
        Err(e) => Err(describe_resolve_error(&e)),
    };
    finish_resolve(source, base, root, resolution)
}

/// The directory that holds `path`: up to its last `/`, `/` itself for a
/// file at the top, and empty for a path without `/`.
pub open spec fn parent_of(path: Seq<char>) -> Seq<char> {
    let i = last_index_of(path, '/');
    if i < 0 {
        Seq::empty()
    } else if i == 0 {
        seq!['/']
    } else {
        path.take(i)
    }
}

pub fn parent_dir(path: &str) -> (r: String)
    ensures
        r@ == parent_of(path@),
{
    let n = path.unicode_len();
    let mut i: usize = n;
    proof {
        assert(path@.take(n as int) =~= path@);
    }
    while i > 0 && path.get_char(i - 1) != '/'
        invariant
            n == path@.len(),
            i <= n,
            last_index_of(path@, '/') == last_index_of(path@.take(i as int), '/'),
        decreases i,
    {
        proof {
            assert(path@.take(i as int).drop_last() =~= path@.take(i - 1));
        }
        i = i - 1;
    }
    if i == 0 {
        proof {
            assert(path@.take(0).len() == 0);
        }
        return String::new();
    }
    proof {
        assert(path@.take(i as int).last() == path@[i - 1]);
    }
    if i == 1 {
        let mut r = String::new();
        push_char(&mut r, '/');
        proof {
            assert(r@ =~= seq!['/']);
        }
        r
    } else {
        prefix_to(path, i - 1)
    }
}

/// The path resolver, with the directory that reference bases default to.
pub struct PluginResolve {
    pub resolver: oxc_resolver::Resolver,
}

impl PluginResolve {
    pub fn new(config: &ResolveConfig) -> (r: PluginResolve)
        requires
            extensions_ok(config.extensions@),
    {
        PluginResolve { resolver: new_resolver(config) }
    }

    /// The directory that a reference from `importer` is resolved against:
    /// the one that holds the importer's file, or `root` for an entry.
    pub fn base_dir(importer: &Option<String>, root: &str) -> (r: String)
        ensures
            importer is None ==> r@ == root@,
            importer is Some ==> r@ == parent_of(file_of(importer->Some_0@, root@)),
    {
        match importer {
            Some(imp) => {
                let file = fulfill_root_prefix(imp.as_str(), root);
                parent_dir(file.as_str())
            },
            None => String::from_str(root),
        }
    }

    /// Resolves `source`, referenced from `importer`, under the project `root`.
    pub fn resolve(
        &self,
        source: &str,
        importer: &Option<String>,
        root: &str,
    ) -> (r: Result<Option<ResolveHookResult>, CompilationError>)
        ensures
            r is Ok ==> r->Ok_0 is Some && r->Ok_0->Some_0.query.view_pairs() == query_pairs(
                query_part(source@),
            ),
            r is Err ==> (r->Err_0 matches CompilationError::ResolveError { src, base, cause }
                && src@ == specifier_part(source@) && base@ == (if importer is None { root@ } else {
                parent_of(file_of(importer->Some_0@, root@)) })),
    {
        let base = PluginResolve::base_dir(importer, root);
        match resolve_id(&self.resolver, source, base.as_str(), root) {
            Ok(v) => Ok(Some(v)),
            Err(e) => Err(e),
        }
    }
}

} // verus!
