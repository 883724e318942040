//! Stylesheets: their top-level rules as lightningcss reads them, the
//! `@import`s among them, and the merge of several stylesheets into one.
use vstd::prelude::*;
use crate::error::CompilationError;
use crate::esm::AnalyzeDep;
use crate::module::ResolveKind;
use crate::text::push_char;

verus! {

/// One top-level rule: the URL it imports, if it is an `@import`, and its printed text.
#[derive(Debug, Clone, PartialEq, Eq)]
pub struct CssRuleText {
    pub import_url: Option<String>,
    pub text: String,
}

pub open spec fn rule_view(r: CssRuleText) -> (Option<Seq<char>>, Seq<char>) {
    (if r.import_url is Some { Some(r.import_url->Some_0@) } else { None }, r.text@)
}

pub open spec fn rules_view(rs: Seq<CssRuleText>) -> Seq<(Option<Seq<char>>, Seq<char>)> {
    rs.map_values(|r: CssRuleText| rule_view(r))
}

/// The top-level rules that lightningcss reads in `code` and prints, each
/// with its import URL if it is an `@import`; none where it does not parse.
pub uninterp spec fn parsed_css_rules(code: Seq<char>) -> Option<Seq<(Option<Seq<char>>, Seq<char>)>>;

/// Relies on `lightningcss::stylesheet::StyleSheet::parse` with default
/// options, and on `ToCss::to_css_string` with default printer options for
/// each top-level rule: the rules in order, printed, with the URL of each
/// `@import` rule. The result depends on the code alone; `None` where the
/// code does not parse or a rule does not print.
#[verifier::external_body]
fn read_css_rules(code: &str) -> (r: Option<Vec<CssRuleText>>)
    ensures
        r is None <==> parsed_css_rules(code@) is None,
        r is Some ==> rules_view(r->Some_0@) == parsed_css_rules(code@)->Some_0,
{
    let sheet = match lightningcss::stylesheet::StyleSheet::parse(code, lightningcss::stylesheet::ParserOptions::default()) {
        Ok(s) => s,
        Err(_) => return None,
    };
    let mut out = Vec::new();
    for rule in &sheet.rules.0 {
        let text = lightningcss::traits::ToCss::to_css_string(rule, lightningcss::stylesheet::PrinterOptions::default()).ok()?;
        let import_url = match rule {
            lightningcss::rules::CssRule::Import(i) => Some(i.url.to_string()),
            _ => None,
        };
        out.push(CssRuleText { import_url, text });
    }
    Some(out)
}

/// A parsed stylesheet: its code and its top-level rules.
#[derive(Debug, Clone)]
pub struct LightningStyleSheet {
    pub code: String,
    pub filename: String,
    pub rules: Vec<CssRuleText>,
}

impl LightningStyleSheet {
    /// Parses `code`; fails where lightningcss does not read it.
    pub fn build(code: String, filename: String) -> (r: Result<LightningStyleSheet, CompilationError>)
        ensures
            r is Ok <==> parsed_css_rules(code@) is Some,
            r is Ok ==> r->Ok_0.code == code && r->Ok_0.filename == filename && rules_view(r->Ok_0.rules@)
                == parsed_css_rules(code@)->Some_0,
            r is Err ==> r->Err_0 is GenericError,
    {
        match read_css_rules(code.as_str()) {
            Some(rules) => Ok(LightningStyleSheet { code, filename, rules }),
            None => Err(CompilationError::GenericError(String::from_str("the stylesheet does not parse"))),
        }
    }
}

/// The URLs of the `@import`s among these rules, in order.
pub open spec fn rules_deps(rules: Seq<(Option<Seq<char>>, Seq<char>)>) -> Seq<Seq<char>>
    decreases rules.len(),
{
    if rules.len() == 0 {
        Seq::empty()
    } else {
        let rest = rules_deps(rules.drop_last());
        if rules.last().0 is Some {
            rest.push(rules.last().0->Some_0)
        } else {
            rest
        }
    }
}

/// The dependencies of a stylesheet: the URL of each `@import`, in order.
pub fn analyze_css_deps(rules: &Vec<CssRuleText>) -> (r: Vec<AnalyzeDep>)
    ensures
        r@.map_values(|d: AnalyzeDep| d.source@) == rules_deps(rules_view(rules@)),
        forall|k: int| 0 <= k < r@.len() ==> (#[trigger] r@[k]).resolve_kind == ResolveKind::CssAtImport,
{
    let ghost rv = rules_view(rules@);
    let mut deps: Vec<AnalyzeDep> = Vec::new();
    let mut i: usize = 0;
    while i < rules.len()
        invariant
            rv == rules_view(rules@),
            i <= rules@.len(),
            deps@.map_values(|d: AnalyzeDep| d.source@) == rules_deps(rv.take(i as int)),
            forall|k: int| 0 <= k < deps@.len() ==> (#[trigger] deps@[k]).resolve_kind == ResolveKind::CssAtImport,
        decreases rules@.len() - i,
    {
        proof {
            assert(rv.take(i + 1).drop_last() =~= rv.take(i as int));
            assert(rv.take(i + 1).last() == rule_view(rules@[i as int]));
        }
        let ghost before = deps@;
        match &rules[i].import_url {
            Some(u) => {
                let d = AnalyzeDep { source: u.clone(), resolve_kind: ResolveKind::CssAtImport };
                deps.push(d);
                proof {
                    assert(deps@.map_values(|d: AnalyzeDep| d.source@) =~= before.map_values(|d: AnalyzeDep| d.source@).push(d.source@));
                }
            },
            None => {},
        }
        i = i + 1;
    }
    proof {
        assert(rv.take(rules@.len() as int) =~= rv);
    }
    deps
}

/// The printed rules that are not `@import`s, in order.
pub open spec fn kept_rules(rules: Seq<(Option<Seq<char>>, Seq<char>)>) -> Seq<Seq<char>>
    decreases rules.len(),
{
    if rules.len() == 0 {
        Seq::empty()
    } else {
        let rest = kept_rules(rules.drop_last());
        if rules.last().0 is Some {
            rest
        } else {
            rest.push(rules.last().1)
        }
    }
}

/// The rules, each followed by a line break.
pub open spec fn lines_text(rules: Seq<Seq<char>>) -> Seq<char>
    decreases rules.len(),
{
    if rules.len() == 0 {
        Seq::empty()
    } else {
        lines_text(rules.drop_last()) + rules.last() + seq!['\n']
    }
}

/// All the rules of the stylesheets, in order.
pub open spec fn flatten_sheets(sheets: Seq<Vec<CssRuleText>>) -> Seq<(Option<Seq<char>>, Seq<char>)>
    decreases sheets.len(),
{
    if sheets.len() == 0 {
        Seq::empty()
    } else {
        flatten_sheets(sheets.drop_last()) + rules_view(sheets.last()@)
    }
}

/// The stylesheets' rules one after another, the `@import`s left out, one per line.
pub fn merge_css(sheets: &Vec<Vec<CssRuleText>>) -> (r: String)
    ensures
        r@ == lines_text(kept_rules(flatten_sheets(sheets@))),
{
    let mut out = String::new();
    let mut s: usize = 0;
    proof {
        assert(flatten_sheets(sheets@.take(0)) =~= Seq::<(Option<Seq<char>>, Seq<char>)>::empty());
    }
    while s < sheets.len()
        invariant
            s <= sheets@.len(),
            out@ == lines_text(kept_rules(flatten_sheets(sheets@.take(s as int)))),
        decreases sheets@.len() - s,
    {
        let sheet = &sheets[s];
        let ghost base = flatten_sheets(sheets@.take(s as int));
        proof {
            assert(sheets@.take(s + 1).drop_last() =~= sheets@.take(s as int));
            assert(base + rules_view(sheet@.take(0)) =~= base);
        }
        let mut i: usize = 0;
        while i < sheet.len()
            invariant
                i <= sheet@.len(),
                out@ == lines_text(kept_rules(base + rules_view(sheet@.take(i as int)))),
            decreases sheet@.len() - i,
        {
            let ghost prev = base + rules_view(sheet@.take(i as int));
            let ghost next = base + rules_view(sheet@.take(i + 1));
            proof {
                assert(next.drop_last() =~= prev);
                assert(next.last() == rule_view(sheet@[i as int]));
            }
            if sheet[i].import_url.is_none() {
                let ghost before = out@;
                out.append(sheet[i].text.as_str());
                push_char(&mut out, '\n');
                proof {
                    let x = sheet@[i as int].text@;
                    assert(kept_rules(next) == kept_rules(prev).push(x));
                    assert(kept_rules(prev).push(x).drop_last() =~= kept_rules(prev));
                    assert(out@ =~= before + x + seq!['\n']);
                }
            } else {
                proof {
                    assert(kept_rules(next) == kept_rules(prev));
                }
            }
            i = i + 1;
        }
        proof {
            assert(sheet@.take(sheet@.len() as int) =~= sheet@);
            assert(flatten_sheets(sheets@.take(s + 1)) == base + rules_view(sheet@));
        }
        s = s + 1;
    }
    proof {
        assert(sheets@.take(sheets@.len() as int) =~= sheets@);
    }
    out
}

/// Collects the `@import`s of stylesheets.
#[derive(Debug, Clone)]
pub struct DepsVisitor {
    pub deps: Vec<AnalyzeDep>,
}

impl DepsVisitor {
    pub fn new() -> (r: DepsVisitor)
        ensures
            r.deps@.len() == 0,
    {
        DepsVisitor { deps: Vec::new() }
    }

    /// Sets the dependencies to the `@import`s of `sheet`, in order.
    pub fn visit_rules(&mut self, sheet: &LightningStyleSheet)
        ensures
            final(self).deps@.map_values(|d: AnalyzeDep| d.source@) == rules_deps(rules_view(sheet.rules@)),
    {
        self.deps = analyze_css_deps(&sheet.rules);
    }
}

/// The stylesheet plugin: parses stylesheets, finds their `@import`s, and
/// merges the stylesheets of a pot.
#[derive(Debug, Clone)]
pub struct PluginCss {}

impl PluginCss {
    pub fn new() -> (r: PluginCss) {
        PluginCss {}
    }

    /// The dependencies of a stylesheet.
    pub fn analyze_deps(&self, sheet: &LightningStyleSheet) -> (r: Vec<AnalyzeDep>)
        ensures
            r@.map_values(|d: AnalyzeDep| d.source@) == rules_deps(rules_view(sheet.rules@)),
    {
        analyze_css_deps(&sheet.rules)
    }

    /// The code of a pot's merged stylesheet: the rules of its stylesheets in
    /// the pot's order, without `@import`s.
    pub fn render(&self, sheets: &Vec<Vec<CssRuleText>>) -> (r: String)
        ensures
            r@ == lines_text(kept_rules(flatten_sheets(sheets@))),
    {
        merge_css(sheets)
    }
}

} // verus!
