//! The rule configuration: rules, their replacements and conditions.
use vstd::prelude::*;

verus! {

/// The characters of each string, in order.
pub open spec fn strings_view(v: Seq<String>) -> Seq<Seq<char>> {
    v.map_values(|s: String| s@)
}

/// The characters of an optional string.
pub open spec fn opt_string_view(o: Option<String>) -> Option<Seq<char>> {
    match o {
        Some(s) => Some(s@),
        None => None,
    }
}

/// A copy of a list of strings.
pub fn copy_strings(v: &Vec<String>) -> (r: Vec<String>)
    ensures
        strings_view(r@) == strings_view(v@),
{
    let mut r: Vec<String> = Vec::new();
    let mut i: usize = 0;
    while i < v.len()
        invariant
            i <= v.len(),
            strings_view(r@) == strings_view(v@).take(i as int),
        decreases v.len() - i,
    {
        let ghost prev = r@;
        let c = v[i].clone();
        r.push(c);
        assert(r@ == prev.push(c));
        assert(strings_view(r@) =~= strings_view(prev).push(c@));
        i += 1;
    }
    assert(strings_view(v@).take(v.len() as int) =~= strings_view(v@));
    r
}

/// A copy of an optional string.
pub fn copy_opt_string(o: &Option<String>) -> (r: Option<String>)
    ensures
        opt_string_view(r) == opt_string_view(*o),
{
    match o {
        Some(s) => Some(s.clone()),
        None => None,
    }
}

/// The whole configuration: an ordered list of rules.
#[derive(Debug, Clone)]
pub struct ConfigFile {
    pub rules: Vec<Rule>,
}

/// Conditions under which a replacement is selected on its own.
#[derive(Debug, Clone)]
pub struct WhenCondition {
    /// Glob pattern for the current working directory, e.g. `~/work/**`.
    pub cwd: Option<String>,
    /// `KEY=VALUE` (the variable is set to that value) or `KEY` (the variable is set).
    pub env: Option<String>,
}

/// One replacement option of a rule.
#[derive(Debug, Clone)]
pub struct Replacement {
    pub label: String,
    pub with_value: String,
    pub default: bool,
    pub when: Option<WhenCondition>,
}

/// A rule: patterns that select a command, and the replacements offered for it.
#[derive(Debug, Clone)]
pub struct Rule {
    pub match_patterns: Vec<String>,
    pub regex: bool,
    pub enabled: bool,
    /// Directory the rule is scoped to; it then applies only there and below.
    pub dir: Option<String>,
    pub replace: Vec<Replacement>,
}

pub ghost struct WhenView {
    pub cwd: Option<Seq<char>>,
    pub env: Option<Seq<char>>,
}

pub ghost struct ReplacementView {
    pub label: Seq<char>,
    pub with_value: Seq<char>,
    pub default: bool,
    pub when: Option<WhenView>,
}

pub ghost struct RuleView {
    pub patterns: Seq<Seq<char>>,
    pub regex: bool,
    pub enabled: bool,
    pub dir: Option<Seq<char>>,
    pub replace: Seq<ReplacementView>,
}

impl View for WhenCondition {
    type V = WhenView;

    open spec fn view(&self) -> WhenView {
        WhenView { cwd: opt_string_view(self.cwd), env: opt_string_view(self.env) }
    }
}

impl View for Replacement {
    type V = ReplacementView;

    open spec fn view(&self) -> ReplacementView {
        ReplacementView {
            label: self.label@,
            with_value: self.with_value@,
            default: self.default,
            when: match self.when {
                Some(w) => Some(w@),
                None => None,
            },
        }
    }
}

impl View for Rule {
    type V = RuleView;

    open spec fn view(&self) -> RuleView {
        RuleView {
            patterns: strings_view(self.match_patterns@),
            regex: self.regex,
            enabled: self.enabled,
            dir: opt_string_view(self.dir),
            replace: replacements_view(self.replace@),
        }
    }
}

/// The views of a list of replacements.
pub open spec fn replacements_view(v: Seq<Replacement>) -> Seq<ReplacementView> {
    v.map_values(|r: Replacement| r@)
}

/// The views of a list of rules.
pub open spec fn rules_view(v: Seq<Rule>) -> Seq<RuleView> {
    v.map_values(|r: Rule| r@)
}

impl View for ConfigFile {
    type V = Seq<RuleView>;

    open spec fn view(&self) -> Seq<RuleView> {
        rules_view(self.rules@)
    }
}

impl WhenCondition {
    /// A copy of this condition.
    pub fn duplicate(&self) -> (r: WhenCondition)
        ensures
            r@ == self@,
    {
        WhenCondition { cwd: copy_opt_string(&self.cwd), env: copy_opt_string(&self.env) }
    }
}

impl Replacement {
    /// A copy of this replacement.
    pub fn duplicate(&self) -> (r: Replacement)
        ensures
            r@ == self@,
    {
        let when = match &self.when {
            Some(w) => Some(w.duplicate()),
            None => None,
        };
        Replacement {
            label: self.label.clone(),
            with_value: self.with_value.clone(),
            default: self.default,
            when,
        }
    }
}

/// A copy of a list of replacements.
pub fn copy_replacements(v: &Vec<Replacement>) -> (r: Vec<Replacement>)
    ensures
        replacements_view(r@) == replacements_view(v@),
{
    let mut r: Vec<Replacement> = Vec::new();
    let mut i: usize = 0;
    while i < v.len()
        invariant
            i <= v.len(),
            replacements_view(r@) == replacements_view(v@).take(i as int),
        decreases v.len() - i,
    {
        let ghost prev = r@;
        let c = v[i].duplicate();
        r.push(c);
        assert(r@ == prev.push(c));
        assert(replacements_view(r@) =~= replacements_view(prev).push(c@));
        i += 1;
    }
    assert(replacements_view(v@).take(v.len() as int) =~= replacements_view(v@));
    r
}

impl Rule {
    /// A copy of this rule.
    pub fn duplicate(&self) -> (r: Rule)
        ensures
            r@ == self@,
    {
        Rule {
            match_patterns: copy_strings(&self.match_patterns),
            regex: self.regex,
            enabled: self.enabled,
            dir: copy_opt_string(&self.dir),
            replace: copy_replacements(&self.replace),
        }
    }
}

/// Rules are enabled unless the configuration says otherwise.
pub fn default_enabled() -> (b: bool)
    ensures
        b,
{
    true
}

} // verus!
