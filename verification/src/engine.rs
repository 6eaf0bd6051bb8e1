//! The rule engine: which rules match a command, and what they turn it into.
use vstd::prelude::*;

use crate::error::SwapxError;
use crate::models::{
    opt_string_view, replacements_view, rules_view, Replacement, ReplacementView, Rule, RuleView,
    WhenCondition, WhenView,
};
use crate::outside::{
    compile_glob, compile_regex, glob_accepts, glob_match, glob_matches, regex_accepts,
    regex_error_text, regex_finds, regex_rejection, regex_is_match, regex_replace_all, regex_replaced,
};
use crate::text::{
    chars_of, contains_chars, contains_seq, matches_at, replace_all_seq, replace_chars,
    same_chars, split_once_chars, split_once_seq, starts_with, string_of,
};

verus! {

/// What the rules may depend on besides the command: the current directory,
/// the home directory and the environment variables.
pub struct Environment {
    pub cwd: Option<String>,
    pub home: Option<String>,
    pub vars: Vec<(String, String)>,
}

pub ghost struct EnvView {
    pub cwd: Option<Seq<char>>,
    pub home: Option<Seq<char>>,
    pub vars: Seq<(Seq<char>, Seq<char>)>,
}

/// The characters of each variable's name and value.
pub open spec fn vars_view(v: Seq<(String, String)>) -> Seq<(Seq<char>, Seq<char>)> {
    v.map_values(|p: (String, String)| (p.0@, p.1@))
}

impl View for Environment {
    type V = EnvView;

    open spec fn view(&self) -> EnvView {
        EnvView {
            cwd: opt_string_view(self.cwd),
            home: opt_string_view(self.home),
            vars: vars_view(self.vars@),
        }
    }
}

/// The value of the first variable named `key`.
pub open spec fn lookup_var(vars: Seq<(Seq<char>, Seq<char>)>, key: Seq<char>) -> Option<Seq<char>>
    decreases vars.len(),
{
    if vars.len() == 0 {
        None
    } else if vars[0].0 == key {
        Some(vars[0].1)
    } else {
        lookup_var(vars.drop_first(), key)
    }
}

/// `path` with a leading `~/` replaced by the home directory, when it is known.
pub open spec fn expand_tilde_spec(path: Seq<char>, home: Option<Seq<char>>) -> Seq<char> {
    if starts_with(path, seq!['~', '/']) && home is Some {
        home->0 + path.skip(1)
    } else {
        path
    }
}

/// A `cwd` condition holds: the pattern, after `~/` expansion, is a valid
/// glob and matches the current directory.
pub open spec fn cwd_condition_holds(pattern: Seq<char>, e: EnvView) -> bool {
    let p = expand_tilde_spec(pattern, e.home);
    glob_accepts(p) && e.cwd is Some && glob_matches(p, e.cwd->0)
}

/// An `env` condition holds: `KEY=VALUE` when the variable has that value,
/// `KEY` when the variable is set.
pub open spec fn env_condition_holds(cond: Seq<char>, e: EnvView) -> bool {
    match split_once_seq(cond, '=') {
        Some((k, v)) => lookup_var(e.vars, k) == Some(v),
        None => lookup_var(e.vars, cond) is Some,
    }
}

/// All conditions of a `when` hold.
pub open spec fn when_holds(w: WhenView, e: EnvView) -> bool {
    &&& (w.cwd matches Some(p) ==> cwd_condition_holds(p, e))
    &&& (w.env matches Some(c) ==> env_condition_holds(c, e))
}

/// The directory itself and everything below it: the prefix that paths
/// below it begin with.
pub open spec fn dir_prefix(d: Seq<char>) -> Seq<char> {
    if d.len() > 0 && d.last() == '/' {
        d
    } else {
        d.push('/')
    }
}

/// A rule's directory scope admits the current directory: there is no
/// scope, or the current directory is the scope directory or lies below it.
pub open spec fn dir_applies(dir: Option<Seq<char>>, e: EnvView) -> bool {
    match dir {
        None => true,
        Some(d) => {
            let x = expand_tilde_spec(d, e.home);
            match e.cwd {
                Some(c) => c == x || starts_with(c, dir_prefix(x)),
                None => false,
            }
        },
    }
}

/// The value of the first variable named `key`.
fn lookup_var_exec(vars: &Vec<(String, String)>, key: &Vec<char>) -> (r: Option<Vec<char>>)
    ensures
        match r {
            Some(v) => lookup_var(vars_view(vars@), key@) == Some(v@),
            None => lookup_var(vars_view(vars@), key@) is None,
        },
{
    let ghost vv = vars_view(vars@);
    let mut i: usize = 0;
    assert(vv.skip(0) == vv);
    while i < vars.len()
        invariant
            i <= vars.len(),
            vv == vars_view(vars@),
            lookup_var(vv, key@) == lookup_var(vv.skip(i as int), key@),
        decreases vars.len() - i,
    {
        assert(vv.skip(i as int).drop_first() == vv.skip(i + 1));
        let name = chars_of(vars[i].0.as_str());
        if same_chars(&name, key) {
            return Some(chars_of(vars[i].1.as_str()));
        }
        i += 1;
    }
    None
}

/// `path` with a leading `~/` replaced by the home directory, when it is known.
pub fn expand_tilde(path: &Vec<char>, home: &Option<String>) -> (r: Vec<char>)
    ensures
        r@ == expand_tilde_spec(path@, opt_string_view(*home)),
{
    let prefix = vec!['~', '/'];
    assert(prefix@ == seq!['~', '/']);
    if path.len() >= 2 && matches_at(path, &prefix, 0) {
        assert(path@.subrange(0, 2) == path@.take(2));
        match home {
            Some(h) => {
                let mut r = chars_of(h.as_str());
                let mut i: usize = 1;
                let ghost start = r@;
                while i < path.len()
                    invariant
                        1 <= i <= path.len(),
                        r@ == start + path@.subrange(1, i as int),
                    decreases path.len() - i,
                {
                    r.push(path[i]);
                    assert(path@.subrange(1, i + 1) == path@.subrange(1, i as int).push(
                        path@[i as int],
                    ));
                    i += 1;
                }
                assert(path@.subrange(1, path.len() as int) == path@.skip(1));
                r
            },
            None => path.clone(),
        }
    } else {
        if path.len() >= 2 {
            assert(path@.subrange(0, 2) == path@.take(2));
        }
        path.clone()
    }
}

/// Whether a `cwd` condition holds.
fn cwd_condition(pattern: &String, env: &Environment) -> (b: bool)
    ensures
        b == cwd_condition_holds(pattern@, env@),
{
    let expanded = string_of(&expand_tilde(&chars_of(pattern.as_str()), &env.home));
    match compile_glob(expanded.as_str()) {
        Err(_) => false,
        Ok(g) => match &env.cwd {
            None => false,
            Some(c) => glob_match(&g, c.as_str()),
        },
    }
}

/// Whether an `env` condition holds.
fn env_condition(cond: &String, env: &Environment) -> (b: bool)
    ensures
        b == env_condition_holds(cond@, env@),
{
    let c = chars_of(cond.as_str());
    match split_once_chars(&c, '=') {
        Some((k, v)) => match lookup_var_exec(&env.vars, &k) {
            Some(found) => same_chars(&found, &v),
            None => false,
        },
        None => lookup_var_exec(&env.vars, &c).is_some(),
    }
}

/// Whether all conditions of `when` hold in the environment.
pub fn evaluate_when(when: &WhenCondition, env: &Environment) -> (b: bool)
    ensures
        b == when_holds(when@, env@),
{
    if let Some(p) = &when.cwd {
        if !cwd_condition(p, env) {
            return false;
        }
    }
    if let Some(c) = &when.env {
        if !env_condition(c, env) {
            return false;
        }
    }
    true
}

/// Whether a rule scoped to `dir` applies in the environment.
pub fn dir_matches(dir: &Option<String>, env: &Environment) -> (b: bool)
    ensures
        b == dir_applies(opt_string_view(*dir), env@),
{
    match dir {
        None => true,
        Some(d) => {
            let x = expand_tilde(&chars_of(d.as_str()), &env.home);
            match &env.cwd {
                None => false,
                Some(c) => {
                    let cc = chars_of(c.as_str());
                    if same_chars(&cc, &x) {
                        return true;
                    }
                    let mut prefix = x.clone();
                    if !(x.len() > 0 && x[x.len() - 1] == '/') {
                        prefix.push('/');
                    }
                    assert(prefix@ == dir_prefix(x@));
                    if prefix.len() <= cc.len() && matches_at(&cc, &prefix, 0) {
                        assert(cc@.subrange(0, prefix@.len() as int) == cc@.take(
                            prefix@.len() as int,
                        ));
                        true
                    } else {
                        if prefix.len() <= cc.len() {
                            assert(cc@.subrange(0, prefix@.len() as int) == cc@.take(
                                prefix@.len() as int,
                            ));
                        }
                        false
                    }
                },
            }
        },
    }
}


/// `e` is the error reported for the regex pattern `p` that does not
/// compile: it carries the regex crate's message for `p`.
pub open spec fn regex_error(e: SwapxError, p: Seq<char>) -> bool {
    e matches SwapxError::Regex(m) && m@ == regex_rejection(p)
}

/// `p` may stand as a pattern: a literal always, a regex when it compiles.
pub open spec fn pattern_valid(p: Seq<char>, is_regex: bool) -> bool {
    !is_regex || regex_accepts(p)
}

/// Pattern `p` matches `cmd`: the regex matches somewhere in it, or the
/// literal occurs in it.
pub open spec fn pattern_hits(cmd: Seq<char>, p: Seq<char>, is_regex: bool) -> bool {
    if is_regex {
        regex_finds(p, cmd)
    } else {
        contains_seq(cmd, p)
    }
}

/// The first of `pats` that matches `cmd`, trying them in order; an error,
/// naming the pattern, at the first regex pattern before any match that
/// does not compile.
pub open spec fn first_matching_pattern(cmd: Seq<char>, pats: Seq<Seq<char>>, is_regex: bool) -> Result<
    Option<Seq<char>>,
    Seq<char>,
>
    decreases pats.len(),
{
    if pats.len() == 0 {
        Ok(None)
    } else if !pattern_valid(pats[0], is_regex) {
        Err(pats[0])
    } else if pattern_hits(cmd, pats[0], is_regex) {
        Ok(Some(pats[0]))
    } else {
        first_matching_pattern(cmd, pats.drop_first(), is_regex)
    }
}

/// `cmd` with every match of `p` replaced by `r`: the regex replacement
/// (with capture groups expanded) or the literal replacement.
pub open spec fn replaced(cmd: Seq<char>, p: Seq<char>, is_regex: bool, r: Seq<char>) -> Seq<char> {
    if is_regex {
        regex_replaced(p, cmd, r)
    } else {
        replace_all_seq(cmd, p, r)
    }
}

/// Whether pattern `p` matches `command`.
fn pattern_matches(command: &str, p: &String, is_regex: bool) -> (res: Result<bool, SwapxError>)
    ensures
        match res {
            Ok(b) => pattern_valid(p@, is_regex) && b == pattern_hits(command@, p@, is_regex),
            Err(e) => !pattern_valid(p@, is_regex) && regex_error(e, p@),
        },
{
    if is_regex {
        match compile_regex(p.as_str()) {
            Ok(re) => Ok(regex_is_match(&re, command)),
            Err(e) => Err(SwapxError::Regex(regex_error_text(&e))),
        }
    } else {
        Ok(contains_chars(&chars_of(command), &chars_of(p.as_str())))
    }
}

/// The first of the rule's patterns that matches `command`.
pub fn find_matching_pattern(command: &str, rule: &Rule) -> (res: Result<Option<String>, SwapxError>)
    ensures
        match first_matching_pattern(command@, rule@.patterns, rule.regex) {
            Err(bad) => res matches Err(e) && regex_error(e, bad),
            Ok(None) => res matches Ok(None),
            Ok(Some(p)) => res matches Ok(Some(q)) && q@ == p,
        },
{
    let ghost pats = rule@.patterns;
    let mut i: usize = 0;
    assert(pats.skip(0) == pats);
    while i < rule.match_patterns.len()
        invariant
            i <= rule.match_patterns.len(),
            pats == rule@.patterns,
            pats.len() == rule.match_patterns.len(),
            first_matching_pattern(command@, pats, rule.regex) == first_matching_pattern(
                command@,
                pats.skip(i as int),
                rule.regex,
            ),
        decreases rule.match_patterns.len() - i,
    {
        assert(pats.skip(i as int).drop_first() == pats.skip(i + 1));
        assert(pats.skip(i as int)[0] == rule.match_patterns@[i as int]@);
        let p = &rule.match_patterns[i];
        if pattern_matches(command, p, rule.regex)? {
            return Ok(Some(p.clone()));
        }
        i += 1;
    }
    Ok(None)
}

/// `command` with every match of `pattern` replaced by `replacement`.
fn do_replace(command: &str, pattern: &str, is_regex: bool, replacement: &str) -> (res: Result<
    String,
    SwapxError,
>)
    ensures
        match res {
            Ok(s) => pattern_valid(pattern@, is_regex) && s@ == replaced(
                command@,
                pattern@,
                is_regex,
                replacement@,
            ),
            Err(e) => !pattern_valid(pattern@, is_regex) && regex_error(e, pattern@),
        },
{
    if is_regex {
        match compile_regex(pattern) {
            Ok(re) => Ok(regex_replace_all(&re, command, replacement)),
            Err(e) => Err(SwapxError::Regex(regex_error_text(&e))),
        }
    } else {
        let out = replace_chars(&chars_of(command), &chars_of(pattern), &chars_of(replacement));
        Ok(string_of(&out))
    }
}

/// Applies one chosen replacement of a pending rule to the command.
pub fn apply_choice(command: &str, matched_pattern: &str, is_regex: bool, with_value: &str) -> (res:
    Result<String, SwapxError>)
    ensures
        match res {
            Ok(s) => pattern_valid(matched_pattern@, is_regex) && s@ == replaced(
                command@,
                matched_pattern@,
                is_regex,
                with_value@,
            ),
            Err(e) => !pattern_valid(matched_pattern@, is_regex) && regex_error(
                e,
                matched_pattern@,
            ),
        },
{
    do_replace(command, matched_pattern, is_regex, with_value)
}


/// A matched rule whose replacement must be chosen by the user.
#[derive(Debug)]
pub struct PendingChoice {
    pub rule: Rule,
    /// The pattern (one of the rule's) that matched the command.
    pub matched_pattern: String,
}

/// The outcome of applying the rules to a command.
#[derive(Debug)]
pub struct TransformResult {
    pub command: String,
    pub changed: bool,
    pub pending_choices: Vec<PendingChoice>,
}

pub ghost struct PendingView {
    pub rule: RuleView,
    pub matched_pattern: Seq<char>,
}

pub ghost struct TransformView {
    pub command: Seq<char>,
    pub changed: bool,
    pub pending: Seq<PendingView>,
}

impl View for PendingChoice {
    type V = PendingView;

    open spec fn view(&self) -> PendingView {
        PendingView { rule: self.rule@, matched_pattern: self.matched_pattern@ }
    }
}

/// The views of a list of pending choices.
pub open spec fn pending_view(v: Seq<PendingChoice>) -> Seq<PendingView> {
    v.map_values(|p: PendingChoice| p@)
}

impl View for TransformResult {
    type V = TransformView;

    open spec fn view(&self) -> TransformView {
        TransformView {
            command: self.command@,
            changed: self.changed,
            pending: pending_view(self.pending_choices@),
        }
    }
}

/// A replacement's `when` is present and holds.
pub open spec fn when_selects(w: Option<WhenView>, e: EnvView) -> bool {
    match w {
        Some(w) => when_holds(w, e),
        None => false,
    }
}

/// A replacement's `when` is absent or holds.
pub open spec fn when_permits(w: Option<WhenView>, e: EnvView) -> bool {
    match w {
        Some(w) => when_holds(w, e),
        None => true,
    }
}

/// The replacements whose `when` is present and holds, in order.
pub open spec fn selected_by_when(reps: Seq<ReplacementView>, e: EnvView) -> Seq<ReplacementView>
    decreases reps.len(),
{
    if reps.len() == 0 {
        seq![]
    } else {
        let rest = selected_by_when(reps.drop_last(), e);
        if when_selects(reps.last().when, e) {
            rest.push(reps.last())
        } else {
            rest
        }
    }
}

/// The first replacement marked default.
pub open spec fn first_default(reps: Seq<ReplacementView>) -> Option<ReplacementView>
    decreases reps.len(),
{
    if reps.len() == 0 {
        None
    } else if reps[0].default {
        Some(reps[0])
    } else {
        first_default(reps.drop_first())
    }
}

/// The state before any rule: the command as given, unchanged, nothing pending.
pub open spec fn initial_state(cmd: Seq<char>) -> TransformView {
    TransformView { command: cmd, changed: false, pending: seq![] }
}

/// The state after the matched pattern `p` was replaced by `w`.
pub open spec fn substituted(st: TransformView, p: Seq<char>, is_regex: bool, w: Seq<char>) -> TransformView {
    TransformView { command: replaced(st.command, p, is_regex, w), changed: true, pending: st.pending }
}

/// The state after the rule was left for the user to choose.
pub open spec fn deferred(st: TransformView, rule: RuleView, p: Seq<char>) -> TransformView {
    TransformView {
        command: st.command,
        changed: st.changed,
        pending: st.pending.push(PendingView { rule, matched_pattern: p }),
    }
}

/// What one rule does to the state. A disabled rule, a rule scoped to
/// another directory and a rule that does not match leave it as it is.
/// A rule with one replacement applies it unless its `when` fails. Otherwise
/// the replacement selected by its `when` applies when exactly one is; with
/// several so selected the choice is left to the user; with none the first
/// default applies when defaults are used, and else the choice is left to
/// the user.
pub open spec fn rule_step(st: TransformView, rule: RuleView, use_defaults: bool, e: EnvView) -> Result<
    TransformView,
    Seq<char>,
> {
    if !rule.enabled || !dir_applies(rule.dir, e) {
        Ok(st)
    } else {
        match first_matching_pattern(st.command, rule.patterns, rule.regex) {
            Err(bad) => Err(bad),
            Ok(None) => Ok(st),
            Ok(Some(p)) => if rule.replace.len() == 1 {
                if when_permits(rule.replace[0].when, e) {
                    Ok(substituted(st, p, rule.regex, rule.replace[0].with_value))
                } else {
                    Ok(st)
                }
            } else {
                let wm = selected_by_when(rule.replace, e);
                if wm.len() == 1 {
                    Ok(substituted(st, p, rule.regex, wm[0].with_value))
                } else if wm.len() > 1 {
                    Ok(deferred(st, rule, p))
                } else if use_defaults && first_default(rule.replace) is Some {
                    Ok(substituted(st, p, rule.regex, first_default(rule.replace)->0.with_value))
                } else {
                    Ok(deferred(st, rule, p))
                }
            },
        }
    }
}

/// The rules applied in order to `cmd`, each to the command left by those
/// before it; an error as soon as one rule fails.
pub open spec fn run_rules(cmd: Seq<char>, rules: Seq<RuleView>, use_defaults: bool, e: EnvView) -> Result<
    TransformView,
    Seq<char>,
>
    decreases rules.len(),
{
    if rules.len() == 0 {
        Ok(initial_state(cmd))
    } else {
        match run_rules(cmd, rules.drop_last(), use_defaults, e) {
            Err(bad) => Err(bad),
            Ok(st) => rule_step(st, rules.last(), use_defaults, e),
        }
    }
}

/// How many replacements `when` selects (counting at most two), and the first.
fn when_selection(reps: &Vec<Replacement>, env: &Environment) -> (r: (usize, usize))
    ensures
        r.0 == 0 <==> selected_by_when(replacements_view(reps@), env@).len() == 0,
        r.0 == 1 <==> selected_by_when(replacements_view(reps@), env@).len() == 1,
        r.0 == 2 <==> selected_by_when(replacements_view(reps@), env@).len() > 1,
        r.0 > 0 ==> r.1 < reps.len() && selected_by_when(
            replacements_view(reps@),
            env@,
        )[0] == reps@[r.1 as int]@,
{
    let ghost rv = replacements_view(reps@);
    let mut count: usize = 0;
    let mut first: usize = 0;
    let mut i: usize = 0;
    while i < reps.len()
        invariant
            i <= reps.len(),
            rv == replacements_view(reps@),
            count <= 2,
            count == 0 <==> selected_by_when(rv.take(i as int), env@).len() == 0,
            count == 1 <==> selected_by_when(rv.take(i as int), env@).len() == 1,
            count == 2 <==> selected_by_when(rv.take(i as int), env@).len() > 1,
            count > 0 ==> first < i && selected_by_when(rv.take(i as int), env@)[0]
                == reps@[first as int]@,
        decreases reps.len() - i,
    {
        assert(rv.take(i + 1).drop_last() == rv.take(i as int));
        assert(rv.take(i + 1).last() == reps@[i as int]@);
        let sel = match &reps[i].when {
            Some(w) => evaluate_when(w, env),
            None => false,
        };
        if sel {
            if count == 0 {
                first = i;
                count = 1;
            } else {
                count = 2;
            }
        }
        i += 1;
    }
    assert(rv.take(reps.len() as int) == rv);
    (count, first)
}

/// The position of the first replacement marked default.
pub fn default_index(reps: &Vec<Replacement>) -> (r: Option<usize>)
    ensures
        match r {
            Some(k) => k < reps.len() && reps@[k as int].default && first_default(
                replacements_view(reps@),
            ) == Some(reps@[k as int]@) && forall|j: int| 0 <= j < k ==> !reps@[j].default,
            None => first_default(replacements_view(reps@)) is None && forall|
                j: int,
            | 0 <= j < reps.len() ==> !reps@[j].default,
        },
{
    let ghost rv = replacements_view(reps@);
    let mut i: usize = 0;
    assert(rv.skip(0) == rv);
    while i < reps.len()
        invariant
            i <= reps.len(),
            rv == replacements_view(reps@),
            first_default(rv) == first_default(rv.skip(i as int)),
            forall|j: int| 0 <= j < i ==> !reps@[j].default,
        decreases reps.len() - i,
    {
        assert(rv.skip(i as int).drop_first() == rv.skip(i + 1));
        assert(rv.skip(i as int)[0] == reps@[i as int]@);
        if reps[i].default {
            return Some(i);
        }
        i += 1;
    }
    None
}


/// A pattern found by the search is a valid one.
pub proof fn lemma_found_pattern_valid(cmd: Seq<char>, pats: Seq<Seq<char>>, is_regex: bool)
    ensures
        first_matching_pattern(cmd, pats, is_regex) matches Ok(Some(p)) ==> pattern_valid(
            p,
            is_regex,
        ),
    decreases pats.len(),
{
    if pats.len() > 0 {
        lemma_found_pattern_valid(cmd, pats.drop_first(), is_regex);
    }
}

/// Replaces the matched pattern in the state's command by `w`.
fn substitute(state: &mut TransformResult, p: &String, is_regex: bool, w: &String) -> (res: Result<
    (),
    SwapxError,
>)
    requires
        pattern_valid(p@, is_regex),
    ensures
        res is Ok,
        final(state)@ == substituted(old(state)@, p@, is_regex, w@),
{
    let r = do_replace(state.command.as_str(), p.as_str(), is_regex, w.as_str());
    match r {
        Ok(c) => {
            state.command = c;
            state.changed = true;
            Ok(())
        },
        Err(e) => Err(e),
    }
}

/// Leaves the rule for the user to choose.
fn defer(state: &mut TransformResult, rule: &Rule, p: String)
    ensures
        final(state)@ == deferred(old(state)@, rule@, p@),
{
    let ghost prev = state.pending_choices@;
    state.pending_choices.push(PendingChoice { rule: rule.duplicate(), matched_pattern: p });
    assert(pending_view(state.pending_choices@) =~= pending_view(prev).push(
        PendingView { rule: rule@, matched_pattern: p@ },
    ));
}

/// Applies one rule to the state.
fn apply_rule(state: &mut TransformResult, rule: &Rule, use_defaults: bool, env: &Environment) -> (res:
    Result<(), SwapxError>)
    ensures
        match rule_step(old(state)@, rule@, use_defaults, env@) {
            Ok(t) => res is Ok && final(state)@ == t,
            Err(bad) => res matches Err(e) && regex_error(e, bad),
        },
{
    if !rule.enabled || !dir_matches(&rule.dir, env) {
        return Ok(());
    }
    let found = find_matching_pattern(state.command.as_str(), rule);
    let p = match found {
        Err(e) => return Err(e),
        Ok(None) => return Ok(()),
        Ok(Some(p)) => p,
    };
    proof {
        lemma_found_pattern_valid(old(state)@.command, rule@.patterns, rule.regex);
    }
    if rule.replace.len() == 1 {
        assert(replacements_view(rule.replace@)[0] == rule.replace@[0]@);
        let ok = match &rule.replace[0].when {
            Some(w) => evaluate_when(w, env),
            None => true,
        };
        if ok {
            return substitute(state, &p, rule.regex, &rule.replace[0].with_value);
        }
        Ok(())
    } else {
        let (count, first) = when_selection(&rule.replace, env);
        if count == 1 {
            substitute(state, &p, rule.regex, &rule.replace[first].with_value)
        } else if count == 2 {
            defer(state, rule, p);
            Ok(())
        } else if use_defaults {
            match default_index(&rule.replace) {
                Some(k) => substitute(state, &p, rule.regex, &rule.replace[k].with_value),
                None => {
                    defer(state, rule, p);
                    Ok(())
                },
            }
        } else {
            defer(state, rule, p);
            Ok(())
        }
    }
}

/// Applies the rules in order to `command`. Each enabled rule whose
/// directory scope admits the current directory and one of whose patterns
/// matches the command (as left by the rules before it) replaces the match,
/// or is left pending when the user must choose its replacement; `changed`
/// tells whether a replacement was made.
pub fn apply_rules(command: &str, rules: &[Rule], use_defaults: bool, env: &Environment) -> (res:
    Result<TransformResult, SwapxError>)
    ensures
        match run_rules(command@, rules_view(rules@), use_defaults, env@) {
            Ok(t) => res matches Ok(r) && r@ == t,
            Err(bad) => res matches Err(e) && regex_error(e, bad),
        },
{
    let ghost rv = rules_view(rules@);
    let mut state = TransformResult {
        command: command.to_owned(),
        changed: false,
        pending_choices: Vec::new(),
    };
    assert(pending_view(state.pending_choices@) =~= seq![]);
    assert(rv.take(0) =~= seq![]);
    let mut i: usize = 0;
    while i < rules.len()
        invariant
            i <= rules.len(),
            rv == rules_view(rules@),
            run_rules(command@, rv.take(i as int), use_defaults, env@) == Ok::<TransformView, Seq<char>>(
                state@,
            ),
        decreases rules.len() - i,
    {
        assert(rv.take(i + 1).drop_last() == rv.take(i as int));
        assert(rv.take(i + 1).last() == rules@[i as int]@);
        let r = apply_rule(&mut state, &rules[i], use_defaults, env);
        match r {
            Ok(()) => {},
            Err(e) => {
                let ghost bad = run_rules(command@, rv.take(i + 1), use_defaults, env@)->Err_0;
                proof {
                    lemma_run_rules_error_persists(command@, rv, i + 1, use_defaults, env@, bad);
                }
                return Err(e);
            },
        }
        i += 1;
    }
    assert(rv.take(rules.len() as int) == rv);
    Ok(state)
}

/// Once a prefix of the rules fails, every longer prefix fails with the
/// same error: the rules after a failing one are not tried.
pub proof fn lemma_run_rules_error_persists(
    cmd: Seq<char>,
    rules: Seq<RuleView>,
    k: int,
    use_defaults: bool,
    e: EnvView,
    bad: Seq<char>,
)
    requires
        0 <= k <= rules.len(),
        run_rules(cmd, rules.take(k), use_defaults, e) == Err::<TransformView, Seq<char>>(bad),
    ensures
        run_rules(cmd, rules, use_defaults, e) == Err::<TransformView, Seq<char>>(bad),
    decreases rules.len() - k,
{
    if k < rules.len() {
        assert(rules.take(k + 1).drop_last() == rules.take(k));
        lemma_run_rules_error_persists(cmd, rules, k + 1, use_defaults, e, bad);
    } else {
        assert(rules.take(k) == rules);
    }
}


/// One replacement option of a matching rule, with what it would produce.
#[derive(Debug)]
pub struct ExplainReplacement {
    pub label: String,
    pub with_value: String,
    pub result_command: String,
    pub is_default: bool,
    pub when_condition: Option<WhenCondition>,
    pub when_matches: bool,
}

/// A rule that matches the command, whether or not it is enabled.
#[derive(Debug)]
pub struct ExplainMatch {
    pub rule: Rule,
    /// The specific pattern that matched.
    pub matched_pattern: String,
    pub is_enabled: bool,
    /// For a rule scoped to a directory, whether the scope admits the
    /// current directory.
    pub dir_matches: Option<bool>,
    pub replacements: Vec<ExplainReplacement>,
}

pub ghost struct ExplainReplacementView {
    pub label: Seq<char>,
    pub with_value: Seq<char>,
    pub result_command: Seq<char>,
    pub is_default: bool,
    pub when_condition: Option<WhenView>,
    pub when_matches: bool,
}

pub ghost struct ExplainMatchView {
    pub rule: RuleView,
    pub matched_pattern: Seq<char>,
    pub is_enabled: bool,
    pub dir_matches: Option<bool>,
    pub replacements: Seq<ExplainReplacementView>,
}

impl View for ExplainReplacement {
    type V = ExplainReplacementView;

    open spec fn view(&self) -> ExplainReplacementView {
        ExplainReplacementView {
            label: self.label@,
            with_value: self.with_value@,
            result_command: self.result_command@,
            is_default: self.is_default,
            when_condition: match self.when_condition {
                Some(w) => Some(w@),
                None => None,
            },
            when_matches: self.when_matches,
        }
    }
}

impl View for ExplainMatch {
    type V = ExplainMatchView;

    open spec fn view(&self) -> ExplainMatchView {
        ExplainMatchView {
            rule: self.rule@,
            matched_pattern: self.matched_pattern@,
            is_enabled: self.is_enabled,
            dir_matches: self.dir_matches,
            replacements: self.replacements@.map_values(|r: ExplainReplacement| r@),
        }
    }
}

/// The views of a list of explained matches.
pub open spec fn explain_view(v: Seq<ExplainMatch>) -> Seq<ExplainMatchView> {
    v.map_values(|m: ExplainMatch| m@)
}

/// What a replacement option would do to `cmd` once pattern `p` matched.
pub open spec fn explain_replacement(
    cmd: Seq<char>,
    p: Seq<char>,
    is_regex: bool,
    r: ReplacementView,
    e: EnvView,
) -> ExplainReplacementView {
    ExplainReplacementView {
        label: r.label,
        with_value: r.with_value,
        result_command: replaced(cmd, p, is_regex, r.with_value),
        is_default: r.default,
        when_condition: r.when,
        when_matches: when_selects(r.when, e),
    }
}

/// The explanation of one rule: none when it does not match `cmd`.
pub open spec fn explain_rule(cmd: Seq<char>, rule: RuleView, e: EnvView) -> Result<
    Option<ExplainMatchView>,
    Seq<char>,
> {
    match first_matching_pattern(cmd, rule.patterns, rule.regex) {
        Err(bad) => Err(bad),
        Ok(None) => Ok(None),
        Ok(Some(p)) => Ok(
            Some(
                ExplainMatchView {
                    rule,
                    matched_pattern: p,
                    is_enabled: rule.enabled,
                    dir_matches: if rule.dir is Some {
                        Some(dir_applies(rule.dir, e))
                    } else {
                        None
                    },
                    replacements: rule.replace.map_values(
                        |r: ReplacementView| explain_replacement(cmd, p, rule.regex, r, e),
                    ),
                },
            ),
        ),
    }
}

/// The explanations of the rules that match `cmd`, in order.
pub open spec fn explain_all(cmd: Seq<char>, rules: Seq<RuleView>, e: EnvView) -> Result<
    Seq<ExplainMatchView>,
    Seq<char>,
>
    decreases rules.len(),
{
    if rules.len() == 0 {
        Ok(seq![])
    } else {
        match explain_all(cmd, rules.drop_last(), e) {
            Err(bad) => Err(bad),
            Ok(ms) => match explain_rule(cmd, rules.last(), e) {
                Err(bad) => Err(bad),
                Ok(None) => Ok(ms),
                Ok(Some(m)) => Ok(ms.push(m)),
            },
        }
    }
}

/// The explanation of one rule.
fn explain_one(command: &str, rule: &Rule, env: &Environment) -> (res: Result<
    Option<ExplainMatch>,
    SwapxError,
>)
    ensures
        match explain_rule(command@, rule@, env@) {
            Err(bad) => res matches Err(e) && regex_error(e, bad),
            Ok(None) => res matches Ok(None),
            Ok(Some(m)) => res matches Ok(Some(x)) && x@ == m,
        },
{
    let p = match find_matching_pattern(command, rule) {
        Err(e) => return Err(e),
        Ok(None) => return Ok(None),
        Ok(Some(p)) => p,
    };
    proof {
        lemma_found_pattern_valid(command@, rule@.patterns, rule.regex);
    }
    let ghost rv = rule@;
    let mut reps: Vec<ExplainReplacement> = Vec::new();
    let mut i: usize = 0;
    while i < rule.replace.len()
        invariant
            i <= rule.replace.len(),
            rv == rule@,
            pattern_valid(p@, rule.regex),
            reps@.map_values(|r: ExplainReplacement| r@) == rv.replace.take(i as int).map_values(
                |r: ReplacementView| explain_replacement(command@, p@, rule.regex, r, env@),
            ),
        decreases rule.replace.len() - i,
    {
        let repl = &rule.replace[i];
        assert(rv.replace[i as int] == repl@);
        let result_command = match do_replace(
            command,
            p.as_str(),
            rule.regex,
            repl.with_value.as_str(),
        ) {
            Ok(c) => c,
            Err(e) => return Err(e),
        };
        let when_matches = match &repl.when {
            Some(w) => evaluate_when(w, env),
            None => false,
        };
        let when_condition = match &repl.when {
            Some(w) => Some(w.duplicate()),
            None => None,
        };
        let x = ExplainReplacement {
            label: repl.label.clone(),
            with_value: repl.with_value.clone(),
            result_command,
            is_default: repl.default,
            when_condition,
            when_matches,
        };
        let ghost prev = reps@;
        reps.push(x);
        assert(reps@ == prev.push(x));
        assert(rv.replace.take(i + 1) == rv.replace.take(i as int).push(repl@));
        assert(reps@.map_values(|r: ExplainReplacement| r@) =~= prev.map_values(
            |r: ExplainReplacement| r@,
        ).push(x@));
        assert(rv.replace.take(i + 1).map_values(
            |r: ReplacementView| explain_replacement(command@, p@, rule.regex, r, env@),
        ) =~= rv.replace.take(i as int).map_values(
            |r: ReplacementView| explain_replacement(command@, p@, rule.regex, r, env@),
        ).push(explain_replacement(command@, p@, rule.regex, repl@, env@)));
        i += 1;
    }
    assert(rv.replace.take(rule.replace.len() as int) == rv.replace);
    let dm = match &rule.dir {
        Some(_) => Some(dir_matches(&rule.dir, env)),
        None => None,
    };
    Ok(
        Some(
            ExplainMatch {
                rule: rule.duplicate(),
                matched_pattern: p,
                is_enabled: rule.enabled,
                dir_matches: dm,
                replacements: reps,
            },
        ),
    )
}

/// For every rule that matches `command` (enabled or not), the pattern that
/// matched and, for each replacement option, the command it would produce
/// and whether its `when` holds.
pub fn explain_rules(command: &str, rules: &[Rule], env: &Environment) -> (res: Result<
    Vec<ExplainMatch>,
    SwapxError,
>)
    ensures
        match explain_all(command@, rules_view(rules@), env@) {
            Ok(ms) => res matches Ok(v) && explain_view(v@) == ms,
            Err(bad) => res matches Err(e) && regex_error(e, bad),
        },
{
    let ghost rv = rules_view(rules@);
    let mut matches: Vec<ExplainMatch> = Vec::new();
    assert(rv.take(0) =~= seq![]);
    assert(explain_view(matches@) =~= seq![]);
    let mut i: usize = 0;
    while i < rules.len()
        invariant
            i <= rules.len(),
            rv == rules_view(rules@),
            explain_all(command@, rv.take(i as int), env@) == Ok::<Seq<ExplainMatchView>, Seq<char>>(
                explain_view(matches@),
            ),
        decreases rules.len() - i,
    {
        assert(rv.take(i + 1).drop_last() == rv.take(i as int));
        assert(rv.take(i + 1).last() == rules@[i as int]@);
        match explain_one(command, &rules[i], env) {
            Err(e) => {
                let ghost bad = explain_all(command@, rv.take(i + 1), env@)->Err_0;
                proof {
                    lemma_explain_error_persists(command@, rv, i + 1, env@, bad);
                }
                return Err(e);
            },
            Ok(None) => {},
            Ok(Some(m)) => {
                let ghost prev = matches@;
                matches.push(m);
                assert(matches@ == prev.push(m));
                assert(explain_view(matches@) =~= explain_view(prev).push(m@));
            },
        }
        i += 1;
    }
    assert(rv.take(rules.len() as int) == rv);
    Ok(matches)
}

/// Once a prefix of the rules fails to explain, every longer prefix fails
/// with the same error.
pub proof fn lemma_explain_error_persists(
    cmd: Seq<char>,
    rules: Seq<RuleView>,
    k: int,
    e: EnvView,
    bad: Seq<char>,
)
    requires
        0 <= k <= rules.len(),
        explain_all(cmd, rules.take(k), e) == Err::<Seq<ExplainMatchView>, Seq<char>>(bad),
    ensures
        explain_all(cmd, rules, e) == Err::<Seq<ExplainMatchView>, Seq<char>>(bad),
    decreases rules.len() - k,
{
    if k < rules.len() {
        assert(rules.take(k + 1).drop_last() == rules.take(k));
        lemma_explain_error_persists(cmd, rules, k + 1, e, bad);
    } else {
        assert(rules.take(k) == rules);
    }
}


/// A rule that never acts: disabled, or scoped to another directory.
pub open spec fn inert(rule: RuleView, e: EnvView) -> bool {
    !rule.enabled || !dir_applies(rule.dir, e)
}

/// Disabled rules are skipped: applying the rules gives what applying them
/// without a disabled (or out-of-scope) rule gives.
pub proof fn lemma_inert_rule_skipped(
    cmd: Seq<char>,
    rules: Seq<RuleView>,
    i: int,
    use_defaults: bool,
    e: EnvView,
)
    requires
        0 <= i < rules.len(),
        inert(rules[i], e),
    ensures
        run_rules(cmd, rules, use_defaults, e) == run_rules(cmd, rules.remove(i), use_defaults, e),
    decreases rules.len(),
{
    if i == rules.len() - 1 {
        assert(rules.remove(i) =~= rules.drop_last());
    } else {
        assert(rules.remove(i).drop_last() =~= rules.drop_last().remove(i));
        assert(rules.remove(i).last() == rules.last());
        lemma_inert_rule_skipped(cmd, rules.drop_last(), i, use_defaults, e);
    }
}

/// Nothing reported changed means the command is as it was given.
pub proof fn lemma_unchanged_means_same_command(
    cmd: Seq<char>,
    rules: Seq<RuleView>,
    use_defaults: bool,
    e: EnvView,
)
    ensures
        run_rules(cmd, rules, use_defaults, e) matches Ok(t) ==> (!t.changed ==> t.command == cmd),
    decreases rules.len(),
{
    if rules.len() > 0 {
        lemma_unchanged_means_same_command(cmd, rules.drop_last(), use_defaults, e);
    }
}

/// A command that no active rule matches passes through untouched.
pub proof fn lemma_no_match_passthrough(
    cmd: Seq<char>,
    rules: Seq<RuleView>,
    use_defaults: bool,
    e: EnvView,
)
    requires
        forall|i: int|
            0 <= i < rules.len() && !inert(#[trigger] rules[i], e) ==> first_matching_pattern(
                cmd,
                rules[i].patterns,
                rules[i].regex,
            ) == Ok::<Option<Seq<char>>, Seq<char>>(None),
    ensures
        run_rules(cmd, rules, use_defaults, e) == Ok::<TransformView, Seq<char>>(initial_state(cmd)),
    decreases rules.len(),
{
    if rules.len() > 0 {
        assert forall|i: int|
            0 <= i < rules.drop_last().len() && !inert(#[trigger] rules.drop_last()[i], e)
                implies first_matching_pattern(
            cmd,
            rules.drop_last()[i].patterns,
            rules.drop_last()[i].regex,
        ) == Ok::<Option<Seq<char>>, Seq<char>>(None) by {
            assert(rules.drop_last()[i] == rules[i]);
        }
        lemma_no_match_passthrough(cmd, rules.drop_last(), use_defaults, e);
        assert(!inert(rules.last(), e) ==> first_matching_pattern(
            cmd,
            rules[rules.len() - 1].patterns,
            rules[rules.len() - 1].regex,
        ) == Ok::<Option<Seq<char>>, Seq<char>>(None));
    }
}

/// A found pattern is one of the patterns searched.
pub proof fn lemma_found_pattern_listed(cmd: Seq<char>, pats: Seq<Seq<char>>, is_regex: bool)
    ensures
        first_matching_pattern(cmd, pats, is_regex) matches Ok(Some(p)) ==> pats.contains(p),
    decreases pats.len(),
{
    if pats.len() > 0 {
        lemma_found_pattern_listed(cmd, pats.drop_first(), is_regex);
        if let Ok(Some(p)) = first_matching_pattern(cmd, pats.drop_first(), is_regex) {
            if pats.drop_first().contains(p) {
                let j = choose|j: int| 0 <= j < pats.drop_first().len() && pats.drop_first()[j]
                    == p;
                assert(pats[j + 1] == p);
            }
        }
        assert(pats[0] == pats[0]);
    }
}

/// What holds of a choice left to the user: its rule is enabled and in
/// scope, the matched pattern is one of its patterns and compiles, it does not have
/// exactly one replacement, and its `when` conditions do not select exactly
/// one; and, when defaults are used, either several are selected or it has
/// no default.
pub open spec fn pending_sound(p: PendingView, use_defaults: bool, e: EnvView) -> bool {
    &&& p.rule.enabled
    &&& dir_applies(p.rule.dir, e)
    &&& p.rule.patterns.contains(p.matched_pattern)
    &&& pattern_valid(p.matched_pattern, p.rule.regex)
    &&& p.rule.replace.len() != 1
    &&& selected_by_when(p.rule.replace, e).len() != 1
    &&& use_defaults ==> (selected_by_when(p.rule.replace, e).len() > 1 || first_default(
        p.rule.replace,
    ) is None)
}

/// Every choice left to the user is one that the rules could not make.
pub proof fn lemma_pending_choices_sound(
    cmd: Seq<char>,
    rules: Seq<RuleView>,
    use_defaults: bool,
    e: EnvView,
)
    ensures
        run_rules(cmd, rules, use_defaults, e) matches Ok(t) ==> forall|k: int|
            0 <= k < t.pending.len() ==> pending_sound(#[trigger] t.pending[k], use_defaults, e),
    decreases rules.len(),
{
    if rules.len() > 0 {
        lemma_pending_choices_sound(cmd, rules.drop_last(), use_defaults, e);
        if let Ok(st) = run_rules(cmd, rules.drop_last(), use_defaults, e) {
            lemma_found_pattern_listed(st.command, rules.last().patterns, rules.last().regex);
            lemma_found_pattern_valid(st.command, rules.last().patterns, rules.last().regex);
        }
    }
}


/// The replacements selected by their `when` are among the rule's.
proof fn lemma_selected_listed(reps: Seq<ReplacementView>, e: EnvView, k: int)
    requires
        0 <= k < selected_by_when(reps, e).len(),
    ensures
        reps.contains(selected_by_when(reps, e)[k]),
    decreases reps.len(),
{
    if reps.len() > 0 {
        let rest = selected_by_when(reps.drop_last(), e);
        if k < rest.len() {
            lemma_selected_listed(reps.drop_last(), e, k);
            let j = choose|j: int| 0 <= j < reps.drop_last().len() && reps.drop_last()[j] == rest[k];
            assert(reps[j] == rest[k]);
        } else {
            assert(reps[reps.len() - 1] == reps.last());
        }
    }
}

/// The first default is among the rule's replacements.
proof fn lemma_default_listed(reps: Seq<ReplacementView>)
    ensures
        first_default(reps) matches Some(d) ==> reps.contains(d),
    decreases reps.len(),
{
    if reps.len() > 0 {
        lemma_default_listed(reps.drop_first());
        if let Some(d) = first_default(reps.drop_first()) {
            if !reps[0].default {
                let j = choose|j: int| 0 <= j < reps.drop_first().len() && reps.drop_first()[j] == d;
                assert(reps[j + 1] == d);
            }
        }
        assert(reps[0] == reps[0]);
    }
}

/// `explain` previews what applying a rule does: when a single rule rewrites
/// the command, its explanation lists a replacement whose result is exactly
/// the rewritten command.
pub proof fn lemma_explain_previews_rewrite(cmd: Seq<char>, r: RuleView, use_defaults: bool, e: EnvView)
    requires
        run_rules(cmd, seq![r], use_defaults, e) matches Ok(t) && t.changed,
    ensures
        explain_all(cmd, seq![r], e) matches Ok(ms) && ms.len() == 1 && exists|k: int|
            0 <= k < ms[0].replacements.len() && ms[0].replacements[k].result_command
                == run_rules(cmd, seq![r], use_defaults, e)->Ok_0.command,
{
    let rules = seq![r];
    assert(rules.drop_last() =~= Seq::<RuleView>::empty());
    assert(rules.last() == r);
    assert(run_rules(cmd, rules.drop_last(), use_defaults, e) == Ok::<TransformView, Seq<char>>(
        initial_state(cmd),
    ));
    assert(explain_all(cmd, rules.drop_last(), e) == Ok::<Seq<ExplainMatchView>, Seq<char>>(seq![]));
    let t = run_rules(cmd, rules, use_defaults, e)->Ok_0;
    assert(first_matching_pattern(cmd, r.patterns, r.regex) matches Ok(Some(_)));
    let p = first_matching_pattern(cmd, r.patterns, r.regex)->Ok_0->0;
    let m = explain_rule(cmd, r, e)->Ok_0->0;
    assert(explain_all(cmd, rules, e) == Ok::<Seq<ExplainMatchView>, Seq<char>>(seq![m]));
    let ms = explain_all(cmd, rules, e)->Ok_0;
    assert(ms[0] == m);
    assert(m.replacements == r.replace.map_values(
        |x: ReplacementView| explain_replacement(cmd, p, r.regex, x, e),
    ));
    let f = |x: ReplacementView| explain_replacement(cmd, p, r.regex, x, e);
    if r.replace.len() == 1 {
        assert(ms[0].replacements[0] == f(r.replace[0]));
    } else {
        let wm = selected_by_when(r.replace, e);
        let w = if wm.len() == 1 {
            lemma_selected_listed(r.replace, e, 0);
            wm[0]
        } else {
            lemma_default_listed(r.replace);
            first_default(r.replace)->0
        };
        let k = choose|k: int| 0 <= k < r.replace.len() && r.replace[k] == w;
        assert(ms[0].replacements[k] == f(r.replace[k]));
    }
}


/// The state `t`, reached from a command, continued after the state `st`:
/// `t`'s command, changed when either was, `st`'s pending choices then `t`'s.
pub open spec fn after(st: TransformView, t: TransformView) -> TransformView {
    TransformView { command: t.command, changed: st.changed || t.changed, pending: st.pending + t.pending }
}

/// One rule acts on a state as it acts on the state's command alone.
proof fn lemma_step_after(st: TransformView, t: TransformView, rule: RuleView, use_defaults: bool, e: EnvView)
    ensures
        rule_step(after(st, t), rule, use_defaults, e) == match rule_step(t, rule, use_defaults, e) {
            Ok(t2) => Ok::<TransformView, Seq<char>>(after(st, t2)),
            Err(b) => Err(b),
        },
{
    let a = after(st, t);
    if let Ok(Some(p)) = first_matching_pattern(t.command, rule.patterns, rule.regex) {
        assert(deferred(a, rule, p) =~= after(st, deferred(t, rule, p)));
    }
}

/// Applying two rule lists one after the other is applying their
/// concatenation: the second list works on the command the first left, a
/// replacement by either counts as a change, and the pending choices of the
/// first come before those of the second. An error of the first list stops
/// everything.
pub proof fn lemma_run_rules_concat(
    cmd: Seq<char>,
    r1: Seq<RuleView>,
    r2: Seq<RuleView>,
    use_defaults: bool,
    e: EnvView,
)
    ensures
        run_rules(cmd, r1 + r2, use_defaults, e) == match run_rules(cmd, r1, use_defaults, e) {
            Err(b) => Err::<TransformView, Seq<char>>(b),
            Ok(t1) => match run_rules(t1.command, r2, use_defaults, e) {
                Err(b) => Err::<TransformView, Seq<char>>(b),
                Ok(t2) => Ok(after(t1, t2)),
            },
        },
    decreases r2.len(),
{
    if r2.len() == 0 {
        assert(r1 + r2 =~= r1);
        if let Ok(t1) = run_rules(cmd, r1, use_defaults, e) {
            assert(after(t1, initial_state(t1.command)) =~= t1);
        }
    } else {
        assert((r1 + r2).drop_last() =~= r1 + r2.drop_last());
        assert((r1 + r2).last() == r2.last());
        lemma_run_rules_concat(cmd, r1, r2.drop_last(), use_defaults, e);
        if let Ok(t1) = run_rules(cmd, r1, use_defaults, e) {
            if let Ok(t2) = run_rules(t1.command, r2.drop_last(), use_defaults, e) {
                lemma_step_after(t1, t2, r2.last(), use_defaults, e);
            }
        }
    }
}


/// The `when` of replacement `i` is present and holds.
pub open spec fn when_holds_at(reps: Seq<ReplacementView>, i: int, e: EnvView) -> bool {
    reps[i].when matches Some(w) && when_holds(w, e)
}

/// A replacement whose `when` holds is among those selected.
proof fn lemma_selected_nonempty(reps: Seq<ReplacementView>, e: EnvView, i: int)
    requires
        0 <= i < reps.len(),
        when_holds_at(reps, i, e),
    ensures
        selected_by_when(reps, e).len() >= 1,
    decreases reps.len(),
{
    if i < reps.len() - 1 {
        assert(reps.drop_last()[i] == reps[i]);
        lemma_selected_nonempty(reps.drop_last(), e, i);
    }
}

/// Two replacements whose `when` holds make at least two selected.
proof fn lemma_selected_two(reps: Seq<ReplacementView>, e: EnvView, i: int, j: int)
    requires
        0 <= i < j < reps.len(),
        when_holds_at(reps, i, e),
        when_holds_at(reps, j, e),
    ensures
        selected_by_when(reps, e).len() >= 2,
    decreases reps.len(),
{
    let d = reps.drop_last();
    assert(d[i] == reps[i]);
    if j == reps.len() - 1 {
        lemma_selected_nonempty(d, e, i);
    } else {
        assert(d[j] == reps[j]);
        lemma_selected_two(d, e, i, j);
    }
}

/// When only replacement `i` has a `when` that holds, it alone is selected.
proof fn lemma_selected_only(reps: Seq<ReplacementView>, e: EnvView, i: int)
    requires
        0 <= i < reps.len(),
        when_holds_at(reps, i, e),
        forall|j: int| 0 <= j < reps.len() && j != i ==> !when_holds_at(reps, j, e),
    ensures
        selected_by_when(reps, e) == seq![reps[i]],
    decreases reps.len(),
{
    let d = reps.drop_last();
    if i == reps.len() - 1 {
        assert forall|j: int| 0 <= j < d.len() implies !when_holds_at(d, j, e) by {
            assert(d[j] == reps[j]);
            assert(!when_holds_at(reps, j, e));
        }
        lemma_selected_none(d, e);
        assert(seq![].push(reps.last()) =~= seq![reps[i]]);
    } else {
        assert(d[i] == reps[i]);
        assert forall|j: int| 0 <= j < d.len() && j != i implies !when_holds_at(d, j, e) by {
            assert(d[j] == reps[j]);
            assert(!when_holds_at(reps, j, e));
        }
        lemma_selected_only(d, e, i);
        assert(!when_holds_at(reps, reps.len() - 1, e));
    }
}

/// When no `when` holds, none is selected.
proof fn lemma_selected_none(reps: Seq<ReplacementView>, e: EnvView)
    requires
        forall|j: int| 0 <= j < reps.len() ==> !when_holds_at(reps, j, e),
    ensures
        selected_by_when(reps, e).len() == 0,
    decreases reps.len(),
{
    if reps.len() > 0 {
        let d = reps.drop_last();
        assert forall|j: int| 0 <= j < d.len() implies !when_holds_at(d, j, e) by {
            assert(d[j] == reps[j]);
            assert(!when_holds_at(reps, j, e));
        }
        lemma_selected_none(d, e);
        assert(!when_holds_at(reps, reps.len() - 1, e));
    }
}

/// An ambiguous rule is left to the user: when an enabled, in-scope rule
/// matches the command with pattern `p` and the `when` of two of its
/// replacements holds, applying it leaves the command as it is, reports no
/// change, and makes it the one pending choice, whatever defaults say.
pub proof fn lemma_ambiguous_when_is_pending(
    cmd: Seq<char>,
    rule: RuleView,
    use_defaults: bool,
    e: EnvView,
    p: Seq<char>,
    i: int,
    j: int,
)
    requires
        rule.enabled,
        dir_applies(rule.dir, e),
        first_matching_pattern(cmd, rule.patterns, rule.regex) == Ok::<Option<Seq<char>>, Seq<char>>(
            Some(p),
        ),
        0 <= i < j < rule.replace.len(),
        when_holds_at(rule.replace, i, e),
        when_holds_at(rule.replace, j, e),
    ensures
        run_rules(cmd, seq![rule], use_defaults, e) == Ok::<TransformView, Seq<char>>(
            TransformView {
                command: cmd,
                changed: false,
                pending: seq![PendingView { rule, matched_pattern: p }],
            },
        ),
{
    lemma_selected_two(rule.replace, e, i, j);
    assert(seq![rule].drop_last() =~= Seq::<RuleView>::empty());
    assert(run_rules(cmd, seq![rule].drop_last(), use_defaults, e) == Ok::<TransformView, Seq<char>>(
        initial_state(cmd),
    ));
    assert(seq![rule].last() == rule);
    assert(rule_step(initial_state(cmd), rule, use_defaults, e) == Ok::<TransformView, Seq<char>>(
        deferred(initial_state(cmd), rule, p),
    ));
    assert(Seq::<PendingView>::empty().push(PendingView { rule, matched_pattern: p }) =~= seq![
        PendingView { rule, matched_pattern: p },
    ]);
}

/// A `when` that alone holds selects its replacement: when an enabled,
/// in-scope rule with several replacements matches the command with pattern
/// `p`, and the `when` of replacement `i` holds and no other's does, applying
/// it replaces the match with that replacement's value and reports a change,
/// leaving nothing pending.
pub proof fn lemma_single_when_selects(
    cmd: Seq<char>,
    rule: RuleView,
    use_defaults: bool,
    e: EnvView,
    p: Seq<char>,
    i: int,
)
    requires
        rule.enabled,
        dir_applies(rule.dir, e),
        first_matching_pattern(cmd, rule.patterns, rule.regex) == Ok::<Option<Seq<char>>, Seq<char>>(
            Some(p),
        ),
        rule.replace.len() >= 2,
        0 <= i < rule.replace.len(),
        when_holds_at(rule.replace, i, e),
        forall|j: int| 0 <= j < rule.replace.len() && j != i ==> !when_holds_at(rule.replace, j, e),
    ensures
        run_rules(cmd, seq![rule], use_defaults, e) == Ok::<TransformView, Seq<char>>(
            TransformView {
                command: replaced(cmd, p, rule.regex, rule.replace[i].with_value),
                changed: true,
                pending: seq![],
            },
        ),
{
    lemma_selected_only(rule.replace, e, i);
    assert(seq![rule].drop_last() =~= Seq::<RuleView>::empty());
    assert(run_rules(cmd, seq![rule].drop_last(), use_defaults, e) == Ok::<TransformView, Seq<char>>(
        initial_state(cmd),
    ));
    assert(seq![rule].last() == rule);
    assert(selected_by_when(rule.replace, e)[0] == rule.replace[i]);
    assert(rule_step(initial_state(cmd), rule, use_defaults, e) == Ok::<TransformView, Seq<char>>(
        substituted(initial_state(cmd), p, rule.regex, rule.replace[i].with_value),
    ));
}

} // verus!
