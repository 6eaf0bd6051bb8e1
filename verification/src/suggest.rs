//! Suggestions: rules proposed for the tools and project files found,
//! filled in from templates.
use vstd::prelude::*;
use vstd::relations::sorted_by;

use crate::order::{chars_order, sort_strings};
use crate::error::SwapxError;
use crate::outside::{json_accepts, json_member_keys, json_member_keys_of, json_rejection};
use crate::models::{opt_string_view, strings_view, Replacement, ReplacementView, Rule, RuleView};
use crate::text::{
    chars_of, decimal_chars_u64, decimal_seq, contains_chars, contains_seq, extend_chars, join_seq, join_strings, occurs_at,
    replace_all_seq, replace_chars, same_chars, string_of,
};

verus! {

/// A suggestion pack.
#[derive(Debug)]
pub struct SuggestionFile {
    pub suggestions: Vec<SuggestionDef>,
}

/// One suggestion: when it applies, what to ask, which rules it makes.
#[derive(Debug)]
pub struct SuggestionDef {
    pub name: String,
    pub description: String,
    pub detect: DetectCondition,
    pub prompts: Vec<PromptDef>,
    pub rules: Vec<SuggestionRule>,
}

/// What must be present for a suggestion to apply.
#[derive(Debug)]
pub struct DetectCondition {
    pub bin: Option<String>,
    pub file: Option<String>,
    pub project: Option<String>,
}

/// A value to ask the user for.
#[derive(Debug)]
pub struct PromptDef {
    pub var: String,
    pub message: String,
    pub default: Option<String>,
    pub detect: Option<String>,
    pub filter: Option<Vec<String>>,
}

/// A rule template.
#[derive(Debug)]
pub struct SuggestionRule {
    pub match_pattern: String,
    pub replace: Vec<SuggestionReplacement>,
}

/// A replacement template.
#[derive(Debug)]
pub struct SuggestionReplacement {
    pub label: String,
    pub with_value: String,
    pub default: bool,
}

/// Template variables: names with their values, each name once, in the
/// order in which they were first set.
#[derive(Debug)]
pub struct TemplateVars {
    entries: Vec<(String, String)>,
}

/// The characters of each name and value.
pub open spec fn pairs_view(v: Seq<(String, String)>) -> Seq<(Seq<char>, Seq<char>)> {
    v.map_values(|p: (String, String)| (p.0@, p.1@))
}

/// `i` is the first entry named `k`.
pub open spec fn first_named(entries: Seq<(Seq<char>, Seq<char>)>, k: Seq<char>, i: int) -> bool {
    0 <= i < entries.len() && entries[i].0 == k && forall|j: int|
        0 <= j < i ==> (#[trigger] entries[j]).0 != k
}

/// The value of the first entry named `k`.
pub open spec fn value_of(entries: Seq<(Seq<char>, Seq<char>)>, k: Seq<char>) -> Option<Seq<char>> {
    if exists|i: int| first_named(entries, k, i) {
        Some(entries[choose|i: int| first_named(entries, k, i)].1)
    } else {
        None
    }
}

/// The entries with `k` set to `v`: in place of the first entry named `k`,
/// or appended.
pub open spec fn set_var(entries: Seq<(Seq<char>, Seq<char>)>, k: Seq<char>, v: Seq<char>) -> Seq<
    (Seq<char>, Seq<char>),
> {
    if exists|i: int| first_named(entries, k, i) {
        entries.update(choose|i: int| first_named(entries, k, i), (k, v))
    } else {
        entries.push((k, v))
    }
}

proof fn lemma_first_named_unique(
    entries: Seq<(Seq<char>, Seq<char>)>,
    k: Seq<char>,
    i: int,
    j: int,
)
    requires
        first_named(entries, k, i),
        first_named(entries, k, j),
    ensures
        i == j,
{
    if i < j {
        assert(entries[i].0 != k);
    } else if j < i {
        assert(entries[j].0 != k);
    }
}

impl View for TemplateVars {
    type V = Seq<(Seq<char>, Seq<char>)>;

    closed spec fn view(&self) -> Seq<(Seq<char>, Seq<char>)> {
        pairs_view(self.entries@)
    }
}

impl TemplateVars {
    /// No variables.
    pub fn new() -> (r: TemplateVars)
        ensures
            r@ == Seq::<(Seq<char>, Seq<char>)>::empty(),
    {
        let r = TemplateVars { entries: Vec::new() };
        assert(r@ =~= Seq::<(Seq<char>, Seq<char>)>::empty());
        r
    }

    /// The position of the first entry named `k`.
    fn find(&self, k: &Vec<char>) -> (r: Option<usize>)
        ensures
            match r {
                Some(i) => first_named(self@, k@, i as int),
                None => !exists|i: int| first_named(self@, k@, i),
            },
    {
        let ghost ev = self@;
        let mut i: usize = 0;
        while i < self.entries.len()
            invariant
                i <= self.entries.len(),
                ev == self@,
                ev == pairs_view(self.entries@),
                forall|j: int| 0 <= j < i ==> (#[trigger] ev[j]).0 != k@,
            decreases self.entries.len() - i,
        {
            if same_chars(&chars_of(self.entries[i].0.as_str()), k) {
                assert(first_named(ev, k@, i as int));
                return Some(i);
            }
            i += 1;
        }
        assert forall|c: int| !first_named(ev, k@, c) by {
            if 0 <= c < ev.len() {
                assert(ev[c].0 != k@);
            }
        }
        None
    }

    /// Sets `key` to `value`.
    pub fn insert(&mut self, key: String, value: String)
        ensures
            final(self)@ == set_var(old(self)@, key@, value@),
    {
        let ghost ev = self@;
        let ghost kv = (key@, value@);
        match self.find(&chars_of(key.as_str())) {
            Some(i) => {
                proof {
                    let c = choose|c: int| first_named(ev, key@, c);
                    lemma_first_named_unique(ev, key@, i as int, c);
                }
                self.entries.set(i, (key, value));
                assert(self@ =~= ev.update(i as int, kv));
            },
            None => {
                self.entries.push((key, value));
                assert(self@ =~= ev.push(kv));
            },
        }
    }

    /// The value of `key`.
    pub fn get(&self, key: &str) -> (r: Option<String>)
        ensures
            opt_string_view(r) == value_of(self@, key@),
    {
        match self.find(&chars_of(key)) {
            Some(i) => {
                proof {
                    let c = choose|c: int| first_named(self@, key@, c);
                    lemma_first_named_unique(self@, key@, i as int, c);
                }
                Some(self.entries[i].1.clone())
            },
            None => None,
        }
    }
}

/// A set variable reads back as the value it was set to.
pub proof fn lemma_set_then_get(entries: Seq<(Seq<char>, Seq<char>)>, k: Seq<char>, v: Seq<char>)
    ensures
        value_of(set_var(entries, k, v), k) == Some(v),
{
    let s = set_var(entries, k, v);
    if exists|i: int| first_named(entries, k, i) {
        let i = choose|i: int| first_named(entries, k, i);
        assert(first_named(s, k, i)) by {
            assert forall|j: int| 0 <= j < i implies (#[trigger] s[j]).0 != k by {
                assert(s[j] == entries[j]);
            }
        }
        let c = choose|c: int| first_named(s, k, c);
        lemma_first_named_unique(s, k, i, c);
    } else {
        let i = entries.len() as int;
        assert(first_named(s, k, i)) by {
            assert forall|j: int| 0 <= j < i implies (#[trigger] s[j]).0 != k by {
                assert(s[j] == entries[j]);
                if entries[j].0 == k {
                    lemma_first_named_exists(entries, k, j);
                }
            }
        }
        let c = choose|c: int| first_named(s, k, c);
        lemma_first_named_unique(s, k, i, c);
    }
}

proof fn lemma_first_named_exists(entries: Seq<(Seq<char>, Seq<char>)>, k: Seq<char>, j: int)
    requires
        0 <= j < entries.len(),
        entries[j].0 == k,
    ensures
        exists|i: int| first_named(entries, k, i),
    decreases j,
{
    if forall|m: int| 0 <= m < j ==> (#[trigger] entries[m]).0 != k {
        assert(first_named(entries, k, j));
    } else {
        let m = choose|m: int| 0 <= m < j && (#[trigger] entries[m]).0 == k;
        lemma_first_named_exists(entries, k, m);
    }
}

/// The placeholder for variable `k`: `{{k}}`.
pub open spec fn placeholder(k: Seq<char>) -> Seq<char> {
    seq!['{', '{'] + k + seq!['}', '}']
}

/// The template with each variable's placeholder replaced by its value,
/// one variable after another in the order of the entries.
pub open spec fn render_seq(t: Seq<char>, entries: Seq<(Seq<char>, Seq<char>)>) -> Seq<char>
    decreases entries.len(),
{
    if entries.len() == 0 {
        t
    } else {
        replace_all_seq(
            render_seq(t, entries.drop_last()),
            placeholder(entries.last().0),
            entries.last().1,
        )
    }
}

/// Fills in a template: every `{{name}}` of a set variable becomes its
/// value; other text, unknown placeholders included, stays as it is.
pub fn render_template(template: &str, vars: &TemplateVars) -> (r: String)
    ensures
        r@ == render_seq(template@, vars@),
{
    let ghost ev = vars@;
    let mut out = chars_of(template);
    let mut i: usize = 0;
    assert(ev.take(0) =~= seq![]);
    while i < vars.entries.len()
        invariant
            i <= vars.entries.len(),
            ev == vars@,
            ev == pairs_view(vars.entries@),
            out@ == render_seq(template@, ev.take(i as int)),
        decreases vars.entries.len() - i,
    {
        assert(ev.take(i + 1).drop_last() == ev.take(i as int));
        assert(ev.take(i + 1).last() == ev[i as int]);
        let mut ph = vec!['{', '{'];
        extend_chars(&mut ph, &chars_of(vars.entries[i].0.as_str()));
        ph.push('}');
        ph.push('}');
        assert(ph@ =~= placeholder(ev[i as int].0));
        out = replace_chars(&out, &ph, &chars_of(vars.entries[i].1.as_str()));
        i += 1;
    }
    assert(ev.take(vars.entries.len() as int) == ev);
    string_of(&out)
}

/// Replacing a pattern that does not occur changes nothing.
pub proof fn lemma_replace_absent(s: Seq<char>, p: Seq<char>, r: Seq<char>)
    requires
        p.len() > 0,
        !contains_seq(s, p),
    ensures
        replace_all_seq(s, p, r) == s,
    decreases s.len(),
{
    if s.len() >= p.len() {
        assert(!occurs_at(s, p, 0));
        assert(s.subrange(0, p.len() as int) == s.take(p.len() as int));
        assert(!contains_seq(s.drop_first(), p)) by {
            if contains_seq(s.drop_first(), p) {
                let i = choose|i: int| occurs_at(s.drop_first(), p, i);
                assert(s.subrange(i + 1, i + 1 + p.len()) == s.drop_first().subrange(
                    i,
                    i + p.len(),
                ));
                assert(occurs_at(s, p, i + 1));
            }
        }
        lemma_replace_absent(s.drop_first(), p, r);
        assert(s == seq![s[0]] + s.drop_first());
    }
}

/// A template in which no variable's placeholder occurs is left as it is.
pub proof fn lemma_render_without_placeholders(t: Seq<char>, entries: Seq<(Seq<char>, Seq<char>)>)
    requires
        forall|i: int| 0 <= i < entries.len() ==> !contains_seq(t, placeholder(#[trigger] entries[i].0)),
    ensures
        render_seq(t, entries) == t,
    decreases entries.len(),
{
    if entries.len() > 0 {
        assert forall|i: int| 0 <= i < entries.drop_last().len() implies !contains_seq(
            t,
            placeholder(#[trigger] entries.drop_last()[i].0),
        ) by {
            assert(entries.drop_last()[i] == entries[i]);
        }
        lemma_render_without_placeholders(t, entries.drop_last());
        assert(!contains_seq(t, placeholder(entries[entries.len() - 1].0)));
        lemma_replace_absent(t, placeholder(entries.last().0), entries.last().1);
    }
}


/// `s` holds no brace.
pub open spec fn brace_free(s: Seq<char>) -> bool {
    forall|i: int| 0 <= i < s.len() ==> s[i] != '{' && s[i] != '}'
}

/// `s` holds no opening brace.
pub open spec fn no_open_brace(s: Seq<char>) -> bool {
    forall|i: int| 0 <= i < s.len() ==> s[i] != '{'
}

/// `t` begins with the placeholder of the brace-free name `x`.
pub open spec fn opens_with(t: Seq<char>, x: Seq<char>) -> bool {
    brace_free(x) && placeholder(x).len() <= t.len() && t.take(placeholder(x).len() as int)
        == placeholder(x)
}

/// The template filled in in one pass from left to right: each placeholder
/// of a name that `m` holds becomes that name's value, other placeholders
/// and all other text stay as they are.
pub open spec fn fill(t: Seq<char>, m: Map<Seq<char>, Seq<char>>) -> Seq<char>
    decreases t.len(),
{
    if t.len() == 0 {
        seq![]
    } else if exists|x: Seq<char>| opens_with(t, x) {
        let x = choose|x: Seq<char>| opens_with(t, x);
        (if m.contains_key(x) {
            m[x]
        } else {
            placeholder(x)
        }) + fill(t.skip(placeholder(x).len() as int), m)
    } else {
        seq![t[0]] + fill(t.drop_first(), m)
    }
}

/// Every opening brace of the template begins the placeholder of a
/// brace-free name.
pub open spec fn template_ok(t: Seq<char>) -> bool
    decreases t.len(),
{
    if t.len() == 0 {
        true
    } else if exists|x: Seq<char>| opens_with(t, x) {
        template_ok(t.skip(placeholder(choose|x: Seq<char>| opens_with(t, x)).len() as int))
    } else {
        t[0] != '{' && template_ok(t.drop_first())
    }
}

/// The variables as a map from name to value, a later entry winning.
pub open spec fn vars_map(entries: Seq<(Seq<char>, Seq<char>)>) -> Map<Seq<char>, Seq<char>>
    decreases entries.len(),
{
    if entries.len() == 0 {
        Map::empty()
    } else {
        vars_map(entries.drop_last()).insert(entries.last().0, entries.last().1)
    }
}

/// A text without opening braces holds no placeholder: replacing one after
/// it leaves it in front.
proof fn lemma_replace_after_plain(a: Seq<char>, b: Seq<char>, k: Seq<char>, v: Seq<char>)
    requires
        no_open_brace(a),
    ensures
        replace_all_seq(a + b, placeholder(k), v) == a + replace_all_seq(b, placeholder(k), v),
    decreases a.len(),
{
    let p = placeholder(k);
    if a.len() > 0 {
        let s = a + b;
        if s.len() >= p.len() {
            assert(s.take(p.len() as int)[0] != p[0]);
            assert(s.take(p.len() as int) != p);
        }
        assert(no_open_brace(a.drop_first()));
        lemma_replace_after_plain(a.drop_first(), b, k, v);
        assert(s.drop_first() =~= a.drop_first() + b);
        if s.len() < p.len() {
            assert(b.len() < p.len());
            assert(a + b =~= a + replace_all_seq(b, p, v));
        } else {
            assert(seq![s[0]] + (a.drop_first() + replace_all_seq(b, p, v)) =~= a + replace_all_seq(b, p, v));
        }
    } else {
        assert(a + b =~= b);
    }
}

/// Two brace-free names whose placeholders begin the same text are equal.
proof fn lemma_opens_unique(t: Seq<char>, x: Seq<char>, y: Seq<char>)
    requires
        opens_with(t, x),
        opens_with(t, y),
    ensures
        x == y,
{
    if x.len() < y.len() {
        assert(t[x.len() as int + 2] == placeholder(x)[x.len() as int + 2]);
        assert(t[x.len() as int + 2] == placeholder(y)[x.len() as int + 2]);
        assert(placeholder(y)[x.len() as int + 2] == y[x.len() as int]);
    } else if y.len() < x.len() {
        assert(t[y.len() as int + 2] == placeholder(y)[y.len() as int + 2]);
        assert(t[y.len() as int + 2] == placeholder(x)[y.len() as int + 2]);
        assert(placeholder(x)[y.len() as int + 2] == x[y.len() as int]);
    } else {
        assert forall|i: int| 0 <= i < x.len() implies x[i] == y[i] by {
            assert(t[i + 2] == placeholder(x)[i + 2]);
            assert(t[i + 2] == placeholder(y)[i + 2]);
        }
        assert(x =~= y);
    }
}

/// The placeholder of another name is kept as it is.
proof fn lemma_replace_after_other(x: Seq<char>, y: Seq<char>, k: Seq<char>, v: Seq<char>)
    requires
        brace_free(x),
        brace_free(k),
        x != k,
    ensures
        replace_all_seq(placeholder(x) + y, placeholder(k), v) == placeholder(x) + replace_all_seq(
            y,
            placeholder(k),
            v,
        ),
{
    let p = placeholder(k);
    let s = placeholder(x) + y;
    let mid = x + seq!['}', '}'];
    assert(no_open_brace(mid));
    lemma_replace_after_plain(mid, y, k, v);
    if y.len() < p.len() {
        assert(replace_all_seq(y, p, v) == y);
    }
    if s.len() >= p.len() {
        assert(s.take(placeholder(x).len() as int) =~= placeholder(x));
        if s.take(p.len() as int) == p {
            assert(opens_with(s, x));
            assert(opens_with(s, k));
            lemma_opens_unique(s, x, k);
        }
        assert(replace_all_seq(s, p, v) == seq![s[0]] + replace_all_seq(s.drop_first(), p, v));
        let s1 = s.drop_first();
        assert(s1 =~= seq!['{'] + (mid + y));
        assert(s1.drop_first() =~= mid + y);
        if s1.len() >= p.len() {
            assert(s1[1] == mid[0]);
            assert(s1.take(p.len() as int)[1] != p[1]);
            assert(replace_all_seq(s1, p, v) == seq![s1[0]] + replace_all_seq(s1.drop_first(), p, v));
            assert(seq![s[0]] + (seq![s1[0]] + (mid + replace_all_seq(y, p, v))) =~= placeholder(x)
                + replace_all_seq(y, p, v));
        } else {
            assert(replace_all_seq(s1, p, v) == s1);
            assert(replace_all_seq(y, p, v) == y);
            assert(seq![s[0]] + s1 =~= placeholder(x) + y);
        }
    } else {
        assert(replace_all_seq(s, p, v) == s);
        assert(s =~= placeholder(x) + replace_all_seq(y, p, v));
    }
}

/// The placeholder of the name itself becomes its value.
proof fn lemma_replace_at_own(y: Seq<char>, k: Seq<char>, v: Seq<char>)
    ensures
        replace_all_seq(placeholder(k) + y, placeholder(k), v) == v + replace_all_seq(
            y,
            placeholder(k),
            v,
        ),
{
    let s = placeholder(k) + y;
    assert(s.take(placeholder(k).len() as int) =~= placeholder(k));
    assert(s.skip(placeholder(k).len() as int) =~= y);
}

/// Replacing the placeholder of a further name in a one-pass fill is the
/// one-pass fill with that name added.
proof fn lemma_replace_fill(t: Seq<char>, m: Map<Seq<char>, Seq<char>>, k: Seq<char>, v: Seq<char>)
    requires
        template_ok(t),
        brace_free(k),
        !m.contains_key(k),
        forall|y: Seq<char>| m.contains_key(y) ==> no_open_brace(#[trigger] m[y]),
    ensures
        replace_all_seq(fill(t, m), placeholder(k), v) == fill(t, m.insert(k, v)),
    decreases t.len(),
{
    let m2 = m.insert(k, v);
    if t.len() == 0 {
    } else if exists|x: Seq<char>| opens_with(t, x) {
        let x = choose|x: Seq<char>| opens_with(t, x);
        let rest = t.skip(placeholder(x).len() as int);
        lemma_replace_fill(rest, m, k, v);
        if m.contains_key(x) {
            assert(x != k);
            assert(m2[x] == m[x]);
            lemma_replace_after_plain(m[x], fill(rest, m), k, v);
        } else if x == k {
            lemma_replace_at_own(fill(rest, m), k, v);
        } else {
            assert(!m2.contains_key(x));
            lemma_replace_after_other(x, fill(rest, m), k, v);
        }
    } else {
        assert(no_open_brace(seq![t[0]]));
        lemma_replace_after_plain(seq![t[0]], fill(t.drop_first(), m), k, v);
        lemma_replace_fill(t.drop_first(), m, k, v);
    }
}

/// No two entries have the same name.
pub open spec fn names_distinct(entries: Seq<(Seq<char>, Seq<char>)>) -> bool {
    forall|i: int, j: int| 0 <= i < j < entries.len() ==> #[trigger] entries[i].0 != #[trigger] entries[j].0
}

/// Names and values free of braces.
pub open spec fn entries_brace_free(entries: Seq<(Seq<char>, Seq<char>)>) -> bool {
    forall|i: int|
        0 <= i < entries.len() ==> brace_free(#[trigger] entries[i].0) && brace_free(entries[i].1)
}

/// The map of the entries holds exactly their names, with their values.
proof fn lemma_vars_map(entries: Seq<(Seq<char>, Seq<char>)>)
    ensures
        forall|y: Seq<char>|
            #[trigger] vars_map(entries).contains_key(y) ==> exists|i: int|
                0 <= i < entries.len() && entries[i].0 == y && vars_map(entries)[y] == entries[i].1,
    decreases entries.len(),
{
    if entries.len() > 0 {
        lemma_vars_map(entries.drop_last());
        assert forall|y: Seq<char>| #[trigger] vars_map(entries).contains_key(y) implies exists|i: int|
            0 <= i < entries.len() && entries[i].0 == y && vars_map(entries)[y] == entries[i].1 by {
            if y == entries.last().0 {
                assert(entries[entries.len() - 1].0 == y);
            } else {
                let i = choose|i: int|
                    0 <= i < entries.drop_last().len() && entries.drop_last()[i].0 == y
                        && vars_map(entries.drop_last())[y] == entries.drop_last()[i].1;
                assert(entries[i] == entries.drop_last()[i]);
            }
        }
    }
}

/// A template whose opening braces all begin placeholders, filled in from
/// variables whose names are distinct and whose names and values hold no
/// braces, is the one-pass fill from the map of the variables.
pub proof fn lemma_render_is_fill(t: Seq<char>, entries: Seq<(Seq<char>, Seq<char>)>)
    requires
        template_ok(t),
        names_distinct(entries),
        entries_brace_free(entries),
    ensures
        render_seq(t, entries) == fill(t, vars_map(entries)),
    decreases entries.len(),
{
    if entries.len() == 0 {
        lemma_fill_nothing(t);
    } else {
        let prev = entries.drop_last();
        let (k, v) = entries.last();
        assert(names_distinct(prev)) by {
            assert forall|i: int, j: int| 0 <= i < j < prev.len() implies #[trigger] prev[i].0
                != #[trigger] prev[j].0 by {
                assert(prev[i] == entries[i] && prev[j] == entries[j]);
            }
        }
        assert(entries_brace_free(prev)) by {
            assert forall|i: int| 0 <= i < prev.len() implies brace_free(#[trigger] prev[i].0)
                && brace_free(prev[i].1) by {
                assert(prev[i] == entries[i]);
            }
        }
        lemma_render_is_fill(t, prev);
        lemma_vars_map(prev);
        assert(brace_free(entries[entries.len() - 1].0));
        assert(!vars_map(prev).contains_key(k)) by {
            if vars_map(prev).contains_key(k) {
                let i = choose|i: int| 0 <= i < prev.len() && prev[i].0 == k && vars_map(prev)[k] == prev[i].1;
                assert(entries[i].0 != entries[entries.len() - 1].0);
            }
        }
        assert forall|y: Seq<char>| vars_map(prev).contains_key(y) implies no_open_brace(
            #[trigger] vars_map(prev)[y],
        ) by {
            let i = choose|i: int| 0 <= i < prev.len() && prev[i].0 == y && vars_map(prev)[y] == prev[i].1;
            assert(brace_free(entries[i].1));
        }
        lemma_replace_fill(t, vars_map(prev), k, v);
    }
}

/// With no variables the fill keeps the template.
proof fn lemma_fill_nothing(t: Seq<char>)
    ensures
        fill(t, Map::empty()) == t,
    decreases t.len(),
{
    if t.len() > 0 {
        if exists|x: Seq<char>| opens_with(t, x) {
            let x = choose|x: Seq<char>| opens_with(t, x);
            lemma_fill_nothing(t.skip(placeholder(x).len() as int));
            assert(t =~= placeholder(x) + t.skip(placeholder(x).len() as int));
        } else {
            lemma_fill_nothing(t.drop_first());
            assert(t =~= seq![t[0]] + t.drop_first());
        }
    }
}

/// Filling in a template depends only on the value given to each name:
/// two lists of variables that give every name the same value fill in a
/// template the same way, when the names are distinct, no name or value
/// holds a brace, and every opening brace of the template begins a
/// placeholder.
pub proof fn lemma_render_order_free(
    t: Seq<char>,
    a: Seq<(Seq<char>, Seq<char>)>,
    b: Seq<(Seq<char>, Seq<char>)>,
)
    requires
        template_ok(t),
        names_distinct(a),
        names_distinct(b),
        entries_brace_free(a),
        entries_brace_free(b),
        vars_map(a) == vars_map(b),
    ensures
        render_seq(t, a) == render_seq(t, b),
{
    lemma_render_is_fill(t, a);
    lemma_render_is_fill(t, b);
}

/// With distinct names, each entry's name maps to its value.
proof fn lemma_vars_map_has(entries: Seq<(Seq<char>, Seq<char>)>, i: int)
    requires
        names_distinct(entries),
        0 <= i < entries.len(),
    ensures
        vars_map(entries).contains_key(entries[i].0),
        vars_map(entries)[entries[i].0] == entries[i].1,
    decreases entries.len(),
{
    if i < entries.len() - 1 {
        let prev = entries.drop_last();
        assert(names_distinct(prev)) by {
            assert forall|a: int, b: int| 0 <= a < b < prev.len() implies #[trigger] prev[a].0
                != #[trigger] prev[b].0 by {
                assert(prev[a] == entries[a] && prev[b] == entries[b]);
            }
        }
        assert(prev[i] == entries[i]);
        lemma_vars_map_has(prev, i);
        assert(entries[i].0 != entries[entries.len() - 1].0);
    }
}

/// The same variables in another order give the same map.
pub proof fn lemma_vars_map_permutation(a: Seq<(Seq<char>, Seq<char>)>, b: Seq<(Seq<char>, Seq<char>)>)
    requires
        names_distinct(a),
        names_distinct(b),
        a.to_multiset() == b.to_multiset(),
    ensures
        vars_map(a) == vars_map(b),
{
    broadcast use vstd::seq_lib::group_to_multiset_ensures;
    lemma_vars_map(a);
    lemma_vars_map(b);
    assert forall|y: Seq<char>| #[trigger] vars_map(a).contains_key(y) implies vars_map(b).contains_key(y)
        && vars_map(b)[y] == vars_map(a)[y] by {
        let i = choose|i: int| 0 <= i < a.len() && a[i].0 == y && vars_map(a)[y] == a[i].1;
        assert(a.contains(a[i]));
        assert(b.to_multiset().count(a[i]) > 0);
        assert(b.contains(a[i]));
        let j = choose|j: int| 0 <= j < b.len() && b[j] == a[i];
        lemma_vars_map_has(b, j);
    }
    assert forall|y: Seq<char>| #[trigger] vars_map(b).contains_key(y) implies vars_map(a).contains_key(y) by {
        let j = choose|j: int| 0 <= j < b.len() && b[j].0 == y && vars_map(b)[y] == b[j].1;
        assert(b.contains(b[j]));
        assert(a.to_multiset().count(b[j]) > 0);
        assert(a.contains(b[j]));
        let i = choose|i: int| 0 <= i < a.len() && a[i] == b[j];
        lemma_vars_map_has(a, i);
    }
    assert(vars_map(a) =~= vars_map(b));
}

/// Filling in a template does not depend on the order of the variables:
/// the same variables listed in any order fill in a template the same way,
/// when the names are distinct, no name or value holds a brace, and every
/// opening brace of the template begins a placeholder.
pub proof fn lemma_render_permutation_free(
    t: Seq<char>,
    a: Seq<(Seq<char>, Seq<char>)>,
    b: Seq<(Seq<char>, Seq<char>)>,
)
    requires
        template_ok(t),
        names_distinct(a),
        names_distinct(b),
        entries_brace_free(a),
        entries_brace_free(b),
        a.to_multiset() == b.to_multiset(),
    ensures
        render_seq(t, a) == render_seq(t, b),
{
    lemma_vars_map_permutation(a, b);
    lemma_render_order_free(t, a, b);
}

/// What was found on the system for a suggestion's conditions: whether its
/// program is on the PATH, whether its file pattern matches a file, and
/// whether its kind of project is present.
#[derive(Debug)]
pub struct DetectFindings {
    pub bin_found: bool,
    pub file_found: bool,
    pub project_found: bool,
}

/// The reasons for which a suggestion applies: none when a condition it has
/// fails or it has no condition; else one reason per condition, joined by
/// commas.
pub open spec fn detect_reasons(
    bin: Option<Seq<char>>,
    file: Option<Seq<char>>,
    project: Option<Seq<char>>,
    f: DetectFindings,
) -> Option<Seq<char>> {
    if (bin is Some && !f.bin_found) || (file is Some && !f.file_found) || (project is Some
        && !f.project_found) {
        None
    } else {
        let reasons = (if bin is Some {
            seq![bin->0 + " found on PATH"@]
        } else {
            Seq::<Seq<char>>::empty()
        }) + (if file is Some {
            seq![file->0 + " exists"@]
        } else {
            Seq::<Seq<char>>::empty()
        }) + (if project is Some {
            seq![project->0 + " project detected"@]
        } else {
            Seq::<Seq<char>>::empty()
        });
        if reasons.len() == 0 {
            None
        } else {
            Some(join_seq(reasons, ", "@))
        }
    }
}

/// `s` followed by `suffix`.
fn with_suffix(s: &String, suffix: &str) -> (r: String)
    ensures
        r@ == s@ + suffix@,
{
    let mut r = s.clone();
    r.append(suffix);
    r
}

/// Why the suggestion applies, or none when it does not.
pub fn detect_matches(cond: &DetectCondition, found: &DetectFindings) -> (r: Option<String>)
    ensures
        opt_string_view(r) == detect_reasons(
            opt_string_view(cond.bin),
            opt_string_view(cond.file),
            opt_string_view(cond.project),
            *found,
        ),
{
    let mut reasons: Vec<String> = Vec::new();
    if let Some(bin) = &cond.bin {
        if !found.bin_found {
            return None;
        }
        reasons.push(with_suffix(bin, " found on PATH"));
    }
    if let Some(file) = &cond.file {
        if !found.file_found {
            return None;
        }
        reasons.push(with_suffix(file, " exists"));
    }
    if let Some(project) = &cond.project {
        if !found.project_found {
            return None;
        }
        reasons.push(with_suffix(project, " project detected"));
    }
    let ghost expected = (if cond.bin is Some {
        seq![cond.bin->0@ + " found on PATH"@]
    } else {
        Seq::<Seq<char>>::empty()
    }) + (if cond.file is Some {
        seq![cond.file->0@ + " exists"@]
    } else {
        Seq::<Seq<char>>::empty()
    }) + (if cond.project is Some {
        seq![cond.project->0@ + " project detected"@]
    } else {
        Seq::<Seq<char>>::empty()
    });
    assert(strings_view(reasons@) =~= expected);
    if reasons.len() == 0 {
        return None;
    }
    let sep = chars_of(", ");
    Some(string_of(&join_strings(&reasons, &sep)))
}

/// The file whose presence marks a kind of project: `package.json` for node.
pub open spec fn project_marker_spec(project_type: Seq<char>) -> Option<Seq<char>> {
    if project_type == "node"@ {
        Some("package.json"@)
    } else {
        None
    }
}

/// The file whose presence marks a kind of project.
pub fn project_marker(project_type: &str) -> (r: Option<String>)
    ensures
        opt_string_view(r) == project_marker_spec(project_type@),
{
    if same_chars(&chars_of(project_type), &chars_of("node")) {
        Some("package.json".to_owned())
    } else {
        None
    }
}

/// A kind of project is detected when it has a marker file and that file
/// exists; `marker_exists` tells whether the marker exists.
pub fn project_detected(project_type: &str, marker_exists: bool) -> (b: bool)
    ensures
        b == (project_marker_spec(project_type@) is Some && marker_exists),
{
    project_marker(project_type).is_some() && marker_exists
}

/// The detection source that lists the scripts of `package.json`.
pub open spec fn is_scripts_source(source: Seq<char>) -> bool {
    source == "package.json.scripts"@
}

/// Whether the options come from the scripts of `package.json`.
pub fn reads_package_scripts(source: &str) -> (b: bool)
    ensures
        b == is_scripts_source(source@),
{
    same_chars(&chars_of(source), &chars_of("package.json.scripts"))
}

/// The script names of a `package.json` text: the keys of its `scripts`
/// object, sorted; none when it has no `scripts` object; the JSON error's
/// message when the text is not JSON.
pub open spec fn package_scripts(text: Seq<char>) -> Result<Seq<Seq<char>>, Seq<char>> {
    if !json_accepts(text) {
        Err(json_rejection(text))
    } else {
        match json_member_keys(text, "scripts"@) {
            Some(names) => Ok(names.sort_by(chars_order())),
            None => Ok(seq![]),
        }
    }
}

/// The script names of a `package.json` text, sorted; a `Config` error with
/// the JSON parser's message when the text is not JSON.
pub fn package_json_scripts(text: &str) -> (r: Result<Vec<String>, SwapxError>)
    ensures
        match package_scripts(text@) {
            Ok(names) => r matches Ok(v) && strings_view(v@) == names && sorted_by(
                strings_view(v@),
                chars_order(),
            ),
            Err(m) => r matches Err(e) && e matches SwapxError::Config(x) && x@ == m,
        },
{
    let member = "scripts";
    match json_member_keys_of(text, member) {
        Ok(Some(names)) => Ok(sort_strings(&names)),
        Ok(None) => {
            let r: Vec<String> = Vec::new();
            assert(strings_view(r@) =~= seq![]);
            Ok(r)
        },
        Err(m) => Err(SwapxError::Config(m)),
    }
}

/// `o` contains one of the filter words.
pub open spec fn passes_filter(o: Seq<char>, filter: Seq<Seq<char>>) -> bool {
    exists|j: int| 0 <= j < filter.len() && contains_seq(o, #[trigger] filter[j])
}

/// The options kept by an optional filter, in order.
pub open spec fn filtered(options: Seq<Seq<char>>, filter: Option<Seq<Seq<char>>>) -> Seq<Seq<char>>
    decreases options.len(),
{
    match filter {
        None => options,
        Some(f) => if options.len() == 0 {
            seq![]
        } else {
            let rest = filtered(options.drop_last(), filter);
            if passes_filter(options.last(), f) {
                rest.push(options.last())
            } else {
                rest
            }
        },
    }
}

/// The options a prompt offers: the scripts of `package.json` for that
/// source (nothing for any other), kept when they contain a filter word.
pub open spec fn detected_options(
    source: Seq<char>,
    filter: Option<Seq<Seq<char>>>,
    scripts: Seq<Seq<char>>,
) -> Seq<Seq<char>> {
    if is_scripts_source(source) {
        filtered(scripts, filter)
    } else {
        seq![]
    }
}

/// The optional filter's words.
pub open spec fn opt_strings_view(o: Option<Vec<String>>) -> Option<Seq<Seq<char>>> {
    match o {
        Some(v) => Some(strings_view(v@)),
        None => None,
    }
}

/// Whether `o` contains one of the words.
fn passes_filter_exec(o: &Vec<char>, filter: &Vec<String>) -> (b: bool)
    ensures
        b == passes_filter(o@, strings_view(filter@)),
{
    let mut j: usize = 0;
    while j < filter.len()
        invariant
            j <= filter.len(),
            forall|k: int| 0 <= k < j ==> !contains_seq(o@, #[trigger] strings_view(filter@)[k]),
        decreases filter.len() - j,
    {
        if contains_chars(o, &chars_of(filter[j].as_str())) {
            assert(contains_seq(o@, strings_view(filter@)[j as int]));
            return true;
        }
        j += 1;
    }
    false
}

/// The options a prompt offers, given the scripts of `package.json` (read
/// only for that source).
pub fn detect_options(source: &str, filter: &Option<Vec<String>>, scripts: &Vec<String>) -> (r: Vec<
    String,
>)
    ensures
        strings_view(r@) == detected_options(source@, opt_strings_view(*filter), strings_view(scripts@)),
{
    if !reads_package_scripts(source) {
        let r: Vec<String> = Vec::new();
        assert(strings_view(r@) =~= seq![]);
        return r;
    }
    match filter {
        None => crate::models::copy_strings(scripts),
        Some(f) => {
            let ghost sv = strings_view(scripts@);
            let mut r: Vec<String> = Vec::new();
            let mut i: usize = 0;
            assert(sv.take(0) =~= seq![]);
            assert(strings_view(r@) =~= seq![]);
            while i < scripts.len()
                invariant
                    i <= scripts.len(),
                    sv == strings_view(scripts@),
                    strings_view(r@) == filtered(sv.take(i as int), Some(strings_view(f@))),
                decreases scripts.len() - i,
            {
                assert(sv.take(i + 1).drop_last() == sv.take(i as int));
                assert(sv.take(i + 1).last() == scripts@[i as int]@);
                let o = chars_of(scripts[i].as_str());
                if passes_filter_exec(&o, f) {
                    let ghost prev = r@;
                    let c = scripts[i].clone();
                    r.push(c);
                    assert(r@ == prev.push(c));
                    assert(strings_view(r@) =~= strings_view(prev).push(c@));
                }
                i += 1;
            }
            assert(sv.take(scripts.len() as int) == sv);
            r
        },
    }
}

/// What to do for one prompt.
#[derive(Debug)]
pub enum PromptStep {
    /// Use this value without asking.
    Value(String),
    /// Ask for text, offering the default when there is one.
    Input { message: String, default: Option<String> },
    /// Ask the user to pick one of the options.
    Select { message: String, options: Vec<String> },
}

pub ghost enum PromptStepView {
    Value(Seq<char>),
    Input { message: Seq<char>, default: Option<Seq<char>> },
    Select { message: Seq<char>, options: Seq<Seq<char>> },
}

impl View for PromptStep {
    type V = PromptStepView;

    open spec fn view(&self) -> PromptStepView {
        match self {
            PromptStep::Value(v) => PromptStepView::Value(v@),
            PromptStep::Input { message, default } => PromptStepView::Input {
                message: message@,
                default: opt_string_view(*default),
            },
            PromptStep::Select { message, options } => PromptStepView::Select {
                message: message@,
                options: strings_view(options@),
            },
        }
    }
}

/// The prompt's default, filled in from the variables.
pub open spec fn rendered_default(default: Option<Seq<char>>, vars: Seq<(Seq<char>, Seq<char>)>) -> Option<
    Seq<char>,
> {
    match default {
        Some(d) => Some(render_seq(d, vars)),
        None => None,
    }
}

/// What to do for a prompt. With a detection source: in automatic mode the
/// first option, else the filled-in default, else nothing; interactively a
/// choice among the options, or a text question when there are none.
/// Without one: the filled-in default (or nothing) in automatic mode, a text
/// question otherwise.
pub open spec fn prompt_plan(
    message: Seq<char>,
    default: Option<Seq<char>>,
    has_detect: bool,
    auto: bool,
    vars: Seq<(Seq<char>, Seq<char>)>,
    options: Seq<Seq<char>>,
) -> PromptStepView {
    let d = rendered_default(default, vars);
    if has_detect {
        if auto {
            if options.len() > 0 {
                PromptStepView::Value(options[0])
            } else {
                PromptStepView::Value(
                    match d {
                        Some(x) => x,
                        None => seq![],
                    },
                )
            }
        } else if options.len() == 0 {
            PromptStepView::Input { message, default: d }
        } else {
            PromptStepView::Select { message, options }
        }
    } else if auto {
        PromptStepView::Value(
            match d {
                Some(x) => x,
                None => seq![],
            },
        )
    } else {
        PromptStepView::Input { message, default: d }
    }
}

/// What to do for one prompt, given the options detected for it.
pub fn prompt_step(prompt: &PromptDef, auto: bool, vars: &TemplateVars, options: &Vec<String>) -> (r:
    PromptStep)
    ensures
        r@ == prompt_plan(
            prompt.message@,
            opt_string_view(prompt.default),
            prompt.detect is Some,
            auto,
            vars@,
            strings_view(options@),
        ),
{
    let d = match &prompt.default {
        Some(x) => Some(render_template(x.as_str(), vars)),
        None => None,
    };
    if prompt.detect.is_some() {
        if auto {
            if options.len() > 0 {
                PromptStep::Value(options[0].clone())
            } else {
                PromptStep::Value(
                    match d {
                        Some(x) => x,
                        None => String::new(),
                    },
                )
            }
        } else if options.len() == 0 {
            PromptStep::Input { message: prompt.message.clone(), default: d }
        } else {
            PromptStep::Select {
                message: prompt.message.clone(),
                options: crate::models::copy_strings(options),
            }
        }
    } else if auto {
        PromptStep::Value(
            match d {
                Some(x) => x,
                None => String::new(),
            },
        )
    } else {
        PromptStep::Input { message: prompt.message.clone(), default: d }
    }
}


/// The value a step gives without asking.
pub open spec fn step_value(step: PromptStepView) -> Seq<char> {
    match step {
        PromptStepView::Value(v) => v,
        _ => seq![],
    }
}

/// The options detected for each prompt.
pub open spec fn options_view(v: Seq<Vec<String>>) -> Seq<Seq<Seq<char>>> {
    v.map_values(|o: Vec<String>| strings_view(o@))
}

/// The options of prompt `i`: none when none were given.
pub open spec fn options_at(options: Seq<Seq<Seq<char>>>, i: int) -> Seq<Seq<char>> {
    if 0 <= i < options.len() {
        options[i]
    } else {
        seq![]
    }
}

/// The variables after answering the prompts in order without asking, each
/// prompt's default filled in from the variables set before it.
pub open spec fn auto_resolved(
    prompts: Seq<PromptDef>,
    vars: Seq<(Seq<char>, Seq<char>)>,
    options: Seq<Seq<Seq<char>>>,
) -> Seq<(Seq<char>, Seq<char>)>
    decreases prompts.len(),
{
    if prompts.len() == 0 {
        vars
    } else {
        let before = auto_resolved(prompts.drop_last(), vars, options);
        let p = prompts.last();
        set_var(
            before,
            p.var@,
            step_value(
                prompt_plan(
                    p.message@,
                    opt_string_view(p.default),
                    p.detect is Some,
                    true,
                    before,
                    options_at(options, prompts.len() - 1),
                ),
            ),
        )
    }
}

/// Answers the prompts without asking (automatic mode), setting each
/// prompt's variable; `options[i]` holds the options detected for prompt `i`.
pub fn resolve_prompts(prompts: &[PromptDef], vars: &mut TemplateVars, options: &Vec<Vec<String>>)
    ensures
        final(vars)@ == auto_resolved(prompts@, old(vars)@, options_view(options@)),
{
    let ghost start = vars@;
    let ghost ov = options_view(options@);
    let mut i: usize = 0;
    assert(prompts@.take(0) =~= seq![]);
    while i < prompts.len()
        invariant
            i <= prompts.len(),
            ov == options_view(options@),
            vars@ == auto_resolved(prompts@.take(i as int), start, ov),
        decreases prompts.len() - i,
    {
        assert(prompts@.take(i + 1).drop_last() == prompts@.take(i as int));
        assert(prompts@.take(i + 1).last() == prompts@[i as int]);
        let empty: Vec<String> = Vec::new();
        let opts = if i < options.len() {
            &options[i]
        } else {
            &empty
        };
        assert(strings_view(opts@) == options_at(ov, i as int)) by {
            if i >= options.len() {
                assert(strings_view(empty@) =~= seq![]);
            }
        }
        let step = prompt_step(&prompts[i], true, vars, opts);
        let value = match step {
            PromptStep::Value(v) => v,
            PromptStep::Input { .. } => String::new(),
            PromptStep::Select { .. } => String::new(),
        };
        vars.insert(prompts[i].var.clone(), value);
        i += 1;
    }
    assert(prompts@.take(prompts.len() as int) == prompts@);
}

/// The rule a template makes: its pattern and replacements filled in,
/// literal, enabled, scoped to `dir`, with no conditions.
pub open spec fn rule_from_template(
    sr: SuggestionRule,
    vars: Seq<(Seq<char>, Seq<char>)>,
    dir: Option<Seq<char>>,
) -> RuleView {
    RuleView {
        patterns: seq![render_seq(sr.match_pattern@, vars)],
        regex: false,
        enabled: true,
        dir,
        replace: sr.replace@.map_values(|rep: SuggestionReplacement| replacement_from_template_spec(rep, vars)),
    }
}

/// The replacement a template makes: label and value filled in, no conditions.
pub open spec fn replacement_from_template_spec(
    rep: SuggestionReplacement,
    vars: Seq<(Seq<char>, Seq<char>)>,
) -> ReplacementView {
    ReplacementView {
        label: render_seq(rep.label@, vars),
        with_value: render_seq(rep.with_value@, vars),
        default: rep.default,
        when: None,
    }
}

/// The replacement a template makes.
fn replacement_from_template(rep: &SuggestionReplacement, vars: &TemplateVars) -> (r: Replacement)
    ensures
        r@ == replacement_from_template_spec(*rep, vars@),
{
    Replacement {
        label: render_template(rep.label.as_str(), vars),
        with_value: render_template(rep.with_value.as_str(), vars),
        default: rep.default,
        when: None,
    }
}

/// The rule a template makes.
fn rule_from_template_exec(sr: &SuggestionRule, vars: &TemplateVars, dir: &Option<String>) -> (r:
    Rule)
    ensures
        r@ == rule_from_template(*sr, vars@, opt_string_view(*dir)),
{
    let mut reps: Vec<Replacement> = Vec::new();
    let mut i: usize = 0;
    assert(crate::models::replacements_view(reps@) =~= sr.replace@.take(0).map_values(|rep: SuggestionReplacement| replacement_from_template_spec(rep, vars@)));
    while i < sr.replace.len()
        invariant
            i <= sr.replace.len(),
            crate::models::replacements_view(reps@) == sr.replace@.take(i as int).map_values(|rep: SuggestionReplacement| replacement_from_template_spec(rep, vars@)),
        decreases sr.replace.len() - i,
    {
        let ghost prev = reps@;
        let x = replacement_from_template(&sr.replace[i], vars);
        reps.push(x);
        assert(reps@ == prev.push(x));
        assert(sr.replace@.take(i + 1) == sr.replace@.take(i as int).push(sr.replace@[i as int]));
        assert(crate::models::replacements_view(reps@) =~= crate::models::replacements_view(
            prev,
        ).push(x@));
        assert(sr.replace@.take(i + 1).map_values(|rep: SuggestionReplacement| replacement_from_template_spec(rep, vars@)) =~= sr.replace@.take(i as int).map_values(
            |rep: SuggestionReplacement| replacement_from_template_spec(rep, vars@),
        ).push(replacement_from_template_spec(sr.replace@[i as int], vars@)));
        i += 1;
    }
    assert(sr.replace@.take(sr.replace.len() as int) == sr.replace@);
    let pattern = render_template(sr.match_pattern.as_str(), vars);
    let ghost pv = pattern@;
    let mut patterns: Vec<String> = Vec::new();
    patterns.push(pattern);
    assert(strings_view(patterns@) =~= seq![pv]);
    let r = Rule {
        match_patterns: patterns,
        regex: false,
        enabled: true,
        dir: crate::models::copy_opt_string(dir),
        replace: reps,
    };
    assert(r@.replace =~= rule_from_template(*sr, vars@, opt_string_view(*dir)).replace);
    r
}

/// The rules a suggestion makes, one per rule template, with every
/// placeholder filled in from the variables.
pub fn suggestion_to_rules(def: &SuggestionDef, vars: &TemplateVars, dir_scope: Option<String>) -> (r:
    Vec<Rule>)
    ensures
        crate::models::rules_view(r@) == def.rules@.map_values(
            |sr: SuggestionRule| rule_from_template(sr, vars@, opt_string_view(dir_scope)),
        ),
{
    let mut rules: Vec<Rule> = Vec::new();
    let mut i: usize = 0;
    assert(crate::models::rules_view(rules@) =~= def.rules@.take(0).map_values(|sr: SuggestionRule| rule_from_template(sr, vars@, opt_string_view(dir_scope))));
    while i < def.rules.len()
        invariant
            i <= def.rules.len(),
            crate::models::rules_view(rules@) == def.rules@.take(i as int).map_values(|sr: SuggestionRule| rule_from_template(sr, vars@, opt_string_view(dir_scope))),
        decreases def.rules.len() - i,
    {
        let ghost prev = rules@;
        let x = rule_from_template_exec(&def.rules[i], vars, &dir_scope);
        rules.push(x);
        assert(rules@ == prev.push(x));
        assert(def.rules@.take(i + 1) == def.rules@.take(i as int).push(def.rules@[i as int]));
        assert(crate::models::rules_view(rules@) =~= crate::models::rules_view(prev).push(x@));
        assert(def.rules@.take(i + 1).map_values(|sr: SuggestionRule| rule_from_template(sr, vars@, opt_string_view(dir_scope))) =~= def.rules@.take(i as int).map_values(
            |sr: SuggestionRule| rule_from_template(sr, vars@, opt_string_view(dir_scope)),
        ).push(rule_from_template(def.rules@[i as int], vars@, opt_string_view(dir_scope))));
        i += 1;
    }
    assert(def.rules@.take(def.rules.len() as int) == def.rules@);
    rules
}


/// How `suggest` proceeds once the applicable suggestions are known.
#[derive(Debug, PartialEq, Eq, Structural)]
pub enum SuggestPlan {
    /// None applies: say so and stop.
    NothingFound,
    /// `--check`: list them and stop, saving nothing.
    ListOnly,
    /// `--auto`: accept them all without asking, and save globally.
    AcceptAllGlobal,
    /// Ask which to accept and where to save.
    AskUser,
}

/// What `suggest` does with `n_applicable` applicable suggestions.
pub fn suggest_plan(n_applicable: usize, check: bool, auto: bool) -> (p: SuggestPlan)
    ensures
        n_applicable == 0 ==> p is NothingFound,
        n_applicable > 0 && check ==> p is ListOnly,
        n_applicable > 0 && !check && auto ==> p is AcceptAllGlobal,
        n_applicable > 0 && !check && !auto ==> p is AskUser,
{
    if n_applicable == 0 {
        SuggestPlan::NothingFound
    } else if check {
        SuggestPlan::ListOnly
    } else if auto {
        SuggestPlan::AcceptAllGlobal
    } else {
        SuggestPlan::AskUser
    }
}

/// The positions `0..n`.
pub open spec fn all_indices(n: nat) -> Seq<usize> {
    Seq::new(n, |i: int| i as usize)
}

/// The positions whose pick is `true`, in order.
pub open spec fn picked_indices(picks: Seq<bool>) -> Seq<usize>
    decreases picks.len(),
{
    if picks.len() == 0 {
        seq![]
    } else {
        let rest = picked_indices(picks.drop_last());
        if picks.last() {
            rest.push((picks.len() - 1) as usize)
        } else {
            rest
        }
    }
}

/// The suggestions accepted at the menu: "Accept all" (0) takes all `n`,
/// "Pick individually" (1) those picked, in order; "Cancel" (any other
/// answer) none, and `suggest` stops.
pub fn accepted_indices(n: usize, menu: usize, picks: &Vec<bool>) -> (r: Option<Vec<usize>>)
    ensures
        menu == 0 ==> (r matches Some(v) && v@ == all_indices(n as nat)),
        menu == 1 ==> (r matches Some(v) && v@ == picked_indices(picks@)),
        menu >= 2 ==> r is None,
{
    if menu == 0 {
        let mut v: Vec<usize> = Vec::new();
        let mut i: usize = 0;
        while i < n
            invariant
                i <= n,
                v@ == all_indices(i as nat),
            decreases n - i,
        {
            v.push(i);
            assert(v@ =~= all_indices((i + 1) as nat));
            i += 1;
        }
        Some(v)
    } else if menu == 1 {
        let mut v: Vec<usize> = Vec::new();
        let mut i: usize = 0;
        assert(picks@.take(0) =~= seq![]);
        while i < picks.len()
            invariant
                i <= picks.len(),
                v@ == picked_indices(picks@.take(i as int)),
            decreases picks.len() - i,
        {
            assert(picks@.take(i + 1).drop_last() == picks@.take(i as int));
            assert(picks@.take(i + 1).last() == picks@[i as int]);
            if picks[i] {
                v.push(i);
            }
            i += 1;
        }
        assert(picks@.take(picks.len() as int) == picks@);
        Some(v)
    } else {
        None
    }
}

/// Whether the accepted rules are saved to the local file: only when the
/// user, asked, chose "Local" (1); `--auto` saves globally.
pub fn saves_locally(auto: bool, location: usize) -> (b: bool)
    ensures
        b == (!auto && location == 1),
{
    !auto && location == 1
}

/// The two lines of an applicable suggestion, numbered from `k + 1`.
pub open spec fn suggestion_entry(k: nat, name: Seq<char>, description: Seq<char>, reason: Seq<char>) -> Seq<
    Seq<char>,
> {
    seq![
        "  "@ + decimal_seq(k + 1) + ". "@ + name + " \u{2014} "@ + description,
        "     detected: "@ + reason,
    ]
}

/// The lines of the first `n` applicable suggestions.
pub open spec fn suggestion_entries(
    names: Seq<Seq<char>>,
    descriptions: Seq<Seq<char>>,
    reasons: Seq<Seq<char>>,
    n: nat,
) -> Seq<Seq<char>>
    decreases n,
{
    if n == 0 {
        seq![]
    } else {
        suggestion_entries(names, descriptions, reasons, (n - 1) as nat) + suggestion_entry(
            (n - 1) as nat,
            names[n - 1],
            descriptions[n - 1],
            reasons[n - 1],
        )
    }
}

/// What `suggest` shows of the applicable suggestions: a count, an empty
/// line, two lines for each, and an empty line.
pub open spec fn suggestion_lines(
    names: Seq<Seq<char>>,
    descriptions: Seq<Seq<char>>,
    reasons: Seq<Seq<char>>,
) -> Seq<Seq<char>> {
    seq!["Found "@ + decimal_seq(names.len()) + " suggestion(s):"@, seq![]]
        + suggestion_entries(names, descriptions, reasons, names.len()) + seq![seq![]]
}

/// The listing of the applicable suggestions: their names, descriptions and
/// the reasons they apply, one of each per suggestion.
pub fn suggestion_listing(
    names: &Vec<String>,
    descriptions: &Vec<String>,
    reasons: &Vec<String>,
) -> (lines: Vec<String>)
    requires
        descriptions.len() == names.len(),
        reasons.len() == names.len(),
    ensures
        strings_view(lines@) == suggestion_lines(
            strings_view(names@),
            strings_view(descriptions@),
            strings_view(reasons@),
        ),
{
    let ghost nv = strings_view(names@);
    let ghost dv = strings_view(descriptions@);
    let ghost rv = strings_view(reasons@);
    let mut lines: Vec<String> = Vec::new();
    let mut first = chars_of("Found ");
    extend_chars(&mut first, &decimal_chars_u64(names.len() as u64));
    extend_chars(&mut first, &chars_of(" suggestion(s):"));
    lines.push(string_of(&first));
    lines.push(String::new());
    let ghost head = seq!["Found "@ + decimal_seq(nv.len()) + " suggestion(s):"@, Seq::<char>::empty()];
    assert(strings_view(lines@) =~= head);
    let mut i: usize = 0;
    while i < names.len()
        invariant
            i <= names.len(),
            descriptions.len() == names.len(),
            reasons.len() == names.len(),
            nv == strings_view(names@),
            dv == strings_view(descriptions@),
            rv == strings_view(reasons@),
            strings_view(lines@) == head + suggestion_entries(nv, dv, rv, i as nat),
        decreases names.len() - i,
    {
        let ghost prev = strings_view(lines@);
        let mut a = chars_of("  ");
        extend_chars(&mut a, &decimal_chars_u64((i + 1) as u64));
        extend_chars(&mut a, &chars_of(". "));
        extend_chars(&mut a, &chars_of(names[i].as_str()));
        extend_chars(&mut a, &chars_of(" \u{2014} "));
        extend_chars(&mut a, &chars_of(descriptions[i].as_str()));
        let mut b = chars_of("     detected: ");
        extend_chars(&mut b, &chars_of(reasons[i].as_str()));
        let sa = string_of(&a);
        let sb = string_of(&b);
        lines.push(sa);
        lines.push(sb);
        assert(strings_view(lines@) =~= prev + seq![sa@, sb@]);
        assert(seq![sa@, sb@] =~= suggestion_entry(i as nat, nv[i as int], dv[i as int], rv[i as int]));
        i += 1;
    }
    let ghost before = strings_view(lines@);
    lines.push(String::new());
    assert(strings_view(lines@) =~= before + seq![Seq::<char>::empty()]);
    lines
}

/// The message of `suggest --check`.
pub fn check_summary(n: usize) -> (s: String)
    ensures
        s@ == decimal_seq(n as nat) + " suggestion(s) available. Run `swapx suggest` to apply."@,
{
    let mut m = decimal_chars_u64(n as u64);
    extend_chars(&mut m, &chars_of(" suggestion(s) available. Run `swapx suggest` to apply."));
    string_of(&m)
}

/// The message after saving the rules of `n_accepted` accepted suggestions.
pub fn saved_message(n_accepted: usize, path: &str) -> (s: String)
    ensures
        s@ == "Saved "@ + decimal_seq(n_accepted as nat) + " rule(s) to "@ + path@,
{
    let mut m = chars_of("Saved ");
    extend_chars(&mut m, &decimal_chars_u64(n_accepted as u64));
    extend_chars(&mut m, &chars_of(" rule(s) to "));
    extend_chars(&mut m, &chars_of(path));
    string_of(&m)
}


/// Every rule a suggestion makes is enabled, literal and scoped to the
/// given directory, and matches the filled-in pattern of its template.
pub proof fn lemma_suggested_rules_active(
    rules: Seq<SuggestionRule>,
    vars: Seq<(Seq<char>, Seq<char>)>,
    dir: Option<Seq<char>>,
    k: int,
)
    requires
        0 <= k < rules.len(),
    ensures
        ({
            let r = rules.map_values(|sr: SuggestionRule| rule_from_template(sr, vars, dir))[k];
            &&& r.enabled
            &&& !r.regex
            &&& r.dir == dir
            &&& r.patterns == seq![render_seq(rules[k].match_pattern@, vars)]
            &&& r.replace.len() == rules[k].replace.len()
        }),
{
}

/// A rule a suggestion makes acts: applied without a directory scope to a
/// command that contains its filled-in pattern, a template with a single
/// replacement rewrites every occurrence of the pattern with the filled-in
/// value and reports the change.
pub proof fn lemma_suggested_rule_rewrites(
    sr: SuggestionRule,
    vars: Seq<(Seq<char>, Seq<char>)>,
    cmd: Seq<char>,
    use_defaults: bool,
    e: crate::engine::EnvView,
)
    requires
        sr.replace.len() == 1,
        contains_seq(cmd, render_seq(sr.match_pattern@, vars)),
    ensures
        crate::engine::run_rules(cmd, seq![rule_from_template(sr, vars, None)], use_defaults, e)
            == Ok::<crate::engine::TransformView, Seq<char>>(
            crate::engine::TransformView {
                command: replace_all_seq(
                    cmd,
                    render_seq(sr.match_pattern@, vars),
                    render_seq(sr.replace@[0].with_value@, vars),
                ),
                changed: true,
                pending: seq![],
            },
        ),
{
    let rule = rule_from_template(sr, vars, None);
    let pat = render_seq(sr.match_pattern@, vars);
    assert(seq![rule].drop_last() =~= Seq::<RuleView>::empty());
    assert(seq![rule].last() == rule);
    assert(rule.patterns.drop_first() =~= Seq::<Seq<char>>::empty());
    assert(crate::engine::first_matching_pattern(cmd, rule.patterns, false) == Ok::<
        Option<Seq<char>>,
        Seq<char>,
    >(Some(pat)));
    assert(rule.replace[0] == replacement_from_template_spec(sr.replace@[0], vars));
    assert(rule.replace[0].when is None);
    assert(crate::engine::run_rules(cmd, seq![rule].drop_last(), use_defaults, e) == Ok::<
        crate::engine::TransformView,
        Seq<char>,
    >(crate::engine::initial_state(cmd)));
    assert(crate::engine::dir_applies(rule.dir, e));
    assert(crate::engine::rule_step(crate::engine::initial_state(cmd), rule, use_defaults, e) == Ok::<
        crate::engine::TransformView,
        Seq<char>,
    >(crate::engine::substituted(crate::engine::initial_state(cmd), pat, false, rule.replace[0].with_value)));
}

} // verus!
