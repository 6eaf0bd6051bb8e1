//! The text shown for the rule listing and for an explanation.
use vstd::prelude::*;

use crate::engine::{explain_view, ExplainMatch, ExplainMatchView, ExplainReplacementView};
use crate::models::{replacements_view, rules_view, Replacement, ReplacementView, Rule, RuleView, WhenCondition, WhenView};
use crate::text::{chars_of, decimal_chars_u64, decimal_seq, extend_chars, join_seq, string_of};

verus! {

/// `s` in double quotes.
pub open spec fn quoted(s: Seq<char>) -> Seq<char> {
    seq!['"'] + s + seq!['"']
}

/// The patterns, each quoted, separated by commas.
pub open spec fn patterns_display(p: Seq<Seq<char>>) -> Seq<char> {
    join_seq(p.map_values(|s: Seq<char>| quoted(s)), ", "@)
}

/// The conditions of a `when`: `cwd=...` and `env=...`, those present.
pub open spec fn when_parts(w: WhenView) -> Seq<Seq<char>> {
    (if w.cwd is Some {
        seq!["cwd="@ + w.cwd->0]
    } else {
        Seq::<Seq<char>>::empty()
    }) + (if w.env is Some {
        seq!["env="@ + w.env->0]
    } else {
        Seq::<Seq<char>>::empty()
    })
}

/// The conditions of a `when`, separated by commas.
pub open spec fn when_text(w: WhenView) -> Seq<char> {
    join_seq(when_parts(w), ", "@)
}

/// How a rule matches: by regex or literally.
pub open spec fn kind_text(is_regex: bool) -> Seq<char> {
    if is_regex {
        "regex"@
    } else {
        "literal"@
    }
}

/// The first line of a listed rule, numbered from 1.
pub open spec fn rule_header(i: nat, r: RuleView) -> Seq<char> {
    decimal_seq(i + 1) + ". ["@ + kind_text(r.regex) + "] match: "@ + patterns_display(r.patterns)
        + if !r.enabled {
        " [DISABLED]"@
    } else {
        seq![]
    }
}

/// The line of a listed replacement.
pub open spec fn replacement_line(rep: ReplacementView) -> Seq<char> {
    "     \u{2192} "@ + rep.label + ": "@ + quoted(rep.with_value) + (if rep.default {
        " (default)"@
    } else {
        seq![]
    }) + (if rep.when is Some {
        " [when: "@ + when_text(rep.when->0) + "]"@
    } else {
        seq![]
    })
}

/// The lines of a listed rule.
pub open spec fn rule_lines(i: nat, r: RuleView) -> Seq<Seq<char>> {
    seq![rule_header(i, r)] + (if r.dir is Some {
        seq!["     dir: "@ + quoted(r.dir->0)]
    } else {
        Seq::<Seq<char>>::empty()
    }) + r.replace.map_values(|rep: ReplacementView| replacement_line(rep))
}

/// The lines of the listed rules, in order.
pub open spec fn rules_lines(rules: Seq<RuleView>) -> Seq<Seq<char>>
    decreases rules.len(),
{
    if rules.len() == 0 {
        seq![]
    } else {
        rules_lines(rules.drop_last()) + rule_lines((rules.len() - 1) as nat, rules.last())
    }
}

/// What `list` shows: a hint when there are no rules, else the rules.
pub open spec fn listing(rules: Seq<RuleView>) -> Seq<Seq<char>> {
    if rules.len() == 0 {
        seq![
            "No rules configured."@,
            "Run `swapx init` to create a local config or `swapx add` to add a rule."@,
        ]
    } else {
        rules_lines(rules)
    }
}

/// The views of the lines.
pub open spec fn lines_view(v: Seq<String>) -> Seq<Seq<char>> {
    v.map_values(|s: String| s@)
}

/// Appends `line` to the lines.
fn push_line(lines: &mut Vec<String>, line: &Vec<char>)
    ensures
        lines_view(final(lines)@) == lines_view(old(lines)@).push(line@),
{
    let ghost prev = lines@;
    let s = string_of(line);
    lines.push(s);
    assert(lines@ == prev.push(s));
    assert(lines_view(lines@) =~= lines_view(prev).push(line@));
}

/// Appends the characters of `s`.
fn push_text(v: &mut Vec<char>, s: &str)
    ensures
        final(v)@ == old(v)@ + s@,
{
    extend_chars(v, &chars_of(s));
}

/// Appends `s` in double quotes.
fn push_quoted(v: &mut Vec<char>, s: &String)
    ensures
        final(v)@ == old(v)@ + quoted(s@),
{
    let ghost start = v@;
    v.push('"');
    extend_chars(v, &chars_of(s.as_str()));
    v.push('"');
    assert(v@ =~= start + quoted(s@));
}

/// The patterns, each quoted, separated by commas.
fn patterns_display_exec(p: &Vec<String>) -> (r: Vec<char>)
    ensures
        r@ == patterns_display(crate::models::strings_view(p@)),
{
    let ghost pv = crate::models::strings_view(p@);
    let mut parts: Vec<String> = Vec::new();
    let mut i: usize = 0;
    while i < p.len()
        invariant
            i <= p.len(),
            pv == crate::models::strings_view(p@),
            lines_view(parts@) == pv.take(i as int).map_values(|s: Seq<char>| quoted(s)),
        decreases p.len() - i,
    {
        let mut q: Vec<char> = Vec::new();
        push_quoted(&mut q, &p[i]);
        assert(q@ =~= quoted(p@[i as int]@));
        push_line(&mut parts, &q);
        assert(pv.take(i + 1) == pv.take(i as int).push(pv[i as int]));
        assert(pv.take(i + 1).map_values(|s: Seq<char>| quoted(s)) =~= pv.take(i as int).map_values(
            |s: Seq<char>| quoted(s),
        ).push(quoted(pv[i as int])));
        i += 1;
    }
    assert(pv.take(p.len() as int) == pv);
    assert(lines_view(parts@) == crate::models::strings_view(parts@));
    join_strings_chars(&parts, ", ")
}

/// The strings joined by `sep`.
fn join_strings_chars(parts: &Vec<String>, sep: &str) -> (r: Vec<char>)
    ensures
        r@ == join_seq(lines_view(parts@), sep@),
{
    assert(lines_view(parts@) == crate::models::strings_view(parts@));
    crate::text::join_strings(parts, &chars_of(sep))
}

/// The conditions of a `when`, separated by commas.
fn when_text_exec(w: &WhenCondition) -> (r: Vec<char>)
    ensures
        r@ == when_text(w@),
{
    let mut parts: Vec<String> = Vec::new();
    assert(lines_view(parts@) =~= seq![]);
    if let Some(c) = &w.cwd {
        let mut l = chars_of("cwd=");
        extend_chars(&mut l, &chars_of(c.as_str()));
        push_line(&mut parts, &l);
    }
    if let Some(e) = &w.env {
        let mut l = chars_of("env=");
        extend_chars(&mut l, &chars_of(e.as_str()));
        push_line(&mut parts, &l);
    }
    assert(lines_view(parts@) =~= when_parts(w@));
    join_strings_chars(&parts, ", ")
}

/// The line of a listed replacement.
fn replacement_line_exec(rep: &Replacement) -> (r: Vec<char>)
    ensures
        r@ == replacement_line(rep@),
{
    let mut l = chars_of("     \u{2192} ");
    extend_chars(&mut l, &chars_of(rep.label.as_str()));
    push_text(&mut l, ": ");
    push_quoted(&mut l, &rep.with_value);
    let ghost mid = l@;
    if rep.default {
        push_text(&mut l, " (default)");
    }
    let ghost mid2 = l@;
    assert(mid2 == mid + (if rep.default {
        " (default)"@
    } else {
        Seq::<char>::empty()
    }));
    if let Some(w) = &rep.when {
        push_text(&mut l, " [when: ");
        extend_chars(&mut l, &when_text_exec(w));
        push_text(&mut l, "]");
    }
    assert(l@ =~= replacement_line(rep@));
    l
}

/// The lines of rule `i` (numbered from `i + 1`).
fn rule_lines_exec(lines: &mut Vec<String>, i: usize, r: &Rule)
    requires
        i < usize::MAX,
    ensures
        lines_view(final(lines)@) == lines_view(old(lines)@) + rule_lines(i as nat, r@),
{
    let ghost start = lines_view(lines@);
    let mut h = decimal_chars_u64((i + 1) as u64);
    push_text(&mut h, ". [");
    if r.regex {
        push_text(&mut h, "regex");
    } else {
        push_text(&mut h, "literal");
    }
    push_text(&mut h, "] match: ");
    extend_chars(&mut h, &patterns_display_exec(&r.match_patterns));
    let ghost before_disabled = h@;
    if !r.enabled {
        push_text(&mut h, " [DISABLED]");
    }
    assert(h@ =~= rule_header(i as nat, r@));
    push_line(lines, &h);
    if let Some(d) = &r.dir {
        let mut l = chars_of("     dir: ");
        push_quoted(&mut l, d);
        push_line(lines, &l);
    }
    let ghost head = lines_view(lines@);
    assert(head =~= start + seq![rule_header(i as nat, r@)] + (if r@.dir is Some {
        seq!["     dir: "@ + quoted(r@.dir->0)]
    } else {
        Seq::<Seq<char>>::empty()
    }));
    let ghost rv = replacements_view(r.replace@);
    let mut k: usize = 0;
    while k < r.replace.len()
        invariant
            k <= r.replace.len(),
            rv == replacements_view(r.replace@),
            lines_view(lines@) == head + rv.take(k as int).map_values(
                |rep: ReplacementView| replacement_line(rep),
            ),
        decreases r.replace.len() - k,
    {
        let l = replacement_line_exec(&r.replace[k]);
        push_line(lines, &l);
        assert(rv.take(k + 1) == rv.take(k as int).push(rv[k as int]));
        assert(rv.take(k + 1).map_values(|rep: ReplacementView| replacement_line(rep))
            =~= rv.take(k as int).map_values(|rep: ReplacementView| replacement_line(rep)).push(
            replacement_line(rv[k as int]),
        ));
        k += 1;
    }
    assert(rv.take(r.replace.len() as int) == rv);
    assert(lines_view(lines@) =~= start + rule_lines(i as nat, r@));
}

/// The lines that `list` shows for the configured rules.
pub fn list_rules(rules: &Vec<Rule>) -> (lines: Vec<String>)
    ensures
        lines_view(lines@) == listing(rules_view(rules@)),
{
    let mut lines: Vec<String> = Vec::new();
    if rules.len() == 0 {
        push_line(&mut lines, &chars_of("No rules configured."));
        push_line(
            &mut lines,
            &chars_of("Run `swapx init` to create a local config or `swapx add` to add a rule."),
        );
        assert(lines_view(lines@) =~= listing(rules_view(rules@)));
        return lines;
    }
    let ghost rv = rules_view(rules@);
    let mut i: usize = 0;
    assert(lines_view(lines@) =~= rules_lines(rv.take(0)));
    while i < rules.len()
        invariant
            i <= rules.len(),
            rv == rules_view(rules@),
            lines_view(lines@) == rules_lines(rv.take(i as int)),
        decreases rules.len() - i,
    {
        assert(rv.take(i + 1).drop_last() == rv.take(i as int));
        assert(rv.take(i + 1).last() == rules@[i as int]@);
        rule_lines_exec(&mut lines, i, &rules[i]);
        i += 1;
    }
    assert(rv.take(rules.len() as int) == rv);
    lines
}


/// Whether a condition matched, as shown.
pub open spec fn match_word(b: bool) -> Seq<char> {
    if b {
        "MATCHES"@
    } else {
        "no match"@
    }
}

/// The line of an explained replacement.
pub open spec fn explain_replacement_line(r: ExplainReplacementView) -> Seq<char> {
    "  \u{2192} "@ + r.label + ": "@ + quoted(r.with_value) + " \u{2192} "@ + quoted(r.result_command)
        + (if r.is_default {
        " (default)"@
    } else {
        seq![]
    }) + (if r.when_condition is Some {
        " [when: "@ + when_text(r.when_condition->0) + " \u{2192} "@ + match_word(r.when_matches)
            + "]"@
    } else {
        seq![]
    })
}

/// The first line of an explained rule, numbered from 1.
pub open spec fn explain_header(i: nat, m: ExplainMatchView) -> Seq<char> {
    "Rule "@ + decimal_seq(i + 1) + ": ["@ + kind_text(m.rule.regex) + "] ["@ + (if m.is_enabled {
        "enabled"@
    } else {
        "DISABLED"@
    }) + "] match: "@ + patterns_display(m.rule.patterns) + " (matched: "@ + quoted(
        m.matched_pattern,
    ) + ")"@
}

/// The directory line of an explained rule.
pub open spec fn explain_dir_line(d: Seq<char>, dm: Option<bool>) -> Seq<char> {
    "  dir: "@ + quoted(d) + " \u{2192} "@ + match dm {
        Some(b) => match_word(b),
        None => seq![],
    }
}

/// The lines of an explained rule, ending with an empty line.
pub open spec fn explain_match_lines(i: nat, m: ExplainMatchView) -> Seq<Seq<char>> {
    seq![explain_header(i, m)] + (if m.rule.dir is Some {
        seq![explain_dir_line(m.rule.dir->0, m.dir_matches)]
    } else {
        Seq::<Seq<char>>::empty()
    }) + m.replacements.map_values(|r: ExplainReplacementView| explain_replacement_line(r)) + seq![
        seq![],
    ]
}

/// The lines of the explained rules, in order.
pub open spec fn explain_matches_lines(ms: Seq<ExplainMatchView>) -> Seq<Seq<char>>
    decreases ms.len(),
{
    if ms.len() == 0 {
        seq![]
    } else {
        explain_matches_lines(ms.drop_last()) + explain_match_lines((ms.len() - 1) as nat, ms.last())
    }
}

/// What `explain` shows: the command, an empty line, then the matching
/// rules, or a note that none match.
pub open spec fn explanation(command: Seq<char>, ms: Seq<ExplainMatchView>) -> Seq<Seq<char>> {
    seq!["Command: "@ + command, seq![]] + if ms.len() == 0 {
        seq!["No rules match this command."@]
    } else {
        explain_matches_lines(ms)
    }
}

/// The line of an explained replacement.
fn explain_replacement_line_exec(r: &crate::engine::ExplainReplacement) -> (l: Vec<char>)
    ensures
        l@ == explain_replacement_line(r@),
{
    let mut l = chars_of("  \u{2192} ");
    extend_chars(&mut l, &chars_of(r.label.as_str()));
    push_text(&mut l, ": ");
    push_quoted(&mut l, &r.with_value);
    push_text(&mut l, " \u{2192} ");
    push_quoted(&mut l, &r.result_command);
    let ghost a = l@;
    if r.is_default {
        push_text(&mut l, " (default)");
    }
    let ghost b = l@;
    assert(b == a + (if r.is_default {
        " (default)"@
    } else {
        Seq::<char>::empty()
    }));
    if let Some(w) = &r.when_condition {
        push_text(&mut l, " [when: ");
        extend_chars(&mut l, &when_text_exec(w));
        push_text(&mut l, " \u{2192} ");
        if r.when_matches {
            push_text(&mut l, "MATCHES");
        } else {
            push_text(&mut l, "no match");
        }
        push_text(&mut l, "]");
    }
    assert(l@ =~= explain_replacement_line(r@));
    l
}

/// The lines of explained rule `i` (numbered from `i + 1`).
fn explain_match_lines_exec(lines: &mut Vec<String>, i: usize, m: &ExplainMatch)
    requires
        i < usize::MAX,
    ensures
        lines_view(final(lines)@) == lines_view(old(lines)@) + explain_match_lines(i as nat, m@),
{
    let ghost start = lines_view(lines@);
    let mut h = chars_of("Rule ");
    extend_chars(&mut h, &decimal_chars_u64((i + 1) as u64));
    push_text(&mut h, ": [");
    if m.rule.regex {
        push_text(&mut h, "regex");
    } else {
        push_text(&mut h, "literal");
    }
    push_text(&mut h, "] [");
    if m.is_enabled {
        push_text(&mut h, "enabled");
    } else {
        push_text(&mut h, "DISABLED");
    }
    push_text(&mut h, "] match: ");
    extend_chars(&mut h, &patterns_display_exec(&m.rule.match_patterns));
    push_text(&mut h, " (matched: ");
    push_quoted(&mut h, &m.matched_pattern);
    push_text(&mut h, ")");
    assert(h@ =~= explain_header(i as nat, m@));
    push_line(lines, &h);
    if let Some(d) = &m.rule.dir {
        let mut l = chars_of("  dir: ");
        push_quoted(&mut l, d);
        push_text(&mut l, " \u{2192} ");
        match m.dir_matches {
            Some(true) => push_text(&mut l, "MATCHES"),
            Some(false) => push_text(&mut l, "no match"),
            None => {},
        }
        assert(l@ =~= explain_dir_line(d@, m.dir_matches));
        push_line(lines, &l);
    }
    let ghost head = lines_view(lines@);
    assert(head =~= start + seq![explain_header(i as nat, m@)] + (if m@.rule.dir is Some {
        seq![explain_dir_line(m@.rule.dir->0, m@.dir_matches)]
    } else {
        Seq::<Seq<char>>::empty()
    }));
    let ghost rv = m@.replacements;
    let mut k: usize = 0;
    while k < m.replacements.len()
        invariant
            k <= m.replacements.len(),
            rv == m@.replacements,
            rv.len() == m.replacements.len(),
            lines_view(lines@) == head + rv.take(k as int).map_values(
                |r: ExplainReplacementView| explain_replacement_line(r),
            ),
        decreases m.replacements.len() - k,
    {
        let l = explain_replacement_line_exec(&m.replacements[k]);
        assert(rv[k as int] == m.replacements@[k as int]@);
        push_line(lines, &l);
        assert(rv.take(k + 1) == rv.take(k as int).push(rv[k as int]));
        assert(rv.take(k + 1).map_values(|r: ExplainReplacementView| explain_replacement_line(r))
            =~= rv.take(k as int).map_values(
            |r: ExplainReplacementView| explain_replacement_line(r),
        ).push(explain_replacement_line(rv[k as int])));
        k += 1;
    }
    assert(rv.take(m.replacements.len() as int) == rv);
    push_line(lines, &Vec::new());
    assert(lines_view(lines@) =~= start + explain_match_lines(i as nat, m@));
}

/// The lines that `explain` shows for a command and its matching rules.
pub fn display_explain(command: &str, matches: &Vec<ExplainMatch>) -> (lines: Vec<String>)
    ensures
        lines_view(lines@) == explanation(command@, explain_view(matches@)),
{
    let mut lines: Vec<String> = Vec::new();
    let mut first = chars_of("Command: ");
    extend_chars(&mut first, &chars_of(command));
    push_line(&mut lines, &first);
    push_line(&mut lines, &Vec::new());
    let ghost head = lines_view(lines@);
    assert(head =~= seq!["Command: "@ + command@, seq![]]);
    if matches.len() == 0 {
        push_line(&mut lines, &chars_of("No rules match this command."));
        assert(lines_view(lines@) =~= explanation(command@, explain_view(matches@)));
        return lines;
    }
    let ghost mv = explain_view(matches@);
    let mut i: usize = 0;
    assert(explain_matches_lines(mv.take(0)) =~= seq![]);
    while i < matches.len()
        invariant
            i <= matches.len(),
            mv == explain_view(matches@),
            lines_view(lines@) == head + explain_matches_lines(mv.take(i as int)),
        decreases matches.len() - i,
    {
        assert(mv.take(i + 1).drop_last() == mv.take(i as int));
        assert(mv.take(i + 1).last() == matches@[i as int]@);
        explain_match_lines_exec(&mut lines, i, &matches[i]);
        i += 1;
    }
    assert(mv.take(matches.len() as int) == mv);
    assert(lines_view(lines@) =~= explanation(command@, explain_view(matches@)));
    lines
}

} // verus!
