//! The choice protocol: reading the user's selections, and listing the
//! choices that are left open.
use vstd::prelude::*;

use crate::engine::{
    apply_choice, default_index, lemma_pending_choices_sound, pattern_valid, pending_sound,
    pending_view, regex_error, replaced, run_rules, EnvView, PendingChoice, PendingView,
    TransformResult, TransformView,
};
use crate::error::SwapxError;
use crate::models::{replacements_view, ReplacementView, RuleView};
use crate::text::{
    chars_of, debug_quote, debug_quoted, decimal_chars_u64, decimal_seq, extend_chars,
    int_decimal, int_decimal_chars, is_first_index, join_seq, split_once_chars, split_once_seq, string_of,
    trim_chars, trim_seq,
};

verus! {

/// `c` is an ASCII decimal digit.
pub open spec fn is_digit(c: char) -> bool {
    48 <= (c as int) <= 57
}

/// The number that a sequence of decimal digits denotes.
pub open spec fn digits_value(d: Seq<char>) -> nat
    decreases d.len(),
{
    if d.len() == 0 {
        0
    } else {
        digits_value(d.drop_last()) * 10 + ((d.last() as int) - 48) as nat
    }
}

/// The digits after an optional leading `+`.
pub open spec fn unsigned_digits(s: Seq<char>) -> Seq<char> {
    if s.len() > 0 && s[0] == '+' {
        s.drop_first()
    } else {
        s
    }
}

/// `s` read as a `usize` as `str::parse` reads it: an optional `+`, then
/// one or more decimal digits, denoting a value that fits.
pub open spec fn parse_usize_seq(s: Seq<char>) -> Option<usize> {
    let d = unsigned_digits(s);
    if d.len() > 0 && (forall|i: int| 0 <= i < d.len() ==> is_digit(#[trigger] d[i]))
        && digits_value(d) <= usize::MAX {
        Some(digits_value(d) as usize)
    } else {
        None
    }
}

proof fn lemma_digits_value_grows(d: Seq<char>, k: int)
    requires
        0 <= k <= d.len(),
    ensures
        digits_value(d.take(k)) <= digits_value(d),
    decreases d.len(),
{
    if k < d.len() {
        assert(d.take(k) == d.drop_last().take(k));
        lemma_digits_value_grows(d.drop_last(), k);
    } else {
        assert(d.take(k) == d);
    }
}

/// The value of a decimal digit.
fn digit_of(c: char) -> (r: Option<usize>)
    ensures
        match r {
            Some(v) => is_digit(c) && v == (c as int) - 48,
            None => !is_digit(c),
        },
{
    if c == '0' {
        Some(0)
    } else if c == '1' {
        Some(1)
    } else if c == '2' {
        Some(2)
    } else if c == '3' {
        Some(3)
    } else if c == '4' {
        Some(4)
    } else if c == '5' {
        Some(5)
    } else if c == '6' {
        Some(6)
    } else if c == '7' {
        Some(7)
    } else if c == '8' {
        Some(8)
    } else if c == '9' {
        Some(9)
    } else {
        None
    }
}

/// `s` read as a `usize`.
pub fn parse_usize(s: &Vec<char>) -> (r: Option<usize>)
    ensures
        r == parse_usize_seq(s@),
{
    let start: usize = if s.len() > 0 && s[0] == '+' {
        1
    } else {
        0
    };
    let ghost d = unsigned_digits(s@);
    assert(d == s@.subrange(start as int, s.len() as int));
    if start >= s.len() {
        return None;
    }
    let mut value: usize = 0;
    let mut i: usize = start;
    while i < s.len()
        invariant
            start <= i <= s.len(),
            d == s@.subrange(start as int, s.len() as int),
            d == unsigned_digits(s@),
            forall|j: int| 0 <= j < i - start ==> is_digit(#[trigger] d[j]),
            value == digits_value(d.take(i - start)),
        decreases s.len() - i,
    {
        let c = s[i];
        assert(d[i - start] == c);
        let digit = match digit_of(c) {
            Some(v) => v,
            None => {
                assert(!is_digit(d[i - start]));
                return None;
            },
        };
        assert(d.take(i - start + 1).drop_last() == d.take(i - start));
        assert(d.take(i - start + 1).last() == c);
        if value > (usize::MAX - digit) / 10 {
            proof {
                assert(digits_value(d.take(i - start + 1)) == value * 10 + digit);
                assert(value * 10 + digit > usize::MAX) by (nonlinear_arith)
                    requires
                        value > (usize::MAX - digit) / 10,
                        digit <= 9,
                ;
                if forall|j: int| 0 <= j < d.len() ==> is_digit(#[trigger] d[j]) {
                    lemma_digits_value_grows(d, i - start + 1);
                }
            }
            return None;
        }
        assert(value * 10 + digit <= usize::MAX) by (nonlinear_arith)
            requires
                value <= (usize::MAX - digit) / 10,
                digit <= 9,
        ;
        value = value * 10 + digit;
        i += 1;
    }
    assert(d.take(d.len() as int) == d);
    Some(value)
}

/// `s` cut at every `c` (the pieces of `str::split`).
pub open spec fn split_all(s: Seq<char>, c: char) -> Seq<Seq<char>>
    decreases s.len(),
{
    if exists|i: int| is_first_index(s, c, i) {
        let i = choose|i: int| is_first_index(s, c, i);
        seq![s.take(i)] + split_all(s.skip(i + 1), c)
    } else {
        seq![s]
    }
}

/// The pieces, each trimmed and read as an index; the first piece that is
/// not one, trimmed, on failure.
pub open spec fn parse_pieces(pieces: Seq<Seq<char>>) -> Result<Seq<usize>, Seq<char>>
    decreases pieces.len(),
{
    if pieces.len() == 0 {
        Ok(seq![])
    } else {
        let t = trim_seq(pieces[0]);
        match parse_usize_seq(t) {
            None => Err(t),
            Some(n) => match parse_pieces(pieces.drop_first()) {
                Err(b) => Err(b),
                Ok(ns) => Ok(seq![n] + ns),
            },
        }
    }
}

/// The comma-separated indices of `s`.
pub open spec fn choice_indices(s: Seq<char>) -> Result<Seq<usize>, Seq<char>> {
    parse_pieces(split_all(s, ','))
}

/// The message for a piece that is not an index.
pub open spec fn invalid_index_message(piece: Seq<char>) -> Seq<char> {
    "invalid choice index: "@ + debug_quoted(piece)
}

/// Reads comma-separated 0-based indices, each trimmed of white space.
pub fn parse_choice_indices(choice_str: &str) -> (res: Result<Vec<usize>, SwapxError>)
    ensures
        match choice_indices(choice_str@) {
            Ok(ns) => res matches Ok(v) && v@ == ns,
            Err(bad) => res matches Err(e) && e matches SwapxError::Config(m) && m@
                == invalid_index_message(bad),
        },
{
    let mut rest = chars_of(choice_str);
    let mut out: Vec<usize> = Vec::new();
    loop
        invariant
            match choice_indices(choice_str@) {
                Ok(ns) => parse_pieces(split_all(rest@, ',')) matches Ok(tail) && ns == out@ + tail,
                Err(bad) => parse_pieces(split_all(rest@, ',')) == Err::<Seq<usize>, Seq<char>>(
                    bad,
                ),
            },
        decreases rest@.len(),
    {
        let (piece, next) = match split_once_chars(&rest, ',') {
            Some((a, b)) => (a, Some(b)),
            None => (rest.clone(), None),
        };
        assert(split_all(rest@, ',')[0] == piece@);
        assert(split_all(rest@, ',').drop_first() == match next {
            Some(b) => split_all(b@, ','),
            None => seq![],
        });
        let t = trim_chars(&piece);
        match parse_usize(&t) {
            None => {
                let tq = debug_quote(string_of(&t).as_str());
                let mut m = "invalid choice index: ".to_owned();
                m.append(tq.as_str());
                return Err(SwapxError::Config(m));
            },
            Some(n) => {
                let ghost prev = out@;
                out.push(n);
                proof {
                    let pcs = split_all(rest@, ',');
                    assert(parse_pieces(pcs) == match parse_pieces(pcs.drop_first()) {
                        Err(b) => Err(b),
                        Ok(ns) => Ok(seq![n] + ns),
                    });
                    if next is None {
                        assert(parse_pieces(pcs.drop_first()) == Ok::<Seq<usize>, Seq<char>>(
                            seq![],
                        ));
                        assert(seq![n] + seq![] =~= seq![n]);
                    }
                    if let Ok(tail) = parse_pieces(pcs.drop_first()) {
                        assert(prev + (seq![n] + tail) =~= out@ + tail);
                    }
                }
                match next {
                    Some(b) => {
                        rest = b;
                    },
                    None => {
                        return Ok(out);
                    },
                }
            },
        }
    }
}


/// Exit status when choices are left for the caller to resolve.
pub const EXIT_PENDING_CHOICES: i32 = 20;

/// Exit status when the user already chose interactively.
pub const EXIT_INTERACTIVE_CHOICE: i32 = 10;

/// Why applying the selections failed.
pub ghost enum SelectionFailure {
    /// The number of selections differs from the number of pending choices.
    Count { expected: nat, got: nat },
    /// A selection has no replacement with that index.
    OutOfRange { index: nat, pattern: Seq<char>, options: nat },
    /// The rule's pattern, a regex, does not compile.
    BadRegex { pattern: Seq<char> },
}

/// The selected replacements applied in order to `cmd`: the `k`-th
/// selection picks a replacement of the `k`-th pending choice.
pub open spec fn apply_selected(cmd: Seq<char>, pending: Seq<PendingView>, indices: Seq<usize>) -> Result<
    Seq<char>,
    SelectionFailure,
>
    decreases pending.len(),
{
    if pending.len() == 0 || indices.len() == 0 {
        Ok(cmd)
    } else {
        let pc = pending[0];
        let idx = indices[0];
        if idx >= pc.rule.replace.len() {
            Err(
                SelectionFailure::OutOfRange {
                    index: idx as nat,
                    pattern: pc.matched_pattern,
                    options: pc.rule.replace.len(),
                },
            )
        } else if !pattern_valid(pc.matched_pattern, pc.rule.regex) {
            Err(SelectionFailure::BadRegex { pattern: pc.matched_pattern })
        } else {
            apply_selected(
                replaced(cmd, pc.matched_pattern, pc.rule.regex, pc.rule.replace[idx as int].with_value),
                pending.drop_first(),
                indices.drop_first(),
            )
        }
    }
}

/// The outcome of resolving the pending choices with the given selections,
/// one per choice.
pub open spec fn selection_outcome(cmd: Seq<char>, pending: Seq<PendingView>, indices: Seq<usize>) -> Result<
    Seq<char>,
    SelectionFailure,
> {
    if indices.len() != pending.len() {
        Err(SelectionFailure::Count { expected: pending.len(), got: indices.len() })
    } else {
        apply_selected(cmd, pending, indices)
    }
}

/// The message for a wrong number of selections.
pub open spec fn count_message(expected: nat, got: nat) -> Seq<char> {
    "expected "@ + decimal_seq(expected) + " choice index(es) but got "@ + decimal_seq(got)
}

/// The message for a selection without a replacement.
pub open spec fn range_message(index: nat, pattern: Seq<char>, options: nat) -> Seq<char> {
    "choice index "@ + decimal_seq(index) + " out of range for rule "@ + debug_quoted(pattern)
        + " (has "@ + decimal_seq(options) + " option(s))"@
}

/// The error reported for a failure.
pub open spec fn failure_reported(f: SelectionFailure, e: SwapxError) -> bool {
    match f {
        SelectionFailure::Count { expected, got } => e matches SwapxError::Config(m) && m@
            == count_message(expected, got),
        SelectionFailure::OutOfRange { index, pattern, options } => e matches SwapxError::Config(
            m,
        ) && m@ == range_message(index, pattern, options),
        SelectionFailure::BadRegex { pattern } => regex_error(e, pattern),
    }
}

/// Each selection picks a replacement of its pending choice, whose pattern
/// compiles.
pub open spec fn selections_fit(pending: Seq<PendingView>, indices: Seq<usize>) -> bool {
    &&& indices.len() == pending.len()
    &&& forall|k: int|
        0 <= k < pending.len() ==> pattern_valid(
            #[trigger] pending[k].matched_pattern,
            pending[k].rule.regex,
        ) && indices[k] < pending[k].rule.replace.len()
}

/// Selections that fit always resolve.
pub proof fn lemma_fitting_selections_resolve(
    cmd: Seq<char>,
    pending: Seq<PendingView>,
    indices: Seq<usize>,
)
    requires
        selections_fit(pending, indices),
    ensures
        apply_selected(cmd, pending, indices) is Ok,
    decreases pending.len(),
{
    if pending.len() > 0 {
        let pc = pending[0];
        assert(pattern_valid(pending[0].matched_pattern, pending[0].rule.regex));
        let next = replaced(cmd, pc.matched_pattern, pc.rule.regex, pc.rule.replace[indices[0] as int].with_value);
        assert(selections_fit(pending.drop_first(), indices.drop_first())) by {
            assert forall|k: int| 0 <= k < pending.drop_first().len() implies pattern_valid(
                #[trigger] pending.drop_first()[k].matched_pattern,
                pending.drop_first()[k].rule.regex,
            ) && indices.drop_first()[k] < pending.drop_first()[k].rule.replace.len() by {
                assert(pending.drop_first()[k] == pending[k + 1]);
                assert(pattern_valid(pending[k + 1].matched_pattern, pending[k + 1].rule.regex));
            }
        }
        lemma_fitting_selections_resolve(next, pending.drop_first(), indices.drop_first());
    }
}

/// The two-phase protocol always completes: for the choices that applying
/// the rules leaves pending, one in-range selection per choice resolves
/// them without error.
pub proof fn lemma_pending_choices_resolvable(
    cmd: Seq<char>,
    rules: Seq<RuleView>,
    use_defaults: bool,
    e: EnvView,
    indices: Seq<usize>,
)
    requires
        run_rules(cmd, rules, use_defaults, e) is Ok,
        indices.len() == run_rules(cmd, rules, use_defaults, e)->Ok_0.pending.len(),
        forall|k: int|
            0 <= k < indices.len() ==> #[trigger] indices[k] < run_rules(
                cmd,
                rules,
                use_defaults,
                e,
            )->Ok_0.pending[k].rule.replace.len(),
    ensures
        ({
            let t = run_rules(cmd, rules, use_defaults, e)->Ok_0;
            selection_outcome(t.command, t.pending, indices) is Ok
        }),
{
    let t = run_rules(cmd, rules, use_defaults, e)->Ok_0;
    lemma_pending_choices_sound(cmd, rules, use_defaults, e);
    assert(selections_fit(t.pending, indices)) by {
        assert forall|k: int| 0 <= k < t.pending.len() implies pattern_valid(
            #[trigger] t.pending[k].matched_pattern,
            t.pending[k].rule.regex,
        ) && indices[k] < t.pending[k].rule.replace.len() by {
            assert(pending_sound(t.pending[k], use_defaults, e));
        }
    }
    lemma_fitting_selections_resolve(t.command, t.pending, indices);
}

/// The characters of the decimal form of `n`.
fn decimal_string(n: usize) -> (r: Vec<char>)
    ensures
        r@ == decimal_seq(n as nat),
{
    decimal_chars_u64(n as u64)
}

/// Resolves the pending choices with the user's selections: the `k`-th
/// selection picks the replacement of the `k`-th pending choice, applied in
/// order to the command. Fails when the number of selections is wrong or a
/// selection has no replacement.
pub fn resolve_pending_choices(
    command: &str,
    pending_choices: &Vec<PendingChoice>,
    selections: &Vec<usize>,
) -> (res: Result<String, SwapxError>)
    ensures
        match selection_outcome(command@, pending_view(pending_choices@), selections@) {
            Ok(c) => res matches Ok(s) && s@ == c,
            Err(f) => res matches Err(e) && failure_reported(f, e),
        },
{
    let ghost pv = pending_view(pending_choices@);
    if selections.len() != pending_choices.len() {
        let mut m: Vec<char> = chars_of("expected ");
        extend_chars(&mut m, &decimal_string(pending_choices.len()));
        extend_chars(&mut m, &chars_of(" choice index(es) but got "));
        extend_chars(&mut m, &decimal_string(selections.len()));
        return Err(SwapxError::Config(string_of(&m)));
    }
    let mut result = command.to_owned();
    let mut i: usize = 0;
    assert(pv.skip(0) == pv && selections@.skip(0) == selections@);
    while i < pending_choices.len()
        invariant
            i <= pending_choices.len(),
            selections.len() == pending_choices.len(),
            pv == pending_view(pending_choices@),
            apply_selected(command@, pv, selections@) == apply_selected(
                result@,
                pv.skip(i as int),
                selections@.skip(i as int),
            ),
        decreases pending_choices.len() - i,
    {
        let pc = &pending_choices[i];
        let idx = selections[i];
        assert(pv.skip(i as int)[0] == pc@);
        assert(selections@.skip(i as int)[0] == idx);
        assert(pv.skip(i as int).drop_first() == pv.skip(i + 1));
        assert(selections@.skip(i as int).drop_first() == selections@.skip(i + 1));
        if idx >= pc.rule.replace.len() {
            let mut m: Vec<char> = chars_of("choice index ");
            extend_chars(&mut m, &decimal_string(idx));
            extend_chars(&mut m, &chars_of(" out of range for rule "));
            extend_chars(&mut m, &chars_of(debug_quote(pc.matched_pattern.as_str()).as_str()));
            extend_chars(&mut m, &chars_of(" (has "));
            extend_chars(&mut m, &decimal_string(pc.rule.replace.len()));
            extend_chars(&mut m, &chars_of(" option(s))"));
            return Err(SwapxError::Config(string_of(&m)));
        }
        assert(replacements_view(pc.rule.replace@)[idx as int] == pc.rule.replace@[idx as int]@);
        result = match apply_choice(
            result.as_str(),
            pc.matched_pattern.as_str(),
            pc.rule.regex,
            pc.rule.replace[idx].with_value.as_str(),
        ) {
            Ok(c) => c,
            Err(e) => return Err(e),
        };
        i += 1;
    }
    assert(pv.skip(i as int).len() == 0);
    Ok(result)
}

/// The position of the first replacement marked default.
pub open spec fn default_position(reps: Seq<ReplacementView>) -> Option<int>
    decreases reps.len(),
{
    if reps.len() == 0 {
        None
    } else if reps[0].default {
        Some(0)
    } else {
        match default_position(reps.drop_first()) {
            Some(k) => Some(k + 1),
            None => None,
        }
    }
}

proof fn lemma_default_position(reps: Seq<ReplacementView>, k: int)
    requires
        0 <= k <= reps.len(),
        forall|j: int| 0 <= j < k ==> !(#[trigger] reps[j]).default,
        k < reps.len() ==> reps[k].default,
    ensures
        default_position(reps) == if k < reps.len() {
            Some(k)
        } else {
            None::<int>
        },
    decreases reps.len(),
{
    if reps.len() > 0 && k > 0 {
        assert forall|j: int| 0 <= j < k - 1 implies !(#[trigger] reps.drop_first()[j]).default by {
            assert(!reps[j + 1].default);
        }
        lemma_default_position(reps.drop_first(), k - 1);
    }
}

/// The default index as the protocol shows it: the position of the first
/// default, or -1.
pub open spec fn shown_default(reps: Seq<ReplacementView>) -> int {
    match default_position(reps) {
        Some(k) => (k as i32) as int,
        None => -1,
    }
}

/// Each label preceded by a tab.
pub open spec fn tabbed_labels(reps: Seq<ReplacementView>) -> Seq<char>
    decreases reps.len(),
{
    if reps.len() == 0 {
        seq![]
    } else {
        tabbed_labels(reps.drop_last()) + seq!['\t'] + reps.last().label
    }
}

/// The line describing a pending choice: the matched pattern, the default
/// index and the labels, separated by tabs.
pub open spec fn choice_line(p: PendingView) -> Seq<char> {
    p.matched_pattern + seq!['\t'] + int_decimal(shown_default(p.rule.replace)) + tabbed_labels(
        p.rule.replace,
    )
}

/// The lines printed for `--list-choices`: the command as transformed so
/// far, then one line per pending choice.
pub open spec fn choice_listing(t: TransformView) -> Seq<Seq<char>> {
    seq![t.command] + t.pending.map_values(|p: PendingView| choice_line(p))
}

/// The line describing a pending choice.
fn choice_line_exec(pc: &PendingChoice) -> (r: String)
    ensures
        r@ == choice_line(pc@),
{
    let reps = &pc.rule.replace;
    let ghost rv = replacements_view(reps@);
    let d: i64 = match default_index(reps) {
        Some(k) => {
            proof {
                lemma_default_position(rv, k as int);
            }
            (k as i32) as i64
        },
        None => {
            proof {
                lemma_default_position(rv, reps.len() as int);
            }
            -1
        },
    };
    let mut line = chars_of(pc.matched_pattern.as_str());
    line.push('\t');
    extend_chars(&mut line, &int_decimal_chars(d));
    let ghost head = line@;
    let mut i: usize = 0;
    assert(rv.take(0) =~= seq![]);
    while i < reps.len()
        invariant
            i <= reps.len(),
            rv == replacements_view(reps@),
            line@ == head + tabbed_labels(rv.take(i as int)),
        decreases reps.len() - i,
    {
        assert(rv.take(i + 1).drop_last() == rv.take(i as int));
        assert(rv.take(i + 1).last() == reps@[i as int]@);
        line.push('\t');
        extend_chars(&mut line, &chars_of(reps[i].label.as_str()));
        i += 1;
    }
    assert(rv.take(reps.len() as int) == rv);
    string_of(&line)
}

/// What `--list-choices` prints, and its exit status: the transformed
/// command, then one line per pending choice, with status 20 when choices
/// are pending and 0 otherwise.
pub fn list_choices_output(transform: &TransformResult) -> (out: (Vec<String>, i32))
    ensures
        out.0@.map_values(|s: String| s@) == choice_listing(transform@),
        out.1 == if transform.pending_choices.len() == 0 {
            0
        } else {
            EXIT_PENDING_CHOICES
        },
{
    let mut lines: Vec<String> = Vec::new();
    lines.push(transform.command.clone());
    let ghost pv = pending_view(transform.pending_choices@);
    let mut i: usize = 0;
    while i < transform.pending_choices.len()
        invariant
            i <= transform.pending_choices.len(),
            pv == pending_view(transform.pending_choices@),
            lines@.map_values(|s: String| s@) == seq![transform.command@] + pv.take(
                i as int,
            ).map_values(|p: PendingView| choice_line(p)),
        decreases transform.pending_choices.len() - i,
    {
        let ghost prev = lines@;
        let l = choice_line_exec(&transform.pending_choices[i]);
        lines.push(l);
        assert(lines@ == prev.push(l));
        assert(pv.take(i + 1) == pv.take(i as int).push(transform.pending_choices@[i as int]@));
        assert(lines@.map_values(|s: String| s@) =~= prev.map_values(|s: String| s@).push(l@));
        assert(pv.take(i + 1).map_values(|p: PendingView| choice_line(p)) =~= pv.take(
            i as int,
        ).map_values(|p: PendingView| choice_line(p)).push(choice_line(pv[i as int])));
        i += 1;
    }
    assert(pv.take(transform.pending_choices.len() as int) == pv);
    let code = if transform.pending_choices.len() == 0 {
        0
    } else {
        EXIT_PENDING_CHOICES
    };
    (lines, code)
}


/// The decimal form of a number: digits only, at least one, denoting it.
proof fn lemma_decimal_digits(n: nat)
    ensures
        decimal_seq(n).len() > 0,
        forall|i: int| 0 <= i < decimal_seq(n).len() ==> is_digit(#[trigger] decimal_seq(n)[i]),
        digits_value(decimal_seq(n)) == n,
    decreases n,
{
    if n < 10 {
        let d = decimal_seq(n);
        assert(d.drop_last() =~= Seq::<char>::empty());
        assert((crate::text::digit_char(n) as int) == n + 48);
        assert(d.last() == crate::text::digit_char(n));
        assert(digits_value(d.drop_last()) == 0);
        assert(digits_value(d) == digits_value(d.drop_last()) * 10 + ((d.last() as int) - 48) as nat);
    } else {
        lemma_decimal_digits(n / 10);
        let d = decimal_seq(n);
        assert(d.drop_last() == decimal_seq(n / 10));
        assert(d.last() == crate::text::digit_char(n % 10));
        assert((crate::text::digit_char(n % 10) as int) == n % 10 + 48);
        assert(n == (n / 10) * 10 + n % 10);
        assert(digits_value(d) == digits_value(d.drop_last()) * 10 + ((d.last() as int) - 48) as nat);
        assert(digits_value(d.drop_last()) == n / 10);
        assert forall|i: int| 0 <= i < d.len() implies is_digit(#[trigger] d[i]) by {
            if i < d.len() - 1 {
                assert(d[i] == decimal_seq(n / 10)[i]);
            }
        }
    }
}

/// A digit is not white space.
proof fn lemma_digit_not_white(c: char)
    requires
        is_digit(c),
    ensures
        !crate::text::is_white(c),
{
}

/// A number's decimal form has nothing to trim and reads back as the number.
proof fn lemma_decimal_reads_back(n: usize)
    ensures
        trim_seq(decimal_seq(n as nat)) == decimal_seq(n as nat),
        parse_usize_seq(decimal_seq(n as nat)) == Some(n),
{
    let d = decimal_seq(n as nat);
    lemma_decimal_digits(n as nat);
    assert(is_digit(d[0]));
    lemma_digit_not_white(d[0]);
    assert(is_digit(d[d.len() - 1]));
    lemma_digit_not_white(d.last());
    assert(crate::text::trim_start_seq(d) == d);
    assert(crate::text::trim_end_seq(d) == d);
    assert(d[0] != '+');
    assert(unsigned_digits(d) == d);
}

/// Splitting at the first comma of `a , b`, where `a` has none.
proof fn lemma_split_front(a: Seq<char>, b: Seq<char>)
    requires
        forall|i: int| 0 <= i < a.len() ==> a[i] != ',',
    ensures
        split_all(a + seq![','] + b, ',') == seq![a] + split_all(b, ','),
{
    let s = a + seq![','] + b;
    assert(is_first_index(s, ',', a.len() as int));
    let c = choose|i: int| is_first_index(s, ',', i);
    crate::text::lemma_first_index_unique(s, ',', a.len() as int, c);
    assert(s.take(a.len() as int) =~= a);
    assert(s.skip(a.len() as int + 1) =~= b);
}

/// A piece without commas is not split.
proof fn lemma_split_none(a: Seq<char>)
    requires
        forall|i: int| 0 <= i < a.len() ==> a[i] != ',',
    ensures
        split_all(a, ',') == seq![a],
{
    assert(!exists|i: int| is_first_index(a, ',', i));
}

/// Joining with a first part split off.
proof fn lemma_join_front(a: Seq<char>, rest: Seq<Seq<char>>, sep: Seq<char>)
    requires
        rest.len() > 0,
    ensures
        join_seq(seq![a] + rest, sep) == a + sep + join_seq(rest, sep),
    decreases rest.len(),
{
    let all = seq![a] + rest;
    if rest.len() == 1 {
        assert(all.drop_last() =~= seq![a]);
        assert(join_seq(seq![a], sep) == a);
        assert(all.last() == rest[0]);
        assert(join_seq(rest, sep) == rest[0]);
    } else {
        assert(all.drop_last() =~= seq![a] + rest.drop_last());
        lemma_join_front(a, rest.drop_last(), sep);
        assert(all.last() == rest.last());
        assert(join_seq(all, sep) == join_seq(all.drop_last(), sep) + sep + all.last());
        assert(join_seq(rest, sep) == join_seq(rest.drop_last(), sep) + sep + rest.last());
        assert(a + sep + join_seq(rest.drop_last(), sep) + sep + rest.last() =~= a + sep + (
        join_seq(rest.drop_last(), sep) + sep + rest.last()));
    }
}

/// The decimal forms of the numbers.
pub open spec fn decimals(ns: Seq<usize>) -> Seq<Seq<char>> {
    ns.map_values(|n: usize| decimal_seq(n as nat))
}

/// Indices written in decimal and joined by commas, as shell hooks send
/// the user's selections, are read back as they were written.
pub proof fn lemma_choice_indices_round_trip(ns: Seq<usize>)
    requires
        ns.len() > 0,
    ensures
        choice_indices(join_seq(decimals(ns), seq![','])) == Ok::<Seq<usize>, Seq<char>>(ns),
    decreases ns.len(),
{
    let first = decimal_seq(ns[0] as nat);
    lemma_decimal_digits(ns[0] as nat);
    lemma_decimal_reads_back(ns[0]);
    assert forall|i: int| 0 <= i < first.len() implies first[i] != ',' by {
        assert(is_digit(first[i]));
    }
    if ns.len() == 1 {
        assert(decimals(ns) =~= seq![first]);
        lemma_split_none(first);
        let pcs = split_all(first, ',');
        assert(pcs.drop_first() =~= Seq::<Seq<char>>::empty());
        assert(parse_pieces(pcs.drop_first()) == Ok::<Seq<usize>, Seq<char>>(seq![]));
        assert(seq![ns[0]] + Seq::<usize>::empty() =~= ns);
    } else {
        let rest = ns.drop_first();
        assert(decimals(ns) =~= seq![first] + decimals(rest));
        lemma_join_front(first, decimals(rest), seq![',']);
        let tail = join_seq(decimals(rest), seq![',']);
        assert(join_seq(decimals(ns), seq![',']) =~= first + seq![','] + tail);
        lemma_split_front(first, tail);
        lemma_choice_indices_round_trip(rest);
        let pcs = seq![first] + split_all(tail, ',');
        assert(pcs.drop_first() =~= split_all(tail, ','));
        assert(seq![ns[0]] + rest =~= ns);
    }
}

} // verus!
