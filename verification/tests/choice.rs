use swapx::choice::{
    list_choices_output, parse_choice_indices, resolve_pending_choices, EXIT_INTERACTIVE_CHOICE,
    EXIT_PENDING_CHOICES,
};
use swapx::engine::{apply_rules, Environment, PendingChoice};
use swapx::models::{Replacement, Rule};

fn no_env() -> Environment {
    Environment { cwd: None, home: None, vars: vec![] }
}

fn rep(label: &str, with_value: &str, default: bool) -> Replacement {
    Replacement { label: label.into(), with_value: with_value.into(), default, when: None }
}

fn melon(default_papaya: bool) -> Rule {
    Rule {
        match_patterns: vec!["melon".into()],
        regex: false,
        enabled: true,
        dir: None,
        replace: vec![rep("water", "watermelon", false), rep("papaya", "papaya", default_papaya)],
    }
}

fn pending_for(command: &str, rules: &[Rule]) -> (String, Vec<PendingChoice>) {
    let t = apply_rules(command, rules, false, &no_env()).unwrap();
    (t.command, t.pending_choices)
}

#[test]
fn exit_codes_of_the_choice_protocol() {
    assert_eq!(EXIT_PENDING_CHOICES, 20);
    assert_eq!(EXIT_INTERACTIVE_CHOICE, 10);
}

#[test]
fn indices_are_trimmed_and_may_carry_a_plus() {
    assert_eq!(parse_choice_indices(" 1 , 0 ").unwrap(), vec![1, 0]);
    assert_eq!(parse_choice_indices("+1").unwrap(), vec![1]);
    assert_eq!(parse_choice_indices("0,2,10").unwrap(), vec![0, 2, 10]);
}

#[test]
fn a_piece_that_is_no_index_is_reported_quoted() {
    assert_eq!(
        parse_choice_indices("abc").unwrap_err().message(),
        "Config error: invalid choice index: \"abc\""
    );
    assert_eq!(
        parse_choice_indices("1, -2 ,3").unwrap_err().message(),
        "Config error: invalid choice index: \"-2\""
    );
    assert_eq!(
        parse_choice_indices("1,,2").unwrap_err().message(),
        "Config error: invalid choice index: \"\""
    );
    assert!(parse_choice_indices("99999999999999999999999999").is_err());
    assert!(parse_choice_indices("+").is_err());
}

#[test]
fn listing_gives_command_then_one_line_per_choice() {
    let t = apply_rules("echo melon melon", &[melon(true)], false, &no_env()).unwrap();
    let (lines, code) = list_choices_output(&t);
    assert_eq!(code, 20);
    assert_eq!(lines, vec!["echo melon melon".to_string(), "melon\t1\twater\tpapaya".to_string()]);
}

#[test]
fn listing_without_choices_exits_zero() {
    let t = apply_rules("echo kiwi", &[melon(false)], false, &no_env()).unwrap();
    let (lines, code) = list_choices_output(&t);
    assert_eq!(code, 0);
    assert_eq!(lines, vec!["echo kiwi".to_string()]);
}

#[test]
fn selections_apply_in_order() {
    let (cmd, pending) = pending_for("echo melon", &[melon(false)]);
    assert_eq!(resolve_pending_choices(&cmd, &pending, &vec![1]).unwrap(), "echo papaya");
    assert_eq!(resolve_pending_choices(&cmd, &pending, &vec![0]).unwrap(), "echo watermelon");
}

#[test]
fn wrong_number_of_selections_is_refused() {
    let (cmd, pending) = pending_for("echo melon", &[melon(false)]);
    assert_eq!(
        resolve_pending_choices(&cmd, &pending, &vec![0, 1]).unwrap_err().message(),
        "Config error: expected 1 choice index(es) but got 2"
    );
    let (cmd, pending) = pending_for("echo kiwi", &[melon(false)]);
    assert_eq!(
        resolve_pending_choices(&cmd, &pending, &vec![0]).unwrap_err().message(),
        "Config error: expected 0 choice index(es) but got 1"
    );
}

#[test]
fn selection_without_replacement_is_refused() {
    let (cmd, pending) = pending_for("echo melon", &[melon(false)]);
    assert_eq!(
        resolve_pending_choices(&cmd, &pending, &vec![5]).unwrap_err().message(),
        "Config error: choice index 5 out of range for rule \"melon\" (has 2 option(s))"
    );
}

#[test]
fn listed_default_index_selects_the_default() {
    // The index shown by the listing, given back, gives what the default gives.
    let rules = [melon(true)];
    let (cmd, pending) = pending_for("echo melon", &rules);
    let t = apply_rules("echo melon", &rules, false, &no_env()).unwrap();
    let (lines, _) = list_choices_output(&t);
    let shown: Vec<&str> = lines[1].split('\t').collect();
    let idx = parse_choice_indices(shown[1]).unwrap();
    let chosen = resolve_pending_choices(&cmd, &pending, &idx).unwrap();
    let by_default = apply_rules("echo melon", &rules, true, &no_env()).unwrap().command;
    assert_eq!(chosen, by_default);
}

#[test]
fn written_indices_read_back() {
    let ns: Vec<usize> = vec![0, 7, 42, 1000];
    let written: Vec<String> = ns.iter().map(|n| n.to_string()).collect();
    assert_eq!(parse_choice_indices(&written.join(",")).unwrap(), ns);
}

#[test]
fn every_in_range_selection_resolves() {
    let kiwi = Rule {
        match_patterns: vec!["ki(w)i".into()],
        regex: true,
        enabled: true,
        dir: None,
        replace: vec![rep("gold", "gold$1", false), rep("green", "green", false), rep("red", "red", false)],
    };
    let rules = [melon(false), kiwi];
    let (cmd, pending) = pending_for("echo melon kiwi", &rules);
    assert_eq!(pending.len(), 2);
    for a in 0..2 {
        for b in 0..3 {
            assert!(resolve_pending_choices(&cmd, &pending, &vec![a, b]).is_ok());
        }
    }
    assert_eq!(resolve_pending_choices(&cmd, &pending, &vec![1, 0]).unwrap(), "echo papaya goldw");
}
