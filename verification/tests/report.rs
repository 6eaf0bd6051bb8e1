use swapx::engine::{explain_rules, Environment};
use swapx::models::{Replacement, Rule, WhenCondition};
use swapx::report::{display_explain, list_rules};

fn env_in(cwd: &str, vars: Vec<(String, String)>) -> Environment {
    Environment { cwd: Some(cwd.into()), home: Some("/home/u".into()), vars }
}

fn sample_rules() -> Vec<Rule> {
    vec![
        Rule {
            match_patterns: vec!["git checkout".into(), "git co".into()],
            regex: false,
            enabled: true,
            dir: None,
            replace: vec![Replacement {
                label: "use-switch".into(),
                with_value: "git switch".into(),
                default: true,
                when: None,
            }],
        },
        Rule {
            match_patterns: vec![r"cat (\S+)".into()],
            regex: true,
            enabled: false,
            dir: Some("~/work".into()),
            replace: vec![Replacement {
                label: "bat".into(),
                with_value: "bat $1".into(),
                default: false,
                when: Some(WhenCondition { cwd: Some("~/work/**".into()), env: Some("PAGER".into()) }),
            }],
        },
    ]
}

#[test]
fn listing_of_rules_line_by_line() {
    let lines = list_rules(&sample_rules());
    assert_eq!(
        lines,
        vec![
            "1. [literal] match: \"git checkout\", \"git co\"".to_string(),
            "     \u{2192} use-switch: \"git switch\" (default)".to_string(),
            "2. [regex] match: \"cat (\\S+)\" [DISABLED]".to_string(),
            "     dir: \"~/work\"".to_string(),
            "     \u{2192} bat: \"bat $1\" [when: cwd=~/work/**, env=PAGER]".to_string(),
        ]
    );
}

#[test]
fn listing_without_rules_gives_the_hint() {
    assert_eq!(
        list_rules(&vec![]),
        vec![
            "No rules configured.".to_string(),
            "Run `swapx init` to create a local config or `swapx add` to add a rule.".to_string(),
        ]
    );
}

#[test]
fn explanation_line_by_line() {
    let env = env_in("/home/u/work/app", vec![("PAGER".into(), "less".into())]);
    let rules = sample_rules();
    let matches = explain_rules("git co main", &rules, &env).unwrap();
    assert_eq!(
        display_explain("git co main", &matches),
        vec![
            "Command: git co main".to_string(),
            "".to_string(),
            "Rule 1: [literal] [enabled] match: \"git checkout\", \"git co\" (matched: \"git co\")"
                .to_string(),
            "  \u{2192} use-switch: \"git switch\" \u{2192} \"git switch main\" (default)".to_string(),
            "".to_string(),
        ]
    );
    let matches = explain_rules("cat notes.txt", &rules, &env).unwrap();
    assert_eq!(
        display_explain("cat notes.txt", &matches),
        vec![
            "Command: cat notes.txt".to_string(),
            "".to_string(),
            "Rule 1: [regex] [DISABLED] match: \"cat (\\S+)\" (matched: \"cat (\\S+)\")".to_string(),
            "  dir: \"~/work\" \u{2192} MATCHES".to_string(),
            "  \u{2192} bat: \"bat $1\" \u{2192} \"bat notes.txt\" [when: cwd=~/work/**, env=PAGER \u{2192} MATCHES]"
                .to_string(),
            "".to_string(),
        ]
    );
}

#[test]
fn explanation_without_matches() {
    let matches = explain_rules("echo hi", &sample_rules(), &env_in("/", vec![])).unwrap();
    assert!(matches.is_empty());
    assert_eq!(
        display_explain("echo hi", &matches),
        vec!["Command: echo hi".to_string(), "".to_string(), "No rules match this command.".to_string()]
    );
}
