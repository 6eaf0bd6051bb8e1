use swapx::config::{
    answer_decision, init_overwrite, load_merged_config, merge_rules, no_rule_error, replace_question,
    rule_merge_key, set_rule_enabled, upsert_rule, write_decision, InitAction, InitOverwrite,
    WriteDecision,
};
use swapx::models::{ConfigFile, Replacement, Rule};

fn rep(label: &str, with_value: &str) -> Replacement {
    Replacement { label: label.into(), with_value: with_value.into(), default: false, when: None }
}

fn rule(patterns: &[&str], with_value: &str) -> Rule {
    Rule {
        match_patterns: patterns.iter().map(|p| p.to_string()).collect(),
        regex: false,
        enabled: true,
        dir: None,
        replace: vec![rep("r", with_value)],
    }
}

fn withs(rules: &[Rule]) -> Vec<String> {
    rules.iter().map(|r| r.replace[0].with_value.clone()).collect()
}

#[test]
fn merge_key_sorts_and_joins_with_nul() {
    assert_eq!(rule_merge_key(&rule(&["b", "a"], "x")), "a\0b");
    assert_eq!(rule_merge_key(&rule(&["a", "b"], "x")), "a\0b");
    assert_eq!(rule_merge_key(&rule(&["solo"], "x")), "solo");
}

#[test]
fn local_rule_overrides_global_rule_with_same_key() {
    let global = ConfigFile { rules: vec![rule(&["git checkout"], "global"), rule(&["ls"], "eza")] };
    let local = ConfigFile { rules: vec![rule(&["git checkout"], "local")] };
    let merged = load_merged_config(&Some(global), &None, &Some(local));
    assert_eq!(withs(&merged.rules), vec!["local".to_string(), "eza".to_string()]);
}

#[test]
fn plk_layer_sits_between_global_and_local() {
    let global = ConfigFile { rules: vec![rule(&["cat"], "global")] };
    let plk = ConfigFile { rules: vec![rule(&["cat"], "plk"), rule(&["ls"], "plk-ls")] };
    let merged = load_merged_config(&Some(global), &Some(plk), &None);
    assert_eq!(withs(&merged.rules), vec!["plk".to_string(), "plk-ls".to_string()]);
}

#[test]
fn pattern_order_does_not_change_the_key() {
    let merged = merge_rules(&vec![rule(&["a", "b"], "first"), rule(&["b", "a"], "second")]);
    assert_eq!(withs(&merged), vec!["second".to_string()]);
}

#[test]
fn missing_layers_contribute_nothing() {
    assert!(load_merged_config(&None, &None, &None).rules.is_empty());
}

#[test]
fn disabling_then_enabling_restores_the_rule() {
    let mut rules = vec![rule(&["git checkout"], "git switch")];
    assert!(set_rule_enabled(&mut rules, "git checkout", false));
    assert!(!rules[0].enabled);
    assert!(set_rule_enabled(&mut rules, "git checkout", true));
    assert!(rules[0].enabled);
}

#[test]
fn toggling_touches_only_the_first_rule_with_the_pattern() {
    let mut rules = vec![rule(&["x", "y"], "1"), rule(&["y"], "2")];
    assert!(set_rule_enabled(&mut rules, "y", false));
    assert!(!rules[0].enabled);
    assert!(rules[1].enabled);
}

#[test]
fn toggling_an_unknown_pattern_finds_nothing() {
    let mut rules = vec![rule(&["ls"], "eza")];
    assert!(!set_rule_enabled(&mut rules, "cat", false));
    assert!(rules[0].enabled);
    assert_eq!(
        no_rule_error("cat").message(),
        "Config error: No rule found with match pattern: \"cat\""
    );
}

#[test]
fn upsert_replaces_rule_with_same_key_or_appends() {
    let mut rules = vec![rule(&["a", "b"], "old"), rule(&["c"], "c")];
    upsert_rule(&mut rules, rule(&["b", "a"], "new"));
    assert_eq!(withs(&rules), vec!["new".to_string(), "c".to_string()]);
    upsert_rule(&mut rules, rule(&["d"], "d"));
    assert_eq!(withs(&rules), vec!["new".to_string(), "c".to_string(), "d".to_string()]);
}

#[test]
fn upsert_twice_is_upsert_once() {
    let mut once = vec![rule(&["c"], "c")];
    upsert_rule(&mut once, rule(&["d"], "d"));
    let mut twice = vec![rule(&["c"], "c")];
    upsert_rule(&mut twice, rule(&["d"], "d"));
    upsert_rule(&mut twice, rule(&["d"], "d"));
    assert_eq!(withs(&once), withs(&twice));
}

#[test]
fn write_decisions_for_each_case() {
    match write_decision("cfg", true, "a.yaml", false, &InitOverwrite::Prompt) {
        WriteDecision::Write(InitAction::Created(p)) => assert_eq!(p, "a.yaml"),
        d => panic!("unexpected {:?}", d),
    }
    match write_decision("cfg", true, "a.yaml", true, &InitOverwrite::Force) {
        WriteDecision::Write(InitAction::Replaced(p)) => assert_eq!(p, "a.yaml"),
        d => panic!("unexpected {:?}", d),
    }
    assert!(matches!(write_decision("cfg", true, "a.yaml", true, &InitOverwrite::Prompt), WriteDecision::Ask));
    match write_decision("cfg", true, "a.yaml", false, &InitOverwrite::Error) {
        WriteDecision::Refuse(e) => {
            assert_eq!(e.message(), "Config error: cfg already exists (already initialized)")
        }
        d => panic!("unexpected {:?}", d),
    }
    assert_eq!(replace_question("a.yaml"), "a.yaml already exists. Replace with defaults?");
    assert!(matches!(answer_decision("a.yaml", true), WriteDecision::Write(InitAction::Replaced(_))));
    assert!(matches!(answer_decision("a.yaml", false), WriteDecision::Write(InitAction::Skipped(_))));
}

#[test]
fn init_overwrite_follows_force_then_terminal() {
    assert!(matches!(init_overwrite(true, false), InitOverwrite::Force));
    assert!(matches!(init_overwrite(true, true), InitOverwrite::Force));
    assert!(matches!(init_overwrite(false, true), InitOverwrite::Prompt));
    assert!(matches!(init_overwrite(false, false), InitOverwrite::Error));
}

#[test]
fn init_config_creates_expected_files() {
    let files = ["/tmp/cfg/swapx/rules.yaml", "/tmp/cfg/swapx/suggestions.d/builtin.yaml"];
    for f in files {
        assert!(matches!(write_decision("/tmp/cfg/swapx", false, f, false, &InitOverwrite::Error), WriteDecision::Write(InitAction::Created(_))));
    }
    assert!(swapx::config::EXAMPLE_RULES_YAML.contains("rules: []"));
}

#[test]
fn init_config_fails_if_already_exists() {
    match write_decision("/tmp/cfg/swapx", true, "/tmp/cfg/swapx/rules.yaml", true, &InitOverwrite::Error) {
        WriteDecision::Refuse(e) => assert!(e.message().contains("already exists")),
        d => panic!("unexpected {:?}", d),
    }
}

#[test]
fn init_config_force_replaces_files() {
    let files = ["/tmp/cfg/swapx/rules.yaml", "/tmp/cfg/swapx/suggestions.d/builtin.yaml"];
    for f in files {
        assert!(matches!(write_decision("/tmp/cfg/swapx", true, f, true, &InitOverwrite::Force), WriteDecision::Write(InitAction::Replaced(_))));
    }
}

#[test]
fn init_refuses_an_existing_directory_even_without_its_files() {
    match write_decision("/tmp/cfg/swapx", true, "/tmp/cfg/swapx/rules.yaml", false, &InitOverwrite::Error) {
        WriteDecision::Refuse(e) => assert_eq!(
            e.message(),
            "Config error: /tmp/cfg/swapx already exists (already initialized)"
        ),
        d => panic!("unexpected {:?}", d),
    }
    assert!(matches!(
        write_decision("/tmp/cfg/swapx", true, "/tmp/cfg/swapx/rules.yaml", false, &InitOverwrite::Force),
        WriteDecision::Write(InitAction::Created(_))
    ));
}

#[test]
fn merge_keys_differ_when_patterns_differ() {
    assert_ne!(rule_merge_key(&rule(&["a", "b"], "x")), rule_merge_key(&rule(&["a", "c"], "x")));
    assert_ne!(rule_merge_key(&rule(&["a", "a"], "x")), rule_merge_key(&rule(&["a"], "x")));
    assert_eq!(rule_merge_key(&rule(&["b", "a", "a"], "x")), rule_merge_key(&rule(&["a", "b", "a"], "x")));
}

#[test]
fn every_key_of_the_three_files_survives_and_the_later_wins() {
    let global = ConfigFile { rules: vec![rule(&["a"], "g-a"), rule(&["b"], "g-b")] };
    let plk = ConfigFile { rules: vec![rule(&["b"], "p-b"), rule(&["c"], "p-c")] };
    let local = ConfigFile { rules: vec![rule(&["c"], "l-c1"), rule(&["c"], "l-c2")] };
    let merged = load_merged_config(&Some(global), &Some(plk), &Some(local));
    assert_eq!(withs(&merged.rules), vec!["g-a".to_string(), "p-b".to_string(), "l-c2".to_string()]);
}
