use swapx::engine::{apply_choice, apply_rules, explain_rules, Environment};
use swapx::models::{Replacement, Rule, WhenCondition};

fn no_env() -> Environment {
    Environment { cwd: None, home: None, vars: vec![] }
}

fn make_rule(pattern: &str, regex: bool, enabled: bool, replacements: Vec<Replacement>) -> Rule {
    Rule {
        match_patterns: vec![pattern.into()],
        regex,
        enabled,
        dir: None,
        replace: replacements,
    }
}

fn make_repl(label: &str, with_value: &str, default: bool) -> Replacement {
    Replacement {
        label: label.into(),
        with_value: with_value.into(),
        default,
        when: None,
    }
}

#[test]
fn literal_single_replacement() {
    let rules = vec![make_rule(
        "git@github.com:",
        false,
        true,
        vec![make_repl("personal", "git@github-personal:", false)],
    )];

    let result =
        apply_rules("git clone git@github.com:user/repo.git", &rules, false, &no_env()).unwrap();
    assert!(result.changed);
    assert_eq!(result.command, "git clone git@github-personal:user/repo.git");
    assert!(result.pending_choices.is_empty());
}

#[test]
fn regex_numbered_capture_groups() {
    let rules = vec![make_rule(
        r"docker run -p (\d+):(\d+)",
        true,
        true,
        vec![make_repl("swap-ports", "docker run -p $2:$1", false)],
    )];

    let result = apply_rules("docker run -p 8080:3000 myimage", &rules, false, &no_env()).unwrap();
    assert!(result.changed);
    assert_eq!(result.command, "docker run -p 3000:8080 myimage");
}

#[test]
fn regex_named_capture_groups() {
    let rules = vec![make_rule(
        r"(?P<user>\w+)@(?P<host>\w+)",
        true,
        true,
        vec![make_repl("reverse", "${host}@${user}", false)],
    )];

    let result = apply_rules("ssh alice@server", &rules, false, &no_env()).unwrap();
    assert!(result.changed);
    assert_eq!(result.command, "ssh server@alice");
}

#[test]
fn disabled_rule_skipping() {
    let rules = vec![make_rule(
        "git@github.com:",
        false,
        false,
        vec![make_repl("personal", "git@github-personal:", false)],
    )];

    let result =
        apply_rules("git clone git@github.com:user/repo.git", &rules, false, &no_env()).unwrap();
    assert!(!result.changed);
    assert_eq!(result.command, "git clone git@github.com:user/repo.git");
}

#[test]
fn multi_replacement_with_default() {
    let rules = vec![make_rule(
        "git@github.com:",
        false,
        true,
        vec![
            make_repl("personal", "git@github-personal:", true),
            make_repl("work", "git@github-work:", false),
        ],
    )];

    let result =
        apply_rules("git clone git@github.com:user/repo.git", &rules, true, &no_env()).unwrap();
    assert!(result.changed);
    assert_eq!(result.command, "git clone git@github-personal:user/repo.git");
    assert!(result.pending_choices.is_empty());
}

#[test]
fn multi_replacement_without_default_is_pending() {
    let rules = vec![make_rule(
        "git@github.com:",
        false,
        true,
        vec![
            make_repl("personal", "git@github-personal:", false),
            make_repl("work", "git@github-work:", false),
        ],
    )];

    let result =
        apply_rules("git clone git@github.com:user/repo.git", &rules, false, &no_env()).unwrap();
    assert!(!result.changed);
    assert_eq!(result.pending_choices.len(), 1);
}

#[test]
fn no_match_passthrough() {
    let rules = vec![make_rule(
        "git@github.com:",
        false,
        true,
        vec![make_repl("personal", "git@github-personal:", false)],
    )];

    let result = apply_rules("echo hello world", &rules, false, &no_env()).unwrap();
    assert!(!result.changed);
    assert_eq!(result.command, "echo hello world");
    assert!(result.pending_choices.is_empty());
}

#[test]
fn docker_port_swap_example() {
    let rules = vec![make_rule(
        r"docker run -p (\d+):(\d+)",
        true,
        true,
        vec![make_repl("swap-ports", "docker run -p $2:$1", false)],
    )];

    let result = apply_rules("docker run -p 80:443 nginx", &rules, false, &no_env()).unwrap();
    assert!(result.changed);
    assert_eq!(result.command, "docker run -p 443:80 nginx");
}

#[test]
fn multi_match_first_pattern_matches() {
    let rules = vec![Rule {
        match_patterns: vec!["npm install".into(), "npm run".into()],
        regex: false,
        enabled: true,
        dir: None,
        replace: vec![make_repl("pnpm", "pnpm install", false)],
    }];

    let result = apply_rules("npm install lodash", &rules, false, &no_env()).unwrap();
    assert!(result.changed);
    assert_eq!(result.command, "pnpm install lodash");
}

#[test]
fn multi_match_second_pattern_matches() {
    let rules = vec![Rule {
        match_patterns: vec!["npm install".into(), "npm run".into()],
        regex: false,
        enabled: true,
        dir: None,
        replace: vec![make_repl("pnpm", "pnpm run", false)],
    }];

    let result = apply_rules("npm run build", &rules, false, &no_env()).unwrap();
    assert!(result.changed);
    assert_eq!(result.command, "pnpm run build");
}

#[test]
fn multi_match_no_pattern_matches() {
    let rules = vec![Rule {
        match_patterns: vec!["npm install".into(), "npm run".into()],
        regex: false,
        enabled: true,
        dir: None,
        replace: vec![make_repl("pnpm", "pnpm install", false)],
    }];

    let result = apply_rules("npm test", &rules, false, &no_env()).unwrap();
    assert!(!result.changed);
    assert_eq!(result.command, "npm test");
}

#[test]
fn multi_match_pending_choice_has_matched_pattern() {
    let rules = vec![Rule {
        match_patterns: vec!["npm install".into(), "npm run".into()],
        regex: false,
        enabled: true,
        dir: None,
        replace: vec![
            make_repl("pnpm", "pnpm run", false),
            make_repl("yarn", "yarn run", false),
        ],
    }];

    let result = apply_rules("npm run build", &rules, false, &no_env()).unwrap();
    assert_eq!(result.pending_choices.len(), 1);
    assert_eq!(result.pending_choices[0].matched_pattern, "npm run");
}

// ─── further cases ───

fn kube_rules() -> Vec<Rule> {
    vec![Rule {
        match_patterns: vec!["kubectl".into()],
        regex: false,
        enabled: true,
        dir: None,
        replace: vec![
            Replacement {
                label: "staging".into(),
                with_value: "kubectl --context=staging".into(),
                default: false,
                when: Some(WhenCondition { cwd: None, env: Some("KUBE_ENV=staging".into()) }),
            },
            Replacement {
                label: "production".into(),
                with_value: "kubectl --context=production".into(),
                default: false,
                when: Some(WhenCondition { cwd: None, env: Some("KUBE_ENV=production".into()) }),
            },
        ],
    }]
}

#[test]
fn when_env_condition_selects_one() {
    let env = Environment {
        cwd: None,
        home: None,
        vars: vec![("KUBE_ENV".into(), "staging".into())],
    };
    let result = apply_rules("kubectl get pods", &kube_rules(), false, &env).unwrap();
    assert!(result.changed);
    assert_eq!(result.command, "kubectl --context=staging get pods");
}

#[test]
fn when_env_condition_unset_is_pending() {
    let result = apply_rules("kubectl get pods", &kube_rules(), true, &no_env()).unwrap();
    assert!(!result.changed);
    assert_eq!(result.command, "kubectl get pods");
    assert_eq!(result.pending_choices.len(), 1);
}

#[test]
fn when_env_key_only_checks_presence() {
    let rules = vec![make_rule(
        "ls",
        false,
        true,
        vec![Replacement {
            label: "eza".into(),
            with_value: "eza".into(),
            default: false,
            when: Some(WhenCondition { cwd: None, env: Some("USE_EZA".into()) }),
        }],
    )];
    let unset = apply_rules("ls -la", &rules, false, &no_env()).unwrap();
    assert_eq!(unset.command, "ls -la");
    assert!(!unset.changed);
    let env = Environment { cwd: None, home: None, vars: vec![("USE_EZA".into(), "".into())] };
    let set = apply_rules("ls -la", &rules, false, &env).unwrap();
    assert_eq!(set.command, "eza -la");
}

#[test]
fn when_cwd_glob_with_tilde() {
    let rules = vec![make_rule(
        "git@github.com:",
        false,
        true,
        vec![
            Replacement {
                label: "personal".into(),
                with_value: "git@github-personal:".into(),
                default: false,
                when: Some(WhenCondition { cwd: Some("~/personal/**".into()), env: None }),
            },
            Replacement {
                label: "work".into(),
                with_value: "git@github-work:".into(),
                default: false,
                when: Some(WhenCondition { cwd: Some("~/work/**".into()), env: None }),
            },
        ],
    )];
    let env = Environment {
        cwd: Some("/home/me/work/projects".into()),
        home: Some("/home/me".into()),
        vars: vec![],
    };
    let result = apply_rules("git clone git@github.com:company/api.git", &rules, false, &env).unwrap();
    assert_eq!(result.command, "git clone git@github-work:company/api.git");
}

#[test]
fn dir_scoped_rule_applies_only_there() {
    let mut rule = make_rule("git checkout", false, true, vec![make_repl("use-switch", "git switch", false)]);
    rule.dir = Some("/tmp/project".into());
    let rules = vec![rule];
    let inside = Environment { cwd: Some("/tmp/project/src".into()), home: None, vars: vec![] };
    let here = Environment { cwd: Some("/tmp/project".into()), home: None, vars: vec![] };
    let elsewhere = Environment { cwd: Some("/tmp/projectx".into()), home: None, vars: vec![] };
    assert_eq!(apply_rules("git checkout main", &rules, false, &inside).unwrap().command, "git switch main");
    assert_eq!(apply_rules("git checkout main", &rules, false, &here).unwrap().command, "git switch main");
    assert_eq!(apply_rules("git checkout main", &rules, false, &elsewhere).unwrap().command, "git checkout main");
    assert_eq!(apply_rules("git checkout main", &rules, false, &no_env()).unwrap().command, "git checkout main");
}

#[test]
fn invalid_regex_is_an_error() {
    let rules = vec![make_rule("(unclosed", true, true, vec![make_repl("x", "y", false)])];
    let err = apply_rules("anything", &rules, false, &no_env()).unwrap_err();
    let expected = regex::Regex::new("(unclosed").unwrap_err().to_string();
    assert_eq!(err.message(), format!("Regex error: {}", expected));
}

#[test]
fn the_first_bad_pattern_is_the_one_reported() {
    let rules = vec![
        make_rule("nothing here", false, true, vec![make_repl("x", "y", false)]),
        make_rule("[z-a]", true, true, vec![make_repl("x", "y", false)]),
        make_rule("(unclosed", true, true, vec![make_repl("x", "y", false)]),
    ];
    let err = apply_rules("anything", &rules, false, &no_env()).unwrap_err();
    let expected = regex::Regex::new("[z-a]").unwrap_err().to_string();
    assert_eq!(err.message(), format!("Regex error: {}", expected));
    let err = explain_rules("anything", &rules, &no_env()).unwrap_err();
    assert_eq!(err.message(), format!("Regex error: {}", expected));
}

#[test]
fn later_rules_see_earlier_rewrites() {
    let rules = vec![
        make_rule("npm", false, true, vec![make_repl("pnpm", "pnpm", false)]),
        make_rule("pnpm i", false, true, vec![make_repl("install", "pnpm install", false)]),
    ];
    let result = apply_rules("npm i react", &rules, false, &no_env()).unwrap();
    assert_eq!(result.command, "pnpm install react");
}

#[test]
fn literal_replacement_replaces_every_occurrence() {
    assert_eq!(apply_choice("a-b-c", "-", false, "+").unwrap(), "a+b+c");
    assert_eq!(apply_choice("abc", "", false, "x").unwrap(), "xaxbxcx");
    assert_eq!(apply_choice("aaa", "aa", false, "b").unwrap(), "ba");
}

#[test]
fn regex_choice_without_match_keeps_command() {
    assert_eq!(apply_choice("echo hi", r"\d+", true, "N").unwrap(), "echo hi");
}

#[test]
fn explain_lists_disabled_rules_with_results() {
    let rules = vec![
        make_rule(
            "git@github.com:",
            false,
            false,
            vec![
                make_repl("personal", "git@github-personal:", true),
                make_repl("work", "git@github-work:", false),
            ],
        ),
        make_rule("nomatch", false, true, vec![make_repl("x", "y", false)]),
    ];
    let matches = explain_rules("git clone git@github.com:user/repo.git", &rules, &no_env()).unwrap();
    assert_eq!(matches.len(), 1);
    assert!(!matches[0].is_enabled);
    assert_eq!(matches[0].matched_pattern, "git@github.com:");
    assert_eq!(matches[0].replacements.len(), 2);
    assert_eq!(matches[0].replacements[0].result_command, "git clone git@github-personal:user/repo.git");
    assert_eq!(matches[0].replacements[1].result_command, "git clone git@github-work:user/repo.git");
    assert!(matches[0].replacements[0].is_default);
    assert!(!matches[0].replacements[0].when_matches);
    assert_eq!(matches[0].dir_matches, None);
}

#[test]
fn npm_to_pnpm_migration_example() {
    let rules = vec![
        make_rule("npm install", false, true, vec![make_repl("pnpm", "pnpm install", false)]),
        make_rule("npm run", false, true, vec![make_repl("pnpm", "pnpm run", false)]),
        make_rule("npm test", false, true, vec![make_repl("pnpm", "pnpm test", false)]),
    ];
    assert_eq!(apply_rules("npm install express", &rules, true, &no_env()).unwrap().command, "pnpm install express");
    assert_eq!(apply_rules("npm test", &rules, true, &no_env()).unwrap().command, "pnpm test");
}

#[test]
fn ssh_host_alias_example() {
    let rules = vec![
        make_rule(
            "ssh prod",
            false,
            true,
            vec![make_repl("production", "ssh admin@prod-server.us-east-1.company.internal", false)],
        ),
        make_rule(
            "ssh staging",
            false,
            true,
            vec![make_repl("staging", "ssh deploy@staging.us-east-1.company.internal", false)],
        ),
    ];
    let r = apply_rules("ssh prod", &rules, true, &no_env()).unwrap();
    assert!(r.changed);
    assert_eq!(r.command, "ssh admin@prod-server.us-east-1.company.internal");
}

#[test]
fn explain_previews_the_docker_port_swap() {
    let rules = vec![make_rule(
        r"docker run -p (\d+):(\d+)",
        true,
        true,
        vec![make_repl("swap-ports", "docker run -p $2:$1", false)],
    )];
    let m = explain_rules("docker run -p 8080:3000 myapp", &rules, &no_env()).unwrap();
    assert_eq!(m.len(), 1);
    assert_eq!(m[0].replacements[0].result_command, "docker run -p 3000:8080 myapp");
    assert!(m[0].is_enabled);
    assert_eq!(m[0].matched_pattern, r"docker run -p (\d+):(\d+)");
}

#[test]
fn two_rule_lists_in_a_row_are_their_concatenation() {
    let r1 = vec![
        make_rule("npm", false, true, vec![make_repl("pnpm", "pnpm", false)]),
        make_rule("melon", false, true, vec![make_repl("a", "x", false), make_repl("b", "y", false)]),
    ];
    let r2 = vec![make_rule("pnpm i", false, true, vec![make_repl("install", "pnpm install", false)])];
    let all: Vec<Rule> = r1.iter().chain(r2.iter()).cloned().collect();
    let whole = apply_rules("npm i melon", &all, false, &no_env()).unwrap();
    let first = apply_rules("npm i melon", &r1, false, &no_env()).unwrap();
    let second = apply_rules(&first.command, &r2, false, &no_env()).unwrap();
    assert_eq!(whole.command, second.command);
    assert_eq!(whole.command, "pnpm install melon");
    assert_eq!(whole.changed, first.changed || second.changed);
    assert_eq!(whole.pending_choices.len(), first.pending_choices.len() + second.pending_choices.len());
    assert_eq!(whole.pending_choices[0].matched_pattern, "melon");
}
