//! The command-line scenarios, run through the library calls that each
//! command makes: the rules of the configuration file are given as values.

use swapx::choice::{list_choices_output, parse_choice_indices, resolve_pending_choices};
use swapx::cli::{
    finish_command, pending_action, plan_invocation, repl_input, shell_words_join, Cli, Commands,
    Finish, Mode, PendingAction,
};
use swapx::config::{
    load_merged_config, no_rule_error, set_rule_enabled, write_decision, InitAction, InitOverwrite,
    WriteDecision, EXAMPLE_RULES_YAML,
};
use swapx::engine::{apply_rules, explain_rules, Environment};
use swapx::models::{ConfigFile, Replacement, Rule, WhenCondition};
use swapx::report::{display_explain, list_rules};
use swapx::shell_hook::generate_hook;

fn env_at(cwd: &str) -> Environment {
    Environment { cwd: Some(cwd.into()), home: Some(cwd.into()), vars: vec![] }
}

fn repl(label: &str, with_value: &str, default: bool) -> Replacement {
    Replacement { label: label.into(), with_value: with_value.into(), default, when: None }
}

fn rule(pattern: &str, regex: bool, enabled: bool, dir: Option<&str>, reps: Vec<Replacement>) -> Rule {
    Rule {
        match_patterns: vec![pattern.into()],
        regex,
        enabled,
        dir: dir.map(|d| d.to_string()),
        replace: reps,
    }
}

/// The configuration in effect when `rules` is the local file and there is no
/// global one.
fn local_config(rules: Vec<Rule>) -> ConfigFile {
    load_merged_config(&None, &None, &Some(ConfigFile { rules }))
}

fn checkout_config(default: bool) -> ConfigFile {
    local_config(vec![rule(
        "git checkout",
        false,
        true,
        None,
        vec![repl("use-switch", "git switch", default)],
    )])
}

fn melon_config(default_papaya: bool) -> ConfigFile {
    local_config(vec![rule(
        "melon",
        false,
        true,
        None,
        vec![repl("water", "watermelon", false), repl("papaya", "papaya", default_papaya)],
    )])
}

fn github_config(default_personal: bool) -> ConfigFile {
    local_config(vec![rule(
        "git@github.com:",
        false,
        true,
        None,
        vec![
            repl("personal", "git@github-personal:", default_personal),
            repl("work", "git@github-work:", false),
        ],
    )])
}

fn kube_config() -> ConfigFile {
    let when = |v: &str| Some(WhenCondition { cwd: None, env: Some(v.into()) });
    local_config(vec![rule(
        "kubectl",
        false,
        true,
        None,
        vec![
            Replacement {
                label: "staging".into(),
                with_value: "kubectl --context=staging".into(),
                default: false,
                when: when("KUBE_ENV=staging"),
            },
            Replacement {
                label: "production".into(),
                with_value: "kubectl --context=production".into(),
                default: false,
                when: when("KUBE_ENV=production"),
            },
        ],
    )])
}

fn text(lines: &[String]) -> String {
    let mut s = String::new();
    for l in lines {
        s.push_str(l);
        s.push('\n');
    }
    s
}

/// What a run without a terminal prints for `command` (the `--cmd` form and
/// the external-command form alike), with its exit status.
fn run_non_tty(command: &str, config: &ConfigFile, env: &Environment, dry_run: bool) -> (String, i32) {
    let transform = apply_rules(command, &config.rules, true, env).unwrap();
    match pending_action(!transform.pending_choices.is_empty(), false) {
        PendingAction::PrintAsIs => return (format!("{}\n", transform.command), 0),
        PendingAction::Proceed => {}
        PendingAction::Prompt => panic!("no terminal here"),
    }
    match finish_command(command, &transform.command, transform.changed, dry_run, false) {
        Finish::Print { exit_code } => (format!("{}\n", transform.command), exit_code),
        Finish::Execute { .. } => panic!("only dry runs here"),
    }
}

/// `swapx --dry-run ARGS...`.
fn dry_run_args(args: &[&str], config: &ConfigFile, env: &Environment) -> String {
    let args: Vec<String> = args.iter().map(|a| a.to_string()).collect();
    let command = shell_words_join(&args);
    run_non_tty(&command, config, env, true).0
}

/// `swapx` reading commands from a pipe.
fn pipe(input: &str, config: &ConfigFile, env: &Environment) -> String {
    let mut out = String::new();
    for line in input.lines() {
        let t = apply_rules(line, &config.rules, true, env).unwrap();
        out.push_str(&t.command);
        out.push('\n');
    }
    out
}

/// `swapx explain WORDS...`.
fn explain(words: &[&str], config: &ConfigFile, env: &Environment) -> String {
    let command = words.join(" ");
    let matches = explain_rules(&command, &config.rules, env).unwrap();
    text(&display_explain(&command, &matches))
}

/// `swapx --cmd CMD --list-choices`.
fn list_choices(command: &str, config: &ConfigFile) -> (String, i32) {
    let t = apply_rules(command, &config.rules, false, &env_at("/tmp")).unwrap();
    let (lines, code) = list_choices_output(&t);
    (text(&lines), code)
}

/// `swapx --cmd CMD --choice CHOICE`.
fn choose_with(command: &str, choice: &str, config: &ConfigFile) -> Result<String, String> {
    let t = apply_rules(command, &config.rules, false, &env_at("/tmp")).unwrap();
    let indices = parse_choice_indices(choice).map_err(|e| e.message())?;
    resolve_pending_choices(&t.command, &t.pending_choices, &indices).map_err(|e| e.message())
}

fn cli(cmd: Option<&str>, list_choices: bool, choice: Option<&str>, command: Option<Commands>) -> Cli {
    Cli {
        dry_run: false,
        cmd: cmd.map(|c| c.to_string()),
        list_choices,
        choice: choice.map(|c| c.to_string()),
        command,
    }
}

fn hook(shell: &str) -> String {
    generate_hook(shell).unwrap()
}

// ─── init ───

#[test]
fn init_creates_config_file() {
    match write_decision("swapx", false, ".swapx.yaml", false, &InitOverwrite::Error) {
        WriteDecision::Write(InitAction::Created(p)) => assert_eq!(p, ".swapx.yaml"),
        other => panic!("unexpected {:?}", other),
    }
    assert!(EXAMPLE_RULES_YAML.contains("git checkout"));
    assert!(EXAMPLE_RULES_YAML.contains("git switch"));
    assert!(EXAMPLE_RULES_YAML.contains("python"));
}

#[test]
fn init_fails_if_config_exists() {
    match write_decision("swapx", true, ".swapx.yaml", true, &InitOverwrite::Error) {
        WriteDecision::Refuse(e) => assert!(e.message().contains("already exists")),
        other => panic!("unexpected {:?}", other),
    }
}

// ─── list ───

#[test]
fn list_shows_rules() {
    let out = text(&list_rules(&checkout_config(true).rules));
    assert!(out.contains("git checkout"));
    assert!(out.contains("use-switch"));
    assert!(out.contains("git switch"));
}

#[test]
fn list_shows_disabled_marker() {
    let config = local_config(vec![rule(
        "git checkout",
        false,
        false,
        None,
        vec![repl("use-switch", "git switch", false)],
    )]);
    assert!(text(&list_rules(&config.rules)).contains("DISABLED"));
}

#[test]
fn list_empty_config() {
    let config = local_config(vec![]);
    assert!(text(&list_rules(&config.rules)).contains("No rules configured"));
}

// ─── dry-run ───

#[test]
fn dry_run_transforms_command() {
    let out = dry_run_args(&["git", "checkout", "main"], &checkout_config(true), &env_at("/tmp"));
    assert!(out.contains("git switch main"));
}

#[test]
fn dry_run_passthrough_when_no_match() {
    let out = dry_run_args(&["echo", "hello"], &checkout_config(true), &env_at("/tmp"));
    assert!(out.contains("echo hello"));
}

#[test]
fn dry_run_regex_rule() {
    let config = local_config(vec![rule(
        r"docker run -p (\d+):(\d+)",
        true,
        true,
        None,
        vec![repl("swap-ports", "docker run -p $2:$1", false)],
    )]);
    let out = dry_run_args(&["docker", "run", "-p", "8080:3000", "myapp"], &config, &env_at("/tmp"));
    assert!(out.contains("docker run -p 3000:8080 myapp"));
}

// ─── explain ───

#[test]
fn explain_shows_matching_rules() {
    let out = explain(&["git", "checkout", "main"], &checkout_config(true), &env_at("/tmp"));
    assert!(out.contains("Command: git checkout main"));
    assert!(out.contains("literal"));
    assert!(out.contains("enabled"));
    assert!(out.contains("use-switch"));
    assert!(out.contains("git switch main"));
}

#[test]
fn explain_shows_no_match() {
    let out = explain(&["echo", "hello"], &checkout_config(false), &env_at("/tmp"));
    assert!(out.contains("No rules match"));
}

#[test]
fn explain_shows_disabled_rules() {
    let config = local_config(vec![rule(
        "git checkout",
        false,
        false,
        None,
        vec![repl("use-switch", "git switch", false)],
    )]);
    let out = explain(&["git", "checkout", "main"], &config, &env_at("/tmp"));
    assert!(out.contains("DISABLED"));
}

// ─── shell-hook ───

#[test]
fn shell_hook_zsh() {
    let h = hook("zsh");
    assert!(h.contains("__swapx_accept_line"));
    assert!(h.contains("zle -N accept-line"));
}

#[test]
fn shell_hook_bash() {
    let h = hook("bash");
    assert!(h.contains("__swapx_debug_trap"));
    assert!(h.contains("shopt -s extdebug"));
}

#[test]
fn shell_hook_fish() {
    let h = hook("fish");
    assert!(h.contains("__swapx_enter"));
    assert!(h.contains("bind \\r __swapx_enter"));
}

#[test]
fn shell_hook_powershell() {
    assert!(hook("powershell").contains("Set-PSReadLineKeyHandler"));
}

#[test]
fn shell_hook_nushell() {
    assert!(hook("nu").contains("__swapx_handler"));
}

#[test]
fn shell_hook_unsupported_shell() {
    let e = generate_hook("tcsh").unwrap_err();
    assert!(e.message().contains("Unsupported shell"));
}

// ─── enable / disable ───

#[test]
fn disable_then_enable_rule() {
    let env = env_at("/tmp");
    let mut config = checkout_config(true);
    assert!(set_rule_enabled(&mut config.rules, "git checkout", false));
    assert!(!config.rules[0].enabled);
    assert!(dry_run_args(&["git", "checkout", "main"], &config, &env).contains("git checkout main"));
    assert!(set_rule_enabled(&mut config.rules, "git checkout", true));
    assert!(dry_run_args(&["git", "checkout", "main"], &config, &env).contains("git switch main"));
}

#[test]
fn disable_nonexistent_rule() {
    let mut config = local_config(vec![]);
    assert!(!set_rule_enabled(&mut config.rules, "nonexistent", false));
    assert!(no_rule_error("nonexistent").message().contains("No rule found"));
}

// ─── pipe mode ───

#[test]
fn pipe_mode_transforms_stdin() {
    let out = pipe("git checkout main\n", &checkout_config(true), &env_at("/tmp"));
    assert!(out.contains("git switch main"));
}

#[test]
fn pipe_mode_multiple_lines() {
    let out = pipe(
        "git checkout main\ngit checkout dev\necho hello\n",
        &checkout_config(true),
        &env_at("/tmp"),
    );
    assert!(out.contains("git switch main"));
    assert!(out.contains("git switch dev"));
    assert!(out.contains("echo hello"));
}

#[test]
fn pipe_mode_no_match_passthrough() {
    let out = pipe("echo hello world\n", &checkout_config(true), &env_at("/tmp"));
    assert!(out.contains("echo hello world"));
}

#[test]
fn pipe_mode_uses_default_replacement() {
    let out = pipe("git clone git@github.com:user/repo.git\n", &github_config(true), &env_at("/tmp"));
    assert!(out.contains("git clone git@github-personal:user/repo.git"));
}

// ─── no config ───

#[test]
fn dry_run_works_without_config() {
    let config = load_merged_config(&None, &None, &None);
    assert!(config.rules.is_empty());
    let out = dry_run_args(&["echo", "hello"], &config, &env_at("/tmp"));
    assert!(out.contains("echo hello"));
}

// ─── regex with named capture groups ───

#[test]
fn dry_run_named_capture_groups() {
    let config = local_config(vec![rule(
        r"deploy (?P<service>\w+) to (?P<env>\w+)",
        true,
        true,
        None,
        vec![repl("k8s-deploy", "kubectl -n ${env} rollout restart deployment/${service}", false)],
    )]);
    let out = dry_run_args(&["deploy", "api", "to", "production"], &config, &env_at("/tmp"));
    assert!(out.contains("kubectl -n production rollout restart deployment/api"));
}

// ─── when condition with env ───

#[test]
fn dry_run_when_env_condition() {
    let env = Environment {
        cwd: Some("/tmp".into()),
        home: None,
        vars: vec![("KUBE_ENV".into(), "staging".into())],
    };
    let out = dry_run_args(&["kubectl", "get", "pods"], &kube_config(), &env);
    assert!(out.contains("kubectl --context=staging get pods"));
}

// ─── init content validation ───

/// The rules file that `init` writes is valid YAML with no active rules; its
/// examples are comments.
#[test]
fn init_rules_file_is_valid_yaml_with_commented_examples() {
    let doc: serde_yaml_ng::Value = serde_yaml_ng::from_str(EXAMPLE_RULES_YAML).unwrap();
    let rules = doc.get("rules").and_then(|r| r.as_sequence()).unwrap();
    assert!(rules.is_empty());
    assert!(EXAMPLE_RULES_YAML.contains("#   - match: \"git checkout\""));
}

// ─── --cmd flag ───

#[test]
fn cmd_flag_single_replacement() {
    let (out, _) = run_non_tty("git checkout main", &checkout_config(false), &env_at("/tmp"), true);
    assert!(out.contains("git switch main"));
}

#[test]
fn cmd_flag_no_match_passthrough() {
    let (out, _) = run_non_tty("echo hello world", &checkout_config(false), &env_at("/tmp"), true);
    assert!(out.contains("echo hello world"));
}

#[test]
fn cmd_flag_when_condition_auto_select() {
    let env = Environment {
        cwd: Some("/tmp".into()),
        home: None,
        vars: vec![("KUBE_ENV".into(), "staging".into())],
    };
    let (out, _) = run_non_tty("kubectl get pods", &kube_config(), &env, true);
    assert!(out.contains("kubectl --context=staging get pods"));
}

#[test]
fn cmd_flag_multi_replacement_no_default_non_tty() {
    let (out, code) = run_non_tty(
        "git clone git@github.com:user/repo.git",
        &github_config(false),
        &env_at("/tmp"),
        true,
    );
    assert_eq!(code, 0);
    assert!(out.contains("git clone git@github.com:user/repo.git"));
}

#[test]
fn cmd_flag_multi_replacement_has_default_non_tty() {
    let (out, _) = run_non_tty(
        "git clone git@github.com:user/repo.git",
        &github_config(true),
        &env_at("/tmp"),
        true,
    );
    assert!(out.contains("git clone git@github-personal:user/repo.git"));
}

#[test]
fn cmd_flag_preserves_special_characters() {
    let config = local_config(vec![rule("echo", false, true, None, vec![repl("printf", "printf", false)])]);
    let (out, _) = run_non_tty("echo 'hello world' | grep foo && bar", &config, &env_at("/tmp"), true);
    assert!(out.contains("printf 'hello world' | grep foo && bar"));
}

#[test]
fn cmd_flag_combined_with_subcommand_errors() {
    assert!(plan_invocation(&cli(Some("git checkout main"), false, None, Some(Commands::List))).is_err());
}

#[test]
fn shell_hook_zsh_contains_cmd_flag() {
    assert!(hook("zsh").contains("swapx --dry-run --cmd"));
}

#[test]
fn shell_hook_bash_contains_cmd_flag() {
    assert!(hook("bash").contains("swapx --dry-run --cmd"));
}

#[test]
fn shell_hook_fish_contains_cmd_flag() {
    assert!(hook("fish").contains("swapx --dry-run --cmd"));
}

#[test]
fn shell_hook_powershell_contains_cmd_flag() {
    assert!(hook("powershell").contains("swapx --dry-run --cmd"));
}

#[test]
fn shell_hook_nushell_contains_cmd_flag() {
    assert!(hook("nu").contains("swapx --dry-run --cmd"));
}

// ─── --list-choices ───

#[test]
fn list_choices_no_pending_outputs_transformed() {
    let (out, code) = list_choices("git checkout main", &checkout_config(true));
    assert_eq!(code, 0);
    assert!(out.contains("git switch main"));
}

#[test]
fn list_choices_with_pending_exits_20() {
    let (out, code) = list_choices("echo melon", &melon_config(false));
    assert_eq!(code, 20);
    assert!(out.contains("echo melon\n"));
    assert!(out.contains("melon\t-1\twater\tpapaya"));
}

#[test]
fn list_choices_with_default_index() {
    let (out, code) = list_choices("echo melon", &melon_config(true));
    assert_eq!(code, 20);
    assert!(out.contains("melon\t1\twater\tpapaya"));
}

#[test]
fn list_choices_no_match_exits_0() {
    let (out, code) = list_choices("echo hello", &checkout_config(false));
    assert_eq!(code, 0);
    assert!(out.contains("echo hello"));
}

#[test]
fn list_choices_requires_cmd() {
    let e = plan_invocation(&cli(None, true, None, None)).unwrap_err();
    assert!(e.message().contains("--list-choices requires --cmd"));
}

// ─── --choice ───

#[test]
fn choice_applies_selection() {
    let out = choose_with("echo melon", "1", &melon_config(false)).unwrap();
    assert!(out.contains("echo papaya"));
}

#[test]
fn choice_index_0() {
    let out = choose_with("echo melon", "0", &melon_config(false)).unwrap();
    assert!(out.contains("echo watermelon"));
}

#[test]
fn choice_out_of_range() {
    let e = choose_with("echo melon", "5", &melon_config(false)).unwrap_err();
    assert!(e.contains("out of range"));
}

#[test]
fn choice_invalid_index() {
    let e = choose_with("echo melon", "abc", &melon_config(false)).unwrap_err();
    assert!(e.contains("invalid choice index"));
}

#[test]
fn choice_requires_cmd() {
    let e = plan_invocation(&cli(None, false, Some("0"), None)).unwrap_err();
    assert!(e.message().contains("--choice requires --cmd"));
}

#[test]
fn list_choices_and_choice_mutual_exclusion() {
    let e = plan_invocation(&cli(Some("echo hello"), true, Some("0"), None)).unwrap_err();
    assert!(e.message().contains("mutually exclusive"));
}

// ─── shell hooks contain --list-choices and --choice ───

#[test]
fn shell_hook_zsh_contains_list_choices() {
    let h = hook("zsh");
    assert!(h.contains("--list-choices") && h.contains("--choice"));
}

#[test]
fn shell_hook_bash_contains_list_choices() {
    let h = hook("bash");
    assert!(h.contains("--list-choices") && h.contains("--choice"));
}

#[test]
fn shell_hook_fish_contains_list_choices() {
    let h = hook("fish");
    assert!(h.contains("--list-choices") && h.contains("--choice"));
}

#[test]
fn shell_hook_powershell_contains_list_choices() {
    let h = hook("powershell");
    assert!(h.contains("--list-choices") && h.contains("--choice"));
}

#[test]
fn shell_hook_nushell_contains_list_choices() {
    let h = hook("nu");
    assert!(h.contains("--list-choices") && h.contains("--choice"));
}

// ─── the personal global file ───

fn plk_only(rules: Vec<Rule>) -> ConfigFile {
    load_merged_config(&None, &Some(ConfigFile { rules }), &None)
}

#[test]
fn plk_config_is_loaded() {
    let config = plk_only(vec![rule(
        "cd swapx",
        false,
        true,
        Some("/some/path"),
        vec![repl("plk: swapx-edit", "plk run swapx-edit", false), repl("just cd swapx", "cd swapx", true)],
    )]);
    let out = text(&list_rules(&config.rules));
    assert!(out.contains("cd swapx"));
    assert!(out.contains("plk: swapx-edit"));
    assert!(out.contains("dir: \"/some/path\""));
}

#[test]
fn plk_config_rule_with_dir_matching_cwd_applies() {
    let dir = "/tmp/swapx-scope";
    let config = plk_only(vec![rule(
        "git checkout",
        false,
        true,
        Some(dir),
        vec![repl("use-switch", "git switch", false)],
    )]);
    let (out, _) = run_non_tty("git checkout main", &config, &env_at(dir), true);
    assert!(out.contains("git switch main"));
}

#[test]
fn plk_config_rule_with_dir_not_matching_cwd_skips() {
    let config = plk_only(vec![rule(
        "git checkout",
        false,
        true,
        Some("/nonexistent/path"),
        vec![repl("use-switch", "git switch", false)],
    )]);
    let (out, _) = run_non_tty("git checkout main", &config, &env_at("/tmp/swapx-scope"), true);
    assert!(out.contains("git checkout main"));
}

// ─── dir field ───

#[test]
fn list_shows_dir_field() {
    let config = local_config(vec![rule(
        "cd project",
        false,
        true,
        Some("/home/user/projects"),
        vec![repl("goto", "cd /home/user/projects", false)],
    )]);
    let out = text(&list_rules(&config.rules));
    assert!(out.contains("cd project"));
    assert!(out.contains("dir: \"/home/user/projects\""));
}

#[test]
fn explain_shows_dir_field() {
    let config = local_config(vec![rule(
        "cd project",
        false,
        true,
        Some("/nonexistent/dir"),
        vec![repl("goto", "cd /home/user/projects", false)],
    )]);
    let out = explain(&["cd", "project"], &config, &env_at("/tmp/swapx-scope"));
    assert!(out.contains("dir: \"/nonexistent/dir\""));
    assert!(out.contains("no match"));
}

#[test]
fn interactive_prompt_lines() {
    assert_eq!(repl_input("  git checkout main \n"), Some("git checkout main".to_string()));
    assert_eq!(repl_input("   "), None);
    assert_eq!(repl_input(" exit "), None);
    assert_eq!(repl_input("quit"), None);
    assert_eq!(repl_input("exit now"), Some("exit now".to_string()));
}

#[test]
fn arguments_are_quoted_only_when_needed() {
    let args: Vec<String> = ["echo", "it's", "", "a b", "plain"].iter().map(|s| s.to_string()).collect();
    assert_eq!(shell_words_join(&args), "echo 'it'\\''s' '' 'a b' plain");
}

#[test]
fn finishing_a_command() {
    assert_eq!(finish_command("a", "b", true, true, true), Finish::Print { exit_code: 10 });
    assert_eq!(finish_command("a", "b", true, true, false), Finish::Print { exit_code: 0 });
    assert_eq!(finish_command("a", "a", false, false, false), Finish::Execute { announce: false });
    assert_eq!(finish_command("a", "b", false, false, false), Finish::Execute { announce: true });
    assert_eq!(pending_action(false, true), PendingAction::Proceed);
    assert_eq!(pending_action(true, true), PendingAction::Prompt);
    assert_eq!(pending_action(true, false), PendingAction::PrintAsIs);
}

#[test]
fn flag_combinations() {
    assert_eq!(plan_invocation(&cli(Some("x"), true, None, None)).unwrap(), Mode::ListChoices);
    assert_eq!(plan_invocation(&cli(Some("x"), false, Some("0"), None)).unwrap(), Mode::Choice);
    assert_eq!(plan_invocation(&cli(Some("x"), false, None, None)).unwrap(), Mode::Cmd);
    assert_eq!(plan_invocation(&cli(None, false, None, Some(Commands::List))).unwrap(), Mode::Subcommand);
    assert_eq!(
        plan_invocation(&cli(Some("x"), true, None, Some(Commands::List))).unwrap_err().message(),
        "Config error: --list-choices and --choice cannot be combined with a subcommand"
    );
    assert_eq!(
        plan_invocation(&cli(Some("x"), false, None, Some(Commands::List))).unwrap_err().message(),
        "Config error: --cmd cannot be combined with a subcommand"
    );
}
