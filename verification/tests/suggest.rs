use swapx::suggest::{
    accepted_indices, check_summary, saved_message, saves_locally, suggest_plan, suggestion_listing,
    SuggestPlan,
    detect_matches, detect_options, package_json_scripts, project_detected, project_marker, render_template,
    resolve_prompts, suggestion_to_rules, DetectCondition, DetectFindings, PromptDef, PromptStep,
    SuggestionDef, SuggestionReplacement, SuggestionRule, TemplateVars,
};

fn bin_on_path(name: &str) -> bool {
    ["/bin", "/usr/bin", "/usr/local/bin"]
        .iter()
        .any(|d| std::path::Path::new(d).join(name).is_file())
}

#[test]
fn test_render_template() {
    let mut vars = TemplateVars::new();
    vars.insert("script".to_string(), "dev".to_string());
    vars.insert("process_name".to_string(), "my-app".to_string());

    assert_eq!(render_template("pnpm run {{script}}", &vars), "pnpm run dev");
    assert_eq!(
        render_template("uc start --name {{process_name}} -- pnpm run {{script}}", &vars),
        "uc start --name my-app -- pnpm run dev"
    );
    // No variables
    assert_eq!(render_template("hello world", &vars), "hello world");
    // Unknown variable stays
    assert_eq!(render_template("{{unknown}}", &vars), "{{unknown}}");
}

#[test]
fn test_detect_condition_bin() {
    // `sh` should exist on any unix system
    let cond = DetectCondition { bin: Some("sh".into()), file: None, project: None };
    let found = DetectFindings { bin_found: bin_on_path("sh"), file_found: false, project_found: false };
    let result = detect_matches(&cond, &found);
    assert!(result.is_some());
    assert!(result.unwrap().contains("sh found on PATH"));
}

#[test]
fn test_suggestion_to_rules() {
    let def = SuggestionDef {
        name: "test".into(),
        description: "test desc".into(),
        detect: DetectCondition { bin: None, file: None, project: None },
        prompts: vec![],
        rules: vec![SuggestionRule {
            match_pattern: "pnpm run {{script}}".into(),
            replace: vec![
                SuggestionReplacement {
                    label: "run with uc".into(),
                    with_value: "uc start -- pnpm run {{script}}".into(),
                    default: false,
                },
                SuggestionReplacement {
                    label: "run directly".into(),
                    with_value: "pnpm run {{script}}".into(),
                    default: true,
                },
            ],
        }],
    };

    let mut vars = TemplateVars::new();
    vars.insert("script".to_string(), "dev".to_string());

    let rules = suggestion_to_rules(&def, &vars, None);
    assert_eq!(rules.len(), 1);
    assert_eq!(rules[0].match_patterns, vec!["pnpm run dev"]);
    assert_eq!(rules[0].replace.len(), 2);
    assert_eq!(rules[0].replace[0].label, "run with uc");
    assert_eq!(rules[0].replace[0].with_value, "uc start -- pnpm run dev");
    assert_eq!(rules[0].replace[1].label, "run directly");
    assert_eq!(rules[0].replace[1].with_value, "pnpm run dev");
    assert!(rules[0].replace[1].default);
}

#[test]
fn detect_reasons_are_joined_and_conditions_required() {
    let cond = DetectCondition {
        bin: Some("pnpm".into()),
        file: Some("pnpm-lock.yaml".into()),
        project: Some("node".into()),
    };
    let all = DetectFindings { bin_found: true, file_found: true, project_found: true };
    assert_eq!(
        detect_matches(&cond, &all).unwrap(),
        "pnpm found on PATH, pnpm-lock.yaml exists, node project detected"
    );
    let missing = DetectFindings { bin_found: true, file_found: false, project_found: true };
    assert!(detect_matches(&cond, &missing).is_none());
    let none = DetectCondition { bin: None, file: None, project: None };
    assert!(detect_matches(&none, &all).is_none());
}

#[test]
fn node_projects_are_marked_by_package_json() {
    assert_eq!(project_marker("node"), Some("package.json".to_string()));
    assert_eq!(project_marker("rust"), None);
    assert!(project_detected("node", true));
    assert!(!project_detected("node", false));
    assert!(!project_detected("rust", true));
}

#[test]
fn detected_options_are_filtered() {
    let scripts = vec!["build".to_string(), "dev".to_string(), "dev:api".to_string(), "start".to_string()];
    let filter = Some(vec!["dev".to_string()]);
    assert_eq!(detect_options("package.json.scripts", &filter, &scripts), vec!["dev", "dev:api"]);
    assert_eq!(detect_options("package.json.scripts", &None, &scripts), scripts);
    assert!(detect_options("other", &None, &scripts).is_empty());
}

#[test]
fn variables_read_back_and_replace() {
    let mut vars = TemplateVars::new();
    vars.insert("a".into(), "1".into());
    vars.insert("a".into(), "2".into());
    assert_eq!(vars.get("a"), Some("2".to_string()));
    assert_eq!(vars.get("b"), None);
}

#[test]
fn automatic_prompts_use_options_then_defaults() {
    let prompts = vec![
        PromptDef {
            var: "script".into(),
            message: "Which script?".into(),
            default: Some("dev".into()),
            detect: Some("package.json.scripts".into()),
            filter: None,
        },
        PromptDef {
            var: "name".into(),
            message: "Name?".into(),
            default: Some("app-{{script}}".into()),
            detect: None,
            filter: None,
        },
        PromptDef {
            var: "empty".into(),
            message: "Empty?".into(),
            default: None,
            detect: None,
            filter: None,
        },
    ];
    let mut vars = TemplateVars::new();
    resolve_prompts(&prompts, &mut vars, &vec![vec!["start".to_string()], vec![], vec![]]);
    assert_eq!(vars.get("script"), Some("start".to_string()));
    assert_eq!(vars.get("name"), Some("app-start".to_string()));
    assert_eq!(vars.get("empty"), Some(String::new()));
}

#[test]
fn interactive_prompt_steps() {
    let p = PromptDef {
        var: "script".into(),
        message: "Which script?".into(),
        default: Some("dev".into()),
        detect: Some("package.json.scripts".into()),
        filter: None,
    };
    let vars = TemplateVars::new();
    match swapx::suggest::prompt_step(&p, false, &vars, &vec!["a".to_string(), "b".to_string()]) {
        PromptStep::Select { message, options } => {
            assert_eq!(message, "Which script?");
            assert_eq!(options, vec!["a", "b"]);
        }
        other => panic!("unexpected {:?}", other),
    }
    match swapx::suggest::prompt_step(&p, false, &vars, &vec![]) {
        PromptStep::Input { default, .. } => assert_eq!(default, Some("dev".to_string())),
        other => panic!("unexpected {:?}", other),
    }
}

#[test]
fn package_json_script_names_are_sorted() {
    let text = r#"{"name":"app","scripts":{"test":"jest","build":"tsc","dev":"vite","Build:prod":"x"}}"#;
    assert_eq!(
        package_json_scripts(text).unwrap(),
        vec!["Build:prod".to_string(), "build".to_string(), "dev".to_string(), "test".to_string()]
    );
}

#[test]
fn package_json_without_scripts_or_not_json_has_none() {
    assert!(package_json_scripts(r#"{"name":"app"}"#).unwrap().is_empty());
    assert!(package_json_scripts(r#"{"scripts":["a"]}"#).unwrap().is_empty());
    let expected = serde_json::from_str::<serde_json::Value>("not json {").unwrap_err().to_string();
    assert_eq!(
        package_json_scripts("not json {").unwrap_err().message(),
        format!("Config error: {}", expected)
    );
}

#[test]
fn test_read_package_json_scripts() {
    let pkg = r#"{
  "scripts": {
    "dev": "next dev",
    "build": "next build",
    "start": "next start"
  }
}"#;
    assert_eq!(package_json_scripts(pkg).unwrap(), vec!["build", "dev", "start"]);
}

#[test]
fn test_detect_condition_file() {
    let cond = DetectCondition { bin: None, file: Some("/tmp/x/test.txt".into()), project: None };
    let present = DetectFindings { bin_found: false, file_found: true, project_found: false };
    assert!(detect_matches(&cond, &present).is_some());
    let cond_missing = DetectCondition { bin: None, file: Some("/tmp/x/nonexistent.txt".into()), project: None };
    let absent = DetectFindings { bin_found: false, file_found: false, project_found: false };
    assert!(detect_matches(&cond_missing, &absent).is_none());
}

#[test]
fn test_detect_condition_project_node() {
    let cond = DetectCondition { bin: None, file: None, project: Some("node".into()) };
    let found = DetectFindings {
        bin_found: false,
        file_found: false,
        project_found: project_detected("node", true),
    };
    let result = detect_matches(&cond, &found);
    assert!(result.is_some());
    assert!(result.unwrap().contains("node project detected"));
}

#[test]
fn suggest_plan_per_flags() {
    assert_eq!(suggest_plan(0, true, true), SuggestPlan::NothingFound);
    assert_eq!(suggest_plan(3, true, true), SuggestPlan::ListOnly);
    assert_eq!(suggest_plan(3, false, true), SuggestPlan::AcceptAllGlobal);
    assert_eq!(suggest_plan(3, false, false), SuggestPlan::AskUser);
}

#[test]
fn accepted_suggestions_per_menu_answer() {
    assert_eq!(accepted_indices(3, 0, &vec![]), Some(vec![0, 1, 2]));
    assert_eq!(accepted_indices(3, 1, &vec![true, false, true]), Some(vec![0, 2]));
    assert_eq!(accepted_indices(3, 1, &vec![false, false, false]), Some(vec![]));
    assert_eq!(accepted_indices(3, 2, &vec![true, true, true]), None);
    assert!(!saves_locally(true, 1));
    assert!(saves_locally(false, 1));
    assert!(!saves_locally(false, 0));
}

#[test]
fn suggestion_listing_lines() {
    let lines = suggestion_listing(
        &vec!["bat".to_string(), "eza".to_string()],
        &vec!["Use bat instead of cat".to_string(), "Use eza instead of ls".to_string()],
        &vec!["bat found on PATH".to_string(), "eza found on PATH".to_string()],
    );
    assert_eq!(
        lines,
        vec![
            "Found 2 suggestion(s):".to_string(),
            "".to_string(),
            "  1. bat \u{2014} Use bat instead of cat".to_string(),
            "     detected: bat found on PATH".to_string(),
            "  2. eza \u{2014} Use eza instead of ls".to_string(),
            "     detected: eza found on PATH".to_string(),
            "".to_string(),
        ]
    );
    assert_eq!(check_summary(2), "2 suggestion(s) available. Run `swapx suggest` to apply.");
    assert_eq!(saved_message(1, "/tmp/r.yaml"), "Saved 1 rule(s) to /tmp/r.yaml");
}

#[test]
fn filling_does_not_depend_on_variable_order() {
    let mut ab = TemplateVars::new();
    ab.insert("a".to_string(), "one".to_string());
    ab.insert("b".to_string(), "two".to_string());
    let mut ba = TemplateVars::new();
    ba.insert("b".to_string(), "two".to_string());
    ba.insert("a".to_string(), "one".to_string());
    let t = "x {{a}} {{b}} {{c}} {{a}}";
    assert_eq!(render_template(t, &ab), "x one two {{c}} one");
    assert_eq!(render_template(t, &ab), render_template(t, &ba));
}
