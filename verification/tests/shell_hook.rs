use swapx::shell_hook::{detect_shell, generate_hook};

#[test]
fn test_generate_hook_zsh() {
    let hook = generate_hook("zsh").unwrap();
    assert!(hook.contains("__swapx_accept_line"));
    assert!(hook.contains("zle -N accept-line"));
}

#[test]
fn test_generate_hook_bash() {
    let hook = generate_hook("bash").unwrap();
    assert!(hook.contains("__swapx_debug_trap"));
    assert!(hook.contains("shopt -s extdebug"));
}

#[test]
fn test_generate_hook_fish() {
    let hook = generate_hook("fish").unwrap();
    assert!(hook.contains("__swapx_enter"));
    assert!(hook.contains("bind \\r __swapx_enter"));
    assert!(hook.contains("commandline"));
}

#[test]
fn test_generate_hook_powershell() {
    let hook = generate_hook("powershell").unwrap();
    assert!(hook.contains("Set-PSReadLineKeyHandler"));
    assert!(hook.contains("GetBufferState"));
}

#[test]
fn test_generate_hook_pwsh_alias() {
    let powershell_hook = generate_hook("powershell").unwrap();
    let pwsh_hook = generate_hook("pwsh").unwrap();
    assert_eq!(powershell_hook, pwsh_hook);
}

#[test]
fn test_generate_hook_nu() {
    let hook = generate_hook("nu").unwrap();
    assert!(hook.contains("__swapx_handler"));
    assert!(hook.contains("commandline edit --replace"));
}

#[test]
fn test_generate_hook_nushell_alias() {
    let nu_hook = generate_hook("nu").unwrap();
    let nushell_hook = generate_hook("nushell").unwrap();
    assert_eq!(nu_hook, nushell_hook);
}

#[test]
fn test_generate_hook_unsupported() {
    let err = generate_hook("tcsh").unwrap_err();
    let msg = err.message();
    assert!(msg.contains("tcsh"));
    assert!(msg.contains("zsh"));
    assert!(msg.contains("bash"));
    assert!(msg.contains("fish"));
    assert!(msg.contains("powershell"));
    assert!(msg.contains("nu"));
}

#[test]
fn shell_hook_hooks_use_the_choice_protocol() {
    for shell in ["zsh", "bash", "fish", "powershell", "nu"] {
        let hook = generate_hook(shell).unwrap();
        assert!(hook.contains("swapx --dry-run --cmd"), "{}", shell);
        assert!(hook.contains("--list-choices"), "{}", shell);
        assert!(hook.contains("--choice"), "{}", shell);
    }
}

#[test]
fn unsupported_shell_message_is_exact() {
    let err = generate_hook("tcsh").unwrap_err();
    assert_eq!(
        err.message(),
        "Config error: Unsupported shell: \"tcsh\". Supported shells: zsh, bash, fish, powershell, nu"
    );
}

#[test]
fn detect_shell_cases() {
    assert_eq!(detect_shell(true, &Some("/bin/zsh".into()), false), Some("nu".to_string()));
    assert_eq!(detect_shell(false, &Some("/usr/bin/zsh".into()), false), Some("zsh".to_string()));
    assert_eq!(detect_shell(false, &Some("C:\\Git\\bin\\bash".into()), false), Some("bash".to_string()));
    assert_eq!(detect_shell(false, &Some("/bin/tcsh".into()), true), None);
    assert_eq!(detect_shell(false, &None, true), Some("powershell".to_string()));
    assert_eq!(detect_shell(false, &None, false), None);
}
