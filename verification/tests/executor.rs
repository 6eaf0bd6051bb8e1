use swapx::executor::resolve_shell_command;

fn run(unix: bool, nu: bool, shell: Option<&str>, ps: bool, pwsh: bool) -> (String, Vec<String>) {
    resolve_shell_command("ls -la", unix, nu, &shell.map(|s| s.to_string()), ps, pwsh)
}

fn args(flag: &str) -> Vec<String> {
    vec![flag.to_string(), "ls -la".to_string()]
}

#[test]
fn unix_uses_the_login_shell_or_sh() {
    assert_eq!(run(true, true, Some("/bin/zsh"), true, true), ("/bin/zsh".to_string(), args("-c")));
    assert_eq!(run(true, false, None, false, false), ("/bin/sh".to_string(), args("-c")));
}

#[test]
fn windows_prefers_nushell_then_shell_then_powershell_then_cmd() {
    assert_eq!(run(false, true, Some("bash"), true, true), ("nu".to_string(), args("-c")));
    assert_eq!(run(false, false, Some("bash"), true, true), ("bash".to_string(), args("-c")));
    assert_eq!(run(false, false, None, true, true), ("pwsh".to_string(), args("-Command")));
    assert_eq!(
        run(false, false, None, true, false),
        ("powershell.exe".to_string(), args("-Command"))
    );
    assert_eq!(run(false, false, None, false, true), ("cmd.exe".to_string(), args("/C")));
}
