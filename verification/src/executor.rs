//! How a command line is handed to a shell.
use vstd::prelude::*;

use crate::models::opt_string_view;

verus! {

/// The shell program that runs command lines, and the flag that passes it
/// one: on Unix the user's `SHELL` (else `/bin/sh`) with `-c`; on Windows
/// Nushell when it is running, a `SHELL` when one is set (Git Bash and the
/// like), PowerShell (`pwsh` when it is installed, else `powershell.exe`)
/// when its module path is set, and `cmd.exe` otherwise.
pub open spec fn shell_choice(
    unix: bool,
    nu_version_set: bool,
    shell: Option<Seq<char>>,
    ps_module_path_set: bool,
    pwsh_available: bool,
) -> (Seq<char>, Seq<char>) {
    if unix {
        (
            match shell {
                Some(s) => s,
                None => "/bin/sh"@,
            },
            "-c"@,
        )
    } else if nu_version_set {
        ("nu"@, "-c"@)
    } else if shell is Some {
        (shell->0, "-c"@)
    } else if ps_module_path_set {
        (
            if pwsh_available {
                "pwsh"@
            } else {
                "powershell.exe"@
            },
            "-Command"@,
        )
    } else {
        ("cmd.exe"@, "/C"@)
    }
}

/// The program to run and its arguments for the command line `cmd_str`:
/// the shell of `shell_choice`, given its flag and the command line.
pub fn resolve_shell_command(
    cmd_str: &str,
    unix: bool,
    nu_version_set: bool,
    shell: &Option<String>,
    ps_module_path_set: bool,
    pwsh_available: bool,
) -> (r: (String, Vec<String>))
    ensures
        ({
            let (program, flag) = shell_choice(
                unix,
                nu_version_set,
                opt_string_view(*shell),
                ps_module_path_set,
                pwsh_available,
            );
            &&& r.0@ == program
            &&& r.1.len() == 2
            &&& r.1[0]@ == flag
            &&& r.1[1]@ == cmd_str@
        }),
{
    let (program, flag) = if unix {
        (
            match shell {
                Some(s) => s.clone(),
                None => "/bin/sh".to_owned(),
            },
            "-c",
        )
    } else if nu_version_set {
        ("nu".to_owned(), "-c")
    } else if let Some(s) = shell {
        (s.clone(), "-c")
    } else if ps_module_path_set {
        (
            if pwsh_available {
                "pwsh".to_owned()
            } else {
                "powershell.exe".to_owned()
            },
            "-Command",
        )
    } else {
        ("cmd.exe".to_owned(), "/C")
    };
    let args = vec![flag.to_owned(), cmd_str.to_owned()];
    (program, args)
}

} // verus!
