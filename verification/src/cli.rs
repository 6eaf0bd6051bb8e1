//! The command line: its flags and subcommands, which combinations are
//! refused, and what is done with a transformed command.
use vstd::prelude::*;

use crate::error::SwapxError;
use crate::models::strings_view;
use crate::text::{
    chars_of, join_seq, join_strings, replace_all_seq, replace_chars, same_chars, string_of,
    trim_chars, trim_seq,
};

verus! {

/// The flags and the subcommand given on the command line.
#[derive(Debug)]
pub struct Cli {
    /// Show the transformed command without executing it.
    pub dry_run: bool,
    /// A command string passed directly.
    pub cmd: Option<String>,
    /// Print the pending choices (exit 20 when there are some).
    pub list_choices: bool,
    /// Comma-separated 0-based choice indices for the pending rules.
    pub choice: Option<String>,
    pub command: Option<Commands>,
}

/// The subcommands.
#[derive(Debug)]
pub enum Commands {
    /// Add a new replacement rule.
    Add,
    /// List all rules.
    List,
    /// Initialize the global configuration and the builtin suggestion packs.
    Init { force: bool },
    /// Enable a rule by its match pattern.
    Enable { pattern: String },
    /// Disable a rule by its match pattern.
    Disable { pattern: String },
    /// Print the shell hook script.
    ShellHook { shell: Option<String> },
    /// Explain which rules match a command and what they would produce.
    Explain { command: Vec<String> },
    /// Delete all configuration.
    Reset,
    /// Suggest rules for the tools and project files found.
    Suggest { check: bool, auto: bool },
    /// Any other command: transformed, then executed.
    External(Vec<String>),
}

/// What an invocation does, once its flags are accepted.
#[derive(Debug, PartialEq, Eq, Structural)]
pub enum Mode {
    /// `--cmd` with `--list-choices`.
    ListChoices,
    /// `--cmd` with `--choice`.
    Choice,
    /// `--cmd` alone.
    Cmd,
    /// A subcommand, an external command, or none.
    Subcommand,
}

/// The mode of an invocation, or the message refusing its flags.
pub open spec fn invocation(list_choices: bool, has_choice: bool, has_cmd: bool, has_sub: bool) -> Result<
    Mode,
    Seq<char>,
> {
    if list_choices && has_choice {
        Err("--list-choices and --choice are mutually exclusive"@)
    } else if list_choices && !has_cmd {
        Err("--list-choices requires --cmd"@)
    } else if has_choice && !has_cmd {
        Err("--choice requires --cmd"@)
    } else if (list_choices || has_choice) && has_sub {
        Err("--list-choices and --choice cannot be combined with a subcommand"@)
    } else if has_cmd && has_sub {
        Err("--cmd cannot be combined with a subcommand"@)
    } else if has_cmd && list_choices {
        Ok(Mode::ListChoices)
    } else if has_cmd && has_choice {
        Ok(Mode::Choice)
    } else if has_cmd {
        Ok(Mode::Cmd)
    } else {
        Ok(Mode::Subcommand)
    }
}

/// Checks the combination of flags and tells what the invocation does.
pub fn plan_invocation(cli: &Cli) -> (res: Result<Mode, SwapxError>)
    ensures
        match invocation(
            cli.list_choices,
            cli.choice is Some,
            cli.cmd is Some,
            cli.command is Some,
        ) {
            Ok(m) => res == Ok::<Mode, SwapxError>(m),
            Err(msg) => res matches Err(e) && e matches SwapxError::Config(m) && m@ == msg,
        },
{
    let has_choice = cli.choice.is_some();
    let has_cmd = cli.cmd.is_some();
    let has_sub = cli.command.is_some();
    if cli.list_choices && has_choice {
        return Err(
            SwapxError::Config("--list-choices and --choice are mutually exclusive".to_owned()),
        );
    }
    if cli.list_choices && !has_cmd {
        return Err(SwapxError::Config("--list-choices requires --cmd".to_owned()));
    }
    if has_choice && !has_cmd {
        return Err(SwapxError::Config("--choice requires --cmd".to_owned()));
    }
    if (cli.list_choices || has_choice) && has_sub {
        return Err(
            SwapxError::Config(
                "--list-choices and --choice cannot be combined with a subcommand".to_owned(),
            ),
        );
    }
    if has_cmd && has_sub {
        return Err(SwapxError::Config("--cmd cannot be combined with a subcommand".to_owned()));
    }
    if has_cmd && cli.list_choices {
        Ok(Mode::ListChoices)
    } else if has_cmd && has_choice {
        Ok(Mode::Choice)
    } else if has_cmd {
        Ok(Mode::Cmd)
    } else {
        Ok(Mode::Subcommand)
    }
}

/// What to do about choices left open after the rules were applied.
#[derive(Debug, PartialEq, Eq, Structural)]
pub enum PendingAction {
    /// None are left: go on with the command.
    Proceed,
    /// Ask the user at the terminal.
    Prompt,
    /// No terminal to ask at: print the command as it is and stop with status 0.
    PrintAsIs,
}

/// What to do about pending choices: ask when there is a terminal, else
/// print the command as it stands.
pub fn pending_action(has_pending: bool, is_tty: bool) -> (a: PendingAction)
    ensures
        a == if !has_pending {
            PendingAction::Proceed
        } else if is_tty {
            PendingAction::Prompt
        } else {
            PendingAction::PrintAsIs
        },
{
    if !has_pending {
        PendingAction::Proceed
    } else if is_tty {
        PendingAction::Prompt
    } else {
        PendingAction::PrintAsIs
    }
}

/// What becomes of the final command.
#[derive(Debug, PartialEq, Eq, Structural)]
pub enum Finish {
    /// Print it and exit with this status.
    Print { exit_code: i32 },
    /// Execute it, first announcing the rewrite when `announce` is set.
    Execute { announce: bool },
}

/// A dry run prints the command and exits with status 10 when the user
/// chose interactively, else 0; otherwise the command is executed,
/// announced when it was changed or differs from the original.
pub fn finish_command(
    original: &str,
    final_command: &str,
    changed: bool,
    dry_run: bool,
    interactive_selection: bool,
) -> (f: Finish)
    ensures
        f == if dry_run {
            Finish::Print {
                exit_code: if interactive_selection {
                    crate::choice::EXIT_INTERACTIVE_CHOICE
                } else {
                    0
                },
            }
        } else {
            Finish::Execute { announce: changed || final_command@ != original@ }
        },
{
    if dry_run {
        if interactive_selection {
            Finish::Print { exit_code: crate::choice::EXIT_INTERACTIVE_CHOICE }
        } else {
            Finish::Print { exit_code: 0 }
        }
    } else {
        let same = crate::text::same_chars(&chars_of(original), &chars_of(final_command));
        Finish::Execute { announce: changed || !same }
    }
}

/// A character that the shell would treat specially.
pub open spec fn is_shell_special(c: char) -> bool {
    c == ' ' || c == '\'' || c == '"' || c == '\\' || c == '$' || c == '`' || c == '|' || c
        == '&' || c == ';' || c == '(' || c == ')' || c == '<' || c == '>' || c == '*' || c
        == '?' || c == '[' || c == ']' || c == '{' || c == '}' || c == '~' || c == '#' || c == '!'
}

/// The argument must be quoted: it is empty or has a special character.
pub open spec fn needs_quotes(a: Seq<char>) -> bool {
    a.len() == 0 || exists|i: int| 0 <= i < a.len() && is_shell_special(#[trigger] a[i])
}

/// The argument as one shell word: in single quotes, each single quote
/// written as `'\''`, when it needs quoting; as it is otherwise.
pub open spec fn shell_quote(a: Seq<char>) -> Seq<char> {
    if needs_quotes(a) {
        seq!['\''] + replace_all_seq(a, seq!['\''], seq!['\'', '\\', '\'', '\'']) + seq!['\'']
    } else {
        a
    }
}

/// The arguments as a shell command line: quoted, joined by spaces.
pub open spec fn shell_join(args: Seq<Seq<char>>) -> Seq<char> {
    join_seq(args.map_values(|a: Seq<char>| shell_quote(a)), seq![' '])
}

fn is_shell_special_exec(c: char) -> (b: bool)
    ensures
        b == is_shell_special(c),
{
    c == ' ' || c == '\'' || c == '"' || c == '\\' || c == '$' || c == '`' || c == '|' || c
        == '&' || c == ';' || c == '(' || c == ')' || c == '<' || c == '>' || c == '*' || c
        == '?' || c == '[' || c == ']' || c == '{' || c == '}' || c == '~' || c == '#' || c == '!'
}

/// One argument as a shell word.
fn shell_quote_exec(a: &Vec<char>) -> (r: Vec<char>)
    ensures
        r@ == shell_quote(a@),
{
    let mut special = a.len() == 0;
    let mut i: usize = 0;
    while i < a.len() && !special
        invariant
            i <= a.len(),
            special == (a@.len() == 0 || exists|j: int| 0 <= j < i && is_shell_special(#[trigger] a@[j])),
        decreases a.len() - i,
    {
        if is_shell_special_exec(a[i]) {
            special = true;
        }
        i += 1;
    }
    assert(special == needs_quotes(a@));
    if special {
        let q = vec!['\''];
        let esc = vec!['\'', '\\', '\'', '\''];
        assert(q@ == seq!['\'']);
        assert(esc@ == seq!['\'', '\\', '\'', '\'']);
        let body = replace_chars(a, &q, &esc);
        let mut r = vec!['\''];
        crate::text::extend_chars(&mut r, &body);
        r.push('\'');
        assert(r@ =~= seq!['\''] + replace_all_seq(a@, seq!['\''], seq!['\'', '\\', '\'', '\''])
            + seq!['\'']);
        r
    } else {
        a.clone()
    }
}

/// Joins arguments into a shell command string, quoting those that need it.
pub fn shell_words_join(args: &[String]) -> (s: String)
    ensures
        s@ == shell_join(strings_view(args@)),
{
    let ghost av = strings_view(args@);
    let mut quoted: Vec<String> = Vec::new();
    let mut i: usize = 0;
    while i < args.len()
        invariant
            i <= args.len(),
            av == strings_view(args@),
            strings_view(quoted@) == av.take(i as int).map_values(|a: Seq<char>| shell_quote(a)),
        decreases args.len() - i,
    {
        let ghost prev = quoted@;
        let w = string_of(&shell_quote_exec(&chars_of(args[i].as_str())));
        quoted.push(w);
        assert(quoted@ == prev.push(w));
        assert(av.take(i + 1) == av.take(i as int).push(args@[i as int]@));
        assert(strings_view(quoted@) =~= strings_view(prev).push(w@));
        assert(av.take(i + 1).map_values(|a: Seq<char>| shell_quote(a)) =~= av.take(
            i as int,
        ).map_values(|a: Seq<char>| shell_quote(a)).push(shell_quote(av[i as int])));
        i += 1;
    }
    assert(av.take(args.len() as int) == av);
    let sep = vec![' '];
    assert(sep@ == seq![' ']);
    assert(strings_view(quoted@) == av.map_values(|a: Seq<char>| shell_quote(a)));
    string_of(&join_strings(&quoted, &sep))
}

/// What a line typed at the interactive prompt asks for: the command it holds,
/// trimmed, or nothing when the line is blank or says `exit` or `quit`.
pub open spec fn repl_request(line: Seq<char>) -> Option<Seq<char>> {
    let t = trim_seq(line);
    if t.len() == 0 || t == "exit"@ || t == "quit"@ {
        None
    } else {
        Some(t)
    }
}

/// Reads one line of the interactive prompt: `None` ends the session.
pub fn repl_input(line: &str) -> (r: Option<String>)
    ensures
        match r {
            Some(c) => repl_request(line@) == Some(c@),
            None => repl_request(line@) is None,
        },
{
    let t = trim_chars(&chars_of(line));
    let exit_word = chars_of("exit");
    let quit_word = chars_of("quit");
    if t.len() == 0 || same_chars(&t, &exit_word) || same_chars(&t, &quit_word) {
        None
    } else {
        Some(string_of(&t))
    }
}


/// The characters that a POSIX shell splits words on, quotes with, expands
/// (variables, commands, globs `*`, `?`, `[...]`, braces, `~`, history `!`)
/// or reads as operators and comments.
pub open spec fn shell_metachar(c: char) -> bool {
    ||| c == ' '
    ||| c == '\''
    ||| c == '"'
    ||| c == '\\'
    ||| c == '$'
    ||| c == '`'
    ||| c == '|'
    ||| c == '&'
    ||| c == ';'
    ||| c == '('
    ||| c == ')'
    ||| c == '<'
    ||| c == '>'
    ||| c == '*'
    ||| c == '?'
    ||| c == '['
    ||| c == ']'
    ||| c == '{'
    ||| c == '}'
    ||| c == '~'
    ||| c == '#'
    ||| c == '!'
}

/// Replacing by something at least as long never shortens.
proof fn lemma_replace_not_shorter(s: Seq<char>, p: Seq<char>, r: Seq<char>)
    requires
        p.len() > 0,
        r.len() >= p.len(),
    ensures
        replace_all_seq(s, p, r).len() >= s.len(),
    decreases s.len(),
{
    if s.len() >= p.len() {
        if s.take(p.len() as int) == p {
            lemma_replace_not_shorter(s.skip(p.len() as int), p, r);
        } else {
            lemma_replace_not_shorter(s.drop_first(), p, r);
        }
    }
}

/// An argument goes into the command line as it is exactly when it is not
/// empty and holds no shell metacharacter; every other argument is wrapped
/// in single quotes, so the shell neither splits nor expands it.
pub proof fn lemma_bare_words_are_plain(a: Seq<char>)
    ensures
        shell_quote(a) == a <==> (a.len() > 0 && forall|i: int|
            0 <= i < a.len() ==> !shell_metachar(#[trigger] a[i])),
        shell_quote(a) != a ==> (shell_quote(a).len() >= 2 && shell_quote(a)[0] == '\''
            && shell_quote(a).last() == '\''),
{
    let r = replace_all_seq(a, seq!['\''], seq!['\'', '\\', '\'', '\'']);
    lemma_replace_not_shorter(a, seq!['\''], seq!['\'', '\\', '\'', '\'']);
    if needs_quotes(a) {
        assert(shell_quote(a).len() == r.len() + 2);
        if a.len() > 0 {
            let i = choose|i: int| 0 <= i < a.len() && is_shell_special(#[trigger] a[i]);
            assert(shell_metachar(a[i]));
        }
    } else {
        assert forall|i: int| 0 <= i < a.len() implies !shell_metachar(#[trigger] a[i]) by {
            assert(!is_shell_special(a[i]));
        }
    }
}


/// A word read as a POSIX shell reads it, with no expansion: outside
/// single quotes a backslash keeps the next character and a single quote
/// opens a quotation; inside, every character stands for itself until the
/// closing single quote. `quoted` tells whether reading starts inside one.
pub open spec fn shell_unquote(w: Seq<char>, quoted: bool) -> Seq<char>
    decreases w.len(),
{
    if w.len() == 0 {
        seq![]
    } else if quoted {
        if w[0] == '\'' {
            shell_unquote(w.drop_first(), false)
        } else {
            seq![w[0]] + shell_unquote(w.drop_first(), true)
        }
    } else if w[0] == '\'' {
        shell_unquote(w.drop_first(), true)
    } else if w[0] == '\\' && w.len() >= 2 {
        seq![w[1]] + shell_unquote(w.skip(2), false)
    } else {
        seq![w[0]] + shell_unquote(w.drop_first(), false)
    }
}

/// A text without quotes or backslashes reads as itself.
proof fn lemma_unquote_plain(a: Seq<char>)
    requires
        forall|i: int| 0 <= i < a.len() ==> a[i] != '\'' && a[i] != '\\',
    ensures
        shell_unquote(a, false) == a,
    decreases a.len(),
{
    if a.len() > 0 {
        lemma_unquote_plain(a.drop_first());
        assert(a =~= seq![a[0]] + a.drop_first());
    }
}

/// Inside a quotation, the escaped text followed by the closing quote reads
/// as the text.
proof fn lemma_unquote_escaped(a: Seq<char>)
    ensures
        shell_unquote(
            replace_all_seq(a, seq!['\''], seq!['\'', '\\', '\'', '\'']) + seq!['\''],
            true,
        ) == a,
    decreases a.len(),
{
    let p = seq!['\''];
    let q = seq!['\'', '\\', '\'', '\''];
    let w = replace_all_seq(a, p, q) + seq!['\''];
    if a.len() == 0 {
        assert(replace_all_seq(a, p, q) == a);
        assert(w =~= seq!['\'']);
        assert(w.drop_first() =~= Seq::<char>::empty());
        assert(shell_unquote(w, true) == shell_unquote(w.drop_first(), false));
        assert(a =~= Seq::<char>::empty());
    } else {
        lemma_unquote_escaped(a.drop_first());
        let rest = replace_all_seq(a.drop_first(), p, q) + seq!['\''];
        if a[0] == '\'' {
            assert(a.take(1) =~= p);
            assert(a.skip(1) =~= a.drop_first());
            assert(replace_all_seq(a, p, q) == q + replace_all_seq(a.skip(1), p, q));
            assert(w =~= q + rest);
            let w1 = w.drop_first();
            assert(w1 =~= seq!['\\', '\'', '\''] + rest);
            assert(shell_unquote(w, true) == shell_unquote(w1, false));
            assert(shell_unquote(w1, false) == seq![w1[1]] + shell_unquote(w1.skip(2), false));
            let w2 = w1.skip(2);
            assert(w2 =~= seq!['\''] + rest);
            assert(w2.drop_first() =~= rest);
            assert(shell_unquote(w2, false) == shell_unquote(rest, true));
            assert(a =~= seq!['\''] + a.drop_first());
        } else {
            assert(a.take(1) != p) by {
                assert(a.take(1)[0] != p[0]);
            }
            assert(replace_all_seq(a, p, q) == seq![a[0]] + replace_all_seq(a.drop_first(), p, q));
            assert(w =~= seq![a[0]] + rest);
            assert(w.drop_first() =~= rest);
            assert(shell_unquote(w, true) == seq![w[0]] + shell_unquote(w.drop_first(), true));
            assert(a =~= seq![a[0]] + a.drop_first());
        }
    }
}

/// Every argument reads back as itself: the shell, reading the word that
/// quoting made, gets the argument unchanged.
pub proof fn lemma_quote_round_trip(a: Seq<char>)
    ensures
        shell_unquote(shell_quote(a), false) == a,
{
    if needs_quotes(a) {
        let r = replace_all_seq(a, seq!['\''], seq!['\'', '\\', '\'', '\'']);
        lemma_unquote_escaped(a);
        assert(shell_quote(a) =~= seq!['\''] + (r + seq!['\'']));
        assert(shell_quote(a).drop_first() =~= r + seq!['\'']);
    } else {
        assert forall|i: int| 0 <= i < a.len() implies a[i] != '\'' && a[i] != '\\' by {
            assert(!is_shell_special(a[i]));
        }
        lemma_unquote_plain(a);
    }
}

} // verus!
