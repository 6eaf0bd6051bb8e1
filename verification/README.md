# swapx

A command rewriter: rules in YAML match commands literally or by regular
expression and replace them before they run, with per-directory and
per-environment selection, a two-phase protocol for shell hooks
(`--list-choices` / `--choice`), and suggestions built from templates.

## Layout

- `src/` — the library, verified with Verus. Every decision the tool makes
  stands here with a contract:
  - `engine.rs`: matching, `when` conditions, directory scopes, applying the
    rules in order, explaining them;
  - `config.rs`: merging the configuration layers by merge key, enabling and
    disabling rules, saving a rule, what `init` does with existing files;
  - `choice.rs`: reading `--choice` indices, resolving pending choices, the
    `--list-choices` output;
  - `cli.rs`: which flag combinations are accepted, what becomes of a
    transformed command, quoting arguments for the shell;
  - `report.rs`: the text of `list` and `explain`;
  - `shell_hook.rs`, `suggest.rs`, `executor.rs`: hook scripts; suggestion
    templates, detection and the decisions of `suggest` (what to list, what
    is accepted, where it is saved); how a command line is handed to a shell;
  - `order.rs`, `text.rs`, `models.rs`, `error.rs`: the building blocks;
  - `outside.rs`: the calls into `regex`, `glob` and `serde_json`, with the
    contracts the library relies on.
- `app/` — the command-line program: argument parsing, files, prompts,
  running commands; it hands plain values to the library and prints what it
  returns.
- `tests/` — the scenarios of the tool, run against the library.
