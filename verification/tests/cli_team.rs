use herdr::team_cli::{
    agent_ready, parse_spawn_args, split_label, team_subcommand, TeamSubcommand,
};

fn args(list: &[&str]) -> Vec<String> {
    list.iter().map(|s| s.to_string()).collect()
}

#[test]
fn parse_minimal_roster() {
    let parsed = parse_spawn_args(&args(&["review", "--agents", "codex,grok"])).unwrap();
    assert_eq!(parsed.params.name, "review");
    assert_eq!(parsed.params.entries.len(), 2);
    assert_eq!(parsed.params.entries[0].agent, "codex");
    assert_eq!(parsed.params.entries[0].label, None);
    assert!(!parsed.params.with_orch);
    assert!(!parsed.wait);
}

#[test]
fn parse_labels_and_flags_any_order() {
    let parsed = parse_spawn_args(&args(&[
        "review", "--wait", "--agents", "ws1=codex,critic=grok", "--timeout", "120",
        "--cwd", "C:/work",
    ]))
    .unwrap();
    assert_eq!(parsed.params.entries[0].label.as_deref(), Some("ws1"));
    assert_eq!(parsed.params.entries[1].agent, "grok");
    assert_eq!(parsed.params.cwd.as_deref(), Some("C:/work"));
    assert!(parsed.wait);
    assert_eq!(parsed.timeout_secs, 120);
}

#[test]
fn parse_with_orch_optional_value() {
    let bare = parse_spawn_args(&args(&["t", "--agents", "pi", "--with-orch"])).unwrap();
    assert!(bare.params.with_orch);
    assert_eq!(bare.params.orch_command, None);

    let with_cmd =
        parse_spawn_args(&args(&["t", "--agents", "pi", "--with-orch", "pwsh -NoLogo"])).unwrap();
    assert!(with_cmd.params.with_orch);
    assert_eq!(with_cmd.params.orch_command.as_deref(), Some("pwsh -NoLogo"));

    // a following flag is NOT consumed as the orch command
    let flag_after =
        parse_spawn_args(&args(&["t", "--agents", "pi", "--with-orch", "--wait"])).unwrap();
    assert!(flag_after.params.with_orch);
    assert_eq!(flag_after.params.orch_command, None);
    assert!(flag_after.wait);
}

#[test]
fn parse_rejects_bad_input() {
    assert!(parse_spawn_args(&args(&[])).is_err()); // no name
    assert!(parse_spawn_args(&args(&["t"])).is_err()); // no --agents
    assert!(parse_spawn_args(&args(&["t", "--agents", ""])).is_err()); // empty roster
    assert!(parse_spawn_args(&args(&["t", "--agents", "a=codex,a=grok"])).is_err()); // dup label
    assert!(parse_spawn_args(&args(&["t", "--agents", "codex", "--timeout", "abc"])).is_err());
}

#[test]
fn default_timeout_is_60() {
    let parsed = parse_spawn_args(&args(&["t", "--agents", "pi", "--wait"])).unwrap();
    assert_eq!(parsed.timeout_secs, 60);
}

#[test]
fn entry_with_equals_in_command_is_passthrough() {
    let parsed = parse_spawn_args(&args(&["t", "--agents", "codex --model=x"])).unwrap();
    assert_eq!(parsed.params.entries.len(), 1);
    assert_eq!(parsed.params.entries[0].label, None);
    assert_eq!(parsed.params.entries[0].agent, "codex --model=x");
}

#[test]
fn identifier_label_still_parses() {
    let parsed = parse_spawn_args(&args(&["t", "--agents", "ws-1=codex"])).unwrap();
    assert_eq!(parsed.params.entries[0].label.as_deref(), Some("ws-1"));
    assert_eq!(parsed.params.entries[0].agent, "codex");
}

// ---- the rest of the grammar ----

#[test]
fn spawn_without_cwd_leaves_it_to_the_caller() {
    let parsed = parse_spawn_args(&args(&["t", "--agents", "pi"])).unwrap();
    assert_eq!(parsed.params.cwd, None);
    assert!(!parsed.params.focus);
}

#[test]
fn spawn_error_texts() {
    assert_eq!(parse_spawn_args(&args(&[])).unwrap_err(), "missing team name");
    assert_eq!(
        parse_spawn_args(&args(&["t"])).unwrap_err(),
        "--agents with at least one entry is required"
    );
    assert_eq!(
        parse_spawn_args(&args(&["t", "--agents"])).unwrap_err(),
        "missing value for --agents"
    );
    assert_eq!(
        parse_spawn_args(&args(&["t", "--agents", "pi,,x"])).unwrap_err(),
        "empty --agents entry"
    );
    assert_eq!(
        parse_spawn_args(&args(&["t", "--agents", "a= "])).unwrap_err(),
        "entry \"a=\" has an empty agent"
    );
    assert_eq!(
        parse_spawn_args(&args(&["t", "--agents", "a=x", "--agents", "a=y"])).unwrap_err(),
        "duplicate label \"a\""
    );
    assert_eq!(
        parse_spawn_args(&args(&["t", "--agents", "pi", "--timeout", "1m"])).unwrap_err(),
        "invalid --timeout \"1m\""
    );
    assert_eq!(
        parse_spawn_args(&args(&["t", "u", "--agents", "pi"])).unwrap_err(),
        "unexpected argument \"u\""
    );
    assert_eq!(
        parse_spawn_args(&args(&["--bogus", "--agents", "pi"])).unwrap_err(),
        "unexpected argument \"--bogus\""
    );
    assert_eq!(
        parse_spawn_args(&args(&["t", "--cwd"])).unwrap_err(),
        "missing value for --cwd"
    );
    assert_eq!(
        parse_spawn_args(&args(&["t", "--agents", "pi", "--timeout"])).unwrap_err(),
        "missing value for --timeout"
    );
}

#[test]
fn entries_are_trimmed_and_accumulate_across_flags() {
    let parsed =
        parse_spawn_args(&args(&["t", "--agents", " a=codex , grok ", "--agents", "pi"]))
            .unwrap();
    assert_eq!(parsed.params.entries.len(), 3);
    assert_eq!(parsed.params.entries[0].label.as_deref(), Some("a"));
    assert_eq!(parsed.params.entries[0].agent, "codex");
    assert_eq!(parsed.params.entries[1].label, None);
    assert_eq!(parsed.params.entries[1].agent, "grok");
    assert_eq!(parsed.params.entries[2].agent, "pi");
}

#[test]
fn split_label_only_takes_identifier_prefixes() {
    assert_eq!(split_label("ws_1=codex"), (Some("ws_1".to_string()), "codex".to_string()));
    assert_eq!(split_label("a=b=c"), (Some("a".to_string()), "b=c".to_string()));
    assert_eq!(split_label("=codex"), (None, "=codex".to_string()));
    assert_eq!(split_label("a b=c"), (None, "a b=c".to_string()));
    assert_eq!(split_label("codex"), (None, "codex".to_string()));
}

#[test]
fn team_subcommands() {
    assert_eq!(team_subcommand(&args(&["spawn", "t"])), TeamSubcommand::Spawn);
    assert_eq!(team_subcommand(&args(&["-h"])), TeamSubcommand::Help);
    assert_eq!(team_subcommand(&args(&[])), TeamSubcommand::Usage);
    assert_eq!(team_subcommand(&args(&["kill"])), TeamSubcommand::Usage);
}

#[test]
fn agent_readiness() {
    assert!(agent_ready(Some("codex"), None));
    assert!(agent_ready(None, Some("working")));
    assert!(!agent_ready(Some(""), Some("unknown")));
    assert!(!agent_ready(None, None));
}
