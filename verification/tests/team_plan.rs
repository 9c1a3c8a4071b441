use herdr::bus::MsgBus;
use herdr::schema::{TeamSpawnEntry, TeamSpawnParams};
use herdr::team::{
    grid_pane_ids, spawn_join, next_spawn_step, plan_team_spawn, team_layout, team_pane_infos, valid_name, SpawnStep,
    SplitDirection, SplitStep, TeamPlan, TeamSpawnError,
};

fn spawn_params(name: &str, entries: Vec<TeamSpawnEntry>) -> TeamSpawnParams {
    TeamSpawnParams {
        name: name.into(),
        entries,
        cwd: None,
        with_orch: false,
        orch_command: None,
        focus: false,
    }
}

fn entry(label: Option<&str>, agent: &str) -> TeamSpawnEntry {
    TeamSpawnEntry { label: label.map(Into::into), agent: agent.into() }
}

fn code(bus: &MsgBus, params: &TeamSpawnParams) -> &'static str {
    match plan_team_spawn(params, bus, &[]) {
        Ok(_) => "ok",
        Err(e) => e.code(),
    }
}

#[test]
fn duplicate_labels_rejected_before_creation() {
    let bus = MsgBus::new();
    let params = spawn_params("t", vec![entry(Some("a"), "pwsh"), entry(Some("a"), "pwsh")]);
    let res = plan_team_spawn(&params, &bus, &[]);
    assert_eq!(res.as_ref().err().map(|e| e.code()), Some("duplicate_label"));
    assert_eq!(res.err(), Some(TeamSpawnError::DuplicateLabel("a".to_string())));
    // nothing was created: the group does not exist
    assert!(bus.group_members("t").is_empty());
}

#[test]
fn invalid_labels_and_names_rejected() {
    let bus = MsgBus::new();
    for bad_name in ["", "@team", "a/b", "has space"] {
        let res = code(&bus, &spawn_params(bad_name, vec![entry(None, "pwsh")]));
        assert_eq!(res, "invalid_team_name", "name {bad_name:?} got: {res}");
    }
    let res = code(&bus, &spawn_params("t", vec![entry(Some("@bad"), "pwsh")]));
    assert_eq!(res, "invalid_label", "got: {res}");
    let res = code(&bus, &spawn_params("t", vec![]));
    assert_eq!(res, "empty_roster", "got: {res}");
    // "orch" reserved only when with_orch is set
    let mut params = spawn_params("t", vec![entry(Some("orch"), "pwsh")]);
    params.with_orch = true;
    let res = code(&bus, &params);
    assert_eq!(res, "invalid_label", "got: {res}");
}

#[test]
fn existing_group_name_refused() {
    let mut bus = MsgBus::new();
    bus.group_join("w1:p1", "review").unwrap();
    let res = code(&bus, &spawn_params("review", vec![entry(None, "pwsh")]));
    assert_eq!(res, "team_exists", "got: {res}");
    assert_eq!(bus.group_members("review"), vec!["w1:p1".to_string()]);
}

#[test]
fn reserved_name_all_refused() {
    let bus = MsgBus::new();
    let res = plan_team_spawn(&spawn_params("all", vec![entry(None, "pwsh")]), &bus, &[]);
    assert_eq!(res.as_ref().err().map(|e| e.code()), Some("invalid_team_name"));
    assert_eq!(res.err(), Some(TeamSpawnError::ReservedTeamName));
}

#[test]
fn pane_id_shaped_label_refused() {
    let bus = MsgBus::new();
    let res = plan_team_spawn(&spawn_params("t", vec![entry(Some("w1:p2"), "pwsh")]), &bus, &[]);
    assert_eq!(res.as_ref().err().map(|e| e.code()), Some("invalid_label"));
    assert_eq!(res.err(), Some(TeamSpawnError::UnaddressableLabel("w1:p2".to_string())));
}

#[test]
fn labels_trimmed_before_dup_check() {
    let bus = MsgBus::new();
    let res = code(
        &bus,
        &spawn_params("t", vec![entry(Some("a"), "pwsh"), entry(Some("a "), "pwsh")]),
    );
    assert_eq!(res, "duplicate_label", "got: {res}");
}

#[test]
fn oversized_roster_refused() {
    let bus = MsgBus::new();
    let entries = (0..25).map(|_| entry(None, "pwsh")).collect();
    let res = plan_team_spawn(&spawn_params("t", entries), &bus, &[]);
    assert_eq!(res.as_ref().err().map(|e| e.code()), Some("team_too_large"));
    assert_eq!(res.err(), Some(TeamSpawnError::TeamTooLarge(25)));
}

// ---- the plan of a team that is accepted ----

#[test]
fn plan_labels_commands_and_agents() {
    let bus = MsgBus::new();
    let registry = vec![("codex".to_string(), "codex --dangerously-skip-permissions".to_string())];
    let params = spawn_params(
        "review",
        vec![entry(Some("ws1"), "codex"), entry(None, "codex"), entry(None, "grok")],
    );
    let plan = plan_team_spawn(&params, &bus, &registry).unwrap();
    assert_eq!(plan.labels, vec!["ws1", "codex-1", "grok-1"]);
    assert_eq!(plan.agents, vec!["codex", "codex", "grok"]);
    assert_eq!(
        plan.commands,
        vec![
            "codex --dangerously-skip-permissions",
            "codex --dangerously-skip-permissions",
            "grok" // registry miss -> verbatim passthrough
        ]
    );
    assert_eq!((plan.cols, plan.rows), (2, 2));
}

#[test]
fn plan_with_orch_adds_orch_pane_last() {
    let bus = MsgBus::new();
    let mut params = spawn_params("t", vec![entry(None, "pwsh"), entry(None, "pwsh")]);
    params.with_orch = true;
    let plan = plan_team_spawn(&params, &bus, &[]).unwrap();
    assert_eq!(plan.labels, vec!["pwsh-1", "pwsh-2", "orch"]);
    assert_eq!(plan.agents, vec!["pwsh", "pwsh", "orch"]);
    assert_eq!(plan.commands, vec!["pwsh", "pwsh", ""]); // no command sent: plain shell
    params.orch_command = Some("pwsh -NoLogo".to_string());
    let plan = plan_team_spawn(&params, &bus, &[]).unwrap();
    assert_eq!(plan.commands[2], "pwsh -NoLogo");
}

#[test]
fn auto_labels_count_per_agent_and_skip_labelled_entries() {
    let bus = MsgBus::new();
    let params = spawn_params(
        "t",
        vec![
            entry(None, "a"),
            entry(Some("x"), "a"),
            entry(None, "b"),
            entry(None, "a"),
            entry(Some(" y "), "b"),
        ],
    );
    let plan = plan_team_spawn(&params, &bus, &[]).unwrap();
    assert_eq!(plan.labels, vec!["a-1", "x", "b-1", "a-2", "y"]);
}

#[test]
fn auto_label_can_collide_with_explicit_one() {
    let bus = MsgBus::new();
    let params = spawn_params("t", vec![entry(Some("pwsh-1"), "x"), entry(None, "pwsh")]);
    assert_eq!(
        plan_team_spawn(&params, &bus, &[]).err(),
        Some(TeamSpawnError::DuplicateLabel("pwsh-1".to_string()))
    );
}

#[test]
fn first_failing_check_decides() {
    let mut bus = MsgBus::new();
    bus.group_join("w1:p1", "t").unwrap();
    // a bad label is reported before the taken group name
    let params = spawn_params("t", vec![entry(Some("a/b"), "x")]);
    assert_eq!(
        plan_team_spawn(&params, &bus, &[]).err(),
        Some(TeamSpawnError::InvalidLabel("a/b".to_string()))
    );
    // a roster of 24 is fine, 24 plus the orchestrator is not
    let entries: Vec<TeamSpawnEntry> = (0..24).map(|_| entry(None, "pwsh")).collect();
    let mut params = spawn_params("u", entries);
    assert!(plan_team_spawn(&params, &bus, &[]).is_ok());
    params.with_orch = true;
    assert_eq!(plan_team_spawn(&params, &bus, &[]).err(), Some(TeamSpawnError::TeamTooLarge(25)));
    // an unlabelled agent with a space gives an invalid label
    let params = spawn_params("v", vec![entry(None, "codex --x")]);
    assert_eq!(
        plan_team_spawn(&params, &bus, &[]).err(),
        Some(TeamSpawnError::InvalidLabel("codex --x-1".to_string()))
    );
}

#[test]
fn names_are_checked_like_labels() {
    assert!(valid_name("review"));
    assert!(valid_name("a@b"));
    assert!(!valid_name(""));
    assert!(!valid_name("@a"));
    assert!(!valid_name("a/b"));
    assert!(!valid_name("a\tb"));
    assert!(!valid_name("a\u{3000}b"));
}

#[test]
fn grid_shapes() {
    let bus = MsgBus::new();
    for (n, cols, rows) in [(1, 1, 1), (2, 2, 1), (3, 2, 2), (4, 2, 2), (5, 3, 2), (9, 3, 3), (10, 4, 3), (24, 5, 5)] {
        let entries: Vec<TeamSpawnEntry> = (0..n).map(|_| entry(None, "pwsh")).collect();
        let plan = plan_team_spawn(&spawn_params("t", entries), &bus, &[]).unwrap();
        assert_eq!((plan.cols, plan.rows), (cols, rows), "team of {n}");
    }
}

fn split(target: usize, direction: SplitDirection) -> SplitStep {
    SplitStep { target, direction }
}

#[test]
fn layout_of_five_panes() {
    let layout = team_layout(5, 3);
    assert_eq!(
        layout.splits,
        vec![
            split(0, SplitDirection::Down),
            split(0, SplitDirection::Right),
            split(2, SplitDirection::Right),
            split(1, SplitDirection::Right),
        ]
    );
    assert_eq!(layout.grid, vec![0, 2, 3, 1, 4]);
}

#[test]
fn layout_single_pane_and_single_column() {
    let layout = team_layout(1, 1);
    assert!(layout.splits.is_empty());
    assert_eq!(layout.grid, vec![0]);
    let layout = team_layout(3, 1);
    assert_eq!(layout.splits, vec![split(0, SplitDirection::Down), split(1, SplitDirection::Down)]);
    assert_eq!(layout.grid, vec![0, 1, 2]);
}

#[test]
fn layout_covers_every_pane_once() {
    for total in 1..=24usize {
        let cols = (1..=total).find(|c| c * c >= total).unwrap();
        let layout = team_layout(total, cols);
        assert_eq!(layout.splits.len(), total - 1);
        let mut seen = layout.grid.clone();
        seen.sort();
        assert_eq!(seen, (0..total).collect::<Vec<_>>());
        for (k, s) in layout.splits.iter().enumerate() {
            assert!(s.target <= k, "split {k} of {total} targets a pane not made yet");
        }
    }
}

#[test]
fn pane_infos_pair_grid_panes_with_the_plan() {
    let bus = MsgBus::new();
    let mut params = spawn_params("t", vec![entry(Some("a"), "codex"), entry(None, "grok")]);
    params.with_orch = true;
    let plan = plan_team_spawn(&params, &bus, &[]).unwrap();
    let ids = vec!["w2:p1".to_string(), "w2:p3".to_string(), "w2:p2".to_string()];
    let infos = team_pane_infos(&plan, &ids);
    assert_eq!(infos.len(), 3);
    assert_eq!(infos[0].label, "a");
    assert_eq!(infos[0].pane_id, "w2:p1");
    assert_eq!(infos[0].agent, "codex");
    assert_eq!(infos[0].command, "codex");
    assert_eq!(infos[1].label, "grok-1");
    assert_eq!(infos[1].pane_id, "w2:p3");
    assert_eq!(infos[2].label, "orch");
    assert_eq!(infos[2].agent, "orch");
    assert_eq!(infos[2].command, "");
    assert_eq!(team_pane_infos(&plan, &ids[..1]).len(), 1);
}

fn strings(v: &[&str]) -> Vec<String> {
    v.iter().map(|s| s.to_string()).collect()
}

#[test]
fn spawn_steps_label_and_join_before_launching() {
    let plan = TeamPlan {
        labels: strings(&["a", "b", "orch"]),
        agents: strings(&["x", "y", "orch"]),
        commands: strings(&["x", "", "y"]),
        cols: 2,
        rows: 2,
    };
    let mut steps = vec![SpawnStep::CreateWorkspace];
    let mut step = SpawnStep::CreateWorkspace;
    while step != SpawnStep::Finish {
        step = next_spawn_step(&plan, 2, step);
        steps.push(step);
    }
    assert_eq!(
        steps,
        vec![
            SpawnStep::CreateWorkspace,
            SpawnStep::Split(0),
            SpawnStep::Split(1),
            SpawnStep::Balance,
            SpawnStep::Label(0),
            SpawnStep::JoinGroup(0),
            SpawnStep::Label(1),
            SpawnStep::JoinGroup(1),
            SpawnStep::Label(2),
            SpawnStep::JoinGroup(2),
            SpawnStep::Launch(0),
            SpawnStep::Launch(2),
            SpawnStep::Finish,
        ]
    );
    assert!(!SpawnStep::CreateWorkspace.needs_rollback());
    assert!(SpawnStep::Split(0).needs_rollback());
    assert_eq!(SpawnStep::Balance.name(), "layout balance");
    assert_eq!(SpawnStep::Launch(1).name(), "command launch");
}

#[test]
fn spawn_steps_of_one_pane_without_commands() {
    let plan = TeamPlan {
        labels: strings(&["a"]),
        agents: strings(&["x"]),
        commands: strings(&[""]),
        cols: 1,
        rows: 1,
    };
    assert_eq!(next_spawn_step(&plan, 0, SpawnStep::CreateWorkspace), SpawnStep::Balance);
    assert_eq!(next_spawn_step(&plan, 0, SpawnStep::Balance), SpawnStep::Label(0));
    assert_eq!(next_spawn_step(&plan, 0, SpawnStep::JoinGroup(0)), SpawnStep::Finish);
    assert_eq!(next_spawn_step(&plan, 0, SpawnStep::Finish), SpawnStep::Finish);
}

#[test]
fn spawn_joins_make_the_team_group_exactly_its_panes() {
    let mut bus = MsgBus::new();
    bus.group_join("w1:p9", "other").unwrap();
    let params = spawn_params("crew", vec![entry(None, "pi"), entry(None, "pi"), entry(None, "x")]);
    let plan = plan_team_spawn(&params, &bus, &[]).unwrap();
    let layout = team_layout(plan.labels.len(), plan.cols);
    let created = strings(&["w2:p1", "w2:p2", "w2:p3"]);
    let ids = grid_pane_ids(&layout, &created);
    assert_eq!(ids, layout.grid.iter().map(|&n| created[n].clone()).collect::<Vec<_>>());
    for i in 0..ids.len() {
        spawn_join(&mut bus, "crew", &ids, i).unwrap();
    }
    assert_eq!(bus.group_members("crew"), strings(&["w2:p1", "w2:p2", "w2:p3"]));
    assert_eq!(bus.group_members("other"), strings(&["w1:p9"]));
    assert!(spawn_join(&mut bus, "@bad", &ids, 0).is_err());
    assert_eq!(bus.groups_of("w2:p1"), strings(&["crew"]));
}
