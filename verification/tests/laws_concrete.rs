use herdr::api::send_message;
use herdr::bus::{MsgBus, MsgTarget, ResolveError, StoredMsg};
use herdr::schema::{MsgSendParams, TeamSpawnEntry, TeamSpawnParams};
use herdr::team::{next_spawn_step, plan_team_spawn, team_layout, SpawnStep};
use herdr::who::handle_msg_who;

fn msg(body: &str) -> StoredMsg {
    StoredMsg {
        seq: 0,
        from_pane_id: None,
        from_workspace_id: None,
        from_label: "external".to_string(),
        to: "w1:p1".to_string(),
        body: body.to_string(),
        timestamp: String::new(),
    }
}

fn bus_with(pane: &str, n: usize) -> MsgBus {
    let mut bus = MsgBus::new();
    for i in 0..n {
        bus.deliver(pane, msg(&format!("m{i}"))).unwrap();
    }
    bus
}

#[test]
fn ack_behind_cursor_changes_nothing() {
    let mut bus = bus_with("w1:p1", 3);
    assert_eq!(bus.ack("w1:p1", 2), 2);
    assert_eq!(bus.ack("w1:p1", 1), 2);
    assert_eq!(bus.ack("w1:p1", 0), 2);
    assert_eq!(bus.unread("w1:p1"), 1);
}

#[test]
fn ack_is_monotone_and_clamped() {
    let mut bus = bus_with("w1:p1", 3);
    assert_eq!(bus.ack("w1:p1", 1), 1);
    assert_eq!(bus.ack("w1:p1", 99), 3);
}

#[test]
fn ack_through_newest_reads_all() {
    let mut bus = bus_with("w1:p1", 4);
    bus.ack("w1:p1", 4);
    assert_eq!(bus.unread("w1:p1"), 0);
    assert!(bus.list("w1:p1", None, false).0.is_empty());
}

#[test]
fn unread_counts_the_unread_listing() {
    let mut bus = bus_with("w1:p1", 5);
    bus.ack("w1:p1", 2);
    let (unread_listing, unread, _, _) = bus.list("w1:p1", None, false);
    assert_eq!(unread as usize, unread_listing.len());
    assert_eq!(unread, 3);
}

#[test]
fn full_listing_is_the_whole_inbox() {
    let mut bus = bus_with("w1:p1", 3);
    bus.ack("w1:p1", 3);
    let (all, _, _, _) = bus.list("w1:p1", None, true);
    let seqs: Vec<u64> = all.iter().map(|m| m.seq).collect();
    assert_eq!(seqs, vec![1, 2, 3]);
}

#[test]
fn delivery_appends_newest_with_next_seq() {
    let mut bus = bus_with("w1:p1", 2);
    assert_eq!(bus.next_seq("w1:p1"), 3);
    bus.deliver("w1:p1", msg("new")).unwrap();
    let (all, _, dropped, _) = bus.list("w1:p1", None, true);
    assert_eq!(all.last().unwrap().body, "new");
    assert_eq!(all.last().unwrap().seq, 3);
    assert_eq!(dropped, 0);
    assert_eq!(bus.next_seq("w1:p1"), 4);
}

#[test]
fn join_twice_is_join_once() {
    let mut bus = MsgBus::new();
    let once = bus.group_join("w1:p1", "devs").unwrap();
    let twice = bus.group_join("w1:p1", "devs").unwrap();
    assert_eq!(once, twice);
    assert_eq!(bus.group_members("devs"), vec!["w1:p1".to_string()]);
}

#[test]
fn leave_undoes_join() {
    let mut bus = MsgBus::new();
    bus.group_join("w1:p2", "devs").unwrap();
    let before = bus.groups_of("w1:p1");
    bus.group_join("w1:p1", "devs").unwrap();
    bus.group_leave("w1:p1", "devs").unwrap();
    assert_eq!(bus.groups_of("w1:p1"), before);
    assert_eq!(bus.group_members("devs"), vec!["w1:p2".to_string()]);
}

#[test]
fn last_leave_removes_the_group() {
    let mut bus = MsgBus::new();
    bus.group_join("w1:p1", "devs").unwrap();
    bus.group_leave("w1:p1", "devs").unwrap();
    assert_eq!(
        bus.resolve(&MsgTarget::Group("devs".to_string()), None, &[]),
        Err(ResolveError::EmptyGroup("devs".to_string()))
    );
}

#[test]
fn reused_pane_id_starts_fresh() {
    let mut bus = bus_with("w1:p1", 3);
    bus.ack("w1:p1", 2);
    bus.remove_pane("w1:p1");
    assert_eq!(bus.next_seq("w1:p1"), 1);
    assert_eq!(bus.unread("w1:p1"), 0);
    assert_eq!(bus.list("w1:p1", None, true), (vec![], 0, 0, 0));
}

#[test]
fn rekey_back_restores() {
    let mut bus = bus_with("w1:p1", 2);
    bus.group_join("w1:p1", "devs").unwrap();
    bus.rekey_pane("w1:p1", "w2:p7");
    bus.rekey_pane("w2:p7", "w1:p1");
    assert_eq!(bus.next_seq("w1:p1"), 3);
    assert_eq!(bus.groups_of("w1:p1"), vec!["devs".to_string()]);
    assert_eq!(bus.next_seq("w2:p7"), 1);
}

#[test]
fn group_member_lists_have_no_repeats() {
    let mut bus = MsgBus::new();
    for p in ["w1:p2", "w1:p1", "w1:p2", "w1:p1"] {
        bus.group_join(p, "devs").unwrap();
    }
    assert_eq!(bus.group_members("devs"), vec!["w1:p1".to_string(), "w1:p2".to_string()]);
}

#[test]
fn target_grammar() {
    assert_eq!(MsgBus::parse_target("@devs"), Ok(MsgTarget::Group("devs".to_string())));
    assert_eq!(MsgBus::parse_target("@all"), Ok(MsgTarget::All));
    assert_eq!(MsgBus::parse_target("worker:api"), Ok(MsgTarget::Label("worker:api".to_string())));
    assert_eq!(
        MsgBus::parse_target("w1/worker-1"),
        Ok(MsgTarget::Qualified { workspace_id: "w1".to_string(), label: "worker-1".to_string() })
    );
    assert_eq!(MsgBus::parse_target("w1B:p2Z"), Ok(MsgTarget::PaneId("w1B:p2Z".to_string())));
}

#[test]
fn broadcast_skips_its_sender() {
    let mut bus = MsgBus::new();
    let directory = vec![
        ("w1".to_string(), "w1:p1".to_string(), String::new()),
        ("w1".to_string(), "w1:p2".to_string(), String::new()),
    ];
    let (result, _) = send_message(
        &mut bus,
        MsgSendParams {
            target: "@all".to_string(),
            body: "hi".to_string(),
            sender_pane_id: Some("w1:p1".to_string()),
        },
        Some("w1".to_string()),
        String::new(),
        String::new(),
        &directory,
    )
    .unwrap();
    assert_eq!(result.delivered_to, vec!["w1:p2".to_string()]);
    assert_eq!(bus.next_seq("w1:p1"), 1);
}

#[test]
fn team_grid_places_every_pane_once() {
    let layout = team_layout(7, 3);
    let mut seen = layout.grid.clone();
    seen.sort();
    assert_eq!(seen, vec![0, 1, 2, 3, 4, 5, 6]);
    assert_eq!(layout.splits.len(), 6);
    assert!(layout.splits.iter().enumerate().all(|(k, s)| s.target <= k));
}

#[test]
fn accepted_team_is_addressable() {
    let bus = MsgBus::new();
    let params = TeamSpawnParams {
        name: "crew".to_string(),
        entries: vec![
            TeamSpawnEntry { label: None, agent: "pi".to_string() },
            TeamSpawnEntry { label: Some("lead".to_string()), agent: "pi".to_string() },
        ],
        cwd: None,
        with_orch: true,
        orch_command: None,
        focus: false,
    };
    let plan = plan_team_spawn(&params, &bus, &[]).unwrap();
    for label in &plan.labels {
        assert_eq!(MsgBus::parse_target(label), Ok(MsgTarget::Label(label.clone())));
    }
    assert_eq!(MsgBus::parse_target("@crew"), Ok(MsgTarget::Group("crew".to_string())));
}

#[test]
fn spawn_labels_before_launching() {
    let bus = MsgBus::new();
    let params = TeamSpawnParams {
        name: "crew".to_string(),
        entries: vec![
            TeamSpawnEntry { label: None, agent: "pi".to_string() },
            TeamSpawnEntry { label: None, agent: "pi".to_string() },
        ],
        cwd: None,
        with_orch: false,
        orch_command: None,
        focus: false,
    };
    let plan = plan_team_spawn(&params, &bus, &[]).unwrap();
    let layout = team_layout(plan.labels.len(), plan.cols);
    let mut steps = vec![];
    let mut step = SpawnStep::CreateWorkspace;
    while step != SpawnStep::Finish {
        step = next_spawn_step(&plan, layout.splits.len(), step);
        steps.push(step);
    }
    let first_launch = steps.iter().position(|s| matches!(s, SpawnStep::Launch(_))).unwrap();
    let last_join = steps.iter().rposition(|s| matches!(s, SpawnStep::JoinGroup(_))).unwrap();
    assert!(last_join < first_launch);
}

#[test]
fn who_lists_each_pane_once_by_id() {
    let bus = MsgBus::new();
    let directory = vec![
        ("w2".to_string(), "w2:p1".to_string(), "b".to_string()),
        ("w1".to_string(), "w1:p3".to_string(), "c".to_string()),
        ("w1".to_string(), "w1:p1".to_string(), "a".to_string()),
    ];
    let who = handle_msg_who(&bus, &directory);
    let ids: Vec<&str> = who.panes.iter().map(|p| p.pane_id.as_str()).collect();
    assert_eq!(ids, vec!["w1:p1", "w1:p3", "w2:p1"]);
}

#[test]
fn plain_read_acks_only_what_it_shows() {
    let mut bus = bus_with("w1:p1", 3);
    bus.ack("w1:p1", 1);
    let (shown, _, _, _) = bus.list("w1:p1", None, false);
    let seqs: Vec<u64> = shown.iter().map(|m| m.seq).collect();
    assert_eq!(seqs, vec![2, 3]);
    let up_to = herdr::msg_cli::read_ack_seq(None, &seqs).unwrap();
    bus.ack("w1:p1", up_to);
    assert_eq!(bus.unread("w1:p1"), 0);
    // with --after 2 the unread message 2 is not shown, and nothing is acked
    let (after, _, _, _) = bus_with("w1:p1", 3).list("w1:p1", Some(2), false);
    let seqs: Vec<u64> = after.iter().map(|m| m.seq).collect();
    assert_eq!(seqs, vec![3]);
    assert_eq!(herdr::msg_cli::read_ack_seq(Some(2), &seqs), None);
}

#[test]
fn seqs_are_numbered_per_inbox() {
    let mut bus = bus_with("w1:p1", 502);
    bus.ack("w1:p1", 10);
    let (messages, _, dropped, ack) = bus.list("w1:p1", None, true);
    let next = bus.next_seq("w1:p1");
    assert_eq!(dropped, 2);
    assert_eq!(next, 1 + messages.len() as u64 + dropped);
    let seqs: Vec<u64> = messages.iter().map(|m| m.seq).collect();
    assert_eq!(seqs, (next - messages.len() as u64..next).collect::<Vec<_>>());
    assert!(ack < next);
    assert_eq!(bus.next_seq("w9:p9"), 1);
}
