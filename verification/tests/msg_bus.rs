use herdr::bus::{
    MsgBus, MsgError, MsgTarget, ResolveError, StoredMsg, MAX_INBOX_BODY_BYTES, MAX_INBOX_MESSAGES,
    MAX_MESSAGE_BODY_BYTES,
};

fn sample_msg(body: impl Into<String>) -> StoredMsg {
    StoredMsg {
        seq: 0, // overwritten by deliver
        from_pane_id: Some("w1:p1".to_string()),
        from_workspace_id: Some("w1".to_string()),
        from_label: "orchestrator".to_string(),
        to: "worker-1".to_string(),
        body: body.into(),
        timestamp: "2026-07-18T00:00:00Z".to_string(),
    }
}

// Directory: (workspace_id, pane_id, manual_label)
fn dir() -> Vec<(String, String, String)> {
    vec![
        (
            "w1".to_string(),
            "w1:p1".to_string(),
            "orchestrator".to_string(),
        ),
        (
            "w1".to_string(),
            "w1:p2".to_string(),
            "worker-1".to_string(),
        ),
        (
            "w1".to_string(),
            "w1:p3".to_string(),
            "worker-2".to_string(),
        ),
        (
            "w2".to_string(),
            "w2:p1".to_string(),
            "worker-1".to_string(),
        ), // same label, other ws
        ("w2".to_string(), "w2:p2".to_string(), "solo".to_string()),
    ]
}

// --- parse_target -------------------------------------------------------

#[test]
fn parse_target_all_five_forms() {
    assert_eq!(MsgBus::parse_target("@all"), Ok(MsgTarget::All));
    assert_eq!(
        MsgBus::parse_target("@devs"),
        Ok(MsgTarget::Group("devs".to_string()))
    );
    assert_eq!(
        MsgBus::parse_target("w1:p3"),
        Ok(MsgTarget::PaneId("w1:p3".to_string()))
    );
    assert_eq!(
        MsgBus::parse_target("w1/worker-1"),
        Ok(MsgTarget::Qualified {
            workspace_id: "w1".to_string(),
            label: "worker-1".to_string(),
        })
    );
    assert_eq!(
        MsgBus::parse_target("worker-1"),
        Ok(MsgTarget::Label("worker-1".to_string()))
    );
}

#[test]
fn parse_target_colon_label_routes_as_label_unless_pane_id_grammar() {
    // Legal labels may contain `:`; only the canonical public-pane-id
    // grammar (`w<ENC>:p<ENC>`) is classified as a PaneId.
    assert_eq!(
        MsgBus::parse_target("worker:api"),
        Ok(MsgTarget::Label("worker:api".to_string()))
    );
    assert_eq!(
        MsgBus::parse_target("w1:x2"),
        Ok(MsgTarget::Label("w1:x2".to_string()))
    );
    // Lowercase is not in the public-id alphabet.
    assert_eq!(
        MsgBus::parse_target("w1:pab"),
        Ok(MsgTarget::Label("w1:pab".to_string()))
    );
    assert_eq!(
        MsgBus::parse_target("a:b:c"),
        Ok(MsgTarget::Label("a:b:c".to_string()))
    );
    // Real pane ids still classify as PaneId.
    assert_eq!(
        MsgBus::parse_target("w1:p3"),
        Ok(MsgTarget::PaneId("w1:p3".to_string()))
    );
    assert_eq!(
        MsgBus::parse_target("wA:pZ"),
        Ok(MsgTarget::PaneId("wA:pZ".to_string()))
    );
    // Qualified form with a colon-bearing label.
    assert_eq!(
        MsgBus::parse_target("w1/worker:api"),
        Ok(MsgTarget::Qualified {
            workspace_id: "w1".to_string(),
            label: "worker:api".to_string(),
        })
    );
}

#[test]
fn parse_target_unaddressable_labels() {
    assert_eq!(
        MsgBus::parse_target(""),
        Err(ResolveError::Unaddressable("".to_string()))
    );
    // multi-segment / empty parts → unaddressable (labels may not contain `/`)
    assert_eq!(
        MsgBus::parse_target("a/b/c"),
        Err(ResolveError::Unaddressable("a/b/c".to_string()))
    );
    assert_eq!(
        MsgBus::parse_target("/label"),
        Err(ResolveError::Unaddressable("/label".to_string()))
    );
    assert_eq!(
        MsgBus::parse_target("ws/"),
        Err(ResolveError::Unaddressable("ws/".to_string()))
    );
    // bare `@` or `@` with slash is unaddressable, not a group
    assert_eq!(
        MsgBus::parse_target("@"),
        Err(ResolveError::Unaddressable("@".to_string()))
    );
    assert_eq!(
        MsgBus::parse_target("@foo/bar"),
        Err(ResolveError::Unaddressable("@foo/bar".to_string()))
    );
    // qualified whose label starts with `@`
    assert_eq!(
        MsgBus::parse_target("w1/@bad"),
        Err(ResolveError::Unaddressable("w1/@bad".to_string()))
    );
}

// --- resolve rules 1–6 --------------------------------------------------

#[test]
fn resolve_pane_id_direct() {
    let bus = MsgBus::new();
    let d = dir();
    let target = MsgTarget::PaneId("w1:p2".to_string());
    assert_eq!(
        bus.resolve(&target, Some("w1"), &d),
        Ok(vec!["w1:p2".to_string()])
    );
}

#[test]
fn resolve_pane_id_not_found() {
    let bus = MsgBus::new();
    let d = dir();
    let target = MsgTarget::PaneId("w9:missing".to_string());
    assert_eq!(
        bus.resolve(&target, Some("w1"), &d),
        Err(ResolveError::NotFound)
    );
}

#[test]
fn resolve_qualified_workspace_only() {
    let bus = MsgBus::new();
    let d = dir();
    let target = MsgTarget::Qualified {
        workspace_id: "w2".to_string(),
        label: "worker-1".to_string(),
    };
    assert_eq!(
        bus.resolve(&target, Some("w1"), &d),
        Ok(vec!["w2:p1".to_string()])
    );
}

#[test]
fn resolve_qualified_not_found() {
    let bus = MsgBus::new();
    let d = dir();
    let target = MsgTarget::Qualified {
        workspace_id: "w1".to_string(),
        label: "nope".to_string(),
    };
    assert_eq!(
        bus.resolve(&target, Some("w1"), &d),
        Err(ResolveError::NotFound)
    );
}

#[test]
fn resolve_label_local_first() {
    let bus = MsgBus::new();
    let d = dir();
    // worker-1 exists in w1 and w2; sender in w1 → local hit
    let target = MsgTarget::Label("worker-1".to_string());
    assert_eq!(
        bus.resolve(&target, Some("w1"), &d),
        Ok(vec!["w1:p2".to_string()])
    );
}

#[test]
fn resolve_label_global_fallback() {
    let bus = MsgBus::new();
    let d = dir();
    // "solo" only in w2; sender in w1 → local miss → global hit
    let target = MsgTarget::Label("solo".to_string());
    assert_eq!(
        bus.resolve(&target, Some("w1"), &d),
        Ok(vec!["w2:p2".to_string()])
    );
}

#[test]
fn resolve_label_global_ambiguity() {
    let bus = MsgBus::new();
    let d = dir();
    // external sender (None) skips local phase → both worker-1s → ambiguous
    let target = MsgTarget::Label("worker-1".to_string());
    let err = bus.resolve(&target, None, &d).unwrap_err();
    match err {
        ResolveError::Ambiguous(cands) => {
            assert_eq!(cands.len(), 2);
            assert!(cands.iter().any(|c| c.2 == "w1:p2"));
            assert!(cands.iter().any(|c| c.2 == "w2:p1"));
        }
        other => panic!("expected Ambiguous, got {other:?}"),
    }
}

#[test]
fn resolve_label_external_sender_skips_local_phase() {
    let bus = MsgBus::new();
    let d = dir();
    // external → no local phase; unique label still resolves globally
    let target = MsgTarget::Label("solo".to_string());
    assert_eq!(
        bus.resolve(&target, None, &d),
        Ok(vec!["w2:p2".to_string()])
    );
}

#[test]
fn resolve_label_local_ambiguity() {
    // two panes same label in same workspace
    let bus = MsgBus::new();
    let d = vec![
        ("w1".to_string(), "w1:p1".to_string(), "dup".to_string()),
        ("w1".to_string(), "w1:p2".to_string(), "dup".to_string()),
    ];
    let target = MsgTarget::Label("dup".to_string());
    let err = bus.resolve(&target, Some("w1"), &d).unwrap_err();
    match err {
        ResolveError::Ambiguous(cands) => assert_eq!(cands.len(), 2),
        other => panic!("expected Ambiguous, got {other:?}"),
    }
}

#[test]
fn resolve_group_members() {
    let mut bus = MsgBus::new();
    bus.group_join("w1:p2", "devs").unwrap();
    bus.group_join("w1:p3", "devs").unwrap();
    let target = MsgTarget::Group("devs".to_string());
    let ids = bus.resolve(&target, Some("w1"), &dir()).unwrap();
    assert_eq!(ids, vec!["w1:p2".to_string(), "w1:p3".to_string()]);
}

#[test]
fn resolve_empty_or_unknown_group() {
    let bus = MsgBus::new();
    let target = MsgTarget::Group("ghosts".to_string());
    assert_eq!(
        bus.resolve(&target, Some("w1"), &dir()),
        Err(ResolveError::EmptyGroup("ghosts".to_string()))
    );
}

#[test]
fn resolve_all_returns_every_directory_pane() {
    // Policy: resolve(All) returns every directory pane id.
    // WS2 filters the sender out of @all deliveries (spec rule 5).
    let bus = MsgBus::new();
    let d = dir();
    let ids = bus.resolve(&MsgTarget::All, Some("w1"), &d).unwrap();
    assert_eq!(
        ids,
        vec![
            "w1:p1".to_string(),
            "w1:p2".to_string(),
            "w1:p3".to_string(),
            "w2:p1".to_string(),
            "w2:p2".to_string(),
        ]
    );
}

#[test]
fn resolve_label_not_found() {
    let bus = MsgBus::new();
    assert_eq!(
        bus.resolve(&MsgTarget::Label("nope".to_string()), Some("w1"), &dir()),
        Err(ResolveError::NotFound)
    );
}

#[test]
fn resolve_matching_is_case_sensitive() {
    let bus = MsgBus::new();
    assert_eq!(
        bus.resolve(
            &MsgTarget::Label("Worker-1".to_string()),
            Some("w1"),
            &dir()
        ),
        Err(ResolveError::NotFound)
    );
}

// --- deliver / list / ack -----------------------------------------------

#[test]
fn deliver_assigns_seq_from_one_and_overwrites_input_seq() {
    let mut bus = MsgBus::new();
    let mut msg = sample_msg("hello");
    msg.seq = 999; // must be ignored
    bus.deliver("w1:p2", msg).unwrap();
    assert_eq!(bus.next_seq("w1:p2"), 2);

    let (msgs, unread, dropped, ack) = bus.list("w1:p2", None, true);
    assert_eq!(msgs.len(), 1);
    assert_eq!(msgs[0].seq, 1);
    assert_eq!(msgs[0].body, "hello");
    assert_eq!(unread, 1);
    assert_eq!(dropped, 0);
    assert_eq!(ack, 0);
}

#[test]
fn list_is_pure_and_ack_advances_cursor() {
    let mut bus = MsgBus::new();
    bus.deliver("w1:p2", sample_msg("a")).unwrap();
    bus.deliver("w1:p2", sample_msg("b")).unwrap();
    bus.deliver("w1:p2", sample_msg("c")).unwrap();

    let (msgs, unread, _, ack) = bus.list("w1:p2", None, true);
    assert_eq!(msgs.len(), 3);
    assert_eq!(unread, 3);
    assert_eq!(ack, 0);

    // list again — still pure
    let (msgs2, unread2, _, _) = bus.list("w1:p2", None, false);
    assert_eq!(msgs2.len(), 3);
    assert_eq!(unread2, 3);

    let new_ack = bus.ack("w1:p2", 2);
    assert_eq!(new_ack, 2);
    assert_eq!(bus.unread("w1:p2"), 1);

    let (unread_only, unread, _, ack) = bus.list("w1:p2", None, false);
    assert_eq!(unread_only.len(), 1);
    assert_eq!(unread_only[0].seq, 3);
    assert_eq!(unread, 1);
    assert_eq!(ack, 2);

    let (all, _, _, _) = bus.list("w1:p2", None, true);
    assert_eq!(all.len(), 3);
}

#[test]
fn list_after_seq_filter() {
    let mut bus = MsgBus::new();
    bus.deliver("w1:p2", sample_msg("a")).unwrap();
    bus.deliver("w1:p2", sample_msg("b")).unwrap();
    bus.deliver("w1:p2", sample_msg("c")).unwrap();

    let (msgs, _, _, _) = bus.list("w1:p2", Some(1), true);
    assert_eq!(msgs.iter().map(|m| m.seq).collect::<Vec<_>>(), vec![2, 3]);
}

#[test]
fn ack_clamps_to_newest_and_behind_cursor_is_noop() {
    let mut bus = MsgBus::new();
    bus.deliver("w1:p2", sample_msg("a")).unwrap();
    bus.deliver("w1:p2", sample_msg("b")).unwrap();

    assert_eq!(bus.ack("w1:p2", 99), 2); // clamp
    assert_eq!(bus.ack("w1:p2", 1), 2); // behind cursor → no-op
    assert_eq!(bus.unread("w1:p2"), 0);
}

#[test]
fn unread_unknown_pane_is_zero() {
    let bus = MsgBus::new();
    assert_eq!(bus.unread("missing"), 0);
    assert_eq!(bus.next_seq("missing"), 1);
    let (msgs, unread, dropped, ack) = bus.list("missing", None, true);
    assert!(msgs.is_empty());
    assert_eq!(unread, 0);
    assert_eq!(dropped, 0);
    assert_eq!(ack, 0);
}

#[test]
fn ack_unknown_pane_returns_zero() {
    let mut bus = MsgBus::new();
    assert_eq!(bus.ack("missing", 5), 0);
}

// --- caps ---------------------------------------------------------------

#[test]
fn deliver_rejects_body_over_64kib() {
    let mut bus = MsgBus::new();
    let big = "x".repeat(MAX_MESSAGE_BODY_BYTES + 1);
    assert_eq!(
        bus.deliver("w1:p2", sample_msg(big)),
        Err(MsgError::MessageTooLarge)
    );
    assert_eq!(bus.unread("w1:p2"), 0);
}

#[test]
fn deliver_accepts_body_exactly_64kib() {
    let mut bus = MsgBus::new();
    let body = "x".repeat(MAX_MESSAGE_BODY_BYTES);
    bus.deliver("w1:p2", sample_msg(body)).unwrap();
    assert_eq!(bus.unread("w1:p2"), 1);
}

#[test]
fn inbox_count_cap_drops_oldest_and_bumps_dropped() {
    let mut bus = MsgBus::new();
    for i in 0..(MAX_INBOX_MESSAGES + 1) {
        bus.deliver("w1:p2", sample_msg(format!("m{i}"))).unwrap();
    }
    let (msgs, _, dropped, _) = bus.list("w1:p2", None, true);
    assert_eq!(msgs.len(), MAX_INBOX_MESSAGES);
    assert_eq!(dropped, 1);
    // oldest (seq 1) gone; newest is seq 501
    assert_eq!(msgs.first().unwrap().seq, 2);
    assert_eq!(msgs.last().unwrap().seq, (MAX_INBOX_MESSAGES as u64) + 1);
}

#[test]
fn inbox_byte_cap_drops_oldest() {
    let mut bus = MsgBus::new();
    // 64 KiB bodies (at the per-message max): 64 fit exactly in 4 MiB;
    // the 65th forces oldest-drop under the byte cap.
    let chunk = "y".repeat(MAX_MESSAGE_BODY_BYTES);
    let n = (MAX_INBOX_BODY_BYTES / MAX_MESSAGE_BODY_BYTES) + 1; // 65
    for _ in 0..n {
        bus.deliver("w1:p2", sample_msg(chunk.clone())).unwrap();
    }
    let (msgs, _, dropped, _) = bus.list("w1:p2", None, true);
    assert!(msgs.len() < n);
    assert!(dropped >= 1);
    let total: usize = msgs.iter().map(|m| m.body.len()).sum();
    assert!(total <= MAX_INBOX_BODY_BYTES);
}

// --- groups -------------------------------------------------------------

#[test]
fn group_join_leave_and_auto_remove_on_empty() {
    let mut bus = MsgBus::new();
    assert_eq!(
        bus.group_join("w1:p2", "devs").unwrap(),
        vec!["devs".to_string()]
    );
    assert_eq!(
        bus.group_join("w1:p3", "devs").unwrap(),
        vec!["devs".to_string()]
    );
    assert_eq!(
        bus.group_members("devs"),
        vec!["w1:p2".to_string(), "w1:p3".to_string()]
    );

    assert_eq!(
        bus.group_leave("w1:p2", "devs").unwrap(),
        Vec::<String>::new()
    );
    assert_eq!(bus.group_members("devs"), vec!["w1:p3".to_string()]);

    // last member leaves → group removed
    assert_eq!(
        bus.group_leave("w1:p3", "devs").unwrap(),
        Vec::<String>::new()
    );
    assert!(bus.group_members("devs").is_empty());
    assert_eq!(
        bus.resolve(&MsgTarget::Group("devs".to_string()), None, &dir()),
        Err(ResolveError::EmptyGroup("devs".to_string()))
    );
}

#[test]
fn group_invalid_names() {
    let mut bus = MsgBus::new();
    assert_eq!(
        bus.group_join("w1:p2", ""),
        Err(MsgError::InvalidGroupName("".to_string()))
    );
    assert_eq!(
        bus.group_join("w1:p2", "a/b"),
        Err(MsgError::InvalidGroupName("a/b".to_string()))
    );
    assert_eq!(
        bus.group_join("w1:p2", "@devs"),
        Err(MsgError::InvalidGroupName("@devs".to_string()))
    );
    assert_eq!(
        bus.group_leave("w1:p2", "@x"),
        Err(MsgError::InvalidGroupName("@x".to_string()))
    );
}

#[test]
fn group_join_is_idempotent_for_same_pane() {
    let mut bus = MsgBus::new();
    bus.group_join("w1:p2", "devs").unwrap();
    bus.group_join("w1:p2", "devs").unwrap();
    assert_eq!(bus.group_members("devs"), vec!["w1:p2".to_string()]);
    assert_eq!(bus.groups_of("w1:p2"), vec!["devs".to_string()]);
}

#[test]
fn groups_of_sorted_multiple() {
    let mut bus = MsgBus::new();
    bus.group_join("w1:p2", "zeta").unwrap();
    bus.group_join("w1:p2", "alpha").unwrap();
    assert_eq!(
        bus.groups_of("w1:p2"),
        vec!["alpha".to_string(), "zeta".to_string()]
    );
}

// --- remove_pane --------------------------------------------------------

#[test]
fn remove_pane_clears_inbox_and_membership() {
    let mut bus = MsgBus::new();
    bus.deliver("w1:p2", sample_msg("hi")).unwrap();
    bus.group_join("w1:p2", "devs").unwrap();
    bus.group_join("w1:p3", "devs").unwrap();

    bus.remove_pane("w1:p2");

    assert_eq!(bus.unread("w1:p2"), 0);
    assert!(bus.groups_of("w1:p2").is_empty());
    assert_eq!(bus.group_members("devs"), vec!["w1:p3".to_string()]);

    // last remaining member removed via pane close → group gone
    bus.remove_pane("w1:p3");
    assert!(bus.group_members("devs").is_empty());
}

#[test]
fn remove_pane_unknown_is_noop() {
    let mut bus = MsgBus::new();
    bus.remove_pane("missing");
}

// --- rekey_pane ---------------------------------------------------------

#[test]
fn rekey_pane_moves_inbox_and_group_membership() {
    let mut bus = MsgBus::new();
    bus.group_join("w1:p2", "devs").unwrap();
    bus.group_join("w1:p3", "devs").unwrap();
    bus.deliver("w1:p2", sample_msg("a")).unwrap();
    bus.deliver("w1:p2", sample_msg("b")).unwrap();
    bus.deliver("w1:p2", sample_msg("c")).unwrap();
    bus.ack("w1:p2", 1);

    bus.rekey_pane("w1:p2", "w2:p5");

    // New id owns the inbox with seq/ack counters intact.
    let (msgs, unread, dropped, ack) = bus.list("w2:p5", None, true);
    assert_eq!(msgs.len(), 3);
    assert_eq!(unread, 2);
    assert_eq!(dropped, 0);
    assert_eq!(ack, 1);
    assert_eq!(bus.next_seq("w2:p5"), 4);
    assert_eq!(bus.groups_of("w2:p5"), vec!["devs".to_string()]);
    assert_eq!(
        bus.group_members("devs"),
        vec!["w1:p3".to_string(), "w2:p5".to_string()]
    );

    // Old id has nothing left.
    assert_eq!(bus.next_seq("w1:p2"), 1);
    assert_eq!(bus.unread("w1:p2"), 0);
    assert!(bus.groups_of("w1:p2").is_empty());
    let (old_msgs, _, _, _) = bus.list("w1:p2", None, true);
    assert!(old_msgs.is_empty());
}

#[test]
fn rekey_pane_same_id_or_unknown_old_is_noop() {
    let mut bus = MsgBus::new();
    bus.deliver("w1:p2", sample_msg("a")).unwrap();
    bus.rekey_pane("w1:p2", "w1:p2");
    assert_eq!(bus.unread("w1:p2"), 1);

    bus.rekey_pane("missing", "w9:p9");
    assert_eq!(bus.unread("w9:p9"), 0);
    assert_eq!(bus.next_seq("w9:p9"), 1);
}

#[test]
fn pane_id_reuse_starts_fresh_inbox() {
    // Spec testing note: closed pane teardown clears state; a later pane
    // that reuses the same id (if ever) must not see old messages/acks.
    let mut bus = MsgBus::new();
    bus.deliver("w1:p2", sample_msg("old")).unwrap();
    bus.ack("w1:p2", 1);
    bus.remove_pane("w1:p2");

    bus.deliver("w1:p2", sample_msg("new")).unwrap();
    let (msgs, unread, dropped, ack) = bus.list("w1:p2", None, true);
    assert_eq!(msgs.len(), 1);
    assert_eq!(msgs[0].seq, 1);
    assert_eq!(msgs[0].body, "new");
    assert_eq!(unread, 1);
    assert_eq!(dropped, 0);
    assert_eq!(ack, 0);
}

