use herdr::api::{
    handle_msg_ack, handle_msg_group_join, handle_msg_group_leave, handle_msg_list,
    handle_msg_send, send_message, SendError,
};
use herdr::bus::{MsgBus, ResolveError};
use herdr::schema::{
    MsgAckParams, MsgGroupJoinParams, MsgGroupLeaveParams, MsgListParams, MsgSendParams,
};
use herdr::who::handle_msg_who;

fn entry(ws: &str, pane: &str, label: &str) -> (String, String, String) {
    (ws.to_string(), pane.to_string(), label.to_string())
}

fn send(target: &str, body: &str, sender: Option<&str>) -> MsgSendParams {
    MsgSendParams {
        target: target.to_string(),
        body: body.to_string(),
        sender_pane_id: sender.map(|s| s.to_string()),
    }
}

#[test]
fn test_send_list_ack_round_trip() {
    let mut bus = MsgBus::new();
    let directory = vec![entry("w1", "w1:p1", "orchestrator"), entry("w1", "w1:p2", "worker-1")];
    let p1_id = "w1:p1".to_string();
    let p2_id = "w1:p2".to_string();

    // 1. Send message from p1 to p2 (worker-1)
    let (result, seqs) = handle_msg_send(
        &mut bus,
        send("worker-1", "hello worker", Some("w1:p1")),
        &directory,
    )
    .unwrap();
    assert_eq!(result.delivered_to, vec![p2_id.clone()]);
    let message = result.message.unwrap();
    assert_eq!(message.from_pane_id, Some(p1_id.clone()));
    assert_eq!(message.from_label, "orchestrator");
    assert_eq!(message.body, "hello worker");
    assert_eq!(message.seq, 1);

    // the delivery the server announces: the last recipient and its seq
    assert_eq!(result.delivered_to.last(), Some(&p2_id));
    assert_eq!(seqs.last(), Some(&1));

    // 2. List messages for p2
    let list = handle_msg_list(
        &bus,
        MsgListParams { pane_id: p2_id.clone(), after_seq: None, include_read: Some(true) },
    );
    assert_eq!(list.messages.len(), 1);
    assert_eq!(list.messages[0].body, "hello worker");
    assert_eq!(list.unread, 1);
    assert_eq!(list.dropped, 0);
    assert_eq!(list.ack_seq, 0);

    // 3. Ack messages up to seq 1
    let ack = handle_msg_ack(&mut bus, MsgAckParams { pane_id: p2_id.clone(), up_to_seq: 1 });
    assert_eq!(ack.ack_seq, 1);

    // 4. List again with include_read: false
    let list = handle_msg_list(
        &bus,
        MsgListParams { pane_id: p2_id.clone(), after_seq: None, include_read: Some(false) },
    );
    assert_eq!(list.messages.len(), 0);
    assert_eq!(list.unread, 0);
}

#[test]
fn test_ambiguity_error() {
    let mut bus = MsgBus::new();
    let directory = vec![
        entry("w1", "w1:p1", ""),
        entry("w1", "w1:p2", "worker-1"),
        entry("w2", "w2:p1", "worker-1"),
    ];
    // Send message from external to "worker-1" - should be ambiguous
    let err = handle_msg_send(
        &mut bus,
        send("worker-1", "hello worker", None),
        &directory,
    )
    .unwrap_err();
    assert_eq!(err.code(), "invalid_target");
    assert!(matches!(err, SendError::Resolve(ResolveError::Ambiguous(_))));
}

#[test]
fn test_external_vs_pane_sender_resolution() {
    let mut bus = MsgBus::new();
    let directory = vec![
        entry("w1", "w1:p1", ""),
        entry("w1", "w1:p2", "worker-1"),
        entry("w2", "w2:p1", "worker-1"),
    ];
    // Send from p1 (workspace w1) to "worker-1": resolves to w1's worker-1
    let (result, _) = handle_msg_send(
        &mut bus,
        send("worker-1", "hello local worker", Some("w1:p1")),
        &directory,
    )
    .unwrap();
    assert_eq!(result.delivered_to, vec!["w1:p2".to_string()]);
}

#[test]
fn test_all_excludes_sender() {
    let mut bus = MsgBus::new();
    let directory = vec![entry("w1", "w1:p1", ""), entry("w1", "w1:p2", "")];
    let (result, _) = handle_msg_send(
        &mut bus,
        send("@all", "broadcast", Some("w1:p1")),
        &directory,
    )
    .unwrap();
    // delivered_to should include p2, but exclude p1
    assert!(result.delivered_to.contains(&"w1:p2".to_string()));
    assert!(!result.delivered_to.contains(&"w1:p1".to_string()));
}

#[test]
fn test_oversized_body() {
    let mut bus = MsgBus::new();
    let directory = vec![entry("w1", "w1:p1", "")];
    let body = "a".repeat(65 * 1024); // 65 KiB > 64 KiB cap
    let err = handle_msg_send(
        &mut bus,
        MsgSendParams { target: "@all".to_string(), body, sender_pane_id: None },
        &directory,
    )
    .unwrap_err();
    assert_eq!(err.code(), "message_too_large");
    assert_eq!(bus.next_seq("w1:p1"), 1);
}

#[test]
fn test_msg_who_and_groups() {
    let mut bus = MsgBus::new();
    let directory = vec![entry("w1", "w1:p1", "orchestrator"), entry("w1", "w1:p2", "worker-1")];
    let p1_id = "w1:p1".to_string();
    let p2_id = "w1:p2".to_string();

    // Join p2 to group "workers"
    let joined = handle_msg_group_join(
        &mut bus,
        MsgGroupJoinParams { pane_id: p2_id.clone(), group: "workers".to_string() },
    )
    .unwrap();
    assert_eq!(joined.groups, vec!["workers".to_string()]);

    // Who query
    let who = handle_msg_who(&bus, &directory);
    assert_eq!(who.panes.len(), 2);
    assert_eq!(who.panes[0].pane_id, p1_id);
    assert_eq!(who.panes[0].groups.len(), 0);
    assert_eq!(who.panes[1].pane_id, p2_id);
    assert_eq!(who.panes[1].groups, vec!["workers".to_string()]);

    assert_eq!(who.groups.len(), 1);
    assert_eq!(who.groups[0].name, "workers");
    assert_eq!(who.groups[0].members, vec![p2_id.clone()]);

    // Leave group
    let left = handle_msg_group_leave(
        &mut bus,
        MsgGroupLeaveParams { pane_id: p2_id.clone(), group: "workers".to_string() },
    )
    .unwrap();
    assert!(left.groups.is_empty());
}

// ---- more of send and who ----

#[test]
fn zero_recipient_send_has_no_message() {
    let mut bus = MsgBus::new();
    let directory = vec![entry("w1", "w1:p1", "")];
    let (result, seqs) = send_message(
        &mut bus,
        send("@all", "only me", Some("w1:p1")),
        Some("w1".to_string()),
        String::new(),
        "2026-07-18T00:00:00Z".to_string(),
        &directory,
    )
    .unwrap();
    assert!(result.delivered_to.is_empty());
    assert!(result.message.is_none());
    assert!(seqs.is_empty());
    assert_eq!(bus.next_seq("w1:p1"), 1);
}

#[test]
fn send_stamps_each_inbox_with_its_own_seq() {
    let mut bus = MsgBus::new();
    let directory = vec![entry("w1", "w1:p1", ""), entry("w1", "w1:p2", ""), entry("w2", "w2:p1", "")];
    let ts = "2026-07-18T01:02:03Z".to_string();
    send_message(&mut bus, send("w1:p2", "first", None), None, "external".to_string(), ts.clone(), &directory)
        .unwrap();
    let (result, seqs) = send_message(
        &mut bus,
        send("@all", "all hands", None),
        None,
        "external".to_string(),
        ts.clone(),
        &directory,
    )
    .unwrap();
    assert_eq!(
        result.delivered_to,
        vec!["w1:p1".to_string(), "w1:p2".to_string(), "w2:p1".to_string()]
    );
    assert_eq!(seqs, vec![1, 2, 1]);
    let message = result.message.unwrap();
    assert_eq!(message.seq, 1);
    assert_eq!(message.timestamp, ts);
    assert_eq!(message.from_label, "external");
}

#[test]
fn send_refusals_change_nothing() {
    let mut bus = MsgBus::new();
    let directory = vec![entry("w1", "w1:p1", "a")];
    let err = send_message(&mut bus, send("", "x", None), None, String::new(), String::new(), &directory)
        .unwrap_err();
    assert!(matches!(err, SendError::InvalidTarget(ResolveError::Unaddressable(_))));
    assert_eq!(err.code(), "invalid_target");
    let err = send_message(&mut bus, send("nobody", "x", None), None, String::new(), String::new(), &directory)
        .unwrap_err();
    assert_eq!(err, SendError::Resolve(ResolveError::NotFound));
    let err = send_message(&mut bus, send("@ghosts", "x", None), None, String::new(), String::new(), &directory)
        .unwrap_err();
    assert_eq!(err, SendError::Resolve(ResolveError::EmptyGroup("ghosts".to_string())));
    assert_eq!(bus.next_seq("w1:p1"), 1);
}

#[test]
fn body_of_exactly_64_kib_is_sent() {
    let mut bus = MsgBus::new();
    let directory = vec![entry("w1", "w1:p1", "a")];
    let body = "a".repeat(64 * 1024);
    let (result, _) = send_message(
        &mut bus,
        MsgSendParams { target: "a".to_string(), body, sender_pane_id: None },
        None,
        "external".to_string(),
        String::new(),
        &directory,
    )
    .unwrap();
    assert_eq!(result.delivered_to, vec!["w1:p1".to_string()]);
}

#[test]
fn who_sorts_panes_and_lists_groups_with_all_members() {
    let mut bus = MsgBus::new();
    bus.group_join("w2:p1", "zeta").unwrap();
    bus.group_join("w1:p1", "alpha").unwrap();
    bus.group_join("w1:p1", "zeta").unwrap();
    bus.group_join("w9:p9", "alpha").unwrap(); // member outside the directory
    bus.group_join("w9:p9", "hidden").unwrap(); // no listed pane is in it
    bus.deliver("w1:p1", herdr::bus::StoredMsg {
        seq: 0,
        from_pane_id: None,
        from_workspace_id: None,
        from_label: "external".to_string(),
        to: "w1:p1".to_string(),
        body: "hi".to_string(),
        timestamp: String::new(),
    })
    .unwrap();
    let directory = vec![entry("w2", "w2:p1", "b"), entry("w1", "w1:p1", "a")];
    let who = handle_msg_who(&bus, &directory);
    let ids: Vec<&str> = who.panes.iter().map(|p| p.pane_id.as_str()).collect();
    assert_eq!(ids, vec!["w1:p1", "w2:p1"]);
    assert_eq!(who.panes[0].workspace_id, "w1");
    assert_eq!(who.panes[0].label, "a");
    assert_eq!(who.panes[0].groups, vec!["alpha".to_string(), "zeta".to_string()]);
    assert_eq!(who.panes[0].unread, 1);
    assert_eq!(who.panes[1].unread, 0);
    let names: Vec<&str> = who.groups.iter().map(|g| g.name.as_str()).collect();
    assert_eq!(names, vec!["alpha", "zeta"]);
    assert_eq!(who.groups[0].members, vec!["w1:p1".to_string(), "w9:p9".to_string()]);
    assert_eq!(who.groups[1].members, vec!["w1:p1".to_string(), "w2:p1".to_string()]);
}

#[test]
fn server_send_stamps_an_rfc3339_utc_time() {
    let mut bus = MsgBus::new();
    let directory = vec![entry("w1", "w1:p1", "a")];
    let (result, _) = handle_msg_send(
        &mut bus,
        send("a", "tick", None),
        &directory,
    )
    .unwrap();
    let ts = result.message.unwrap().timestamp;
    assert!(ts.len() >= 20, "{ts}");
    assert_eq!(&ts[4..5], "-");
    assert_eq!(&ts[10..11], "T");
    assert!(ts.ends_with('Z'), "{ts}");
}

#[test]
fn provided_sender_must_name_a_live_pane() {
    let mut bus = MsgBus::new();
    let directory = vec![entry("w1", "w1:p1", "a"), entry("w1", "w1:p2", "b")];
    for bogus in ["", "w9:p9", "not a pane"] {
        let err = handle_msg_send(&mut bus, send("b", "hi", Some(bogus)), &directory).unwrap_err();
        assert_eq!(err, SendError::UnknownSender(bogus.to_string()));
        assert_eq!(err.code(), "pane_not_found");
    }
    assert_eq!(bus.next_seq("w1:p2"), 1);
    // the sender's workspace and label come from its directory entry
    let (result, _) = handle_msg_send(&mut bus, send("b", "hi", Some("w1:p1")), &directory).unwrap();
    let message = result.message.unwrap();
    assert_eq!(message.from_workspace_id, Some("w1".to_string()));
    assert_eq!(message.from_label, "a");
    assert_eq!(message.from_pane_id, Some("w1:p1".to_string()));
    // without a sender id the sender is external
    let (result, _) = handle_msg_send(&mut bus, send("b", "hi", None), &directory).unwrap();
    let message = result.message.unwrap();
    assert_eq!(message.from_label, "external");
    assert_eq!(message.from_workspace_id, None);
}

#[test]
fn unknown_pane_id_target_is_pane_not_found() {
    let mut bus = MsgBus::new();
    let directory = vec![entry("w1", "w1:p1", "a")];
    let err = send_message(&mut bus, send("w1:p7", "x", None), None, String::new(), String::new(), &directory)
        .unwrap_err();
    assert_eq!(err, SendError::PaneNotFound("w1:p7".to_string()));
    assert_eq!(err.code(), "pane_not_found");
    // an unknown label stays an invalid target
    let err = send_message(&mut bus, send("w1p7", "x", None), None, String::new(), String::new(), &directory)
        .unwrap_err();
    assert_eq!(err.code(), "invalid_target");
}
