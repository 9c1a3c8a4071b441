use herdr::team_wait::{team_wait_start, team_wait_step, TeamWait, WaitAction};

fn pane(id: &str, label: &str, agent: &str) -> (String, String, String) {
    (id.to_string(), label.to_string(), agent.to_string())
}

fn pair(id: &str, label: &str) -> (String, String) {
    (id.to_string(), label.to_string())
}

fn reply(agent: Option<&str>, status: Option<&str>) -> (Option<String>, Option<String>) {
    (agent.map(str::to_string), status.map(str::to_string))
}

#[test]
fn wait_skips_orch_and_undetectable_panes() {
    let panes = vec![
        pane("w2:p3", "codex-1", "codex"),
        pane("w2:p1", "grok-1", "grok"),
        pane("w2:p2", "sh-1", "pwsh"),
        pane("w2:p4", "orch", "orch"),
    ];
    let (wait, skipped) = team_wait_start(&panes, &[true, true, false, true]);
    assert_eq!(wait.pending, vec![pair("w2:p1", "grok-1"), pair("w2:p3", "codex-1")]);
    assert_eq!(skipped, vec!["sh-1".to_string(), "orch".to_string()]);
}

#[test]
fn repeated_pane_id_keeps_the_later_label() {
    let panes = vec![pane("w1:p1", "a", "x"), pane("w1:p1", "b", "x")];
    let (wait, skipped) = team_wait_start(&panes, &[true, true]);
    assert_eq!(wait.pending, vec![pair("w1:p1", "b")]);
    assert!(skipped.is_empty());
}

#[test]
fn wait_steps_until_every_pane_is_ready() {
    let wait = TeamWait { pending: vec![pair("w1:p1", "a"), pair("w1:p2", "b")] };
    let (wait, action, ready) = team_wait_step(
        &wait,
        false,
        &[reply(Some("codex"), None), reply(None, Some("unknown"))],
    );
    assert_eq!(ready, vec!["a".to_string()]);
    assert_eq!(action, WaitAction::Poll(vec!["w1:p2".to_string()]));
    assert_eq!(wait.pending, vec![pair("w1:p2", "b")]);
    let (wait, action, ready) = team_wait_step(&wait, false, &[reply(Some(""), Some("working"))]);
    assert_eq!(ready, vec!["b".to_string()]);
    assert_eq!(action, WaitAction::Done);
    assert!(wait.pending.is_empty());
    let (_, action, ready) = team_wait_step(&wait, true, &[]);
    assert_eq!(action, WaitAction::Done);
    assert!(ready.is_empty());
}

#[test]
fn wait_times_out_with_the_pending_labels() {
    let wait = TeamWait { pending: vec![pair("w1:p1", "a"), pair("w1:p2", "b")] };
    let (after, action, ready) =
        team_wait_step(&wait, true, &[reply(Some("codex"), None), reply(None, None)]);
    assert_eq!(action, WaitAction::TimedOut(vec!["a".to_string(), "b".to_string()]));
    assert!(ready.is_empty());
    assert_eq!(after, wait);
}
