use herdr::msg_cli::{wait_round, wait_start, WaitRound, WaitStart};
use herdr::msg_cli::{
    acting_pane, group_subcommand, highest_seq, msg_subcommand, parse_ack_args,
    parse_group_args, parse_read_peek_args, parse_send_args, parse_wait_args, read_ack_seq,
    GroupSubcommand, MsgSubcommand,
};

fn args(values: &[&str]) -> Vec<String> {
    values.iter().map(|value| (*value).to_string()).collect()
}

#[test]
fn test_parse_send_args_success() {
    let (target, text, pane_id) =
        parse_send_args(&args(&["w1/worker-1", "hello", "world"])).unwrap();
    assert_eq!(target, "w1/worker-1");
    assert_eq!(text, "hello world");
    assert_eq!(pane_id, None);
}

#[test]
fn test_parse_send_args_errors() {
    assert!(parse_send_args(&args(&[])).is_err());
    assert!(parse_send_args(&args(&["w1/worker-1"])).is_err());
    assert!(parse_send_args(&args(&["w1/worker-1", "   "])).is_err());
}

#[test]
fn test_parse_send_args_pane_flag_after_positionals() {
    let (target, text, pane_id) = parse_send_args(&args(&[
        "worker-1",
        "build the API first",
        "--pane",
        "w1:p13",
    ]))
    .unwrap();
    assert_eq!(target, "worker-1");
    assert_eq!(text, "build the API first");
    assert_eq!(pane_id, Some("w1:p13".to_string()));
    assert!(!text.contains("--pane"));
}

#[test]
fn test_parse_send_args_pane_flag_before_positionals() {
    let (target, text, pane_id) =
        parse_send_args(&args(&["--pane", "w1:p13", "worker-2", "text"])).unwrap();
    assert_eq!(target, "worker-2");
    assert_eq!(text, "text");
    assert_eq!(pane_id, Some("w1:p13".to_string()));
    assert!(!text.contains("--pane"));
}

#[test]
fn test_parse_send_args_pane_flag_between_positionals() {
    let (target, text, pane_id) = parse_send_args(&args(&[
        "worker-1",
        "--pane",
        "w1:p13",
        "build the API first",
    ]))
    .unwrap();
    assert_eq!(target, "worker-1");
    assert_eq!(text, "build the API first");
    assert_eq!(pane_id, Some("w1:p13".to_string()));
    assert!(!text.contains("--pane"));
}

#[test]
fn test_parse_send_args_no_flag_is_external() {
    let (target, text, pane_id) = parse_send_args(&args(&["worker-1", "hello there"])).unwrap();
    assert_eq!(target, "worker-1");
    assert_eq!(text, "hello there");
    assert_eq!(pane_id, None);
    assert!(!text.contains("--pane"));
}

#[test]
fn test_parse_read_peek_args() {
    let res = parse_read_peek_args(&args(&[])).unwrap();
    assert_eq!(res.pane_id, None);
    assert_eq!(res.after_seq, None);
    assert!(!res.all);

    let res = parse_read_peek_args(&args(&["--pane", "p123", "--after", "45", "--all"])).unwrap();
    assert_eq!(res.pane_id, Some("p123".to_string()));
    assert_eq!(res.after_seq, Some(45));
    assert!(res.all);
}

#[test]
fn test_parse_read_peek_args_errors() {
    assert!(parse_read_peek_args(&args(&["--pane"])).is_err());
    assert!(parse_read_peek_args(&args(&["--after", "invalid"])).is_err());
    assert!(parse_read_peek_args(&args(&["--unknown"])).is_err());
}

#[test]
fn test_parse_ack_args() {
    let res = parse_ack_args(&args(&["42", "--pane", "p456"])).unwrap();
    assert_eq!(res.up_to_seq, 42);
    assert_eq!(res.pane_id, Some("p456".to_string()));
}

#[test]
fn test_parse_ack_args_errors() {
    assert!(parse_ack_args(&args(&[])).is_err());
    assert!(parse_ack_args(&args(&["invalid"])).is_err());
    assert!(parse_ack_args(&args(&["42", "--pane"])).is_err());
}

#[test]
fn test_parse_wait_args() {
    let res = parse_wait_args(&args(&["--timeout", "1000", "--pane", "p789"])).unwrap();
    assert_eq!(res.timeout_ms, Some(1000));
    assert_eq!(res.pane_id, Some("p789".to_string()));
}

#[test]
fn test_parse_wait_args_errors() {
    assert!(parse_wait_args(&args(&["--timeout"])).is_err());
    assert!(parse_wait_args(&args(&["--timeout", "abc"])).is_err());
}

#[test]
fn test_parse_group_args() {
    let res = parse_group_args(&args(&["mygroup", "--pane", "p1"]), "usage").unwrap();
    assert_eq!(res.name, "mygroup");
    assert_eq!(res.pane_id, Some("p1".to_string()));
}

#[test]
fn test_parse_group_args_errors() {
    assert!(parse_group_args(&args(&[]), "usage").is_err());
    assert!(parse_group_args(&args(&["--pane", "p1"]), "usage").is_err());
}

// ---- error texts and the rest of the grammar ----

#[test]
fn send_errors_name_the_problem() {
    assert_eq!(
        parse_send_args(&args(&["worker-1", "--pane"])).unwrap_err(),
        "missing value for --pane"
    );
    assert_eq!(
        parse_send_args(&args(&["worker-1"])).unwrap_err(),
        "usage: herdr msg send <target> <text> [--pane ID]"
    );
    assert_eq!(
        parse_send_args(&args(&["worker-1", " ", "\t"])).unwrap_err(),
        "usage: herdr msg send <target> <text> [--pane ID]"
    );
}

#[test]
fn send_last_pane_flag_wins_and_words_keep_inner_spacing() {
    let (target, text, pane_id) =
        parse_send_args(&args(&["--pane", "a", "t", "x  y", "z", "--pane", "b"])).unwrap();
    assert_eq!(target, "t");
    assert_eq!(text, "x  y z");
    assert_eq!(pane_id, Some("b".to_string()));
}

#[test]
fn read_peek_error_texts_and_plus_sign() {
    assert_eq!(
        parse_read_peek_args(&args(&["--after", "x1"])).unwrap_err(),
        "invalid value for --after: x1"
    );
    assert_eq!(
        parse_read_peek_args(&args(&["--after"])).unwrap_err(),
        "missing value for --after"
    );
    assert_eq!(parse_read_peek_args(&args(&["-x"])).unwrap_err(), "unknown option: -x");
    assert_eq!(
        parse_read_peek_args(&args(&["--after", "+7"])).unwrap().after_seq,
        Some(7)
    );
    assert!(parse_read_peek_args(&args(&["--after", "18446744073709551616"])).is_err());
    assert_eq!(
        parse_read_peek_args(&args(&["--after", "18446744073709551615"])).unwrap().after_seq,
        Some(u64::MAX)
    );
}

#[test]
fn ack_error_texts() {
    assert_eq!(
        parse_ack_args(&args(&[])).unwrap_err(),
        "usage: herdr msg ack <up-to-seq> [--pane ID]"
    );
    assert_eq!(
        parse_ack_args(&args(&["--pane", "p1"])).unwrap_err(),
        "usage: herdr msg ack <up-to-seq> [--pane ID]"
    );
    assert_eq!(
        parse_ack_args(&args(&["seven"])).unwrap_err(),
        "invalid value for up-to-seq: seven"
    );
    assert_eq!(parse_ack_args(&args(&["3", "4"])).unwrap_err(), "unknown option: 4");
    let res = parse_ack_args(&args(&["3"])).unwrap();
    assert_eq!(res.up_to_seq, 3);
    assert_eq!(res.pane_id, None);
}

#[test]
fn wait_error_texts() {
    assert_eq!(
        parse_wait_args(&args(&["--timeout", "abc"])).unwrap_err(),
        "invalid value for --timeout: abc"
    );
    assert_eq!(parse_wait_args(&args(&["now"])).unwrap_err(), "unknown option: now");
    let res = parse_wait_args(&args(&[])).unwrap();
    assert_eq!(res.timeout_ms, None);
    assert_eq!(res.pane_id, None);
}

#[test]
fn group_usage_is_the_given_text() {
    assert_eq!(
        parse_group_args(&args(&[]), "usage: herdr msg group join <name> [--pane ID]")
            .unwrap_err(),
        "usage: herdr msg group join <name> [--pane ID]"
    );
    assert_eq!(
        parse_group_args(&args(&["g", "--all"]), "usage").unwrap_err(),
        "unknown option: --all"
    );
    let res = parse_group_args(&args(&["g"]), "usage").unwrap();
    assert_eq!(res.name, "g");
    assert_eq!(res.pane_id, None);
}

#[test]
fn subcommands_are_picked_by_first_argument() {
    assert_eq!(msg_subcommand(&args(&["send", "x"])), MsgSubcommand::Send);
    assert_eq!(msg_subcommand(&args(&["read"])), MsgSubcommand::Read);
    assert_eq!(msg_subcommand(&args(&["peek"])), MsgSubcommand::Peek);
    assert_eq!(msg_subcommand(&args(&["ack"])), MsgSubcommand::Ack);
    assert_eq!(msg_subcommand(&args(&["wait"])), MsgSubcommand::Wait);
    assert_eq!(msg_subcommand(&args(&["group"])), MsgSubcommand::Group);
    assert_eq!(msg_subcommand(&args(&["who"])), MsgSubcommand::Who);
    assert_eq!(msg_subcommand(&args(&["-h"])), MsgSubcommand::Help);
    assert_eq!(msg_subcommand(&args(&["--help"])), MsgSubcommand::Help);
    assert_eq!(msg_subcommand(&args(&["help"])), MsgSubcommand::Help);
    assert_eq!(msg_subcommand(&args(&[])), MsgSubcommand::Usage);
    assert_eq!(msg_subcommand(&args(&["Send"])), MsgSubcommand::Usage);
    assert_eq!(group_subcommand(&args(&["join", "g"])), GroupSubcommand::Join);
    assert_eq!(group_subcommand(&args(&["leave"])), GroupSubcommand::Leave);
    assert_eq!(group_subcommand(&args(&["who"])), GroupSubcommand::Usage);
    assert_eq!(group_subcommand(&args(&[])), GroupSubcommand::Usage);
}

#[test]
fn acting_pane_prefers_flag_and_ignores_blank_env() {
    assert_eq!(
        acting_pane(Some("w1:p1".to_string()), Some("w1:p2".to_string())),
        Some("w1:p1".to_string())
    );
    assert_eq!(acting_pane(None, Some("w1:p2".to_string())), Some("w1:p2".to_string()));
    assert_eq!(acting_pane(None, Some("  ".to_string())), None);
    assert_eq!(acting_pane(None, None), None);
}

#[test]
fn read_acks_highest_seq_unless_after_is_given() {
    assert_eq!(highest_seq(&[3, 9, 4]), 9);
    assert_eq!(highest_seq(&[]), 0);
    assert_eq!(read_ack_seq(None, &[3, 9, 4]), Some(9));
    assert_eq!(read_ack_seq(Some(2), &[3, 9, 4]), None);
    assert_eq!(read_ack_seq(None, &[]), None);
}

#[test]
fn wait_shows_unread_at_once_or_watches_past_the_newest() {
    assert_eq!(wait_start(&[1, 2, 3, 4], 2), WaitStart::ShowUnread(vec![2, 3]));
    assert_eq!(wait_start(&[1, 2, 3], 3), WaitStart::Watch(3));
    assert_eq!(wait_start(&[], 0), WaitStart::Watch(0));
    assert_eq!(wait_round(2, true), WaitRound::Show);
    assert_eq!(wait_round(0, true), WaitRound::TimedOut);
    assert_eq!(wait_round(0, false), WaitRound::Again);
}
