//! Request and result shapes of the `msg.*` and `team.spawn` methods.

use vstd::prelude::*;

verus! {

/// A message as the API reports it.
#[derive(Debug, PartialEq, Eq)]
pub struct MsgInfo {
    pub seq: u64,
    pub from_pane_id: Option<String>,
    pub from_workspace_id: Option<String>,
    pub from_label: String,
    pub to: String,
    pub body: String,
    pub timestamp: String,
}

/// Parameters of `msg.send`; no sender means an external sender.
#[derive(Debug, PartialEq, Eq)]
pub struct MsgSendParams {
    pub target: String,
    pub body: String,
    pub sender_pane_id: Option<String>,
}

/// Answer of `msg.send`.
#[derive(Debug, PartialEq, Eq)]
pub struct MsgSendResult {
    pub delivered_to: Vec<String>,
    /// `None` for a send that reached nobody: nothing was delivered and no
    /// seq was assigned.
    pub message: Option<MsgInfo>,
}

/// Parameters of `msg.list`.
#[derive(Debug, PartialEq, Eq)]
pub struct MsgListParams {
    pub pane_id: String,
    pub after_seq: Option<u64>,
    pub include_read: Option<bool>,
}

/// Answer of `msg.list`.
#[derive(Debug, PartialEq, Eq)]
pub struct MsgListResult {
    pub messages: Vec<MsgInfo>,
    pub unread: u64,
    pub dropped: u64,
    pub ack_seq: u64,
}

/// Parameters of `msg.ack`.
#[derive(Debug, PartialEq, Eq)]
pub struct MsgAckParams {
    pub pane_id: String,
    pub up_to_seq: u64,
}

/// Answer of `msg.ack`: the cursor after the ack.
#[derive(Debug, PartialEq, Eq)]
pub struct MsgAckResult {
    pub ack_seq: u64,
}

/// Parameters of `msg.group_join`.
#[derive(Debug, PartialEq, Eq)]
pub struct MsgGroupJoinParams {
    pub pane_id: String,
    pub group: String,
}

/// Parameters of `msg.group_leave`.
#[derive(Debug, PartialEq, Eq)]
pub struct MsgGroupLeaveParams {
    pub pane_id: String,
    pub group: String,
}

/// Answer of the group methods: the pane's groups, sorted.
#[derive(Debug, PartialEq, Eq)]
pub struct MsgGroupResult {
    pub groups: Vec<String>,
}

/// One pane of the `msg.who` directory.
#[derive(Debug, PartialEq, Eq)]
pub struct MsgWhoPaneInfo {
    pub pane_id: String,
    pub workspace_id: String,
    pub label: String,
    pub groups: Vec<String>,
    pub unread: u64,
}

/// One group of the `msg.who` directory.
#[derive(Debug, PartialEq, Eq)]
pub struct MsgWhoGroupInfo {
    pub name: String,
    pub members: Vec<String>,
}

/// Answer of `msg.who`.
#[derive(Debug, PartialEq, Eq)]
pub struct MsgWhoResult {
    pub panes: Vec<MsgWhoPaneInfo>,
    pub groups: Vec<MsgWhoGroupInfo>,
}

/// One roster entry of a team: an optional label and the agent (a
/// registry name, or a command run verbatim).
#[derive(Debug, PartialEq, Eq)]
pub struct TeamSpawnEntry {
    pub label: Option<String>,
    pub agent: String,
}

/// Parameters of `team.spawn`.
#[derive(Debug, PartialEq, Eq)]
pub struct TeamSpawnParams {
    pub name: String,
    pub entries: Vec<TeamSpawnEntry>,
    pub cwd: Option<String>,
    pub with_orch: bool,
    pub orch_command: Option<String>,
    pub focus: bool,
}

/// One pane of a spawned team.
#[derive(Debug, PartialEq, Eq)]
pub struct TeamPaneInfo {
    pub label: String,
    pub pane_id: String,
    pub agent: String,
    pub command: String,
}

} // verus!
