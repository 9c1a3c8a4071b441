//! Pane-to-pane message bus: per-pane inboxes, label addressing, groups,
//! and the request/CLI logic built on it.

pub mod text;
pub mod order;
pub mod bus;
pub mod schema;
pub mod laws;
pub mod api;
pub mod who;
pub mod team;
pub mod msg_cli;
pub mod team_cli;
pub mod team_wait;
pub mod team_laws;
