# herdr message bus and team spawning

Pane-to-pane messaging for a terminal multiplexer that runs coding
agents: per-pane inboxes with an ack cursor, label and group addressing,
`@all` broadcast, the `msg.*` request handlers, the `herdr msg` command
line, and `team.spawn`, which lays out, labels, groups and launches a team
of agent panes in one request.

`src/` is the library, verified with Verus:

- `bus` — the message bus: inboxes (caps, seqs, ack cursor), groups,
  target parsing and resolution.
- `api` — `msg.send`, `msg.list`, `msg.ack` and the group requests.
- `who` — the `msg.who` directory.
- `team` — `team.spawn`: the checks made before anything is created, each
  pane's label, agent and command, the grid layout, and the order of the
  spawn's steps.
- `msg_cli`, `team_cli` — argument parsing and decisions of `herdr msg`
  and `herdr team` (how `msg read` acks, how `msg wait` starts and
  rounds).
- `team_wait` — `team spawn --wait`: which panes are waited for, and
  round by round which became ready and when the wait ends.
- `laws`, `team_laws` — properties that span several operations.
- `text`, `order` — string helpers and the string order.
- `schema` — the request and answer types.

`app/` is ordinary Rust around it: the serde forms of the API types, the
server-side handlers that read pane state, the spawn driver, and the
commands that talk to the server and the terminal.
