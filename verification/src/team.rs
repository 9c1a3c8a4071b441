//! `team.spawn`: the checks made before anything is created, the labels,
//! agents and commands of the team's panes, and the shape of its grid.

use vstd::prelude::*;
use crate::bus::{
    all_word, is_public_pane_id, is_public_pane_id_spec, joined, valid_group_name, MsgBus, MsgError,
};
use crate::order::{contains_str, str_eq};
use crate::schema::{TeamPaneInfo, TeamSpawnEntry, TeamSpawnParams};
use crate::text::{
    chars_of, decimal, decimal_chars, has_char, has_ws, has_ws_char, string_from_chars, trim,
    trimmed, views,
};

verus! {

/// Most panes one team may have, the orchestrator pane included.
pub const MAX_TEAM_PANES: usize = 24;

/// Team names and pane labels: nonempty, no `/`, no leading `@`, no
/// whitespace.
pub open spec fn valid_name_spec(s: Seq<char>) -> bool {
    s.len() > 0 && !s.contains('/') && s[0] != '@' && !has_ws(s)
}

/// Checks a team name or pane label.
pub fn valid_name(s: &str) -> (b: bool)
    ensures
        b == valid_name_spec(s@),
{
    let v = chars_of(s);
    v.len() > 0 && !has_char(&v, '/') && v[0] != '@' && !has_ws_char(&v)
}

/// The word `orch`: the orchestrator pane's label and agent.
pub open spec fn orch_word() -> Seq<char> {
    seq!['o', 'r', 'c', 'h']
}

fn orch_string() -> (r: String)
    ensures
        r@ == orch_word(),
{
    let v: Vec<char> = vec!['o', 'r', 'c', 'h'];
    assert(v@ =~= orch_word());
    string_from_chars(&v)
}

/// Why a team was refused before anything was created.
#[derive(Debug, PartialEq, Eq)]
pub enum TeamSpawnError {
    /// The roster has no entry.
    EmptyRoster,
    /// The team name is empty or holds `/`, a leading `@` or whitespace.
    InvalidTeamName,
    /// The team name is `all`, which `@all` already means.
    ReservedTeamName,
    /// The team would have this many panes, over [`MAX_TEAM_PANES`].
    TeamTooLarge(usize),
    /// The label is not a valid name, or is `orch` beside an orchestrator.
    InvalidLabel(String),
    /// The label has pane-id syntax, so no target could reach it.
    UnaddressableLabel(String),
    /// Two panes would get this label.
    DuplicateLabel(String),
    /// A message group of this name already has members.
    TeamExists(String),
}

/// Abstract form of a [`TeamSpawnError`].
pub enum TeamErrorView {
    EmptyRoster,
    InvalidTeamName,
    ReservedTeamName,
    TeamTooLarge(nat),
    InvalidLabel(Seq<char>),
    UnaddressableLabel(Seq<char>),
    DuplicateLabel(Seq<char>),
    TeamExists(Seq<char>),
}

impl View for TeamSpawnError {
    type V = TeamErrorView;

    open spec fn view(&self) -> TeamErrorView {
        match self {
            TeamSpawnError::EmptyRoster => TeamErrorView::EmptyRoster,
            TeamSpawnError::InvalidTeamName => TeamErrorView::InvalidTeamName,
            TeamSpawnError::ReservedTeamName => TeamErrorView::ReservedTeamName,
            TeamSpawnError::TeamTooLarge(n) => TeamErrorView::TeamTooLarge(*n as nat),
            TeamSpawnError::InvalidLabel(l) => TeamErrorView::InvalidLabel(l@),
            TeamSpawnError::UnaddressableLabel(l) => TeamErrorView::UnaddressableLabel(l@),
            TeamSpawnError::DuplicateLabel(l) => TeamErrorView::DuplicateLabel(l@),
            TeamSpawnError::TeamExists(n) => TeamErrorView::TeamExists(n@),
        }
    }
}

impl TeamSpawnError {
    /// The API error code of the refusal.
    pub fn code(&self) -> (r: &'static str)
        ensures
            r@ == match self {
                TeamSpawnError::EmptyRoster => "empty_roster"@,
                TeamSpawnError::InvalidTeamName => "invalid_team_name"@,
                TeamSpawnError::ReservedTeamName => "invalid_team_name"@,
                TeamSpawnError::TeamTooLarge(_) => "team_too_large"@,
                TeamSpawnError::InvalidLabel(_) => "invalid_label"@,
                TeamSpawnError::UnaddressableLabel(_) => "invalid_label"@,
                TeamSpawnError::DuplicateLabel(_) => "duplicate_label"@,
                TeamSpawnError::TeamExists(_) => "team_exists"@,
            },
    {
        match self {
            TeamSpawnError::EmptyRoster => "empty_roster",
            TeamSpawnError::InvalidTeamName => "invalid_team_name",
            TeamSpawnError::ReservedTeamName => "invalid_team_name",
            TeamSpawnError::TeamTooLarge(_) => "team_too_large",
            TeamSpawnError::InvalidLabel(_) => "invalid_label",
            TeamSpawnError::UnaddressableLabel(_) => "invalid_label",
            TeamSpawnError::DuplicateLabel(_) => "duplicate_label",
            TeamSpawnError::TeamExists(_) => "team_exists",
        }
    }
}

/// A roster entry as values: `(label, agent)`.
pub type EntryView = (Option<Seq<char>>, Seq<char>);

/// A roster entry as values.
pub open spec fn entry_view(e: TeamSpawnEntry) -> EntryView {
    (
        match e.label {
            Some(l) => Some(l@),
            None => None,
        },
        e.agent@,
    )
}

/// The roster as values.
pub open spec fn entry_views(s: Seq<TeamSpawnEntry>) -> Seq<EntryView> {
    s.map_values(|e: TeamSpawnEntry| entry_view(e))
}

/// How many unlabelled entries of `es` run `agent`.
pub open spec fn count_auto(es: Seq<EntryView>, agent: Seq<char>) -> nat
    decreases es.len(),
{
    if es.len() == 0 {
        0
    } else {
        count_auto(es.drop_last(), agent) + if es.last().0 is None && es.last().1 == agent {
            1nat
        } else {
            0nat
        }
    }
}

/// The label of entry `i`: its own label trimmed, or `<agent>-<n>` for
/// the `n`-th unlabelled entry running that agent.
pub open spec fn label_of(es: Seq<EntryView>, i: int) -> Seq<char> {
    match es[i].0 {
        Some(l) => trim(l),
        None => es[i].1 + seq!['-'] + decimal(count_auto(es.take(i + 1), es[i].1)),
    }
}

/// The labels of the roster's panes, in roster order.
pub open spec fn labels_of(es: Seq<EntryView>) -> Seq<Seq<char>> {
    Seq::new(es.len(), |i: int| label_of(es, i))
}

/// What is wrong with label `l` given the labels before it, checked in
/// this order: not a valid name (or `orch` beside an orchestrator),
/// pane-id syntax, already taken.
pub open spec fn label_error(l: Seq<char>, earlier: Seq<Seq<char>>, with_orch: bool) -> Option<
    TeamErrorView,
> {
    if !valid_name_spec(l) || (with_orch && l == orch_word()) {
        Some(TeamErrorView::InvalidLabel(l))
    } else if is_public_pane_id_spec(l) {
        Some(TeamErrorView::UnaddressableLabel(l))
    } else if earlier.contains(l) {
        Some(TeamErrorView::DuplicateLabel(l))
    } else {
        None
    }
}

/// The first label error among the first `n` labels.
pub open spec fn first_label_error(ls: Seq<Seq<char>>, with_orch: bool, n: nat) -> Option<
    TeamErrorView,
>
    decreases n,
{
    if n == 0 {
        None
    } else {
        match first_label_error(ls, with_orch, (n - 1) as nat) {
            Some(e) => Some(e),
            None => label_error(ls[n - 1], ls.take(n - 1), with_orch),
        }
    }
}

/// The command a registry maps `agent` to (its first entry of that
/// name), or the agent itself, run verbatim.
pub open spec fn command_for(reg: Seq<(Seq<char>, Seq<char>)>, agent: Seq<char>) -> Seq<char>
    decreases reg.len(),
{
    if reg.len() == 0 {
        agent
    } else if reg[0].0 == agent {
        reg[0].1
    } else {
        command_for(reg.drop_first(), agent)
    }
}

/// The views of a list of string pairs.
pub open spec fn pair_views(s: Seq<(String, String)>) -> Seq<(Seq<char>, Seq<char>)> {
    s.map_values(|p: (String, String)| (p.0@, p.1@))
}

/// `c` is the least number whose square reaches `n`: the grid's columns.
pub open spec fn is_ceil_sqrt(n: nat, c: nat) -> bool {
    c * c >= n && (c == 0 || (c - 1) * (c - 1) < n)
}

/// The rows of a grid of `n` panes in rows of `c`.
pub open spec fn div_ceil(n: nat, c: nat) -> nat {
    if c == 0 {
        0
    } else {
        ((n + c - 1) / (c as int)) as nat
    }
}

/// A team's panes, in grid order: the roster's, then the orchestrator's.
pub struct TeamPlan {
    /// Each pane's label.
    pub labels: Vec<String>,
    /// Each pane's agent (`orch` for the orchestrator).
    pub agents: Vec<String>,
    /// What each pane runs once it is labelled and in the group; an
    /// empty command is not sent.
    pub commands: Vec<String>,
    /// Panes per grid row.
    pub cols: usize,
    /// Grid rows.
    pub rows: usize,
}

/// Abstract form of a [`TeamPlan`].
pub struct TeamPlanView {
    pub labels: Seq<Seq<char>>,
    pub agents: Seq<Seq<char>>,
    pub commands: Seq<Seq<char>>,
    pub cols: nat,
    pub rows: nat,
}

impl TeamPlan {
    /// One label, one agent and one command per pane.
    pub open spec fn wf(&self) -> bool {
        self.labels@.len() == self.agents@.len() && self.labels@.len() == self.commands@.len()
    }
}

impl View for TeamPlan {
    type V = TeamPlanView;

    open spec fn view(&self) -> TeamPlanView {
        TeamPlanView {
            labels: views(self.labels@),
            agents: views(self.agents@),
            commands: views(self.commands@),
            cols: self.cols as nat,
            rows: self.rows as nat,
        }
    }
}

/// The text of an optional string, empty when absent.
pub open spec fn opt_or_empty(o: Option<String>) -> Seq<char> {
    match o {
        Some(s) => s@,
        None => Seq::empty(),
    }
}

/// What `team.spawn` decides from its parameters, the bus and the agent
/// registry before it creates anything.
pub open spec fn team_plan_spec(
    params: TeamSpawnParams,
    bus: MsgBus,
    reg: Seq<(Seq<char>, Seq<char>)>,
) -> Result<TeamPlanView, TeamErrorView> {
    let es = entry_views(params.entries@);
    let total = es.len() + if params.with_orch {
        1nat
    } else {
        0nat
    };
    let ls = labels_of(es);
    if es.len() == 0 {
        Err(TeamErrorView::EmptyRoster)
    } else if !valid_name_spec(params.name@) {
        Err(TeamErrorView::InvalidTeamName)
    } else if params.name@ == all_word() {
        Err(TeamErrorView::ReservedTeamName)
    } else if total > MAX_TEAM_PANES {
        Err(TeamErrorView::TeamTooLarge(total))
    } else if first_label_error(ls, params.with_orch, es.len()) is Some {
        Err(first_label_error(ls, params.with_orch, es.len())->0)
    } else if exists|p: Seq<char>| bus.is_member(params.name@, p) {
        Err(TeamErrorView::TeamExists(params.name@))
    } else {
        let agents = es.map_values(|e: EntryView| e.1);
        let commands = es.map_values(|e: EntryView| command_for(reg, e.1));
        let cols = choose|c: nat| is_ceil_sqrt(total, c);
        Ok(
            TeamPlanView {
                labels: if params.with_orch {
                    ls.push(orch_word())
                } else {
                    ls
                },
                agents: if params.with_orch {
                    agents.push(orch_word())
                } else {
                    agents
                },
                commands: if params.with_orch {
                    commands.push(opt_or_empty(params.orch_command))
                } else {
                    commands
                },
                cols,
                rows: div_ceil(total, cols),
            },
        )
    }
}

/// The view of a planning result.
pub open spec fn plan_result_view(r: Result<TeamPlan, TeamSpawnError>) -> Result<
    TeamPlanView,
    TeamErrorView,
> {
    match r {
        Ok(p) => Ok(p@),
        Err(e) => Err(e@),
    }
}

/// The error, if any, of `label` given the labels before it.
fn check_label(label: &String, earlier: &Vec<String>, with_orch: bool) -> (r: Option<
    TeamSpawnError,
>)
    ensures
        match r {
            Some(e) => label_error(label@, views(earlier@), with_orch) == Some(e@),
            None => label_error(label@, views(earlier@), with_orch) is None,
        },
{
    let lc = chars_of(label.as_str());
    let is_orch = lc.len() == 4 && lc[0] == 'o' && lc[1] == 'r' && lc[2] == 'c' && lc[3] == 'h';
    assert(is_orch == (label@ == orch_word())) by {
        if label@ == orch_word() {
            assert(lc@ =~= orch_word());
        }
        if is_orch {
            assert(lc@ =~= orch_word());
        }
    }
    if !valid_name(label.as_str()) || (with_orch && is_orch) {
        return Some(TeamSpawnError::InvalidLabel(label.clone()));
    }
    if is_public_pane_id(label.as_str()) {
        return Some(TeamSpawnError::UnaddressableLabel(label.clone()));
    }
    if contains_str(earlier, label.as_str()) {
        return Some(TeamSpawnError::DuplicateLabel(label.clone()));
    }
    None
}

/// When the name checks pass and a label is wrong, the plan is that
/// label's error.
proof fn lemma_plan_label_error(params: TeamSpawnParams, bus: MsgBus, reg: Seq<(Seq<char>, Seq<char>)>)
    requires
        params.entries@.len() > 0,
        valid_name_spec(params.name@),
        params.name@ != all_word(),
        params.entries@.len() + (if params.with_orch { 1int } else { 0int }) <= MAX_TEAM_PANES,
        first_label_error(
            labels_of(entry_views(params.entries@)),
            params.with_orch,
            params.entries@.len(),
        ) is Some,
    ensures
        team_plan_spec(params, bus, reg) == Err::<TeamPlanView, TeamErrorView>(
            first_label_error(
                labels_of(entry_views(params.entries@)),
                params.with_orch,
                params.entries@.len(),
            )->0,
        ),
{
}

/// Once some label is wrong, the first error stays that one.
proof fn lemma_first_error_stable(ls: Seq<Seq<char>>, with_orch: bool, a: nat, b: nat)
    requires
        a <= b,
        first_label_error(ls, with_orch, a) is Some,
    ensures
        first_label_error(ls, with_orch, b) == first_label_error(ls, with_orch, a),
    decreases b,
{
    if a < b {
        lemma_first_error_stable(ls, with_orch, a, (b - 1) as nat);
    }
}

/// At most one number is the ceiling of a square root.
proof fn lemma_ceil_sqrt_unique(n: nat, a: nat, b: nat)
    requires
        is_ceil_sqrt(n, a),
        is_ceil_sqrt(n, b),
    ensures
        a == b,
{
    if a < b {
        assert(a * a <= (b - 1) * (b - 1)) by (nonlinear_arith)
            requires
                a <= b - 1,
                0 <= a,
        ;
    } else if b < a {
        assert(b * b <= (a - 1) * (a - 1)) by (nonlinear_arith)
            requires
                b <= a - 1,
                0 <= b,
        ;
    }
}

/// Columns of the team grid: the least `c` with `c * c >= total`.
fn grid_cols(total: usize) -> (c: usize)
    requires
        total <= MAX_TEAM_PANES,
    ensures
        is_ceil_sqrt(total as nat, c as nat),
        c <= total,
{
    let mut c: usize = 0;
    while c * c < total
        invariant
            total <= MAX_TEAM_PANES,
            c <= total,
            c * c <= MAX_TEAM_PANES * MAX_TEAM_PANES,
            c == 0 || (c - 1) * (c - 1) < total,
        decreases total - c,
    {
        assert(c * c >= c) by (nonlinear_arith);
        assert((c + 1) * (c + 1) <= MAX_TEAM_PANES * MAX_TEAM_PANES) by (nonlinear_arith)
            requires
                c + 1 <= MAX_TEAM_PANES,
        ;
        c = c + 1;
    }
    c
}

/// The command for `agent`: the registry's, or the agent itself.
fn lookup_command(reg: &[(String, String)], agent: &str) -> (r: String)
    ensures
        r@ == command_for(pair_views(reg@), agent@),
{
    let ghost rv = pair_views(reg@);
    let mut k: usize = 0;
    assert(rv.skip(0) =~= rv);
    while k < reg.len()
        invariant
            k <= reg@.len(),
            rv == pair_views(reg@),
            command_for(rv, agent@) == command_for(rv.skip(k as int), agent@),
        decreases reg@.len() - k,
    {
        let ghost rest = rv.skip(k as int);
        assert(rest[0] == (reg@[k as int].0@, reg@[k as int].1@));
        if str_eq(reg[k].0.as_str(), agent) {
            return reg[k].1.clone();
        }
        assert(rest.drop_first() =~= rv.skip(k + 1));
        k = k + 1;
    }
    agent.to_owned()
}

/// The automatic label of unlabelled entry `i`: `<agent>-<n>`.
fn auto_label(entries: &Vec<TeamSpawnEntry>, i: usize) -> (r: String)
    requires
        i < entries@.len(),
        entries@.len() <= MAX_TEAM_PANES,
        entries@[i as int].label is None,
    ensures
        r@ == label_of(entry_views(entries@), i as int),
{
    let ghost es = entry_views(entries@);
    let agent = entries[i].agent.as_str();
    let mut count: u64 = 0;
    let mut j: usize = 0;
    while j <= i
        invariant
            i < entries@.len(),
            entries@.len() <= MAX_TEAM_PANES,
            j <= i + 1,
            es == entry_views(entries@),
            agent@ == es[i as int].1,
            count as nat == count_auto(es.take(j as int), agent@),
            count <= j,
        decreases i + 1 - j,
    {
        assert(es.take(j + 1).drop_last() =~= es.take(j as int));
        assert(es[j as int] == entry_view(entries@[j as int]));
        if entries[j].label.is_none() && str_eq(entries[j].agent.as_str(), agent) {
            count = count + 1;
        }
        j = j + 1;
    }
    let mut v = chars_of(agent);
    v.push('-');
    let digits = decimal_chars(count);
    let mut k: usize = 0;
    let ghost head = v@;
    while k < digits.len()
        invariant
            k <= digits@.len(),
            v@ == head + digits@.take(k as int),
        decreases digits@.len() - k,
    {
        v.push(digits[k]);
        assert(digits@.take(k + 1) =~= digits@.take(k as int).push(digits@[k as int]));
        k = k + 1;
    }
    assert(digits@.take(k as int) =~= digits@);
    assert(v@ =~= agent@ + seq!['-'] + decimal(count as nat));
    string_from_chars(&v)
}

/// Decides a `team.spawn` before anything is created: the roster must be
/// nonempty, the name valid and not `all`, the team within
/// [`MAX_TEAM_PANES`], every label valid, addressable and unique, and no
/// group of that name may have members; then gives each pane its label,
/// agent and command (from the `(agent, command)` registry, or the agent
/// run verbatim) and sizes the grid. The first check that fails decides
/// the error.
pub fn plan_team_spawn(
    params: &TeamSpawnParams,
    bus: &MsgBus,
    registry: &[(String, String)],
) -> (r: Result<TeamPlan, TeamSpawnError>)
    requires
        bus.wf(),
        params.entries@.len() < usize::MAX,
    ensures
        plan_result_view(r) == team_plan_spec(*params, *bus, pair_views(registry@)),
        r matches Ok(p) ==> p.wf(),
{
    let ghost es = entry_views(params.entries@);
    let ghost ls = labels_of(es);
    let n = params.entries.len();
    if n == 0 {
        return Err(TeamSpawnError::EmptyRoster);
    }
    if !valid_name(params.name.as_str()) {
        return Err(TeamSpawnError::InvalidTeamName);
    }
    let name_chars = chars_of(params.name.as_str());
    if name_chars.len() == 3 && name_chars[0] == 'a' && name_chars[1] == 'l' && name_chars[2]
        == 'l' {
        assert(params.name@ =~= all_word());
        return Err(TeamSpawnError::ReservedTeamName);
    }
    assert(params.name@ != all_word()) by {
        if params.name@ == all_word() {
            assert(name_chars@ =~= all_word());
        }
    }
    if n > MAX_TEAM_PANES || (n == MAX_TEAM_PANES && params.with_orch) {
        let total = if params.with_orch {
            n + 1
        } else {
            n
        };
        return Err(TeamSpawnError::TeamTooLarge(total));
    }
    let total: usize = if params.with_orch {
        n + 1
    } else {
        n
    };
    let mut labels: Vec<String> = Vec::new();
    let mut i: usize = 0;
    while i < n
        invariant
            n == params.entries@.len(),
            0 < n <= MAX_TEAM_PANES,
            n == MAX_TEAM_PANES ==> !params.with_orch,
            valid_name_spec(params.name@),
            params.name@ != all_word(),
            i <= n,
            es == entry_views(params.entries@),
            ls == labels_of(es),
            views(labels@) == ls.take(i as int),
            first_label_error(ls, params.with_orch, i as nat) is None,
        decreases n - i,
    {
        assert(es[i as int] == entry_view(params.entries@[i as int]));
        let label = match &params.entries[i].label {
            Some(l) => trimmed(l.as_str()),
            None => auto_label(&params.entries, i),
        };
        assert(label@ == ls[i as int]);
        assert(ls.take(i as int) == ls.take(i + 1 - 1));
        match check_label(&label, &labels, params.with_orch) {
            Some(e) => {
                proof {
                    lemma_first_error_stable(ls, params.with_orch, (i + 1) as nat, n as nat);
                    lemma_plan_label_error(*params, *bus, pair_views(registry@));
                }
                return Err(e);
            },
            None => {},
        }
        let ghost l0 = labels@;
        let ghost lv = label@;
        labels.push(label);
        assert(views(labels@) =~= views(l0).push(lv));
        assert(ls.take(i + 1) =~= ls.take(i as int).push(ls[i as int]));
        assert(views(labels@) =~= ls.take(i + 1));
        i = i + 1;
    }
    assert(ls.take(n as int) =~= ls);
    let members = bus.group_members(params.name.as_str());
    if members.len() > 0 {
        assert(views(members@)[0] == members@[0]@);
        assert(views(members@).contains(members@[0]@));
        return Err(TeamSpawnError::TeamExists(params.name.clone()));
    }
    assert(!exists|p: Seq<char>| bus.is_member(params.name@, p)) by {
        if exists|p: Seq<char>| bus.is_member(params.name@, p) {
            let p = choose|p: Seq<char>| bus.is_member(params.name@, p);
            assert(views(members@).contains(p));
        }
    }
    let mut agents: Vec<String> = Vec::new();
    let mut commands: Vec<String> = Vec::new();
    let mut k: usize = 0;
    while k < n
        invariant
            n == params.entries@.len(),
            k <= n,
            es == entry_views(params.entries@),
            views(agents@) == es.take(k as int).map_values(|e: EntryView| e.1),
            views(commands@) == es.take(k as int).map_values(
                |e: EntryView| command_for(pair_views(registry@), e.1),
            ),
        decreases n - k,
    {
        assert(es[k as int] == entry_view(params.entries@[k as int]));
        let agent = params.entries[k].agent.clone();
        let command = lookup_command(registry, agent.as_str());
        let ghost a0 = agents@;
        let ghost c0 = commands@;
        let ghost av = agent@;
        let ghost cv = command@;
        agents.push(agent);
        commands.push(command);
        assert(views(agents@) =~= views(a0).push(av));
        assert(views(commands@) =~= views(c0).push(cv));
        assert(es.take(k + 1) =~= es.take(k as int).push(es[k as int]));
        assert(es.take(k + 1).map_values(|e: EntryView| e.1) =~= es.take(k as int).map_values(
            |e: EntryView| e.1,
        ).push(av));
        assert(es.take(k + 1).map_values(|e: EntryView| command_for(pair_views(registry@), e.1))
            =~= es.take(k as int).map_values(
            |e: EntryView| command_for(pair_views(registry@), e.1),
        ).push(cv));
        assert(views(agents@) =~= es.take(k + 1).map_values(|e: EntryView| e.1));
        assert(views(commands@) =~= es.take(k + 1).map_values(
            |e: EntryView| command_for(pair_views(registry@), e.1),
        ));
        k = k + 1;
    }
    assert(es.take(n as int) =~= es);
    if params.with_orch {
        labels.push(orch_string());
        agents.push(orch_string());
        let oc = match &params.orch_command {
            Some(c) => c.clone(),
            None => String::new(),
        };
        assert(oc@ == opt_or_empty(params.orch_command));
        commands.push(oc);
    }
    let cols = grid_cols(total);
    let rows = (total + cols - 1) / cols;
    proof {
        let c = choose|c: nat| is_ceil_sqrt(total as nat, c);
        assert(is_ceil_sqrt(total as nat, cols as nat));
        lemma_ceil_sqrt_unique(total as nat, c, cols as nat);
        assert(views(labels@) =~= if params.with_orch {
            ls.push(orch_word())
        } else {
            ls
        });
        assert(views(agents@) =~= if params.with_orch {
            es.map_values(|e: EntryView| e.1).push(orch_word())
        } else {
            es.map_values(|e: EntryView| e.1)
        });
        assert(views(commands@) =~= if params.with_orch {
            es.map_values(|e: EntryView| command_for(pair_views(registry@), e.1)).push(
                opt_or_empty(params.orch_command),
            )
        } else {
            es.map_values(|e: EntryView| command_for(pair_views(registry@), e.1))
        });
    }
    Ok(TeamPlan { labels, agents, commands, cols, rows })
}

/// Where a split puts the new pane: below the split pane, or to its right.
#[derive(Debug, Clone, Copy, PartialEq, Eq, Structural)]
pub enum SplitDirection {
    Down,
    Right,
}

/// One split of the team grid. Panes are numbered in the order they
/// exist: the workspace's root pane is 0, and the `k`-th split creates
/// pane `k + 1`.
#[derive(Debug, Clone, Copy, PartialEq, Eq, Structural)]
pub struct SplitStep {
    /// The pane that is split.
    pub target: usize,
    pub direction: SplitDirection,
}

/// How the team grid is built: the splits, in order, and the panes of
/// the grid in row-major order.
pub struct TeamLayout {
    pub splits: Vec<SplitStep>,
    pub grid: Vec<usize>,
}

/// A split as values.
pub open spec fn split_view(s: SplitStep) -> (nat, SplitDirection) {
    (s.target as nat, s.direction)
}

/// A layout as values: its splits and its grid.
pub open spec fn layout_view(l: TeamLayout) -> (Seq<(nat, SplitDirection)>, Seq<nat>) {
    (l.splits@.map_values(|s: SplitStep| split_view(s)), l.grid@.map_values(|p: usize| p as nat))
}

/// The rows of the grid from row `r` on, with `left` panes still to
/// place and `next` the number the next new pane gets. Each row holds
/// `cols` panes (the last may hold fewer): its seed `r`, then the panes
/// made by splitting right, each split taking the row's last pane.
pub open spec fn grid_rows(cols: nat, r: nat, left: nat, next: nat) -> (
    Seq<(nat, SplitDirection)>,
    Seq<nat>,
)
    decreases left,
{
    if left == 0 || cols == 0 {
        (seq![], seq![])
    } else {
        let c = if left < cols {
            left
        } else {
            cols
        };
        let at = |t: int|
            if t == 0 {
                r
            } else {
                (next + t - 1) as nat
            };
        let rest = grid_rows(cols, r + 1, (left - c) as nat, (next + c - 1) as nat);
        (
            Seq::new((c - 1) as nat, |t: int| (at(t), SplitDirection::Right)) + rest.0,
            Seq::new(c, |t: int| at(t)) + rest.1,
        )
    }
}

/// The grid of `total` panes in rows of `cols`: first the root pane is
/// split down until there is one seed pane per row (each split taking
/// the last seed), then each row is filled left to right.
pub open spec fn layout_spec(total: nat, cols: nat) -> (Seq<(nat, SplitDirection)>, Seq<nat>) {
    let rows = div_ceil(total, cols);
    let filled = grid_rows(cols, 0, total, rows);
    (Seq::new((rows - 1) as nat, |k: int| (k as nat, SplitDirection::Down)) + filled.0, filled.1)
}

/// The splits that build a grid of `total` panes in rows of `cols`, and
/// the grid's panes in row-major order.
pub fn team_layout(total: usize, cols: usize) -> (r: TeamLayout)
    requires
        1 <= total <= MAX_TEAM_PANES,
        1 <= cols <= MAX_TEAM_PANES,
    ensures
        layout_view(r) == layout_spec(total as nat, cols as nat),
{
    let rows = (total + cols - 1) / cols;
    assert(rows >= 1) by (nonlinear_arith)
        requires
            rows == (total + cols - 1) / (cols as int),
            total >= 1,
            cols >= 1,
    ;
    assert(rows <= total) by (nonlinear_arith)
        requires
            rows == (total + cols - 1) / (cols as int),
            total >= 1,
            cols >= 1,
    ;
    let ghost spec = layout_spec(total as nat, cols as nat);
    let ghost downs = Seq::new((rows - 1) as nat, |k: int| (k as nat, SplitDirection::Down));
    let mut splits: Vec<SplitStep> = Vec::new();
    let mut k: usize = 0;
    while k + 1 < rows
        invariant
            1 <= rows <= total <= MAX_TEAM_PANES,
            k + 1 <= rows,
            downs == Seq::new((rows - 1) as nat, |k: int| (k as nat, SplitDirection::Down)),
            splits@.map_values(|s: SplitStep| split_view(s)) == downs.take(k as int),
        decreases rows - k,
    {
        let ghost before = splits@;
        splits.push(SplitStep { target: k, direction: SplitDirection::Down });
        assert(splits@.map_values(|s: SplitStep| split_view(s)) =~= before.map_values(
            |s: SplitStep| split_view(s),
        ).push((k as nat, SplitDirection::Down)));
        assert(downs.take(k + 1) =~= downs.take(k as int).push(downs[k as int]));
        k = k + 1;
    }
    assert(downs.take(k as int) =~= downs);
    let mut grid: Vec<usize> = Vec::new();
    let mut left: usize = total;
    let mut next: usize = rows;
    let mut r: usize = 0;
    while left > 0
        invariant
            1 <= cols <= MAX_TEAM_PANES,
            left <= total <= MAX_TEAM_PANES,
            r + next + left <= 3 * MAX_TEAM_PANES,
            spec == layout_spec(total as nat, cols as nat),
            spec.0 == downs + grid_rows(cols as nat, 0, total as nat, rows as nat).0,
            spec.1 == grid_rows(cols as nat, 0, total as nat, rows as nat).1,
            splits@.map_values(|s: SplitStep| split_view(s)) + grid_rows(
                cols as nat,
                r as nat,
                left as nat,
                next as nat,
            ).0 == spec.0,
            grid@.map_values(|p: usize| p as nat) + grid_rows(
                cols as nat,
                r as nat,
                left as nat,
                next as nat,
            ).1 == spec.1,
        decreases left,
    {
        let count = if left < cols {
            left
        } else {
            cols
        };
        let ghost rest = grid_rows(
            cols as nat,
            (r + 1) as nat,
            (left - count) as nat,
            (next + count - 1) as nat,
        );
        let ghost at = |t: int|
            if t == 0 {
                r as nat
            } else {
                (next + t - 1) as nat
            };
        let ghost row_splits = Seq::new((count - 1) as nat, |t: int| (at(t), SplitDirection::Right));
        let ghost row_panes = Seq::new(count as nat, |t: int| at(t));
        assert(grid_rows(cols as nat, r as nat, left as nat, next as nat) == (
            row_splits + rest.0,
            row_panes + rest.1,
        ));
        let ghost s0 = splits@.map_values(|s: SplitStep| split_view(s));
        let ghost g0 = grid@.map_values(|p: usize| p as nat);
        grid.push(r);
        let mut t: usize = 1;
        let mut last: usize = r;
        while t < count
            invariant
                1 <= t <= count <= cols <= MAX_TEAM_PANES,
                r + next + left <= 3 * MAX_TEAM_PANES,
                count <= left,
                last as nat == at(t - 1),
                at == (|t: int|
                    if t == 0 {
                        r as nat
                    } else {
                        (next + t - 1) as nat
                    }),
                row_splits == Seq::new((count - 1) as nat, |t: int| (at(t), SplitDirection::Right)),
                row_panes == Seq::new(count as nat, |t: int| at(t)),
                splits@.map_values(|s: SplitStep| split_view(s)) == s0 + row_splits.take(t - 1),
                grid@.map_values(|p: usize| p as nat) == g0 + row_panes.take(t as int),
            decreases count - t,
        {
            let ghost sb = splits@;
            let ghost gb = grid@;
            splits.push(SplitStep { target: last, direction: SplitDirection::Right });
            let created = next + t - 1;
            grid.push(created);
            assert(splits@.map_values(|s: SplitStep| split_view(s)) =~= sb.map_values(
                |s: SplitStep| split_view(s),
            ).push((last as nat, SplitDirection::Right)));
            assert(grid@.map_values(|p: usize| p as nat) =~= gb.map_values(|p: usize| p as nat).push(
                created as nat,
            ));
            assert(row_splits.take(t as int) =~= row_splits.take(t - 1).push(row_splits[t - 1]));
            assert(row_panes.take(t + 1) =~= row_panes.take(t as int).push(row_panes[t as int]));
            last = created;
            t = t + 1;
        }
        assert(row_splits.take(t - 1) =~= row_splits);
        assert(row_panes.take(t as int) =~= row_panes);
        assert(s0 + row_splits + rest.0 =~= s0 + (row_splits + rest.0));
        assert(g0 + row_panes + rest.1 =~= g0 + (row_panes + rest.1));
        left = left - count;
        next = next + count - 1;
        r = r + 1;
    }
    assert(splits@.map_values(|s: SplitStep| split_view(s)) =~= spec.0);
    assert(grid@.map_values(|p: usize| p as nat) =~= spec.1);
    TeamLayout { splits, grid }
}

/// The answer's row for grid pane `i`, placed at `pane_id`.
pub open spec fn pane_info_spec(plan: TeamPlanView, pane_id: Seq<char>, i: int) -> (
    Seq<char>,
    Seq<char>,
    Seq<char>,
    Seq<char>,
) {
    (plan.labels[i], pane_id, plan.agents[i], plan.commands[i])
}

/// A team pane as values: `(label, pane_id, agent, command)`.
pub open spec fn pane_info_view(p: TeamPaneInfo) -> (Seq<char>, Seq<char>, Seq<char>, Seq<char>) {
    (p.label@, p.pane_id@, p.agent@, p.command@)
}

/// The answer's panes: grid pane `i`, created as `pane_ids[i]`, with its
/// label, agent and command.
pub fn team_pane_infos(plan: &TeamPlan, pane_ids: &[String]) -> (r: Vec<TeamPaneInfo>)
    requires
        plan.wf(),
    ensures
        r@.len() == if pane_ids@.len() < plan.labels@.len() {
            pane_ids@.len()
        } else {
            plan.labels@.len()
        },
        forall|i: int|
            0 <= i < r@.len() ==> pane_info_view(#[trigger] r@[i]) == pane_info_spec(
                plan@,
                pane_ids@[i]@,
                i,
            ),
{
    let n = if pane_ids.len() < plan.labels.len() {
        pane_ids.len()
    } else {
        plan.labels.len()
    };
    let mut out: Vec<TeamPaneInfo> = Vec::new();
    let mut i: usize = 0;
    while i < n
        invariant
            plan.wf(),
            n <= pane_ids@.len(),
            n <= plan.labels@.len(),
            i <= n,
            out@.len() == i,
            forall|j: int|
                0 <= j < i ==> pane_info_view(#[trigger] out@[j]) == pane_info_spec(
                    plan@,
                    pane_ids@[j]@,
                    j,
                ),
        decreases n - i,
    {
        out.push(
            TeamPaneInfo {
                label: plan.labels[i].clone(),
                pane_id: pane_ids[i].clone(),
                agent: plan.agents[i].clone(),
                command: plan.commands[i].clone(),
            },
        );
        i = i + 1;
    }
    out
}

/// A step of spawning a planned team, in the order the steps run.
#[derive(Debug, Clone, Copy, PartialEq, Eq, Structural)]
pub enum SpawnStep {
    /// Create the team's workspace; its root pane is grid pane 0.
    CreateWorkspace,
    /// Make split `k` of the layout.
    Split(usize),
    /// Balance the workspace's panes.
    Balance,
    /// Give grid pane `i` its label.
    Label(usize),
    /// Join grid pane `i` to the team's group.
    JoinGroup(usize),
    /// Send grid pane `i` its command.
    Launch(usize),
    /// Done: answer with the team's panes.
    Finish,
}

impl SpawnStep {
    /// Whether a failure at this step must close the workspace again:
    /// every step after the workspace exists.
    pub fn needs_rollback(&self) -> (b: bool)
        ensures
            b == !(*self is CreateWorkspace),
    {
        match self {
            SpawnStep::CreateWorkspace => false,
            _ => true,
        }
    }

    /// What a failure message calls the step.
    pub fn name(&self) -> (r: &'static str)
        ensures
            r@ == match *self {
                SpawnStep::CreateWorkspace => "workspace create"@,
                SpawnStep::Split(_) => "pane split"@,
                SpawnStep::Balance => "layout balance"@,
                SpawnStep::Label(_) => "pane rename"@,
                SpawnStep::JoinGroup(_) => "group join"@,
                SpawnStep::Launch(_) => "command launch"@,
                SpawnStep::Finish => "finish"@,
            },
    {
        match self {
            SpawnStep::CreateWorkspace => "workspace create",
            SpawnStep::Split(_) => "pane split",
            SpawnStep::Balance => "layout balance",
            SpawnStep::Label(_) => "pane rename",
            SpawnStep::JoinGroup(_) => "group join",
            SpawnStep::Launch(_) => "command launch",
            SpawnStep::Finish => "finish",
        }
    }
}

/// The launches from pane `from` on: one per nonempty command.
pub open spec fn launch_steps(commands: Seq<Seq<char>>, from: nat) -> Seq<SpawnStep>
    decreases commands.len() - from,
{
    if from >= commands.len() {
        Seq::empty()
    } else {
        (if commands[from as int].len() > 0 {
            seq![SpawnStep::Launch(from as usize)]
        } else {
            Seq::empty()
        }) + launch_steps(commands, from + 1)
    }
}

/// Labelling and joining, pane by pane.
pub open spec fn label_join_steps(panes: nat) -> Seq<SpawnStep> {
    Seq::new(
        2 * panes,
        |j: int|
            if j % 2 == 0 {
                SpawnStep::Label((j / 2) as usize)
            } else {
                SpawnStep::JoinGroup((j / 2) as usize)
            },
    )
}

/// Every step of a spawn that does not fail: the workspace, the splits,
/// the balance, each pane labelled and joined to the group, and only then
/// the launches; a pane without a command gets none.
pub open spec fn spawn_script(splits: nat, commands: Seq<Seq<char>>) -> Seq<SpawnStep> {
    seq![SpawnStep::CreateWorkspace] + Seq::new(splits, |k: int| SpawnStep::Split(k as usize))
        + seq![SpawnStep::Balance] + label_join_steps(commands.len()) + launch_steps(commands, 0)
        + seq![SpawnStep::Finish]
}

/// The first launch from pane `from` on, or the finish.
fn first_launch(commands: &Vec<String>, from: usize) -> (r: SpawnStep)
    requires
        from <= commands@.len(),
    ensures
        r == if launch_steps(views(commands@), from as nat).len() > 0 {
            launch_steps(views(commands@), from as nat)[0]
        } else {
            SpawnStep::Finish
        },
{
    let ghost c = views(commands@);
    let mut i: usize = from;
    while i < commands.len()
        invariant
            from <= i <= commands@.len(),
            c == views(commands@),
            launch_steps(c, from as nat) == launch_steps(c, i as nat),
        decreases commands@.len() - i,
    {
        assert(c[i as int] == commands@[i as int]@);
        if commands[i].as_str().unicode_len() > 0 {
            assert(launch_steps(c, i as nat)[0] == SpawnStep::Launch(i));
            return SpawnStep::Launch(i);
        }
        assert(launch_steps(c, i as nat) =~= launch_steps(c, (i + 1) as nat));
        i = i + 1;
    }
    SpawnStep::Finish
}

/// Where `Launch(i)` stands in the launches from `from`, the rest are the
/// launches after pane `i`.
proof fn lemma_launch_rest(c: Seq<Seq<char>>, from: nat, m: int, i: usize)
    requires
        c.len() <= usize::MAX,
        0 <= m < launch_steps(c, from).len(),
        launch_steps(c, from)[m] == SpawnStep::Launch(i),
    ensures
        from <= i < c.len(),
        launch_steps(c, from).skip(m + 1) == launch_steps(c, (i + 1) as nat),
    decreases c.len() - from,
{
    let head = if c[from as int].len() > 0 {
        seq![SpawnStep::Launch(from as usize)]
    } else {
        Seq::<SpawnStep>::empty()
    };
    let rest = launch_steps(c, from + 1);
    assert(launch_steps(c, from) == head + rest);
    if m < head.len() {
        assert(launch_steps(c, from).skip(m + 1) =~= rest);
    } else {
        assert(rest[m - head.len()] == SpawnStep::Launch(i));
        lemma_launch_rest(c, from + 1, m - head.len(), i);
        assert(launch_steps(c, from).skip(m + 1) =~= rest.skip(m - head.len() + 1));
    }
}

/// The launches hold only launches.
pub(crate) proof fn lemma_launch_steps_are_launches(c: Seq<Seq<char>>, from: nat, m: int)
    requires
        0 <= m < launch_steps(c, from).len(),
    ensures
        launch_steps(c, from)[m] is Launch,
    decreases c.len() - from,
{
    let head = if c[from as int].len() > 0 {
        seq![SpawnStep::Launch(from as usize)]
    } else {
        Seq::<SpawnStep>::empty()
    };
    let rest = launch_steps(c, from + 1);
    assert(launch_steps(c, from) == head + rest);
    if m >= head.len() {
        lemma_launch_steps_are_launches(c, from + 1, m - head.len());
    }
}

/// The step after `step` in a spawn of `plan` whose layout has `splits`
/// splits: the step that follows it in [`spawn_script`].
pub fn next_spawn_step(plan: &TeamPlan, splits: usize, step: SpawnStep) -> (r: SpawnStep)
    requires
        plan.wf(),
    ensures
        forall|j: int|
            0 <= j < spawn_script(splits as nat, plan@.commands).len() - 1 && #[trigger] spawn_script(
                splits as nat,
                plan@.commands,
            )[j] == step ==> r == spawn_script(splits as nat, plan@.commands)[j + 1],
        step == SpawnStep::Finish ==> r == SpawnStep::Finish,
{
    let n = plan.labels.len();
    let ghost c = plan@.commands;
    let ghost sc = spawn_script(splits as nat, c);
    let ghost a = seq![SpawnStep::CreateWorkspace];
    let ghost b = Seq::new(splits as nat, |k: int| SpawnStep::Split(k as usize));
    let ghost lj = label_join_steps(n as nat);
    let ghost ls = launch_steps(c, 0);
    let ghost fin = seq![SpawnStep::Finish];
    assert(sc == a + b + seq![SpawnStep::Balance] + lj + ls + fin);
    let ghost o_bal = 1 + splits;
    let ghost o_lj = o_bal + 1;
    let ghost o_ls = o_lj + 2 * n;
    let ghost o_fin = o_ls + ls.len();
    assert(sc.len() == o_fin + 1);
    assert forall|j: int| 0 <= j < sc.len() implies #[trigger] sc[j] == if j == 0 {
        SpawnStep::CreateWorkspace
    } else if j < o_bal {
        SpawnStep::Split((j - 1) as usize)
    } else if j == o_bal {
        SpawnStep::Balance
    } else if j < o_ls {
        lj[j - o_lj]
    } else if j < o_fin {
        ls[j - o_ls]
    } else {
        SpawnStep::Finish
    } by {}
    proof {
        assert forall|m: int| 0 <= m < ls.len() implies (#[trigger] ls[m]) is Launch by {
            lemma_launch_steps_are_launches(c, 0, m);
        }
    }
    let first = first_launch(&plan.commands, 0);
    match step {
        SpawnStep::CreateWorkspace => {
            if splits > 0 {
                SpawnStep::Split(0)
            } else {
                SpawnStep::Balance
            }
        },
        SpawnStep::Split(k) => {
            if splits > 0 && k < splits - 1 {
                SpawnStep::Split(k + 1)
            } else {
                SpawnStep::Balance
            }
        },
        SpawnStep::Balance => {
            if n > 0 {
                SpawnStep::Label(0)
            } else {
                first
            }
        },
        SpawnStep::Label(i) => SpawnStep::JoinGroup(i),
        SpawnStep::JoinGroup(i) => {
            if n > 0 && i < n - 1 {
                SpawnStep::Label(i + 1)
            } else {
                first
            }
        },
        SpawnStep::Launch(i) => {
            proof {
                assert forall|j: int|
                    0 <= j < sc.len() - 1 && #[trigger] sc[j] == step implies first_launch_spec(
                    c,
                    (i + 1) as nat,
                ) == sc[j + 1] by {
                    let m = j - o_ls;
                    lemma_launch_rest(c, 0, m, i);
                    assert(ls.skip(m + 1) == launch_steps(c, (i + 1) as nat));
                    if m + 1 < ls.len() {
                        assert(ls.skip(m + 1)[0] == ls[m + 1]);
                    }
                }
            }
            if i < n {
                first_launch(&plan.commands, i + 1)
            } else {
                SpawnStep::Finish
            }
        },
        SpawnStep::Finish => SpawnStep::Finish,
    }
}

/// The first launch from pane `from` on, or the finish.
pub open spec fn first_launch_spec(c: Seq<Seq<char>>, from: nat) -> SpawnStep {
    if launch_steps(c, from).len() > 0 {
        launch_steps(c, from)[0]
    } else {
        SpawnStep::Finish
    }
}

/// The pane id of each grid position: the pane created as number
/// `layout.grid[i]`, where `created[k]` is the id of the pane numbered `k`
/// (the root pane, then one per split).
pub fn grid_pane_ids(layout: &TeamLayout, created: &[String]) -> (r: Vec<String>)
    requires
        forall|i: int| 0 <= i < layout.grid@.len() ==> #[trigger] layout.grid@[i] < created@.len(),
    ensures
        r@.len() == layout.grid@.len(),
        forall|i: int|
            0 <= i < r@.len() ==> #[trigger] r@[i]@ == created@[layout.grid@[i] as int]@,
{
    let mut out: Vec<String> = Vec::new();
    let mut i: usize = 0;
    while i < layout.grid.len()
        invariant
            i <= layout.grid@.len(),
            forall|j: int| 0 <= j < layout.grid@.len() ==> #[trigger] layout.grid@[j] < created@.len(),
            out@.len() == i,
            forall|j: int| 0 <= j < i ==> #[trigger] out@[j]@ == created@[layout.grid@[j] as int]@,
        decreases layout.grid@.len() - i,
    {
        out.push(created[layout.grid[i]].clone());
        i = i + 1;
    }
    out
}

/// The spawn step [`SpawnStep::JoinGroup`]`(i)`: joins grid pane `i`,
/// created as `grid_ids[i]`, to the team's group `name`, and answers the
/// pane's groups. A name that is not a valid group name is refused and
/// changes nothing (an accepted team's name never is).
pub fn spawn_join(bus: &mut MsgBus, name: &str, grid_ids: &[String], i: usize) -> (r: Result<
    Vec<String>,
    MsgError,
>)
    requires
        old(bus).wf(),
        i < grid_ids@.len(),
    ensures
        final(bus).wf(),
        valid_group_name(name@) ==> r is Ok && joined(*old(bus), *final(bus), name@, grid_ids@[i as int]@),
        !valid_group_name(name@) ==> r is Err && *final(bus) == *old(bus),
{
    bus.group_join(grid_ids[i].as_str(), name)
}

} // verus!
