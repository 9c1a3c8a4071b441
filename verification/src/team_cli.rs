//! Argument parsing and decisions of `herdr team`.

use vstd::prelude::*;
use crate::api::opt_view;
use crate::order::str_eq;
use crate::schema::{TeamSpawnEntry, TeamSpawnParams};
use crate::team::{entry_view, entry_views, EntryView};
use crate::text::{
    chars_of, concat, find_char, first_pos, is_blank, owned, parse_u64, parse_u64_spec,
    string_from_chars, trim, trimmed, views,
};

verus! {

/// What `format!("{:?}", s)` writes for a string `s`: the text in double
/// quotes, with quotes, backslashes and unprintable characters escaped.
pub uninterp spec fn debug_quoted(s: Seq<char>) -> Seq<char>;

/// `s` in its `Debug` form: `format!("{:?}", s)`. The contract names the
/// result [`debug_quoted`] of the text and says nothing more of it.
#[verifier::external_body]
fn debug_str(s: &str) -> (r: String)
    ensures
        r@ == debug_quoted(s@),
{
    format!("{:?}", s)
}

/// Parsed `team spawn` arguments. A spawn without `--cwd` leaves
/// `params.cwd` unset; the caller fills in its working directory.
#[derive(Debug, PartialEq, Eq)]
pub struct SpawnArgs {
    pub params: TeamSpawnParams,
    pub wait: bool,
    pub timeout_secs: u64,
}

/// Seconds `--wait` waits for the agents when `--timeout` is not given.
pub const DEFAULT_TIMEOUT_SECS: u64 = 60;

/// A character allowed in an `<label>=` prefix.
pub open spec fn is_label_char(c: char) -> bool {
    ('0' <= c && c <= '9') || ('a' <= c && c <= 'z') || ('A' <= c && c <= 'Z') || c == '_' || c
        == '-'
}

/// A roster entry `<label>=<agent>`, where the part before the first `=`
/// is a nonempty run of ASCII letters, digits, `_` and `-`; anything else
/// (`codex --model=x`) is an agent without a label.
pub open spec fn split_label_spec(raw: Seq<char>) -> (Option<Seq<char>>, Seq<char>) {
    if raw.contains('=') {
        let k = first_pos(raw, '=');
        let l = raw.take(k);
        if l.len() > 0 && forall|i: int| 0 <= i < l.len() ==> is_label_char(#[trigger] l[i]) {
            (Some(l), raw.skip(k + 1))
        } else {
            (None, raw)
        }
    } else {
        (None, raw)
    }
}

/// Splits a roster entry into its label, if it has one, and its agent.
pub fn split_label(raw: &str) -> (r: (Option<String>, String))
    ensures
        (opt_view(r.0), r.1@) == split_label_spec(raw@),
{
    let v = chars_of(raw);
    match find_char(&v, '=') {
        None => (None, owned(raw)),
        Some(k) => {
            let mut ok = k > 0;
            let mut i: usize = 0;
            while i < k
                invariant
                    k < v@.len(),
                    i <= k,
                    ok == (k > 0 && forall|j: int| 0 <= j < i ==> is_label_char(#[trigger] v@[j])),
                decreases k - i,
            {
                let c = v[i];
                let good = ('0' <= c && c <= '9') || ('a' <= c && c <= 'z') || ('A' <= c && c
                    <= 'Z') || c == '_' || c == '-';
                ok = ok && good;
                i = i + 1;
            }
            let ghost l = raw@.take(k as int);
            proof {
                assert forall|j: int| 0 <= j < l.len() implies l[j] == v@[j] by {}
                if ok {
                    assert forall|j: int| 0 <= j < l.len() implies is_label_char(#[trigger] l[j]) by {
                        assert(l[j] == v@[j]);
                    }
                } else if k > 0 {
                    let j = choose|j: int| 0 <= j < k && !is_label_char(#[trigger] v@[j]);
                    assert(l[j] == v@[j]);
                }
            }
            if ok {
                let n = v.len();
                let label = owned(raw.substring_char(0, k));
                let agent = owned(raw.substring_char(k + 1, n));
                assert(label@ =~= raw@.take(k as int));
                assert(agent@ =~= raw@.skip(k + 1));
                (Some(label), agent)
            } else {
                (None, owned(raw))
            }
        },
    }
}

/// `s` split at every `,` (`""` gives one empty piece).
pub open spec fn split_commas(s: Seq<char>) -> Seq<Seq<char>>
    decreases s.len(),
{
    if s.len() == 0 {
        seq![Seq::empty()]
    } else {
        let r = split_commas(s.drop_last());
        if s.last() == ',' {
            r.push(Seq::empty())
        } else {
            r.update(r.len() - 1, r.last().push(s.last()))
        }
    }
}

proof fn lemma_split_commas_nonempty(s: Seq<char>)
    ensures
        split_commas(s).len() > 0,
    decreases s.len(),
{
    if s.len() > 0 {
        lemma_split_commas_nonempty(s.drop_last());
    }
}

fn split_on_commas(s: &str) -> (r: Vec<String>)
    ensures
        views(r@) == split_commas(s@),
{
    let v = chars_of(s);
    let mut out: Vec<String> = Vec::new();
    let mut cur: Vec<char> = Vec::new();
    let mut i: usize = 0;
    assert(s@.take(0) =~= Seq::<char>::empty());
    assert(views(out@).push(cur@) =~= seq![Seq::<char>::empty()]);
    while i < v.len()
        invariant
            i <= v@.len(),
            v@ == s@,
            split_commas(s@.take(i as int)) == views(out@).push(cur@),
        decreases v@.len() - i,
    {
        let c = v[i];
        assert(s@.take(i + 1).drop_last() =~= s@.take(i as int));
        assert(s@.take(i + 1).last() == c);
        if c == ',' {
            let ghost before = views(out@);
            let piece = string_from_chars(&cur);
            out.push(piece);
            cur = Vec::new();
            assert(views(out@) =~= before.push(piece@));
            assert(views(out@).push(cur@) =~= before.push(piece@).push(Seq::empty()));
        } else {
            let ghost before = cur@;
            cur.push(c);
            assert(views(out@).push(cur@) =~= views(out@).push(before).update(
                views(out@).len() as int,
                before.push(c),
            ));
        }
        i = i + 1;
    }
    assert(s@.take(i as int) =~= s@);
    let ghost before = views(out@);
    let piece = string_from_chars(&cur);
    out.push(piece);
    assert(views(out@) =~= before.push(piece@));
    out
}

/// Some entry already has label `l`.
pub open spec fn has_label(es: Seq<EntryView>, l: Seq<char>) -> bool {
    exists|i: int| 0 <= i < es.len() && (#[trigger] es[i]).0 == Some(l)
}

/// The entries of `--agents` pieces from `j` on, added to `es`: each
/// piece trimmed, nonempty, with a nonblank agent and a label not used
/// before.
pub open spec fn agents_scan(items: Seq<Seq<char>>, j: nat, es: Seq<EntryView>) -> Result<
    Seq<EntryView>,
    Seq<char>,
>
    decreases items.len() - j,
{
    if j >= items.len() {
        Ok(es)
    } else {
        let raw = trim(items[j as int]);
        let (label, agent) = split_label_spec(raw);
        if raw.len() == 0 {
            Err("empty --agents entry"@)
        } else if trim(agent).len() == 0 {
            Err("entry "@ + debug_quoted(raw) + " has an empty agent"@)
        } else if label is Some && has_label(es, label->0) {
            Err("duplicate label "@ + debug_quoted(label->0))
        } else {
            agents_scan(items, j + 1, es.push((label, agent)))
        }
    }
}

/// What `team spawn` has parsed so far.
pub struct SpawnState {
    pub name: Option<Seq<char>>,
    pub entries: Seq<EntryView>,
    pub cwd: Option<Seq<char>>,
    pub with_orch: bool,
    pub orch_command: Option<Seq<char>>,
    pub wait: bool,
    pub timeout: u64,
}

/// An argument that begins with `--`.
pub open spec fn is_long_flag(a: Seq<char>) -> bool {
    a.len() >= 2 && a[0] == '-' && a[1] == '-'
}

/// `team spawn` arguments from `i` on: `--agents LIST`, `--cwd DIR`,
/// `--with-orch [CMD]` (a following argument is its command unless it
/// begins with `--`), `--wait`, `--timeout SECS`, and the team name, the
/// first argument that is none of these and does not begin with `--`.
pub open spec fn spawn_scan(args: Seq<Seq<char>>, i: nat, st: SpawnState) -> Result<
    SpawnState,
    Seq<char>,
>
    decreases args.len() - i,
{
    if i >= args.len() {
        Ok(st)
    } else {
        let a = args[i as int];
        if a == "--agents"@ {
            if i + 1 >= args.len() {
                Err("missing value for --agents"@)
            } else {
                match agents_scan(split_commas(args[i + 1int]), 0, st.entries) {
                    Err(e) => Err(e),
                    Ok(es) => spawn_scan(args, i + 2, SpawnState { entries: es, ..st }),
                }
            }
        } else if a == "--cwd"@ {
            if i + 1 >= args.len() {
                Err("missing value for --cwd"@)
            } else {
                spawn_scan(args, i + 2, SpawnState { cwd: Some(args[i + 1int]), ..st })
            }
        } else if a == "--with-orch"@ {
            if i + 1 < args.len() && !is_long_flag(args[i + 1int]) {
                spawn_scan(
                    args,
                    i + 2,
                    SpawnState { with_orch: true, orch_command: Some(args[i + 1int]), ..st },
                )
            } else {
                spawn_scan(args, i + 1, SpawnState { with_orch: true, ..st })
            }
        } else if a == "--wait"@ {
            spawn_scan(args, i + 1, SpawnState { wait: true, ..st })
        } else if a == "--timeout"@ {
            if i + 1 >= args.len() {
                Err("missing value for --timeout"@)
            } else {
                match parse_u64_spec(args[i + 1int]) {
                    None => Err("invalid --timeout "@ + debug_quoted(args[i + 1int])),
                    Some(v) => spawn_scan(args, i + 2, SpawnState { timeout: v, ..st }),
                }
            }
        } else if st.name is None && !is_long_flag(a) {
            spawn_scan(args, i + 1, SpawnState { name: Some(a), ..st })
        } else {
            Err("unexpected argument "@ + debug_quoted(a))
        }
    }
}

/// Nothing parsed yet: no name, no entries, a 60 s timeout.
pub open spec fn initial_spawn_state() -> SpawnState {
    SpawnState {
        name: None,
        entries: Seq::empty(),
        cwd: None,
        with_orch: false,
        orch_command: None,
        wait: false,
        timeout: DEFAULT_TIMEOUT_SECS,
    }
}

/// `team spawn <name> --agents <entry>[,<entry>...] [--cwd DIR]
/// [--with-orch [CMD]] [--wait] [--timeout SECS]`: the name and at least
/// one entry are required.
pub open spec fn spawn_args_spec(args: Seq<Seq<char>>) -> Result<SpawnState, Seq<char>> {
    match spawn_scan(args, 0, initial_spawn_state()) {
        Err(e) => Err(e),
        Ok(st) => if st.name is None {
            Err("missing team name"@)
        } else if st.entries.len() == 0 {
            Err("--agents with at least one entry is required"@)
        } else {
            Ok(st)
        },
    }
}

/// The parse as a [`SpawnState`].
pub open spec fn spawn_result_view(r: Result<SpawnArgs, String>) -> Result<SpawnState, Seq<char>> {
    match r {
        Ok(a) => Ok(
            SpawnState {
                name: Some(a.params.name@),
                entries: entry_views(a.params.entries@),
                cwd: opt_view(a.params.cwd),
                with_orch: a.params.with_orch,
                orch_command: opt_view(a.params.orch_command),
                wait: a.wait,
                timeout: a.timeout_secs,
            },
        ),
        Err(e) => Err(e@),
    }
}

fn has_entry_label(entries: &Vec<TeamSpawnEntry>, label: &str) -> (b: bool)
    ensures
        b == has_label(entry_views(entries@), label@),
{
    let ghost es = entry_views(entries@);
    let mut i: usize = 0;
    while i < entries.len()
        invariant
            i <= entries@.len(),
            es == entry_views(entries@),
            forall|j: int| 0 <= j < i ==> (#[trigger] es[j]).0 != Some(label@),
        decreases entries@.len() - i,
    {
        assert(es[i as int] == entry_view(entries@[i as int]));
        match &entries[i].label {
            Some(l) => {
                if str_eq(l.as_str(), label) {
                    assert(es[i as int].0 == Some(label@));
                    return true;
                }
            },
            None => {},
        }
        i = i + 1;
    }
    false
}

/// Adds the entries of one `--agents` value.
fn add_agents(entries: &mut Vec<TeamSpawnEntry>, value: &str) -> (r: Result<(), String>)
    ensures
        match r {
            Ok(_) => agents_scan(split_commas(value@), 0, entry_views(old(entries)@)) == Ok::<
                Seq<EntryView>,
                Seq<char>,
            >(entry_views(final(entries)@)),
            Err(e) => agents_scan(split_commas(value@), 0, entry_views(old(entries)@)) == Err::<
                Seq<EntryView>,
                Seq<char>,
            >(e@),
        },
{
    let items = split_on_commas(value);
    let ghost iv = views(items@);
    let ghost e0 = entry_views(entries@);
    let mut j: usize = 0;
    while j < items.len()
        invariant
            j <= items@.len(),
            iv == views(items@),
            iv == split_commas(value@),
            e0 == entry_views(old(entries)@),
            agents_scan(iv, 0, e0) == agents_scan(iv, j as nat, entry_views(entries@)),
        decreases items@.len() - j,
    {
        assert(iv[j as int] == items@[j as int]@);
        let raw = trimmed(items[j].as_str());
        if raw.as_str().unicode_len() == 0 {
            return Err(owned("empty --agents entry"));
        }
        let (label, agent) = split_label(raw.as_str());
        if is_blank(agent.as_str()) {
            let q = debug_str(raw.as_str());
            let m = concat("entry ", q.as_str());
            return Err(concat(m.as_str(), " has an empty agent"));
        }
        match &label {
            Some(l) => {
                if has_entry_label(entries, l.as_str()) {
                    let q = debug_str(l.as_str());
                    return Err(concat("duplicate label ", q.as_str()));
                }
            },
            None => {},
        }
        let ghost before = entry_views(entries@);
        let entry = TeamSpawnEntry { label, agent };
        entries.push(entry);
        assert(entry_views(entries@) =~= before.push(entry_view(entry)));
        j = j + 1;
    }
    Ok(())
}

/// True when `s` begins with `--`.
fn starts_with_long_flag(s: &str) -> (b: bool)
    ensures
        b == is_long_flag(s@),
{
    let n = s.unicode_len();
    n >= 2 && s.get_char(0) == '-' && s.get_char(1) == '-'
}

/// Parses `team spawn` arguments.
pub fn parse_spawn_args(args: &[String]) -> (r: Result<SpawnArgs, String>)
    ensures
        spawn_result_view(r) == spawn_args_spec(views(args@)),
        r matches Ok(a) ==> !a.params.focus,
{
    let ghost a = views(args@);
    let mut name: Option<String> = None;
    let mut entries: Vec<TeamSpawnEntry> = Vec::new();
    let mut cwd: Option<String> = None;
    let mut with_orch = false;
    let mut orch_command: Option<String> = None;
    let mut wait = false;
    let mut timeout_secs: u64 = DEFAULT_TIMEOUT_SECS;
    let mut index: usize = 0;
    assert(entry_views(entries@) =~= Seq::<EntryView>::empty());
    while index < args.len()
        invariant
            a == views(args@),
            index <= args@.len(),
            spawn_scan(a, 0, initial_spawn_state()) == spawn_scan(
                a,
                index as nat,
                SpawnState {
                    name: opt_view(name),
                    entries: entry_views(entries@),
                    cwd: opt_view(cwd),
                    with_orch,
                    orch_command: opt_view(orch_command),
                    wait,
                    timeout: timeout_secs,
                },
            ),
        decreases args@.len() - index,
    {
        let arg = args[index].as_str();
        assert(a[index as int] == arg@);
        if index + 1 < args.len() {
            assert(a[index + 1] == args@[index + 1]@);
        }
        if str_eq(arg, "--agents") {
            if index + 1 >= args.len() {
                return Err(owned("missing value for --agents"));
            }
            match add_agents(&mut entries, args[index + 1].as_str()) {
                Ok(_) => {},
                Err(e) => {
                    return Err(e);
                },
            }
            index = index + 2;
        } else if str_eq(arg, "--cwd") {
            if index + 1 >= args.len() {
                return Err(owned("missing value for --cwd"));
            }
            cwd = Some(args[index + 1].clone());
            index = index + 2;
        } else if str_eq(arg, "--with-orch") {
            with_orch = true;
            if index + 1 < args.len() && !starts_with_long_flag(args[index + 1].as_str()) {
                orch_command = Some(args[index + 1].clone());
                index = index + 2;
            } else {
                index = index + 1;
            }
        } else if str_eq(arg, "--wait") {
            wait = true;
            index = index + 1;
        } else if str_eq(arg, "--timeout") {
            if index + 1 >= args.len() {
                return Err(owned("missing value for --timeout"));
            }
            let value = args[index + 1].as_str();
            match parse_u64(value) {
                None => {
                    let q = debug_str(value);
                    return Err(concat("invalid --timeout ", q.as_str()));
                },
                Some(v) => {
                    timeout_secs = v;
                },
            }
            index = index + 2;
        } else if name.is_none() && !starts_with_long_flag(arg) {
            name = Some(args[index].clone());
            index = index + 1;
        } else {
            let q = debug_str(arg);
            return Err(concat("unexpected argument ", q.as_str()));
        }
    }
    let name = match name {
        Some(n) => n,
        None => {
            return Err(owned("missing team name"));
        },
    };
    if entries.len() == 0 {
        return Err(owned("--agents with at least one entry is required"));
    }
    Ok(
        SpawnArgs {
            params: TeamSpawnParams { name, entries, cwd, with_orch, orch_command, focus: false },
            wait,
            timeout_secs,
        },
    )
}

/// Whether `--wait` counts a spawned pane as ready: its agent was
/// recognized (a nonempty agent name), or its agent status is known (an
/// absent status counts as `unknown`).
pub fn agent_ready(agent: Option<&str>, status: Option<&str>) -> (b: bool)
    ensures
        b == ((agent matches Some(a) && a@.len() > 0) || (status matches Some(s) && s@
            != "unknown"@)),
{
    let recognized = match agent {
        Some(a) => a.unicode_len() > 0,
        None => false,
    };
    let known = match status {
        Some(s) => !str_eq(s, "unknown"),
        None => false,
    };
    recognized || known
}

/// What `herdr team <subcommand>` runs.
#[derive(Debug, Clone, Copy, PartialEq, Eq, Structural)]
pub enum TeamSubcommand {
    Spawn,
    /// `help`, `--help` or `-h`: the help text, exit 0.
    Help,
    /// No subcommand or an unknown one: the help text, exit 2.
    Usage,
}

/// The `team` subcommand named by the first argument.
pub open spec fn team_subcommand_spec(args: Seq<Seq<char>>) -> TeamSubcommand {
    if args.len() == 0 {
        TeamSubcommand::Usage
    } else if args[0] == "spawn"@ {
        TeamSubcommand::Spawn
    } else if args[0] == "help"@ || args[0] == "--help"@ || args[0] == "-h"@ {
        TeamSubcommand::Help
    } else {
        TeamSubcommand::Usage
    }
}

/// Picks the `herdr team` subcommand; its arguments are the rest.
pub fn team_subcommand(args: &[String]) -> (r: TeamSubcommand)
    ensures
        r == team_subcommand_spec(views(args@)),
{
    if args.len() == 0 {
        return TeamSubcommand::Usage;
    }
    let a = args[0].as_str();
    assert(views(args@)[0] == a@);
    if str_eq(a, "spawn") {
        TeamSubcommand::Spawn
    } else if str_eq(a, "help") || str_eq(a, "--help") || str_eq(a, "-h") {
        TeamSubcommand::Help
    } else {
        TeamSubcommand::Usage
    }
}

} // verus!
