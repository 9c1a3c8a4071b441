//! Argument parsing and decisions of the `herdr msg` commands.

use vstd::prelude::*;
use crate::api::opt_view;
use crate::order::str_eq;
use crate::text::{
    chars_of, concat, is_blank, owned, parse_u64, parse_u64_spec, starts_with_char,
    string_from_chars, trim, views,
};

verus! {

/// Parsed `msg read` / `msg peek` options.
#[derive(Debug, PartialEq, Eq)]
pub struct ReadPeekArgs {
    pub pane_id: Option<String>,
    pub after_seq: Option<u64>,
    pub all: bool,
}

/// Parsed `msg ack` arguments.
#[derive(Debug, PartialEq, Eq)]
pub struct AckArgs {
    pub up_to_seq: u64,
    pub pane_id: Option<String>,
}

/// Parsed `msg wait` options.
#[derive(Debug, PartialEq, Eq)]
pub struct WaitArgs {
    pub timeout_ms: Option<u64>,
    pub pane_id: Option<String>,
}

/// Parsed `msg group join|leave` arguments.
#[derive(Debug, PartialEq, Eq)]
pub struct GroupArgs {
    pub name: String,
    pub pane_id: Option<String>,
}

/// An argument that begins with `-` (an option, not a positional value).
pub open spec fn is_dash(a: Seq<char>) -> bool {
    a.len() > 0 && a[0] == '-'
}

/// The words joined with single spaces.
pub open spec fn join_words(s: Seq<Seq<char>>) -> Seq<char>
    decreases s.len(),
{
    if s.len() == 0 {
        Seq::empty()
    } else if s.len() == 1 {
        s[0]
    } else {
        join_words(s.drop_last()) + seq![' '] + s.last()
    }
}

/// The usage line of `msg send`.
pub open spec fn send_usage() -> Seq<char> {
    "usage: herdr msg send <target> <text> [--pane ID]"@
}

/// The usage line of `msg ack`.
pub open spec fn ack_usage() -> Seq<char> {
    "usage: herdr msg ack <up-to-seq> [--pane ID]"@
}

/// `msg send` options: `--pane ID` anywhere (the last one counts), every
/// other argument positional.
pub open spec fn send_scan(
    args: Seq<Seq<char>>,
    i: nat,
    pane: Option<Seq<char>>,
    pos: Seq<Seq<char>>,
) -> Result<(Option<Seq<char>>, Seq<Seq<char>>), Seq<char>>
    decreases args.len() - i,
{
    if i >= args.len() {
        Ok((pane, pos))
    } else if args[i as int] == "--pane"@ {
        if i + 1 >= args.len() {
            Err("missing value for --pane"@)
        } else {
            send_scan(args, i + 2, Some(args[i + 1int]), pos)
        }
    } else {
        send_scan(args, i + 1, pane, pos.push(args[i as int]))
    }
}

/// `msg send <target> <text...> [--pane ID]`: the first positional is
/// the target, the rest joined with spaces is the text, which must not be
/// blank.
pub open spec fn send_args_spec(args: Seq<Seq<char>>) -> Result<
    (Seq<char>, Seq<char>, Option<Seq<char>>),
    Seq<char>,
> {
    match send_scan(args, 0, None, Seq::empty()) {
        Err(e) => Err(e),
        Ok((pane, pos)) => {
            if pos.len() < 2 {
                Err(send_usage())
            } else if trim(join_words(pos.skip(1))).len() == 0 {
                Err(send_usage())
            } else {
                Ok((pos[0], join_words(pos.skip(1)), pane))
            }
        },
    }
}

/// A `msg send` parse as values.
pub open spec fn send_result_view(r: Result<(String, String, Option<String>), String>) -> Result<
    (Seq<char>, Seq<char>, Option<Seq<char>>),
    Seq<char>,
> {
    match r {
        Ok((t, x, p)) => Ok((t@, x@, opt_view(p))),
        Err(e) => Err(e@),
    }
}

fn join_from(words: &Vec<String>, from: usize) -> (r: String)
    requires
        from < words@.len(),
    ensures
        r@ == join_words(views(words@).skip(from as int)),
{
    let ghost w = views(words@).skip(from as int);
    let n = words.len();
    let mut v = chars_of(words[from].as_str());
    let mut i: usize = from + 1;
    assert(w.take(1) =~= seq![w[0]]);
    while i < words.len()
        invariant
            from < i <= words@.len(),
            w == views(words@).skip(from as int),
            v@ == join_words(w.take(i - from)),
        decreases words@.len() - i,
    {
        let c = chars_of(words[i].as_str());
        v.push(' ');
        let mut k: usize = 0;
        let ghost head = v@;
        while k < c.len()
            invariant
                k <= c@.len(),
                v@ == head + c@.take(k as int),
            decreases c@.len() - k,
        {
            v.push(c[k]);
            assert(c@.take(k + 1) =~= c@.take(k as int).push(c@[k as int]));
            k = k + 1;
        }
        assert(c@.take(k as int) =~= c@);
        assert(w.take(i + 1 - from).drop_last() =~= w.take(i - from));
        assert(w[i - from] == words@[i as int]@);
        i = i + 1;
    }
    assert(w.take(i - from) =~= w);
    string_from_chars(&v)
}

/// Parses `msg send` arguments into `(target, text, pane_id)`.
pub fn parse_send_args(args: &[String]) -> (r: Result<(String, String, Option<String>), String>)
    ensures
        send_result_view(r) == send_args_spec(views(args@)),
{
    let ghost a = views(args@);
    let mut pane_id: Option<String> = None;
    let mut positionals: Vec<String> = Vec::new();
    let mut index: usize = 0;
    assert(views(positionals@) =~= Seq::<Seq<char>>::empty());
    while index < args.len()
        invariant
            a == views(args@),
            index <= args@.len(),
            send_scan(a, 0, None, Seq::empty()) == send_scan(
                a,
                index as nat,
                opt_view(pane_id),
                views(positionals@),
            ),
        decreases args@.len() - index,
    {
        assert(a[index as int] == args@[index as int]@);
        if str_eq(args[index].as_str(), "--pane") {
            if index + 1 >= args.len() {
                return Err(owned("missing value for --pane"));
            }
            assert(a[index + 1] == args@[index + 1]@);
            pane_id = Some(args[index + 1].clone());
            index = index + 2;
        } else {
            let ghost before = views(positionals@);
            positionals.push(args[index].clone());
            assert(views(positionals@) =~= before.push(a[index as int]));
            index = index + 1;
        }
    }
    let ghost pos = views(positionals@);
    if positionals.len() < 2 {
        return Err(owned("usage: herdr msg send <target> <text> [--pane ID]"));
    }
    let text = join_from(&positionals, 1);
    if is_blank(text.as_str()) {
        return Err(owned("usage: herdr msg send <target> <text> [--pane ID]"));
    }
    let target = positionals[0].clone();
    Ok((target, text, pane_id))
}

/// `msg read` / `msg peek` options.
pub open spec fn read_scan(
    args: Seq<Seq<char>>,
    i: nat,
    pane: Option<Seq<char>>,
    after: Option<u64>,
    all: bool,
) -> Result<(Option<Seq<char>>, Option<u64>, bool), Seq<char>>
    decreases args.len() - i,
{
    if i >= args.len() {
        Ok((pane, after, all))
    } else if args[i as int] == "--pane"@ {
        if i + 1 >= args.len() {
            Err("missing value for --pane"@)
        } else {
            read_scan(args, i + 2, Some(args[i + 1int]), after, all)
        }
    } else if args[i as int] == "--after"@ {
        if i + 1 >= args.len() {
            Err("missing value for --after"@)
        } else {
            match parse_u64_spec(args[i + 1int]) {
                None => Err("invalid value for --after: "@ + args[i + 1int]),
                Some(v) => read_scan(args, i + 2, pane, Some(v), all),
            }
        }
    } else if args[i as int] == "--all"@ {
        read_scan(args, i + 1, pane, after, true)
    } else {
        Err("unknown option: "@ + args[i as int])
    }
}

/// A `msg read` / `msg peek` parse as values.
pub open spec fn read_result_view(r: Result<ReadPeekArgs, String>) -> Result<
    (Option<Seq<char>>, Option<u64>, bool),
    Seq<char>,
> {
    match r {
        Ok(a) => Ok((opt_view(a.pane_id), a.after_seq, a.all)),
        Err(e) => Err(e@),
    }
}

/// Parses `msg read` / `msg peek` options: `--pane ID`, `--after SEQ`,
/// `--all`, in any order (the last of a repeated option counts).
pub fn parse_read_peek_args(args: &[String]) -> (r: Result<ReadPeekArgs, String>)
    ensures
        read_result_view(r) == read_scan(views(args@), 0, None, None, false),
{
    let ghost a = views(args@);
    let mut pane_id: Option<String> = None;
    let mut after_seq: Option<u64> = None;
    let mut all = false;
    let mut index: usize = 0;
    while index < args.len()
        invariant
            a == views(args@),
            index <= args@.len(),
            read_scan(a, 0, None, None, false) == read_scan(
                a,
                index as nat,
                opt_view(pane_id),
                after_seq,
                all,
            ),
        decreases args@.len() - index,
    {
        let arg = args[index].as_str();
        assert(a[index as int] == arg@);
        if str_eq(arg, "--pane") {
            if index + 1 >= args.len() {
                return Err(owned("missing value for --pane"));
            }
            assert(a[index + 1] == args@[index + 1]@);
            pane_id = Some(args[index + 1].clone());
            index = index + 2;
        } else if str_eq(arg, "--after") {
            if index + 1 >= args.len() {
                return Err(owned("missing value for --after"));
            }
            let value = args[index + 1].as_str();
            assert(a[index + 1] == value@);
            match parse_u64(value) {
                None => {
                    return Err(concat("invalid value for --after: ", value));
                },
                Some(v) => {
                    after_seq = Some(v);
                },
            }
            index = index + 2;
        } else if str_eq(arg, "--all") {
            all = true;
            index = index + 1;
        } else {
            return Err(concat("unknown option: ", arg));
        }
    }
    Ok(ReadPeekArgs { pane_id, after_seq, all })
}

/// Options after the leading positional of `msg ack` and `msg group`:
/// only `--pane ID`.
pub open spec fn pane_scan(args: Seq<Seq<char>>, i: nat, pane: Option<Seq<char>>) -> Result<
    Option<Seq<char>>,
    Seq<char>,
>
    decreases args.len() - i,
{
    if i >= args.len() {
        Ok(pane)
    } else if args[i as int] == "--pane"@ {
        if i + 1 >= args.len() {
            Err("missing value for --pane"@)
        } else {
            pane_scan(args, i + 2, Some(args[i + 1int]))
        }
    } else {
        Err("unknown option: "@ + args[i as int])
    }
}

fn scan_pane_option(args: &[String], start: usize) -> (r: Result<Option<String>, String>)
    requires
        start <= args@.len(),
    ensures
        match r {
            Ok(p) => pane_scan(views(args@), start as nat, None) == Ok::<
                Option<Seq<char>>,
                Seq<char>,
            >(opt_view(p)),
            Err(e) => pane_scan(views(args@), start as nat, None) == Err::<
                Option<Seq<char>>,
                Seq<char>,
            >(e@),
        },
{
    let ghost a = views(args@);
    let mut pane_id: Option<String> = None;
    let mut index: usize = start;
    while index < args.len()
        invariant
            a == views(args@),
            start <= index <= args@.len(),
            pane_scan(a, start as nat, None) == pane_scan(a, index as nat, opt_view(pane_id)),
        decreases args@.len() - index,
    {
        let arg = args[index].as_str();
        assert(a[index as int] == arg@);
        if str_eq(arg, "--pane") {
            if index + 1 >= args.len() {
                return Err(owned("missing value for --pane"));
            }
            assert(a[index + 1] == args@[index + 1]@);
            pane_id = Some(args[index + 1].clone());
            index = index + 2;
        } else {
            return Err(concat("unknown option: ", arg));
        }
    }
    Ok(pane_id)
}

/// `msg ack <up-to-seq> [--pane ID]`: a leading argument that does not
/// begin with `-` is the seq; it is required.
pub open spec fn ack_args_spec(args: Seq<Seq<char>>) -> Result<(u64, Option<Seq<char>>), Seq<char>> {
    if args.len() > 0 && !is_dash(args[0]) {
        match parse_u64_spec(args[0]) {
            None => Err("invalid value for up-to-seq: "@ + args[0]),
            Some(v) => match pane_scan(args, 1, None) {
                Err(e) => Err(e),
                Ok(p) => Ok((v, p)),
            },
        }
    } else {
        match pane_scan(args, 0, None) {
            Err(e) => Err(e),
            Ok(_) => Err(ack_usage()),
        }
    }
}

/// A `msg ack` parse as values.
pub open spec fn ack_result_view(r: Result<AckArgs, String>) -> Result<
    (u64, Option<Seq<char>>),
    Seq<char>,
> {
    match r {
        Ok(a) => Ok((a.up_to_seq, opt_view(a.pane_id))),
        Err(e) => Err(e@),
    }
}

/// Parses `msg ack` arguments.
pub fn parse_ack_args(args: &[String]) -> (r: Result<AckArgs, String>)
    ensures
        ack_result_view(r) == ack_args_spec(views(args@)),
{
    let ghost a = views(args@);
    if args.len() > 0 && !starts_with_char(args[0].as_str(), '-') {
        assert(a[0] == args@[0]@);
        let val = args[0].as_str();
        let up_to_seq = match parse_u64(val) {
            None => {
                return Err(concat("invalid value for up-to-seq: ", val));
            },
            Some(v) => v,
        };
        let pane_id = match scan_pane_option(args, 1) {
            Ok(p) => p,
            Err(e) => {
                return Err(e);
            },
        };
        Ok(AckArgs { up_to_seq, pane_id })
    } else {
        proof {
            if args@.len() > 0 {
                assert(a[0] == args@[0]@);
            }
        }
        match scan_pane_option(args, 0) {
            Ok(_) => Err(owned("usage: herdr msg ack <up-to-seq> [--pane ID]")),
            Err(e) => Err(e),
        }
    }
}

/// `msg wait` options.
pub open spec fn wait_scan(
    args: Seq<Seq<char>>,
    i: nat,
    timeout: Option<u64>,
    pane: Option<Seq<char>>,
) -> Result<(Option<u64>, Option<Seq<char>>), Seq<char>>
    decreases args.len() - i,
{
    if i >= args.len() {
        Ok((timeout, pane))
    } else if args[i as int] == "--pane"@ {
        if i + 1 >= args.len() {
            Err("missing value for --pane"@)
        } else {
            wait_scan(args, i + 2, timeout, Some(args[i + 1int]))
        }
    } else if args[i as int] == "--timeout"@ {
        if i + 1 >= args.len() {
            Err("missing value for --timeout"@)
        } else {
            match parse_u64_spec(args[i + 1int]) {
                None => Err("invalid value for --timeout: "@ + args[i + 1int]),
                Some(v) => wait_scan(args, i + 2, Some(v), pane),
            }
        }
    } else {
        Err("unknown option: "@ + args[i as int])
    }
}

/// A `msg wait` parse as values.
pub open spec fn wait_result_view(r: Result<WaitArgs, String>) -> Result<
    (Option<u64>, Option<Seq<char>>),
    Seq<char>,
> {
    match r {
        Ok(a) => Ok((a.timeout_ms, opt_view(a.pane_id))),
        Err(e) => Err(e@),
    }
}

/// Parses `msg wait` options: `--timeout MS` and `--pane ID`.
pub fn parse_wait_args(args: &[String]) -> (r: Result<WaitArgs, String>)
    ensures
        wait_result_view(r) == wait_scan(views(args@), 0, None, None),
{
    let ghost a = views(args@);
    let mut timeout_ms: Option<u64> = None;
    let mut pane_id: Option<String> = None;
    let mut index: usize = 0;
    while index < args.len()
        invariant
            a == views(args@),
            index <= args@.len(),
            wait_scan(a, 0, None, None) == wait_scan(
                a,
                index as nat,
                timeout_ms,
                opt_view(pane_id),
            ),
        decreases args@.len() - index,
    {
        let arg = args[index].as_str();
        assert(a[index as int] == arg@);
        if str_eq(arg, "--pane") {
            if index + 1 >= args.len() {
                return Err(owned("missing value for --pane"));
            }
            assert(a[index + 1] == args@[index + 1]@);
            pane_id = Some(args[index + 1].clone());
            index = index + 2;
        } else if str_eq(arg, "--timeout") {
            if index + 1 >= args.len() {
                return Err(owned("missing value for --timeout"));
            }
            let value = args[index + 1].as_str();
            assert(a[index + 1] == value@);
            match parse_u64(value) {
                None => {
                    return Err(concat("invalid value for --timeout: ", value));
                },
                Some(v) => {
                    timeout_ms = Some(v);
                },
            }
            index = index + 2;
        } else {
            return Err(concat("unknown option: ", arg));
        }
    }
    Ok(WaitArgs { timeout_ms, pane_id })
}

/// `msg group join|leave <name> [--pane ID]`: a leading argument that
/// does not begin with `-` is the name; it is required (`usage` is the
/// error otherwise).
pub open spec fn group_args_spec(args: Seq<Seq<char>>, usage: Seq<char>) -> Result<
    (Seq<char>, Option<Seq<char>>),
    Seq<char>,
> {
    if args.len() > 0 && !is_dash(args[0]) {
        match pane_scan(args, 1, None) {
            Err(e) => Err(e),
            Ok(p) => Ok((args[0], p)),
        }
    } else {
        match pane_scan(args, 0, None) {
            Err(e) => Err(e),
            Ok(_) => Err(usage),
        }
    }
}

/// A `msg group` parse as values.
pub open spec fn group_result_view(r: Result<GroupArgs, String>) -> Result<
    (Seq<char>, Option<Seq<char>>),
    Seq<char>,
> {
    match r {
        Ok(a) => Ok((a.name@, opt_view(a.pane_id))),
        Err(e) => Err(e@),
    }
}

/// Parses `msg group join|leave` arguments; `usage` is the error for a
/// missing name.
pub fn parse_group_args(args: &[String], usage: &str) -> (r: Result<GroupArgs, String>)
    ensures
        group_result_view(r) == group_args_spec(views(args@), usage@),
{
    let ghost a = views(args@);
    if args.len() > 0 && !starts_with_char(args[0].as_str(), '-') {
        assert(a[0] == args@[0]@);
        let name = args[0].clone();
        let pane_id = match scan_pane_option(args, 1) {
            Ok(p) => p,
            Err(e) => {
                return Err(e);
            },
        };
        Ok(GroupArgs { name, pane_id })
    } else {
        proof {
            if args@.len() > 0 {
                assert(a[0] == args@[0]@);
            }
        }
        match scan_pane_option(args, 0) {
            Ok(_) => Err(owned(usage)),
            Err(e) => Err(e),
        }
    }
}

/// What `herdr msg <subcommand>` runs.
#[derive(Debug, Clone, Copy, PartialEq, Eq, Structural)]
pub enum MsgSubcommand {
    Send,
    Read,
    Peek,
    Ack,
    Wait,
    Group,
    Who,
    /// `help`, `--help` or `-h`: the help text, exit 0.
    Help,
    /// No subcommand or an unknown one: the help text, exit 2.
    Usage,
}

/// The subcommand named by the first argument.
pub open spec fn msg_subcommand_spec(args: Seq<Seq<char>>) -> MsgSubcommand {
    if args.len() == 0 {
        MsgSubcommand::Usage
    } else {
        let a = args[0];
        if a == "send"@ {
            MsgSubcommand::Send
        } else if a == "read"@ {
            MsgSubcommand::Read
        } else if a == "peek"@ {
            MsgSubcommand::Peek
        } else if a == "ack"@ {
            MsgSubcommand::Ack
        } else if a == "wait"@ {
            MsgSubcommand::Wait
        } else if a == "group"@ {
            MsgSubcommand::Group
        } else if a == "who"@ {
            MsgSubcommand::Who
        } else if a == "help"@ || a == "--help"@ || a == "-h"@ {
            MsgSubcommand::Help
        } else {
            MsgSubcommand::Usage
        }
    }
}

/// Picks the `herdr msg` subcommand; its arguments are the rest.
pub fn msg_subcommand(args: &[String]) -> (r: MsgSubcommand)
    ensures
        r == msg_subcommand_spec(views(args@)),
{
    if args.len() == 0 {
        return MsgSubcommand::Usage;
    }
    let a = args[0].as_str();
    assert(views(args@)[0] == a@);
    if str_eq(a, "send") {
        MsgSubcommand::Send
    } else if str_eq(a, "read") {
        MsgSubcommand::Read
    } else if str_eq(a, "peek") {
        MsgSubcommand::Peek
    } else if str_eq(a, "ack") {
        MsgSubcommand::Ack
    } else if str_eq(a, "wait") {
        MsgSubcommand::Wait
    } else if str_eq(a, "group") {
        MsgSubcommand::Group
    } else if str_eq(a, "who") {
        MsgSubcommand::Who
    } else if str_eq(a, "help") || str_eq(a, "--help") || str_eq(a, "-h") {
        MsgSubcommand::Help
    } else {
        MsgSubcommand::Usage
    }
}

/// What `herdr msg group <subcommand>` runs.
#[derive(Debug, Clone, Copy, PartialEq, Eq, Structural)]
pub enum GroupSubcommand {
    Join,
    Leave,
    /// No subcommand or an unknown one: the help text, exit 2.
    Usage,
}

/// The `msg group` subcommand named by the first argument.
pub open spec fn group_subcommand_spec(args: Seq<Seq<char>>) -> GroupSubcommand {
    if args.len() == 0 {
        GroupSubcommand::Usage
    } else if args[0] == "join"@ {
        GroupSubcommand::Join
    } else if args[0] == "leave"@ {
        GroupSubcommand::Leave
    } else {
        GroupSubcommand::Usage
    }
}

/// Picks the `herdr msg group` subcommand; its arguments are the rest.
pub fn group_subcommand(args: &[String]) -> (r: GroupSubcommand)
    ensures
        r == group_subcommand_spec(views(args@)),
{
    if args.len() == 0 {
        return GroupSubcommand::Usage;
    }
    let a = args[0].as_str();
    assert(views(args@)[0] == a@);
    if str_eq(a, "join") {
        GroupSubcommand::Join
    } else if str_eq(a, "leave") {
        GroupSubcommand::Leave
    } else {
        GroupSubcommand::Usage
    }
}

/// The pane a command acts for: the `--pane` value, else the pane of the
/// environment (ignored when blank).
pub open spec fn acting_pane_spec(flag: Option<Seq<char>>, env: Option<Seq<char>>) -> Option<
    Seq<char>,
> {
    match flag {
        Some(p) => Some(p),
        None => match env {
            Some(e) => if trim(e).len() > 0 {
                Some(e)
            } else {
                None
            },
            None => None,
        },
    }
}

/// Chooses between the `--pane` value and the environment's pane id.
pub fn acting_pane(flag: Option<String>, env: Option<String>) -> (r: Option<String>)
    ensures
        opt_view(r) == acting_pane_spec(opt_view(flag), opt_view(env)),
{
    match flag {
        Some(p) => Some(p),
        None => match env {
            Some(e) => if is_blank(e.as_str()) {
                None
            } else {
                Some(e)
            },
            None => None,
        },
    }
}

/// The largest of the seqs, 0 for none.
pub open spec fn highest(s: Seq<u64>) -> u64
    decreases s.len(),
{
    if s.len() == 0 {
        0
    } else {
        let h = highest(s.drop_last());
        if s.last() > h {
            s.last()
        } else {
            h
        }
    }
}

/// The highest seq of the listed messages, 0 when none is listed.
pub fn highest_seq(seqs: &[u64]) -> (r: u64)
    ensures
        r == highest(seqs@),
{
    let mut h: u64 = 0;
    let mut i: usize = 0;
    while i < seqs.len()
        invariant
            i <= seqs@.len(),
            h == highest(seqs@.take(i as int)),
        decreases seqs@.len() - i,
    {
        assert(seqs@.take(i + 1).drop_last() =~= seqs@.take(i as int));
        if seqs[i] > h {
            h = seqs[i];
        }
        i = i + 1;
    }
    assert(seqs@.take(i as int) =~= seqs@);
    h
}

/// What `msg read` acknowledges after listing messages with these seqs:
/// the highest listed seq, unless nothing was listed or `--after` was
/// given (`--after` may skip unread messages, so a read with it never
/// acknowledges).
pub fn read_ack_seq(after_seq: Option<u64>, seqs: &[u64]) -> (r: Option<u64>)
    ensures
        r == if after_seq is Some || highest(seqs@) == 0 {
            None
        } else {
            Some(highest(seqs@))
        },
{
    if after_seq.is_some() {
        return None;
    }
    let h = highest_seq(seqs);
    if h > 0 {
        Some(h)
    } else {
        None
    }
}

/// How `msg wait` goes on from its first listing.
#[derive(Debug, PartialEq, Eq)]
pub enum WaitStart {
    /// Unread messages are there already: print the listed messages at
    /// these positions at once, without waiting.
    ShowUnread(Vec<usize>),
    /// Nothing unread: wait for messages past this seq.
    Watch(u64),
}

/// The positions of the seqs past the ack cursor, in order.
pub open spec fn unread_positions(seqs: Seq<u64>, ack_seq: u64, n: nat) -> Seq<usize>
    decreases n,
{
    if n == 0 {
        Seq::empty()
    } else {
        let r = unread_positions(seqs, ack_seq, (n - 1) as nat);
        if seqs[n - 1] > ack_seq {
            r.push((n - 1) as usize)
        } else {
            r
        }
    }
}

/// Decides how `msg wait` starts from the listing it takes after
/// subscribing: the seqs of every message in the inbox and the ack
/// cursor. Unread messages are shown at once; otherwise the wait watches
/// for seqs past the highest listed one.
pub fn wait_start(seqs: &[u64], ack_seq: u64) -> (r: WaitStart)
    ensures
        unread_positions(seqs@, ack_seq, seqs@.len()).len() > 0 ==> (r matches WaitStart::ShowUnread(
            v,
        ) && v@ == unread_positions(seqs@, ack_seq, seqs@.len())),
        unread_positions(seqs@, ack_seq, seqs@.len()).len() == 0 ==> r == WaitStart::Watch(
            highest(seqs@),
        ),
{
    let mut unread: Vec<usize> = Vec::new();
    let mut i: usize = 0;
    while i < seqs.len()
        invariant
            i <= seqs@.len(),
            unread@ == unread_positions(seqs@, ack_seq, i as nat),
        decreases seqs@.len() - i,
    {
        if seqs[i] > ack_seq {
            unread.push(i);
        }
        i = i + 1;
    }
    if unread.len() > 0 {
        WaitStart::ShowUnread(unread)
    } else {
        WaitStart::Watch(highest_seq(seqs))
    }
}

/// What `msg wait` does after a wake-up (a message event or a poll tick)
/// and a fresh listing of the messages past its watch seq.
#[derive(Debug, Clone, Copy, PartialEq, Eq, Structural)]
pub enum WaitRound {
    /// New messages: print them (exit code 0).
    Show,
    /// Nothing new and the timeout has passed (exit code 1).
    TimedOut,
    /// Nothing new yet: wait for the next wake-up.
    Again,
}

/// Decides a round of `msg wait` from how many new messages the listing
/// holds and whether `--timeout` has run out; new messages win over the
/// timeout.
pub fn wait_round(new_messages: usize, timed_out: bool) -> (r: WaitRound)
    ensures
        r == if new_messages > 0 {
            WaitRound::Show
        } else if timed_out {
            WaitRound::TimedOut
        } else {
            WaitRound::Again
        },
{
    if new_messages > 0 {
        WaitRound::Show
    } else if timed_out {
        WaitRound::TimedOut
    } else {
        WaitRound::Again
    }
}

} // verus!
