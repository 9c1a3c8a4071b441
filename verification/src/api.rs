//! The `msg.*` request handlers: what each request does to the bus and
//! what it answers.

use vstd::prelude::*;
use vstd::utf8::encode_utf8;
use crate::bus::{
    clone_opt_string,
    after_delivery, body_len, inbox_or_fresh, parse_target_spec, resolve_spec, same_members,
    count_unread, select_msgs, acked_pane, acked, joined, left_group, valid_group_name, dir_view,
    resolve_result_view, target_result_view, dir_has_pane, CandView, InboxView, MsgBus, MsgError, MsgTarget, ResolveError,
    ResolveErrorView, StoredMsg, TargetView, MAX_MESSAGE_BODY_BYTES,
};
use crate::order::{sorted_strict, str_eq};
use crate::schema::{
    MsgAckParams, MsgAckResult, MsgGroupJoinParams, MsgGroupLeaveParams, MsgGroupResult, MsgInfo,
    MsgListParams, MsgListResult, MsgSendParams, MsgSendResult,
};
use crate::text::views;

verus! {

/// Why a send was refused.
#[derive(Debug, PartialEq, Eq)]
pub enum SendError {
    /// A sender pane id was given but names no pane of the directory (a
    /// blank, malformed or closed id); only an absent id is external.
    UnknownSender(String),
    /// The body is over [`MAX_MESSAGE_BODY_BYTES`].
    MessageTooLarge,
    /// The target is a pane id that names no pane of the directory.
    PaneNotFound(String),
    /// The target expression does not parse.
    InvalidTarget(ResolveError),
    /// The target parses but does not resolve.
    Resolve(ResolveError),
}

impl SendError {
    /// The API error code of the refusal.
    pub fn code(&self) -> (r: &'static str)
        ensures
            r@ == match self {
                SendError::MessageTooLarge => "message_too_large"@,
                SendError::UnknownSender(_) => "pane_not_found"@,
                SendError::PaneNotFound(_) => "pane_not_found"@,
                _ => "invalid_target"@,
            },
    {
        match self {
            SendError::MessageTooLarge => "message_too_large",
            SendError::UnknownSender(_) => "pane_not_found",
            SendError::PaneNotFound(_) => "pane_not_found",
            _ => "invalid_target",
        }
    }
}

/// `s` without the entries equal to `x`.
pub open spec fn without(s: Seq<Seq<char>>, x: Seq<char>) -> Seq<Seq<char>>
    decreases s.len(),
{
    if s.len() == 0 {
        s
    } else {
        let r = without(s.drop_last(), x);
        if s.last() == x {
            r
        } else {
            r.push(s.last())
        }
    }
}

/// Who receives a send: the resolved panes, less the sender for `@all`.
pub open spec fn recipients(ids: Seq<Seq<char>>, t: TargetView, sender: Option<Seq<char>>) -> Seq<
    Seq<char>,
> {
    match t {
        TargetView::All => match sender {
            Some(x) => without(ids, x),
            None => ids,
        },
        _ => ids,
    }
}

/// The entries of `without(s, x)` are those of `s` other than `x`, and
/// dropping keeps a list free of repeats.
pub proof fn lemma_without(s: Seq<Seq<char>>, x: Seq<char>)
    ensures
        forall|y: Seq<char>| #[trigger] without(s, x).contains(y) <==> s.contains(y) && y != x,
        s.no_duplicates() ==> without(s, x).no_duplicates(),
    decreases s.len(),
{
    if s.len() > 0 {
        let t = s.drop_last();
        lemma_without(t, x);
        let r = without(t, x);
        assert forall|y: Seq<char>| #[trigger] without(s, x).contains(y) <==> s.contains(y) && y
            != x by {
            if s.contains(y) && y != x {
                let k = choose|k: int| 0 <= k < s.len() && s[k] == y;
                if k < s.len() - 1 {
                    assert(t[k] == y);
                    assert(t.contains(y));
                    assert(r.contains(y));
                    if s.last() != x {
                        let j = choose|j: int| 0 <= j < r.len() && r[j] == y;
                        assert(r.push(s.last())[j] == y);
                    }
                } else {
                    assert(r.push(s.last())[r.len() as int] == y);
                }
            }
            if without(s, x).contains(y) {
                let w = without(s, x);
                let j = choose|j: int| 0 <= j < w.len() && w[j] == y;
                if j < r.len() {
                    assert(w[j] == r[j]);
                    assert(r.contains(y));
                    let k = choose|k: int| 0 <= k < t.len() && t[k] == y;
                    assert(s[k] == y);
                } else {
                    assert(s[s.len() - 1] == y);
                }
            }
        }
        if s.no_duplicates() {
            assert(t.no_duplicates()) by {
                assert forall|i: int, j: int| 0 <= i < t.len() && 0 <= j < t.len() && i != j implies t[i]
                    != t[j] by {
                    assert(s[i] == t[i] && s[j] == t[j]);
                }
            }
            if s.last() != x {
                assert(!t.contains(s.last())) by {
                    if t.contains(s.last()) {
                        let k = choose|k: int| 0 <= k < t.len() && t[k] == s.last();
                        assert(s[k] == s[s.len() - 1]);
                    }
                }
                assert(!r.contains(s.last()));
                let w = r.push(s.last());
                assert forall|i: int, j: int| 0 <= i < w.len() && 0 <= j < w.len() && i != j implies w[i]
                    != w[j] by {
                    if i == r.len() {
                        assert(w[j] == r[j]);
                    } else if j == r.len() {
                        assert(w[i] == r[i]);
                    } else {
                        assert(w[i] == r[i] && w[j] == r[j]);
                    }
                }
            }
        }
    }
}

/// The first directory entry of pane `p`.
pub open spec fn first_entry(d: Seq<CandView>, p: Seq<char>) -> int {
    choose|k: int| 0 <= k < d.len() && d[k].1 == p && forall|j: int| 0 <= j < k ==> d[j].1 != p
}

proof fn lemma_first_entry(d: Seq<CandView>, p: Seq<char>, k: int)
    requires
        0 <= k < d.len(),
        d[k].1 == p,
        forall|j: int| 0 <= j < k ==> d[j].1 != p,
    ensures
        first_entry(d, p) == k,
{
    let f = first_entry(d, p);
    assert(0 <= f < d.len() && d[f].1 == p && forall|j: int| 0 <= j < f ==> d[j].1 != p);
    if f < k {
        assert(d[f].1 != p);
    }
    if k < f {
        assert(d[k].1 != p);
    }
}

/// Index of the first directory entry of pane `pane_id`, if any.
fn directory_entry(directory: &[(String, String, String)], pane_id: &str) -> (r: Option<usize>)
    ensures
        r is None <==> !dir_has_pane(dir_view(directory@), pane_id@),
        r matches Some(k) ==> k < directory@.len() && first_entry(dir_view(directory@), pane_id@)
            == k,
{
    let ghost d = dir_view(directory@);
    let mut i: usize = 0;
    while i < directory.len()
        invariant
            i <= directory@.len(),
            d == dir_view(directory@),
            forall|j: int| 0 <= j < i ==> (#[trigger] d[j]).1 != pane_id@,
        decreases directory@.len() - i,
    {
        if str_eq(directory[i].1.as_str(), pane_id) {
            proof {
                lemma_first_entry(d, pane_id@, i as int);
            }
            return Some(i);
        }
        i = i + 1;
    }
    assert(!dir_has_pane(d, pane_id@)) by {
        if dir_has_pane(d, pane_id@) {
            let k = choose|k: int| 0 <= k < d.len() && (#[trigger] d[k]).1 == pane_id@;
            assert(d[k].1 != pane_id@);
        }
    }
    None
}

/// The workspace a sender is stamped with: that of its directory entry;
/// none for an external sender.
pub open spec fn sender_workspace_view(d: Seq<CandView>, sender: Option<Seq<char>>) -> Option<
    Seq<char>,
> {
    match sender {
        Some(s) => if dir_has_pane(d, s) {
            Some(d[first_entry(d, s)].0)
        } else {
            None
        },
        None => None,
    }
}

/// The label a sender is stamped with: its directory entry's label, or
/// `external` for an external sender.
pub open spec fn sender_label_view(d: Seq<CandView>, sender: Option<Seq<char>>) -> Seq<char> {
    match sender {
        Some(s) => if dir_has_pane(d, s) {
            d[first_entry(d, s)].2
        } else {
            Seq::empty()
        },
        None => "external"@,
    }
}

/// The workspace and label of the sender, from the directory.
fn sender_identity(directory: &[(String, String, String)], sender: &Option<String>) -> (r: (
    Option<String>,
    String,
))
    ensures
        opt_view(r.0) == sender_workspace_view(dir_view(directory@), opt_view(*sender)),
        r.1@ == sender_label_view(dir_view(directory@), opt_view(*sender)),
{
    match sender {
        Some(s) => match directory_entry(directory, s.as_str()) {
            Some(k) => (Some(directory[k].0.clone()), directory[k].2.clone()),
            None => (None, String::new()),
        },
        None => (None, "external".to_owned()),
    }
}

/// The message a send stores; each inbox stamps its own seq on it.
pub open spec fn outgoing(
    params: MsgSendParams,
    sender_workspace: Option<String>,
    from_label: String,
    timestamp: String,
) -> StoredMsg {
    StoredMsg {
        seq: 0,
        from_pane_id: params.sender_pane_id,
        from_workspace_id: sender_workspace,
        from_label,
        to: params.target,
        body: params.body,
        timestamp,
    }
}

/// The view of an optional string.
pub open spec fn opt_view(o: Option<String>) -> Option<Seq<char>> {
    match o {
        Some(s) => Some(s@),
        None => None,
    }
}

/// A send of `params` took the bus from `b0` to `b1` and answered `r`: a
/// given sender id that names no pane of the directory, a body over the
/// limit, a target that does not parse and one that does not resolve
/// (a pane-id target naming no pane is `PaneNotFound`) are refused, in
/// this order, and change nothing; otherwise every recipient
/// gets one copy of the message, and the answer lists the recipients, the
/// seq each copy received, and the message with the first recipient's
/// seq (no message when there is no recipient).
pub open spec fn send_spec(
    b0: MsgBus,
    b1: MsgBus,
    params: MsgSendParams,
    sender_workspace: Option<String>,
    from_label: String,
    timestamp: String,
    d: Seq<(Seq<char>, Seq<char>, Seq<char>)>,
    r: Result<(MsgSendResult, Vec<u64>), SendError>,
) -> bool {
    let msg = outgoing(params, sender_workspace, from_label, timestamp);
    if params.sender_pane_id is Some && !dir_has_pane(d, params.sender_pane_id->Some_0@) {
        &&& r matches Err(SendError::UnknownSender(s)) && s@ == params.sender_pane_id->Some_0@
        &&& b1 == b0
    } else if body_len(msg) > MAX_MESSAGE_BODY_BYTES {
        &&& r == Err::<(MsgSendResult, Vec<u64>), SendError>(SendError::MessageTooLarge)
        &&& b1 == b0
    } else {
        match parse_target_spec(params.target@) {
            Err(e) => {
                &&& r matches Err(SendError::InvalidTarget(err)) && err@ == e
                &&& b1 == b0
            },
            Ok(t) => match resolve_spec(b0, t, opt_view(sender_workspace), d) {
                Err(e) => {
                    &&& if t is PaneId && e is NotFound {
                        r matches Err(SendError::PaneNotFound(p)) && p@ == params.target@
                    } else {
                        r matches Err(SendError::Resolve(err)) && err@ == e
                    }
                    &&& b1 == b0
                },
                Ok(ids) => {
                    let rec = recipients(ids, t, opt_view(params.sender_pane_id));
                    &&& r matches Ok((res, seqs)) && {
                        &&& views(res.delivered_to@) == rec
                        &&& seqs@.len() == rec.len()
                        &&& forall|i: int|
                            0 <= i < rec.len() ==> #[trigger] seqs@[i] == inbox_or_fresh(
                                b0.inbox(rec[i]),
                            ).next_seq
                        &&& if rec.len() == 0 {
                            res.message is None
                        } else {
                            res.message == Some(
                                MsgInfo {
                                    seq: seqs@[0],
                                    from_pane_id: msg.from_pane_id,
                                    from_workspace_id: msg.from_workspace_id,
                                    from_label: msg.from_label,
                                    to: msg.to,
                                    body: msg.body,
                                    timestamp: msg.timestamp,
                                },
                            )
                        }
                    }
                    &&& same_members(b0, b1)
                    &&& forall|p: Seq<char>| #[trigger]
                        b1.inbox(p) == if rec.contains(p) {
                            Some(after_delivery(inbox_or_fresh(b0.inbox(p)), msg))
                        } else {
                            b0.inbox(p)
                        }
                },
            },
        }
    }
}

/// Sends a message: checks the body size, parses and resolves the
/// target, drops the sender from an `@all` fan-out, and delivers one copy
/// to each recipient. `sender_workspace` and `from_label` are the sender's
/// workspace id and label (both looked up by the caller); `timestamp` is
/// stamped on every copy.
#[verifier::spinoff_prover]
#[verifier::rlimit(40)]
pub fn send_message(
    bus: &mut MsgBus,
    params: MsgSendParams,
    sender_workspace: Option<String>,
    from_label: String,
    timestamp: String,
    directory: &[(String, String, String)],
) -> (r: Result<(MsgSendResult, Vec<u64>), SendError>)
    requires
        old(bus).wf(),
    ensures
        final(bus).wf(),
        send_spec(
            *old(bus),
            *final(bus),
            params,
            sender_workspace,
            from_label,
            timestamp,
            dir_view(directory@),
            r,
        ),
{
    let ghost msg = outgoing(params, sender_workspace, from_label, timestamp);
    if let Some(sender) = &params.sender_pane_id {
        if directory_entry(directory, sender.as_str()).is_none() {
            return Err(SendError::UnknownSender(sender.clone()));
        }
    }
    let n = params.body.as_str().len();
    if n > MAX_MESSAGE_BODY_BYTES {
        return Err(SendError::MessageTooLarge);
    }
    let target = match MsgBus::parse_target(params.target.as_str()) {
        Ok(t) => t,
        Err(e) => {
            return Err(SendError::InvalidTarget(e));
        },
    };
    let ws: Option<&str> = match &sender_workspace {
        Some(w) => Some(w.as_str()),
        None => None,
    };
    let resolved = match bus.resolve(&target, ws, directory) {
        Ok(v) => v,
        Err(e) => {
            if let MsgTarget::PaneId(p) = &target {
                if let ResolveError::NotFound = &e {
                    return Err(SendError::PaneNotFound(p.clone()));
                }
            }
            return Err(SendError::Resolve(e));
        },
    };
    let ghost ids = views(resolved@);
    proof {
        match target@ {
            TargetView::Group(_) => {
                crate::laws::law_sorted_lists_have_no_repeats(ids);
            },
            TargetView::All => {
                crate::laws::law_sorted_lists_have_no_repeats(ids);
            },
            _ => {
                assert(ids.len() == 1);
            },
        }
    }
    let is_all = match &target {
        MsgTarget::All => true,
        _ => false,
    };
    let mut rec: Vec<String> = Vec::new();
    match (&params.sender_pane_id, is_all) {
        (Some(sender), true) => {
            let mut i: usize = 0;
            while i < resolved.len()
                invariant
                    i <= resolved@.len(),
                    ids == views(resolved@),
                    views(rec@) == without(ids.take(i as int), sender@),
                decreases resolved@.len() - i,
            {
                assert(ids.take(i + 1).drop_last() =~= ids.take(i as int));
                if !str_eq(resolved[i].as_str(), sender.as_str()) {
                    rec.push(resolved[i].clone());
                    assert(views(rec@) =~= without(ids.take(i as int), sender@).push(ids[i as int]));
                }
                i = i + 1;
            }
            assert(ids.take(i as int) =~= ids);
            proof {
                lemma_without(ids, sender@);
            }
        },
        _ => {
            rec = resolved;
        },
    }
    let ghost rv = views(rec@);
    assert(rv == recipients(ids, target@, opt_view(params.sender_pane_id)));
    let ghost b0 = *bus;
    let mut seqs: Vec<u64> = Vec::new();
    let mut i: usize = 0;
    while i < rec.len()
        invariant
            i <= rec@.len(),
            rv == views(rec@),
            rv.no_duplicates(),
            bus.wf(),
            seqs@.len() == i,
            forall|j: int| 0 <= j < i ==> #[trigger] seqs@[j] == inbox_or_fresh(b0.inbox(rv[j])).next_seq,
            same_members(b0, *bus),
            forall|p: Seq<char>| #[trigger]
                bus.inbox(p) == if rv.take(i as int).contains(p) {
                    Some(after_delivery(inbox_or_fresh(b0.inbox(p)), msg))
                } else {
                    b0.inbox(p)
                },
            msg == outgoing(params, sender_workspace, from_label, timestamp),
            body_len(msg) <= MAX_MESSAGE_BODY_BYTES,
        decreases rec@.len() - i,
    {
        let pane = rec[i].as_str();
        let seq = bus.next_seq(pane);
        assert(!rv.take(i as int).contains(rv[i as int])) by {
            if rv.take(i as int).contains(rv[i as int]) {
                let k = choose|k: int| 0 <= k < i && #[trigger] rv.take(i as int)[k] == rv[i as int];
                assert(rv[k] == rv[i as int]);
            }
        }
        let m = StoredMsg {
            seq,
            from_pane_id: clone_opt_string(&params.sender_pane_id),
            from_workspace_id: clone_opt_string(&sender_workspace),
            from_label: from_label.clone(),
            to: params.target.clone(),
            body: params.body.clone(),
            timestamp: timestamp.clone(),
        };
        assert(body_len(m) == body_len(msg));
        let ghost bb = *bus;
        let _ = bus.deliver(pane, m);
        proof {
            assert forall|p: Seq<char>| #[trigger]
                bus.inbox(p) == if rv.take(i + 1).contains(p) {
                    Some(after_delivery(inbox_or_fresh(b0.inbox(p)), msg))
                } else {
                    b0.inbox(p)
                } by {
                assert(rv.take(i + 1) =~= rv.take(i as int).push(rv[i as int]));
                if p == rv[i as int] {
                    assert(rv.take(i + 1)[i as int] == p);
                    assert(after_delivery(inbox_or_fresh(b0.inbox(p)), m) == after_delivery(
                        inbox_or_fresh(b0.inbox(p)),
                        msg,
                    ));
                } else {
                    if rv.take(i + 1).contains(p) {
                        let k = choose|k: int| 0 <= k < i + 1 && #[trigger] rv.take(i + 1)[k] == p;
                        assert(rv.take(i as int)[k] == p);
                    }
                    if rv.take(i as int).contains(p) {
                        let k = choose|k: int| 0 <= k < i && #[trigger] rv.take(i as int)[k] == p;
                        assert(rv.take(i + 1)[k] == p);
                    }
                }
            }
        }
        seqs.push(seq);
        i = i + 1;
    }
    assert(rv.take(i as int) =~= rv);
    let message = if rec.len() == 0 {
        None
    } else {
        Some(
            MsgInfo {
                seq: seqs[0],
                from_pane_id: params.sender_pane_id,
                from_workspace_id: sender_workspace,
                from_label,
                to: params.target,
                body: params.body,
                timestamp,
            },
        )
    };
    Ok((MsgSendResult { delivered_to: rec, message }, seqs))
}

/// The current UTC time in RFC 3339 form: `time::OffsetDateTime::now_utc()`
/// formatted with `time::format_description::well_known::Rfc3339`, `None`
/// when formatting fails. Nothing is stated of the text: it is the clock's
/// reading.
#[verifier::external_body]
fn utc_now_rfc3339() -> (r: Option<String>) {
    match time::OffsetDateTime::now_utc().format(&time::format_description::well_known::Rfc3339) {
        Ok(s) => Some(s),
        Err(_) => None,
    }
}

/// Handles `msg.send`: stamps the sender's workspace and label from the
/// directory (`external` for a send without a sender id) and the server
/// clock (a fixed date when the clock cannot be formatted), and sends as
/// [`send_message`] does.
pub fn handle_msg_send(
    bus: &mut MsgBus,
    params: MsgSendParams,
    directory: &[(String, String, String)],
) -> (r: Result<(MsgSendResult, Vec<u64>), SendError>)
    requires
        old(bus).wf(),
    ensures
        final(bus).wf(),
        exists|timestamp: String, sender_workspace: Option<String>, from_label: String|
            {
                &&& opt_view(sender_workspace) == sender_workspace_view(
                    dir_view(directory@),
                    opt_view(params.sender_pane_id),
                )
                &&& from_label@ == sender_label_view(
                    dir_view(directory@),
                    opt_view(params.sender_pane_id),
                )
                &&& send_spec(
                    *old(bus),
                    *final(bus),
                    params,
                    sender_workspace,
                    from_label,
                    timestamp,
                    dir_view(directory@),
                    r,
                )
            },
{
    let (sender_workspace, from_label) = sender_identity(directory, &params.sender_pane_id);
    let timestamp = match utc_now_rfc3339() {
        Some(t) => t,
        None => "2026-07-18T00:00:00Z".to_owned(),
    };
    let ghost ts = timestamp;
    let ghost ws = sender_workspace;
    let ghost fl = from_label;
    let r = send_message(bus, params, sender_workspace, from_label, timestamp, directory);
    assert(send_spec(*old(bus), *bus, params, ws, fl, ts, dir_view(directory@), r));
    r
}

/// The API form of a stored message.
pub open spec fn info_of(m: StoredMsg) -> MsgInfo {
    MsgInfo {
        seq: m.seq,
        from_pane_id: m.from_pane_id,
        from_workspace_id: m.from_workspace_id,
        from_label: m.from_label,
        to: m.to,
        body: m.body,
        timestamp: m.timestamp,
    }
}

fn to_info(m: StoredMsg) -> (r: MsgInfo)
    ensures
        r == info_of(m),
{
    MsgInfo {
        seq: m.seq,
        from_pane_id: m.from_pane_id,
        from_workspace_id: m.from_workspace_id,
        from_label: m.from_label,
        to: m.to,
        body: m.body,
        timestamp: m.timestamp,
    }
}

/// Handles `msg.list` for a known pane: a pure listing of its inbox
/// (`include_read` defaults to true).
pub fn handle_msg_list(bus: &MsgBus, params: MsgListParams) -> (r: MsgListResult)
    requires
        bus.wf(),
    ensures
        ({
            let include_read = match params.include_read {
                Some(b) => b,
                None => true,
            };
            match bus.inbox(params.pane_id@) {
                None => r.messages@.len() == 0 && r.unread == 0 && r.dropped == 0 && r.ack_seq == 0,
                Some(ib) => {
                    &&& r.messages@ == select_msgs(
                        ib.messages,
                        params.after_seq,
                        include_read,
                        ib.ack_seq,
                    ).map_values(|m: StoredMsg| info_of(m))
                    &&& r.unread == count_unread(ib.messages, ib.ack_seq)
                    &&& r.dropped == ib.dropped
                    &&& r.ack_seq == ib.ack_seq
                },
            }
        }),
{
    let include_read = match params.include_read {
        Some(b) => b,
        None => true,
    };
    let (messages, unread, dropped, ack_seq) = bus.list(
        params.pane_id.as_str(),
        params.after_seq,
        include_read,
    );
    let ghost ms = messages@;
    let mut infos: Vec<MsgInfo> = Vec::new();
    let mut rest = messages;
    let mut taken: usize = 0;
    let n = rest.len();
    while rest.len() > 0
        invariant
            taken + rest@.len() == n,
            n == ms.len(),
            rest@ == ms.skip(taken as int),
            infos@ == ms.take(taken as int).map_values(|m: StoredMsg| info_of(m)),
        decreases rest@.len(),
    {
        let m = rest.remove(0);
        infos.push(to_info(m));
        assert(ms.take(taken + 1) =~= ms.take(taken as int).push(ms[taken as int]));
        assert(infos@ =~= ms.take(taken + 1).map_values(|m: StoredMsg| info_of(m)));
        taken = taken + 1;
        assert(rest@ =~= ms.skip(taken as int));
    }
    assert(ms.take(taken as int) =~= ms);
    MsgListResult { messages: infos, unread, dropped, ack_seq }
}

/// Handles `msg.ack` for a known pane.
pub fn handle_msg_ack(bus: &mut MsgBus, params: MsgAckParams) -> (r: MsgAckResult)
    requires
        old(bus).wf(),
    ensures
        final(bus).wf(),
        acked_pane(*old(bus), *final(bus), params.pane_id@, params.up_to_seq),
        r.ack_seq == match old(bus).inbox(params.pane_id@) {
            None => 0,
            Some(ib) => acked(ib, params.up_to_seq).ack_seq,
        },
{
    let ack_seq = bus.ack(params.pane_id.as_str(), params.up_to_seq);
    MsgAckResult { ack_seq }
}

/// Handles `msg.group_join` for a known pane; answers the pane's groups.
pub fn handle_msg_group_join(bus: &mut MsgBus, params: MsgGroupJoinParams) -> (r: Result<
    MsgGroupResult,
    MsgError,
>)
    requires
        old(bus).wf(),
    ensures
        final(bus).wf(),
        !valid_group_name(params.group@) ==> {
            &&& r matches Err(MsgError::InvalidGroupName(s)) && s@ == params.group@
            &&& *final(bus) == *old(bus)
        },
        valid_group_name(params.group@) ==> {
            &&& joined(*old(bus), *final(bus), params.group@, params.pane_id@)
            &&& r matches Ok(g) && sorted_strict(views(g.groups@)) && forall|h: Seq<char>|
                #[trigger] views(g.groups@).contains(h) <==> final(bus).is_member(
                    h,
                    params.pane_id@,
                )
        },
{
    match bus.group_join(params.pane_id.as_str(), params.group.as_str()) {
        Ok(groups) => Ok(MsgGroupResult { groups }),
        Err(e) => Err(e),
    }
}

/// Handles `msg.group_leave` for a known pane; answers the pane's
/// remaining groups.
pub fn handle_msg_group_leave(bus: &mut MsgBus, params: MsgGroupLeaveParams) -> (r: Result<
    MsgGroupResult,
    MsgError,
>)
    requires
        old(bus).wf(),
    ensures
        final(bus).wf(),
        !valid_group_name(params.group@) ==> {
            &&& r matches Err(MsgError::InvalidGroupName(s)) && s@ == params.group@
            &&& *final(bus) == *old(bus)
        },
        valid_group_name(params.group@) ==> {
            &&& left_group(*old(bus), *final(bus), params.group@, params.pane_id@)
            &&& r matches Ok(g) && sorted_strict(views(g.groups@)) && forall|h: Seq<char>|
                #[trigger] views(g.groups@).contains(h) <==> final(bus).is_member(
                    h,
                    params.pane_id@,
                )
        },
{
    match bus.group_leave(params.pane_id.as_str(), params.group.as_str()) {
        Ok(groups) => Ok(MsgGroupResult { groups }),
        Err(e) => Err(e),
    }
}

} // verus!
