//! Properties of the message bus that span several operations.

use vstd::prelude::*;
use crate::bus::{
    acked, after_delivery, dir_has_pane, inbox_or_fresh, all_word, body_len, capped, count_unread, delivered, fresh_inbox,
    inbox_view_ok, is_public_pane_id_spec, joined, left_group, newest, over_caps,
    pane_removed, parse_target_spec, rekeyed, resolve_spec, same_inboxes, same_members,
    keep_msg, sat_add, sat_inc, select_msgs, total_bytes, valid_group_name, CandView, InboxView, MsgBus,
    ResolveErrorView, StoredMsg, TargetView, MAX_INBOX_BODY_BYTES, MAX_MESSAGE_BODY_BYTES,
};
use crate::order::{sorted_strict, sorted_listing, sorted_insert, lemma_sorted_insert, lemma_sorted_listing, lemma_lt_order};

verus! {

/// An ack at or behind the cursor changes nothing.
pub proof fn law_ack_behind_cursor_is_noop(ib: InboxView, up_to_seq: u64)
    requires
        up_to_seq <= ib.ack_seq,
    ensures
        acked(ib, up_to_seq) == ib,
{
}

/// The ack cursor never moves backwards, and it only moves forward as far
/// as the newest message.
pub proof fn law_ack_is_monotone_and_clamped(ib: InboxView, up_to_seq: u64)
    ensures
        acked(ib, up_to_seq).ack_seq >= ib.ack_seq,
        acked(ib, up_to_seq).ack_seq == ib.ack_seq || acked(ib, up_to_seq).ack_seq <= newest(
            ib.messages,
        ),
        acked(ib, up_to_seq).ack_seq <= up_to_seq || acked(ib, up_to_seq).ack_seq == ib.ack_seq,
        acked(ib, up_to_seq).messages == ib.messages,
        acked(ib, up_to_seq).next_seq == ib.next_seq,
        acked(ib, up_to_seq).dropped == ib.dropped,
{
}

proof fn lemma_no_unread(s: Seq<StoredMsg>, ack: u64)
    requires
        forall|i: int| 0 <= i < s.len() ==> (#[trigger] s[i]).seq <= ack,
    ensures
        count_unread(s, ack) == 0,
    decreases s.len(),
{
    if s.len() > 0 {
        assert(s.last() == s[s.len() - 1]);
        lemma_no_unread(s.drop_last(), ack);
    }
}

/// Acking up to (or past) the newest seq leaves nothing unread.
pub proof fn law_ack_through_newest_reads_all(ib: InboxView, up_to_seq: u64)
    requires
        inbox_view_ok(ib),
        up_to_seq >= newest(ib.messages),
    ensures
        count_unread(ib.messages, acked(ib, up_to_seq).ack_seq) == 0,
{
    let s = ib.messages;
    let a = acked(ib, up_to_seq).ack_seq;
    assert forall|i: int| 0 <= i < s.len() implies (#[trigger] s[i]).seq <= a by {
        if i < s.len() - 1 {
            assert(s[i].seq < s[s.len() - 1].seq || s[s.len() - 1].seq == u64::MAX);
        }
    }
    lemma_no_unread(s, a);
}

/// The unread count is the number of messages an unread-only listing
/// shows.
pub proof fn law_unread_counts_unread_listing(s: Seq<StoredMsg>, ack: u64)
    ensures
        count_unread(s, ack) == select_msgs(s, None, false, ack).len(),
    decreases s.len(),
{
    if s.len() > 0 {
        law_unread_counts_unread_listing(s.drop_last(), ack);
    }
}

/// Listing everything (read messages included, no `after_seq`) shows the
/// whole inbox.
pub proof fn law_full_listing_is_whole_inbox(s: Seq<StoredMsg>, ack: u64)
    ensures
        select_msgs(s, None, true, ack) == s,
    decreases s.len(),
{
    if s.len() > 0 {
        law_full_listing_is_whole_inbox(s.drop_last(), ack);
        assert(s.drop_last().push(s.last()) =~= s);
    }
}

proof fn lemma_capped_prop(s: Seq<StoredMsg>)
    ensures
        !over_caps(capped(s)) || capped(s).len() == 0,
    decreases s.len(),
{
    if s.len() > 0 && over_caps(s) {
        lemma_capped_prop(s.drop_first());
    }
}

proof fn lemma_capped_is_suffix(s: Seq<StoredMsg>)
    ensures
        capped(s).len() <= s.len(),
        capped(s) == s.skip(s.len() - capped(s).len()),
    decreases s.len(),
{
    if s.len() > 0 && over_caps(s) {
        lemma_capped_is_suffix(s.drop_first());
        assert(s.drop_first().skip(s.drop_first().len() - capped(s).len()) =~= s.skip(
            s.len() - capped(s).len(),
        ));
    } else {
        assert(s.skip(0) =~= s);
    }
}

proof fn lemma_capped_keeps_newest(s: Seq<StoredMsg>)
    requires
        s.len() > 0,
        body_len(s.last()) <= MAX_INBOX_BODY_BYTES,
    ensures
        capped(s).len() > 0,
        capped(s).last() == s.last(),
    decreases s.len(),
{
    if s.len() > 0 && over_caps(s) {
        if s.len() == 1 {
            assert(s.drop_first().len() == 0);
            assert(total_bytes(s) == body_len(s[0]) + total_bytes(s.drop_first()));
        }
        lemma_capped_keeps_newest(s.drop_first());
    }
}

/// A delivered message (within the body limit) becomes the newest message
/// of the inbox, carrying the seq the inbox was about to hand out; the
/// counter moves on; only the oldest messages are ever dropped, each one
/// counted; and the inbox ends within both caps.
pub proof fn law_delivery(ib: InboxView, msg: StoredMsg)
    requires
        body_len(msg) <= MAX_MESSAGE_BODY_BYTES,
    ensures
        ({
            let stamped = StoredMsg { seq: ib.next_seq, ..msg };
            let appended = ib.messages.push(stamped);
            let r = after_delivery(ib, msg);
            &&& r.messages.len() > 0
            &&& r.messages.last() == stamped
            &&& newest(r.messages) == ib.next_seq
            &&& r.next_seq == sat_inc(ib.next_seq)
            &&& r.ack_seq == ib.ack_seq
            &&& r.messages == appended.skip(appended.len() - r.messages.len())
            &&& r.dropped == sat_add(ib.dropped, (appended.len() - r.messages.len()) as nat)
            &&& !over_caps(r.messages)
        }),
{
    let stamped = StoredMsg { seq: ib.next_seq, ..msg };
    let appended = ib.messages.push(stamped);
    lemma_capped_keeps_newest(appended);
    lemma_capped_is_suffix(appended);
    lemma_capped_prop(appended);
}

/// Joining a group twice is the same as joining it once.
pub proof fn law_join_is_idempotent(
    b0: MsgBus,
    b1: MsgBus,
    b2: MsgBus,
    group: Seq<char>,
    pane: Seq<char>,
)
    requires
        joined(b0, b1, group, pane),
        joined(b1, b2, group, pane),
    ensures
        same_members(b1, b2),
        same_inboxes(b1, b2),
{
    assert forall|g: Seq<char>, q: Seq<char>| #[trigger] b2.is_member(g, q) == b1.is_member(g, q) by {
        assert(b2.is_member(g, q) == (b1.is_member(g, q) || (g == group && q == pane)));
        assert(b1.is_member(g, q) == (b0.is_member(g, q) || (g == group && q == pane)));
    }
}

/// Leaving a group undoes joining it, for a pane that was not a member.
pub proof fn law_leave_undoes_join(
    b0: MsgBus,
    b1: MsgBus,
    b2: MsgBus,
    group: Seq<char>,
    pane: Seq<char>,
)
    requires
        !b0.is_member(group, pane),
        joined(b0, b1, group, pane),
        left_group(b1, b2, group, pane),
    ensures
        same_members(b0, b2),
        same_inboxes(b0, b2),
{
    assert forall|g: Seq<char>, q: Seq<char>| #[trigger] b2.is_member(g, q) == b0.is_member(g, q) by {
        assert(b2.is_member(g, q) == (b1.is_member(g, q) && !(g == group && q == pane)));
        assert(b1.is_member(g, q) == (b0.is_member(g, q) || (g == group && q == pane)));
    }
    assert forall|p: Seq<char>| #[trigger] b2.inbox(p) == b0.inbox(p) by {
        assert(b2.inbox(p) == b1.inbox(p));
        assert(b1.inbox(p) == b0.inbox(p));
    }
}

/// When the last member leaves a group, the group is gone: resolving it
/// is an empty-group error.
pub proof fn law_last_leave_removes_group(
    b0: MsgBus,
    b1: MsgBus,
    group: Seq<char>,
    pane: Seq<char>,
    sender_ws: Option<Seq<char>>,
    d: Seq<CandView>,
)
    requires
        forall|q: Seq<char>| #[trigger] b0.is_member(group, q) ==> q == pane,
        left_group(b0, b1, group, pane),
    ensures
        resolve_spec(b1, TargetView::Group(group), sender_ws, d) == Err::<
            Seq<Seq<char>>,
            ResolveErrorView,
        >(ResolveErrorView::EmptyGroup(group)),
{
    assert forall|q: Seq<char>| !b1.is_member(group, q) by {
        assert(b1.is_member(group, q) == (b0.is_member(group, q) && !(q == pane)));
    }
}

/// A pane id that is reused after its pane was torn down starts with a
/// fresh inbox: no old messages, seqs from 1, no acks.
pub proof fn law_reused_pane_id_starts_fresh(
    b0: MsgBus,
    b1: MsgBus,
    b2: MsgBus,
    pane: Seq<char>,
    msg: StoredMsg,
)
    requires
        pane_removed(b0, b1, pane),
        delivered(b1, b2, pane, msg),
    ensures
        b2.inbox(pane) == Some(after_delivery(fresh_inbox(), msg)),
{
    assert(b1.inbox(pane) is None);
}

/// Re-keying a pane and then re-keying it back restores the bus, when the
/// new id held no state.
pub proof fn law_rekey_back_restores(
    b0: MsgBus,
    b1: MsgBus,
    b2: MsgBus,
    old_id: Seq<char>,
    new_id: Seq<char>,
)
    requires
        old_id != new_id,
        b0.inbox(new_id) is None,
        forall|g: Seq<char>| !#[trigger] b0.is_member(g, new_id),
        rekeyed(b0, b1, old_id, new_id),
        rekeyed(b1, b2, new_id, old_id),
    ensures
        same_inboxes(b0, b2),
        same_members(b0, b2),
{
    assert forall|p: Seq<char>| #[trigger] b2.inbox(p) == b0.inbox(p) by {
        assert(b1.inbox(old_id) is None);
        assert(b1.inbox(new_id) == b0.inbox(old_id));
        assert(b1.inbox(p) == if p == new_id {
            b0.inbox(old_id)
        } else if p == old_id {
            None
        } else {
            b0.inbox(p)
        });
    }
    assert forall|g: Seq<char>, q: Seq<char>| #[trigger] b2.is_member(g, q) == b0.is_member(g, q) by {
        assert(b1.is_member(g, new_id) == b0.is_member(g, old_id));
        assert(!b1.is_member(g, old_id));
        assert(b1.is_member(g, q) == if q == new_id {
            b0.is_member(g, old_id)
        } else if q == old_id {
            false
        } else {
            b0.is_member(g, q)
        });
        assert(!b0.is_member(g, new_id));
    }
}

/// A strictly sorted list (a group's members, `@all`'s panes) names no
/// pane twice.
pub proof fn law_sorted_lists_have_no_repeats(s: Seq<Seq<char>>)
    requires
        sorted_strict(s),
    ensures
        s.no_duplicates(),
{
    lemma_lt_order();
    assert forall|i: int, j: int| 0 <= i < s.len() && 0 <= j < s.len() && i != j implies s[i]
        != s[j] by {
        if i < j {
            assert(crate::order::str_lt(s[i], s[j]));
        } else {
            assert(crate::order::str_lt(s[j], s[i]));
        }
    }
}

/// A group target names a nonempty group without `/`, other than `all`.
pub proof fn law_group_target_names(e: Seq<char>)
    ensures
        parse_target_spec(e) matches Ok(TargetView::Group(g)) ==> g.len() > 0 && !g.contains('/')
            && g != all_word() && e == seq!['@'] + g,
{
    match parse_target_spec(e) {
        Ok(TargetView::Group(g)) => {
            assert(e =~= seq!['@'] + g);
        },
        _ => {},
    }
}

/// A bare-label target is the whole expression, nonempty, with no `/`,
/// not starting with `@`, and not a pane id.
pub proof fn law_label_targets_are_addressable(e: Seq<char>)
    ensures
        parse_target_spec(e) matches Ok(TargetView::Label(l)) ==> {
            &&& l == e
            &&& l.len() > 0
            &&& !l.contains('/')
            &&& l[0] != '@'
            &&& !is_public_pane_id_spec(l)
        },
{
}

/// A qualified target splits the expression at its one `/` into a
/// nonempty workspace id and a nonempty label not starting with `@`.
pub proof fn law_qualified_targets_split_at_slash(e: Seq<char>)
    ensures
        parse_target_spec(e) matches Ok(TargetView::Qualified(ws, l)) ==> {
            &&& e == ws + seq!['/'] + l
            &&& ws.len() > 0
            &&& !ws.contains('/')
            &&& l.len() > 0
            &&& !l.contains('/')
            &&& l[0] != '@'
        },
{
    match parse_target_spec(e) {
        Ok(TargetView::Qualified(ws, l)) => {
            crate::text::lemma_first_pos_exists(e, '/');
            let k = crate::text::first_pos(e, '/');
            assert(e =~= ws + seq!['/'] + l);
            if ws.contains('/') {
                let j = choose|j: int| 0 <= j < ws.len() && ws[j] == '/';
                assert(e[j] == '/');
            }
        },
        _ => {},
    }
}

/// A canonical public pane id always parses as a pane id.
pub proof fn law_pane_ids_parse_as_pane_ids(e: Seq<char>)
    requires
        is_public_pane_id_spec(e),
    ensures
        parse_target_spec(e) == Ok::<TargetView, ResolveErrorView>(TargetView::PaneId(e)),
{
    crate::text::lemma_first_pos_exists(e, ':');
    let k = crate::text::first_pos(e, ':');
    assert(e.take(k)[0] == e[0]);
}

/// A broadcast never reaches its sender: when a pane sends to `@all` and
/// the send succeeds, the sender is not among the recipients and its own
/// inbox is left as it was.
pub proof fn law_broadcast_skips_sender(
    b0: MsgBus,
    b1: MsgBus,
    params: crate::schema::MsgSendParams,
    sender_workspace: Option<String>,
    from_label: String,
    timestamp: String,
    d: Seq<CandView>,
    r: Result<(crate::schema::MsgSendResult, Vec<u64>), crate::api::SendError>,
)
    requires
        crate::api::send_spec(b0, b1, params, sender_workspace, from_label, timestamp, d, r),
        parse_target_spec(params.target@) == Ok::<TargetView, ResolveErrorView>(TargetView::All),
        params.sender_pane_id is Some,
        r is Ok,
    ensures
        !crate::text::views(r->Ok_0.0.delivered_to@).contains(params.sender_pane_id->Some_0@),
        b1.inbox(params.sender_pane_id->Some_0@) == b0.inbox(params.sender_pane_id->Some_0@),
        forall|q: Seq<char>| #[trigger]
            crate::text::views(r->Ok_0.0.delivered_to@).contains(q) <==> dir_has_pane(d, q) && q
                != params.sender_pane_id->Some_0@,
{
    let x = params.sender_pane_id->Some_0@;
    let ids = resolve_spec(b0, TargetView::All, crate::api::opt_view(sender_workspace), d)->Ok_0;
    let t = lemma_dir_listing(d);
    lemma_sorted_listing(t, |q: Seq<char>| dir_has_pane(d, q));
    assert(ids == t);
    crate::api::lemma_without(ids, x);
}

/// A strictly sorted list of the panes of directory `d`.
proof fn lemma_dir_listing(d: Seq<CandView>) -> (t: Seq<Seq<char>>)
    ensures
        sorted_strict(t),
        forall|q: Seq<char>| #[trigger] t.contains(q) <==> dir_has_pane(d, q),
    decreases d.len(),
{
    if d.len() == 0 {
        let t = Seq::<Seq<char>>::empty();
        assert forall|q: Seq<char>| #[trigger] t.contains(q) <==> dir_has_pane(d, q) by {}
        t
    } else {
        let e = d.drop_last();
        let r = lemma_dir_listing(e);
        let x = d.last().1;
        lemma_sorted_insert(r, x);
        let t = sorted_insert(r, x);
        assert forall|q: Seq<char>| #[trigger] t.contains(q) <==> dir_has_pane(d, q) by {
            if dir_has_pane(d, q) {
                let i = choose|i: int| 0 <= i < d.len() && (#[trigger] d[i]).1 == q;
                if i < e.len() {
                    assert(e[i] == d[i]);
                    assert(dir_has_pane(e, q));
                }
            }
            if dir_has_pane(e, q) {
                let i = choose|i: int| 0 <= i < e.len() && (#[trigger] e[i]).1 == q;
                assert(d[i] == e[i]);
            }
            if q == x {
                assert(d[d.len() - 1].1 == q);
            }
        }
        t
    }
}

/// A listing without `after_seq` shows every unread message; so when a
/// plain `msg read` acknowledges up to the highest seq it showed, it
/// marks nothing read that it did not show. (With `after_seq`, unread
/// messages at or below it are not shown, which is why a read with
/// `--after` never acknowledges.)
pub proof fn law_plain_listing_shows_every_unread(s: Seq<StoredMsg>, include_read: bool, ack: u64)
    ensures
        forall|i: int|
            0 <= i < s.len() && #[trigger] s[i].seq > ack ==> select_msgs(
                s,
                None,
                include_read,
                ack,
            ).contains(s[i]),
    decreases s.len(),
{
    if s.len() > 0 {
        let t = s.drop_last();
        law_plain_listing_shows_every_unread(t, include_read, ack);
        let r = select_msgs(t, None, include_read, ack);
        assert forall|i: int| 0 <= i < s.len() && #[trigger] s[i].seq > ack implies select_msgs(
            s,
            None,
            include_read,
            ack,
        ).contains(s[i]) by {
            if i < s.len() - 1 {
                assert(t[i] == s[i]);
                assert(r.contains(s[i]));
                if keep_msg(s.last(), None, include_read, ack) {
                    let k = choose|k: int| 0 <= k < r.len() && r[k] == s[i];
                    assert(r.push(s.last())[k] == s[i]);
                }
            } else {
                assert(r.push(s.last())[r.len() as int] == s[i]);
            }
        }
    }
}

/// Seqs are numbered per inbox from 1, one after another: until the
/// counter reaches `u64::MAX`, the next seq of a pane is one more than the
/// messages it holds plus those the caps dropped, the held messages carry
/// the seqs just below it in order, and the ack cursor is below it; a
/// pane without an inbox hands out 1 next.
pub proof fn law_seqs_are_numbered_per_inbox(bus: MsgBus, p: Seq<char>)
    requires
        bus.wf(),
    ensures
        bus.inbox(p) is None ==> inbox_or_fresh(bus.inbox(p)).next_seq == 1,
        bus.inbox(p) matches Some(ib) ==> (ib.next_seq < u64::MAX ==> {
            &&& ib.next_seq == 1 + ib.messages.len() + ib.dropped
            &&& forall|i: int|
                0 <= i < ib.messages.len() ==> #[trigger] ib.messages[i].seq == ib.next_seq
                    - ib.messages.len() + i
            &&& ib.ack_seq < ib.next_seq
        }),
{
    if bus.inbox(p) is Some {
        bus.law_inboxes_keep_caps_and_seq_order(p);
    }
}

/// A send to `@group` reaches exactly the group's current members, in
/// sorted order, whether or not the sender is one of them (only an `@all`
/// send leaves the sender out), and every member's inbox receives one copy
/// of the message.
pub proof fn law_group_send_reaches_every_member(
    b0: MsgBus,
    b1: MsgBus,
    params: crate::schema::MsgSendParams,
    sender_workspace: Option<String>,
    from_label: String,
    timestamp: String,
    d: Seq<CandView>,
    r: Result<(crate::schema::MsgSendResult, Vec<u64>), crate::api::SendError>,
    g: Seq<char>,
)
    requires
        crate::api::send_spec(b0, b1, params, sender_workspace, from_label, timestamp, d, r),
        parse_target_spec(params.target@) == Ok::<TargetView, ResolveErrorView>(TargetView::Group(g)),
        r is Ok,
    ensures
        sorted_strict(crate::text::views(r->Ok_0.0.delivered_to@)),
        forall|q: Seq<char>|
            crate::text::views(r->Ok_0.0.delivered_to@).contains(q) <==> #[trigger] b0.is_member(g, q),
        forall|q: Seq<char>|
            b0.is_member(g, q) ==> #[trigger] b1.inbox(q) == Some(
                after_delivery(
                    inbox_or_fresh(b0.inbox(q)),
                    crate::api::outgoing(params, sender_workspace, from_label, timestamp),
                ),
            ),
{
    b0.lemma_members_listing(g);
    let rec = crate::text::views(r->Ok_0.0.delivered_to@);
    assert(rec == sorted_listing(|q: Seq<char>| b0.is_member(g, q)));
    assert forall|q: Seq<char>| b0.is_member(g, q) implies #[trigger] b1.inbox(q) == Some(
        after_delivery(
            inbox_or_fresh(b0.inbox(q)),
            crate::api::outgoing(params, sender_workspace, from_label, timestamp),
        ),
    ) by {
        assert(rec.contains(q));
    }
}

/// The answer to a send that reached anyone carries the message with the
/// seq stamped in the first recipient's inbox: the next seq that inbox
/// had before the send.
pub proof fn law_send_answers_first_recipients_seq(
    b0: MsgBus,
    b1: MsgBus,
    params: crate::schema::MsgSendParams,
    sender_workspace: Option<String>,
    from_label: String,
    timestamp: String,
    d: Seq<CandView>,
    r: Result<(crate::schema::MsgSendResult, Vec<u64>), crate::api::SendError>,
)
    requires
        crate::api::send_spec(b0, b1, params, sender_workspace, from_label, timestamp, d, r),
        r is Ok,
        r->Ok_0.0.delivered_to@.len() > 0,
    ensures
        r->Ok_0.0.message matches Some(m) && m.seq == inbox_or_fresh(
            b0.inbox(r->Ok_0.0.delivered_to@[0]@),
        ).next_seq,
        r->Ok_0.1@.len() == r->Ok_0.0.delivered_to@.len(),
        forall|k: int|
            0 <= k < r->Ok_0.1@.len() ==> #[trigger] r->Ok_0.1@[k] == inbox_or_fresh(
                b0.inbox(r->Ok_0.0.delivered_to@[k]@),
            ).next_seq,
{
    let rec = crate::text::views(r->Ok_0.0.delivered_to@);
    assert(rec[0] == r->Ok_0.0.delivered_to@[0]@);
    assert forall|k: int| 0 <= k < r->Ok_0.1@.len() implies #[trigger] r->Ok_0.1@[k]
        == inbox_or_fresh(b0.inbox(r->Ok_0.0.delivered_to@[k]@)).next_seq by {
        assert(rec[k] == r->Ok_0.0.delivered_to@[k]@);
    }
}

/// A listing shows only inbox messages that pass both filters together:
/// with `include_read` false none at or below the ack cursor, and with
/// `after_seq = Some(n)` none at or below `n`, whatever the other filter
/// is; and every inbox message that passes both is shown.
pub proof fn law_listing_filters_apply_together(
    s: Seq<StoredMsg>,
    after_seq: Option<u64>,
    include_read: bool,
    ack: u64,
)
    ensures
        forall|k: int|
            0 <= k < select_msgs(s, after_seq, include_read, ack).len() ==> s.contains(
                #[trigger] select_msgs(s, after_seq, include_read, ack)[k],
            ),
        forall|k: int|
            0 <= k < select_msgs(s, after_seq, include_read, ack).len() && !include_read
                ==> #[trigger] select_msgs(s, after_seq, include_read, ack)[k].seq > ack,
        forall|k: int|
            0 <= k < select_msgs(s, after_seq, include_read, ack).len() ==> (after_seq matches Some(
                n,
            ) ==> #[trigger] select_msgs(s, after_seq, include_read, ack)[k].seq > n),
        forall|i: int|
            0 <= i < s.len() && (include_read || s[i].seq > ack) && (after_seq matches Some(n)
                ==> s[i].seq > n) ==> select_msgs(s, after_seq, include_read, ack).contains(
                #[trigger] s[i],
            ),
    decreases s.len(),
{
    if s.len() > 0 {
        let t = s.drop_last();
        law_listing_filters_apply_together(t, after_seq, include_read, ack);
        let r = select_msgs(t, after_seq, include_read, ack);
        let sel = select_msgs(s, after_seq, include_read, ack);
        assert forall|k: int| 0 <= k < sel.len() implies s.contains(#[trigger] sel[k]) && (
        !include_read ==> sel[k].seq > ack) && (after_seq matches Some(n) ==> sel[k].seq > n) by {
            if k < r.len() {
                assert(sel[k] == r[k]);
                assert(t.contains(r[k]));
                let j = choose|j: int| 0 <= j < t.len() && t[j] == r[k];
                assert(s[j] == t[j]);
            } else {
                assert(sel[k] == s.last());
                assert(s[s.len() - 1] == s.last());
            }
        }
        assert forall|i: int|
            0 <= i < s.len() && (include_read || s[i].seq > ack) && (after_seq matches Some(n)
                ==> s[i].seq > n) implies sel.contains(#[trigger] s[i]) by {
            if i < s.len() - 1 {
                assert(t[i] == s[i]);
                assert(r.contains(s[i]));
                if keep_msg(s.last(), after_seq, include_read, ack) {
                    let k = choose|k: int| 0 <= k < r.len() && r[k] == s[i];
                    assert(r.push(s.last())[k] == s[i]);
                }
            } else {
                assert(r.push(s.last())[r.len() as int] == s[i]);
            }
        }
    }
}

} // verus!
