//! Server-side message bus: per-pane inboxes, label addressing, groups.
//!
//! Pure state: the caller stamps timestamps, supplies the live pane
//! directory and drops the sender from `@all` deliveries.

use vstd::prelude::*;
use vstd::utf8::encode_utf8;
use crate::text::views;
use crate::order::{sorted_strict, sorted_listing, lemma_sorted_listing, str_eq, insert_sorted};

verus! {

/// Most messages an inbox keeps (oldest dropped first).
pub const MAX_INBOX_MESSAGES: usize = 500;

/// Most body bytes an inbox keeps in all (oldest dropped first).
pub const MAX_INBOX_BODY_BYTES: usize = 4 * 1024 * 1024;

/// Largest body a single message may have.
pub const MAX_MESSAGE_BODY_BYTES: usize = 64 * 1024;

/// One delivered message stored in a pane inbox.
#[derive(Debug, PartialEq, Eq)]
pub struct StoredMsg {
    pub seq: u64,
    pub from_pane_id: Option<String>,
    pub from_workspace_id: Option<String>,
    pub from_label: String,
    pub to: String,
    pub body: String,
    /// RFC 3339 UTC, supplied by the caller.
    pub timestamp: String,
}

/// A copy of an optional string.
pub fn clone_opt_string(o: &Option<String>) -> (r: Option<String>)
    ensures
        r == *o,
{
    match o {
        Some(s) => Some(s.clone()),
        None => None,
    }
}

impl Clone for StoredMsg {
    fn clone(&self) -> (r: Self)
        ensures
            r == *self,
    {
        StoredMsg {
            seq: self.seq,
            from_pane_id: clone_opt_string(&self.from_pane_id),
            from_workspace_id: clone_opt_string(&self.from_workspace_id),
            from_label: self.from_label.clone(),
            to: self.to.clone(),
            body: self.body.clone(),
            timestamp: self.timestamp.clone(),
        }
    }
}

/// Bytes of a message body (its UTF-8 length).
pub open spec fn body_len(m: StoredMsg) -> int {
    (encode_utf8(m.body@).len() as usize) as int
}

/// Bytes of all the bodies in `s`.
pub open spec fn total_bytes(s: Seq<StoredMsg>) -> int
    decreases s.len(),
{
    if s.len() == 0 {
        0
    } else {
        body_len(s[0]) + total_bytes(s.drop_first())
    }
}

/// `s` breaks an inbox cap.
pub open spec fn over_caps(s: Seq<StoredMsg>) -> bool {
    s.len() > MAX_INBOX_MESSAGES || total_bytes(s) > MAX_INBOX_BODY_BYTES
}

/// `s` with the oldest messages dropped until both caps hold.
pub open spec fn capped(s: Seq<StoredMsg>) -> Seq<StoredMsg>
    decreases s.len(),
{
    if s.len() > 0 && over_caps(s) {
        capped(s.drop_first())
    } else {
        s
    }
}

/// Number of messages in `s` with a seq past `ack`.
pub open spec fn count_unread(s: Seq<StoredMsg>, ack: u64) -> nat
    decreases s.len(),
{
    if s.len() == 0 {
        0
    } else {
        count_unread(s.drop_last(), ack) + if s.last().seq > ack {
            1nat
        } else {
            0nat
        }
    }
}

/// Seq of the newest message, 0 when there is none.
pub open spec fn newest(s: Seq<StoredMsg>) -> u64 {
    if s.len() == 0 {
        0
    } else {
        s.last().seq
    }
}

/// `n + 1`, stuck at `u64::MAX`.
pub open spec fn sat_inc(n: u64) -> u64 {
    if n == u64::MAX {
        n
    } else {
        (n + 1) as u64
    }
}

/// `a + b`, stuck at `u64::MAX`.
pub open spec fn sat_add(a: u64, b: nat) -> u64 {
    if a + b > u64::MAX {
        u64::MAX
    } else {
        (a + b) as u64
    }
}

/// The abstract state of one pane's inbox.
pub struct InboxView {
    pub messages: Seq<StoredMsg>,
    /// Seq the next delivered message will receive.
    pub next_seq: u64,
    /// Highest acked seq; messages with a seq above it are unread.
    pub ack_seq: u64,
    /// How many messages the caps have dropped.
    pub dropped: u64,
}

/// The inbox of a pane that has never received anything.
pub open spec fn fresh_inbox() -> InboxView {
    InboxView { messages: Seq::empty(), next_seq: 1, ack_seq: 0, dropped: 0 }
}

/// `ib` after `msg` is delivered into it: the message gets `ib.next_seq`,
/// is appended, and the oldest messages are dropped until the caps hold.
pub open spec fn after_delivery(ib: InboxView, msg: StoredMsg) -> InboxView {
    let stamped = StoredMsg { seq: ib.next_seq, ..msg };
    let appended = ib.messages.push(stamped);
    let kept = capped(appended);
    InboxView {
        messages: kept,
        next_seq: sat_inc(ib.next_seq),
        ack_seq: ib.ack_seq,
        dropped: sat_add(ib.dropped, (appended.len() - kept.len()) as nat),
    }
}

/// Seqs grow along the inbox (they only repeat once the counter is stuck
/// at `u64::MAX`) and stay below the next seq to hand out.
pub open spec fn seqs_ordered(s: Seq<StoredMsg>, next_seq: u64) -> bool {
    &&& next_seq >= 1
    &&& forall|i: int| 0 <= i < s.len() ==> 1 <= #[trigger] s[i].seq
    &&& forall|i: int| 0 <= i < s.len() ==> #[trigger] s[i].seq < next_seq || next_seq == u64::MAX
    &&& forall|i: int, j: int|
        0 <= i < j < s.len() ==> #[trigger] s[i].seq < #[trigger] s[j].seq || s[j].seq == u64::MAX
}

/// Until the seq counter reaches `u64::MAX`: every seq handed out so far
/// is held or counted as dropped (`next_seq == 1 + len + dropped`), the
/// held seqs are consecutive and end just below `next_seq`, and the ack
/// cursor is below `next_seq`.
pub open spec fn seqs_numbered(ib: InboxView) -> bool {
    ib.next_seq < u64::MAX ==> {
        &&& ib.next_seq == 1 + ib.messages.len() + ib.dropped
        &&& forall|i: int|
            0 <= i < ib.messages.len() ==> #[trigger] ib.messages[i].seq == ib.next_seq
                - ib.messages.len() + i
        &&& ib.ack_seq < ib.next_seq
    }
}

/// Every stored inbox keeps its caps and numbers its seqs in order.
pub open spec fn inbox_view_ok(ib: InboxView) -> bool {
    &&& !over_caps(ib.messages)
    &&& seqs_ordered(ib.messages, ib.next_seq)
    &&& seqs_numbered(ib)
}

/// The message-list filter: `after_seq` keeps seqs above it, and unless
/// `include_read` only unread messages are kept.
pub open spec fn keep_msg(m: StoredMsg, after_seq: Option<u64>, include_read: bool, ack: u64) -> bool {
    &&& match after_seq {
        Some(n) => m.seq > n,
        None => true,
    }
    &&& include_read || m.seq > ack
}

/// The messages of `s` that pass [`keep_msg`], in order.
pub open spec fn select_msgs(
    s: Seq<StoredMsg>,
    after_seq: Option<u64>,
    include_read: bool,
    ack: u64,
) -> Seq<StoredMsg>
    decreases s.len(),
{
    if s.len() == 0 {
        Seq::empty()
    } else {
        let r = select_msgs(s.drop_last(), after_seq, include_read, ack);
        if keep_msg(s.last(), after_seq, include_read, ack) {
            r.push(s.last())
        } else {
            r
        }
    }
}

/// `ib` after an ack up to `up_to_seq`: the cursor moves to `up_to_seq`
/// clamped to the newest seq, and never backwards.
pub open spec fn acked(ib: InboxView, up_to_seq: u64) -> InboxView {
    let clamped = if up_to_seq < newest(ib.messages) {
        up_to_seq
    } else {
        newest(ib.messages)
    };
    InboxView { ack_seq: if clamped > ib.ack_seq { clamped } else { ib.ack_seq }, ..ib }
}

/// The inbox, or a fresh one when there is none.
pub open spec fn inbox_or_fresh(o: Option<InboxView>) -> InboxView {
    match o {
        Some(ib) => ib,
        None => fresh_inbox(),
    }
}

proof fn lemma_ordered_push(s: Seq<StoredMsg>, next_seq: u64, m: StoredMsg)
    requires
        seqs_ordered(s, next_seq),
        m.seq == next_seq,
    ensures
        seqs_ordered(s.push(m), sat_inc(next_seq)),
{
    let t = s.push(m);
    assert forall|i: int, j: int| 0 <= i < j < t.len() implies #[trigger] t[i].seq
        < #[trigger] t[j].seq || t[j].seq == u64::MAX by {
        if j == s.len() {
            assert(t[i] == s[i]);
        } else {
            assert(t[i] == s[i] && t[j] == s[j]);
        }
    }
    assert forall|i: int| 0 <= i < t.len() implies #[trigger] t[i].seq < sat_inc(next_seq)
        || sat_inc(next_seq) == u64::MAX by {
        if i < s.len() {
            assert(t[i] == s[i]);
        }
    }
    assert forall|i: int| 0 <= i < t.len() implies 1 <= #[trigger] t[i].seq by {
        if i < s.len() {
            assert(t[i] == s[i]);
        }
    }
}

proof fn lemma_numbered_after_delivery(ib: InboxView, msg: StoredMsg)
    requires
        seqs_numbered(ib),
    ensures
        seqs_numbered(after_delivery(ib, msg)),
{
    let nb = after_delivery(ib, msg);
    if ib.next_seq < u64::MAX - 1 {
        let stamped = StoredMsg { seq: ib.next_seq, ..msg };
        let appended = ib.messages.push(stamped);
        let kept = capped(appended);
        lemma_capped_suffix(appended);
        let cut = appended.len() - kept.len();
        assert(nb.dropped == ib.dropped + cut);
        assert forall|i: int| 0 <= i < kept.len() implies #[trigger] kept[i].seq == nb.next_seq
            - kept.len() + i by {
            assert(kept[i] == appended[i + cut]);
            if i + cut < ib.messages.len() {
                assert(appended[i + cut] == ib.messages[i + cut]);
            }
        }
    }
}

proof fn lemma_numbered_acked(ib: InboxView, up_to_seq: u64)
    requires
        seqs_numbered(ib),
    ensures
        seqs_numbered(acked(ib, up_to_seq)),
{
    if ib.next_seq < u64::MAX && ib.messages.len() > 0 {
        assert(ib.messages[ib.messages.len() - 1].seq == ib.next_seq - 1);
    }
}

proof fn lemma_ordered_skip(s: Seq<StoredMsg>, next_seq: u64, k: int)
    requires
        seqs_ordered(s, next_seq),
        0 <= k <= s.len(),
    ensures
        seqs_ordered(s.skip(k), next_seq),
{
    let t = s.skip(k);
    assert forall|i: int, j: int| 0 <= i < j < t.len() implies #[trigger] t[i].seq
        < #[trigger] t[j].seq || t[j].seq == u64::MAX by {
        assert(t[i] == s[i + k] && t[j] == s[j + k]);
    }
    assert forall|i: int| 0 <= i < t.len() implies #[trigger] t[i].seq < next_seq || next_seq
        == u64::MAX by {
        assert(t[i] == s[i + k]);
    }
    assert forall|i: int| 0 <= i < t.len() implies 1 <= #[trigger] t[i].seq by {
        assert(t[i] == s[i + k]);
    }
}

/// Parsed form of a message target expression.
#[derive(Debug, PartialEq, Eq)]
pub enum MsgTarget {
    PaneId(String),
    Qualified { workspace_id: String, label: String },
    Label(String),
    Group(String),
    All,
}

/// Resolution failure for a target expression or directory lookup.
#[derive(Debug, PartialEq, Eq)]
pub enum ResolveError {
    NotFound,
    /// Candidates as `(workspace_id, label, pane_id)`.
    Ambiguous(Vec<(String, String, String)>),
    Unaddressable(String),
    EmptyGroup(String),
}

/// Delivery and group-mutation errors.
#[derive(Debug, PartialEq, Eq)]
pub enum MsgError {
    MessageTooLarge,
    InvalidGroupName(String),
}

struct Inbox {
    messages: Vec<StoredMsg>,
    next_seq: u64,
    ack_seq: u64,
    dropped: u64,
    total_body_bytes: usize,
}

impl Inbox {
    spec fn view(&self) -> InboxView {
        InboxView {
            messages: self.messages@,
            next_seq: self.next_seq,
            ack_seq: self.ack_seq,
            dropped: self.dropped,
        }
    }

    spec fn wf(&self) -> bool {
        &&& self.total_body_bytes == total_bytes(self.messages@)
        &&& inbox_view_ok(self.view())
    }

    fn new() -> (r: Self)
        ensures
            r.wf(),
            r.view() == fresh_inbox(),
    {
        let r = Inbox {
            messages: Vec::new(),
            next_seq: 1,
            ack_seq: 0,
            dropped: 0,
            total_body_bytes: 0,
        };
        assert(r.view().messages =~= Seq::<StoredMsg>::empty());
        r
    }

    fn unread(&self) -> (r: u64)
        requires
            self.wf(),
        ensures
            r == count_unread(self.messages@, self.ack_seq),
    {
        let mut count: u64 = 0;
        let mut i: usize = 0;
        while i < self.messages.len()
            invariant
                i <= self.messages@.len(),
                self.messages@.len() <= MAX_INBOX_MESSAGES,
                count == count_unread(self.messages@.take(i as int), self.ack_seq),
                count <= i,
            decreases self.messages@.len() - i,
        {
            assert(self.messages@.take(i + 1).drop_last() =~= self.messages@.take(i as int));
            if self.messages[i].seq > self.ack_seq {
                count = count + 1;
            }
            i = i + 1;
        }
        assert(self.messages@.take(i as int) =~= self.messages@);
        count
    }

    fn newest_seq(&self) -> (r: u64)
        ensures
            r == newest(self.messages@),
    {
        if self.messages.len() == 0 {
            0
        } else {
            self.messages[self.messages.len() - 1].seq
        }
    }

    fn drop_oldest(&mut self)
        requires
            old(self).total_body_bytes == total_bytes(old(self).messages@),
            old(self).messages@.len() > 0,
        ensures
            final(self).messages@ == old(self).messages@.drop_first(),
            final(self).total_body_bytes == total_bytes(final(self).messages@),
            final(self).dropped == sat_add(old(self).dropped, 1),
            final(self).next_seq == old(self).next_seq,
            final(self).ack_seq == old(self).ack_seq,
    {
        let old_msg = self.messages.remove(0);
        assert(self.messages@ =~= old(self).messages@.drop_first());
        let n = old_msg.body.as_str().len();
        proof {
            lemma_total_nonneg(self.messages@);
        }
        self.total_body_bytes = self.total_body_bytes - n;
        self.dropped = self.dropped.saturating_add(1);
    }

    fn enforce_caps(&mut self)
        requires
            old(self).total_body_bytes == total_bytes(old(self).messages@),
        ensures
            final(self).messages@ == capped(old(self).messages@),
            final(self).total_body_bytes == total_bytes(final(self).messages@),
            final(self).dropped == sat_add(
                old(self).dropped,
                (old(self).messages@.len() - final(self).messages@.len()) as nat,
            ),
            final(self).next_seq == old(self).next_seq,
            final(self).ack_seq == old(self).ack_seq,
            !over_caps(final(self).messages@) || final(self).messages@.len() == 0,
    {
        let ghost start = self.messages@;
        let ghost d0 = self.dropped;
        while self.messages.len() > 0 && (self.messages.len() > MAX_INBOX_MESSAGES
            || self.total_body_bytes > MAX_INBOX_BODY_BYTES)
            invariant
                self.total_body_bytes == total_bytes(self.messages@),
                capped(self.messages@) == capped(start),
                self.messages@.len() <= start.len(),
                self.dropped == sat_add(d0, (start.len() - self.messages@.len()) as nat),
                self.next_seq == old(self).next_seq,
                self.ack_seq == old(self).ack_seq,
                start == old(self).messages@,
                d0 == old(self).dropped,
            decreases self.messages@.len(),
        {
            self.drop_oldest();
        }
    }
}

proof fn lemma_total_nonneg(s: Seq<StoredMsg>)
    ensures
        total_bytes(s) >= 0,
    decreases s.len(),
{
    if s.len() > 0 {
        lemma_total_nonneg(s.drop_first());
    }
}

proof fn lemma_total_push(s: Seq<StoredMsg>, m: StoredMsg)
    ensures
        total_bytes(s.push(m)) == total_bytes(s) + body_len(m),
    decreases s.len(),
{
    let t = s.push(m);
    assert(t[0] == if s.len() == 0 { m } else { s[0] });
    if s.len() == 0 {
        assert(t.drop_first() =~= Seq::<StoredMsg>::empty());
        assert(total_bytes(t.drop_first()) == 0);
    } else {
        lemma_total_push(s.drop_first(), m);
        assert(t.drop_first() =~= s.drop_first().push(m));
    }
}

proof fn lemma_capped_suffix(s: Seq<StoredMsg>)
    ensures
        capped(s).len() <= s.len(),
        capped(s) == s.skip(s.len() - capped(s).len()),
    decreases s.len(),
{
    if s.len() > 0 && over_caps(s) {
        lemma_capped_suffix(s.drop_first());
        assert(s.drop_first().skip(s.drop_first().len() - capped(s).len()) =~= s.skip(
            s.len() - capped(s).len(),
        ));
    } else {
        assert(s.skip(0) =~= s);
    }
}

/// A message within the body cap survives the caps on its own: the newest
/// message is never dropped.
proof fn lemma_capped_keeps_last(s: Seq<StoredMsg>)
    requires
        s.len() > 0,
        body_len(s.last()) <= MAX_INBOX_BODY_BYTES,
    ensures
        capped(s).len() > 0,
        capped(s).last() == s.last(),
    decreases s.len(),
{
    if s.len() > 0 && over_caps(s) {
        if s.len() == 1 {
            assert(s.drop_first().len() == 0);
            assert(total_bytes(s) == body_len(s[0]) + total_bytes(s.drop_first()));
            assert(false);
        }
        lemma_capped_keeps_last(s.drop_first());
    }
}

} // verus!

verus! {

/// Lookup in a list of `(pane id, inbox)` entries.
spec fn lookup(s: Seq<(String, Inbox)>, p: Seq<char>) -> Option<InboxView> {
    if exists|i: int| 0 <= i < s.len() && (#[trigger] s[i]).0@ == p {
        Some(s[choose|i: int| 0 <= i < s.len() && (#[trigger] s[i]).0@ == p].1.view())
    } else {
        None
    }
}

spec fn keys_distinct(s: Seq<(String, Inbox)>) -> bool {
    forall|i: int, j: int| 0 <= i < j < s.len() ==> (#[trigger] s[i]).0@ != (#[trigger] s[j]).0@
}

spec fn all_wf(s: Seq<(String, Inbox)>) -> bool {
    forall|i: int| 0 <= i < s.len() ==> (#[trigger] s[i]).1.wf()
}

proof fn lemma_lookup_at(s: Seq<(String, Inbox)>, i: int)
    requires
        keys_distinct(s),
        0 <= i < s.len(),
    ensures
        lookup(s, s[i].0@) == Some(s[i].1.view()),
{
    let p = s[i].0@;
    assert(s[i].0@ == p);
    let j = choose|j: int| 0 <= j < s.len() && (#[trigger] s[j]).0@ == p;
    if j < i {
        assert(s[j].0@ != s[i].0@);
    }
    if i < j {
        assert(s[i].0@ != s[j].0@);
    }
}

proof fn lemma_lookup_some(s: Seq<(String, Inbox)>, p: Seq<char>)
    requires
        keys_distinct(s),
        lookup(s, p) is Some,
    ensures
        exists|i: int| 0 <= i < s.len() && (#[trigger] s[i]).0@ == p && lookup(s, p) == Some(
            s[i].1.view(),
        ),
{
    let i = choose|i: int| 0 <= i < s.len() && (#[trigger] s[i]).0@ == p;
    lemma_lookup_at(s, i);
}

proof fn lemma_lookup_update(s: Seq<(String, Inbox)>, i: int, e: (String, Inbox))
    requires
        keys_distinct(s),
        0 <= i < s.len(),
        e.0@ == s[i].0@,
    ensures
        keys_distinct(s.update(i, e)),
        forall|p: Seq<char>|
            #[trigger] lookup(s.update(i, e), p) == if p == e.0@ {
                Some(e.1.view())
            } else {
                lookup(s, p)
            },
{
    let t = s.update(i, e);
    assert forall|a: int, b: int| 0 <= a < b < t.len() implies (#[trigger] t[a]).0@ != (
    #[trigger] t[b]).0@ by {
        assert(s[a].0@ != s[b].0@);
    }
    assert forall|p: Seq<char>| #[trigger]
        lookup(t, p) == if p == e.0@ {
            Some(e.1.view())
        } else {
            lookup(s, p)
        } by {
        if p == e.0@ {
            lemma_lookup_at(t, i);
        } else {
            if exists|k: int| 0 <= k < s.len() && (#[trigger] s[k]).0@ == p {
                let k = choose|k: int| 0 <= k < s.len() && (#[trigger] s[k]).0@ == p;
                lemma_lookup_at(s, k);
                lemma_lookup_at(t, k);
            } else {
                assert forall|k: int| 0 <= k < t.len() implies (#[trigger] t[k]).0@ != p by {
                    assert(s[k].0@ != p);
                }
            }
        }
    }
}

proof fn lemma_lookup_push(s: Seq<(String, Inbox)>, e: (String, Inbox))
    requires
        keys_distinct(s),
        lookup(s, e.0@) is None,
    ensures
        keys_distinct(s.push(e)),
        forall|p: Seq<char>|
            #[trigger] lookup(s.push(e), p) == if p == e.0@ {
                Some(e.1.view())
            } else {
                lookup(s, p)
            },
{
    let t = s.push(e);
    assert forall|a: int, b: int| 0 <= a < b < t.len() implies (#[trigger] t[a]).0@ != (
    #[trigger] t[b]).0@ by {
        if b == s.len() {
            assert(t[a] == s[a]);
            assert(s[a].0@ != e.0@);
        } else {
            assert(s[a].0@ != s[b].0@);
        }
    }
    assert forall|p: Seq<char>| #[trigger]
        lookup(t, p) == if p == e.0@ {
            Some(e.1.view())
        } else {
            lookup(s, p)
        } by {
        if p == e.0@ {
            lemma_lookup_at(t, s.len() as int);
        } else {
            if exists|k: int| 0 <= k < s.len() && (#[trigger] s[k]).0@ == p {
                let k = choose|k: int| 0 <= k < s.len() && (#[trigger] s[k]).0@ == p;
                lemma_lookup_at(s, k);
                lemma_lookup_at(t, k);
            } else {
                assert forall|k: int| 0 <= k < t.len() implies (#[trigger] t[k]).0@ != p by {
                    if k < s.len() {
                        assert(s[k].0@ != p);
                    }
                }
            }
        }
    }
}

proof fn lemma_lookup_remove(s: Seq<(String, Inbox)>, i: int)
    requires
        keys_distinct(s),
        0 <= i < s.len(),
    ensures
        keys_distinct(s.remove(i)),
        forall|p: Seq<char>|
            #[trigger] lookup(s.remove(i), p) == if p == s[i].0@ {
                None
            } else {
                lookup(s, p)
            },
{
    let t = s.remove(i);
    assert forall|a: int, b: int| 0 <= a < b < t.len() implies (#[trigger] t[a]).0@ != (
    #[trigger] t[b]).0@ by {
        let a0 = if a < i { a } else { a + 1 };
        let b0 = if b < i { b } else { b + 1 };
        assert(t[a] == s[a0]);
        assert(t[b] == s[b0]);
        assert(s[a0].0@ != s[b0].0@);
    }
    assert forall|p: Seq<char>| #[trigger]
        lookup(t, p) == if p == s[i].0@ {
            None
        } else {
            lookup(s, p)
        } by {
        if p == s[i].0@ {
            assert forall|k: int| 0 <= k < t.len() implies (#[trigger] t[k]).0@ != p by {
                let k0 = if k < i { k } else { k + 1 };
                assert(t[k] == s[k0]);
                assert(s[k0].0@ != s[i].0@);
            }
        } else {
            if exists|k: int| 0 <= k < s.len() && (#[trigger] s[k]).0@ == p {
                let k = choose|k: int| 0 <= k < s.len() && (#[trigger] s[k]).0@ == p;
                assert(k != i);
                lemma_lookup_at(s, k);
                let k1 = if k < i { k } else { k - 1 };
                assert(t[k1] == s[k]);
                lemma_lookup_at(t, k1);
            } else {
                assert forall|k: int| 0 <= k < t.len() implies (#[trigger] t[k]).0@ != p by {
                    let k0 = if k < i { k } else { k + 1 };
                    assert(t[k] == s[k0]);
                }
            }
        }
    }
}

/// `(group, pane)` is one of the membership pairs in `s`.
spec fn rel_has(s: Seq<(String, String)>, g: Seq<char>, p: Seq<char>) -> bool {
    exists|i: int| 0 <= i < s.len() && (#[trigger] s[i]).0@ == g && s[i].1@ == p
}

/// A strictly sorted list of the members `rel_has` gives for `g`.
proof fn lemma_rel_listing(s: Seq<(String, String)>, g: Seq<char>) -> (t: Seq<Seq<char>>)
    ensures
        sorted_strict(t),
        forall|q: Seq<char>| #[trigger] t.contains(q) <==> rel_has(s, g, q),
    decreases s.len(),
{
    if s.len() == 0 {
        let t = Seq::<Seq<char>>::empty();
        assert forall|q: Seq<char>| #[trigger] t.contains(q) <==> rel_has(s, g, q) by {}
        t
    } else {
        let d = s.drop_last();
        let r = lemma_rel_listing(d, g);
        let e = s.last();
        assert forall|q: Seq<char>| #[trigger] rel_has(s, g, q) == (rel_has(d, g, q) || (e.0@ == g
            && e.1@ == q)) by {
            if rel_has(s, g, q) {
                let i = choose|i: int| 0 <= i < s.len() && (#[trigger] s[i]).0@ == g && s[i].1@ == q;
                if i < d.len() {
                    assert(d[i] == s[i]);
                }
            }
            if rel_has(d, g, q) {
                let i = choose|i: int| 0 <= i < d.len() && (#[trigger] d[i]).0@ == g && d[i].1@ == q;
                assert(s[i] == d[i]);
            }
            if e.0@ == g && e.1@ == q {
                assert(s[s.len() - 1] == e);
            }
        }
        if e.0@ == g {
            crate::order::lemma_sorted_insert(r, e.1@);
            crate::order::sorted_insert(r, e.1@)
        } else {
            r
        }
    }
}

/// `rel_has` over one more element of `s`.
proof fn lemma_rel_take_step(s: Seq<(String, String)>, i: int)
    requires
        0 <= i < s.len(),
    ensures
        forall|g: Seq<char>, q: Seq<char>| #[trigger]
            rel_has(s.take(i + 1), g, q) == (rel_has(s.take(i), g, q) || (s[i].0@ == g && s[i].1@
                == q)),
{
    assert forall|g: Seq<char>, q: Seq<char>| #[trigger]
        rel_has(s.take(i + 1), g, q) == (rel_has(s.take(i), g, q) || (s[i].0@ == g && s[i].1@
            == q)) by {
        let t = s.take(i + 1);
        let u = s.take(i);
        if rel_has(t, g, q) {
            let k = choose|k: int| 0 <= k < t.len() && (#[trigger] t[k]).0@ == g && t[k].1@ == q;
            if k < i {
                assert(u[k] == t[k]);
            }
        }
        if rel_has(u, g, q) {
            let k = choose|k: int| 0 <= k < u.len() && (#[trigger] u[k]).0@ == g && u[k].1@ == q;
            assert(t[k] == u[k]);
        }
        if s[i].0@ == g && s[i].1@ == q {
            assert(t[i] == s[i]);
        }
    }
}

/// `rel_has` after a push.
proof fn lemma_rel_push(s: Seq<(String, String)>, e: (String, String))
    ensures
        forall|g: Seq<char>, q: Seq<char>| #[trigger]
            rel_has(s.push(e), g, q) == (rel_has(s, g, q) || (e.0@ == g && e.1@ == q)),
{
    assert forall|g: Seq<char>, q: Seq<char>| #[trigger]
        rel_has(s.push(e), g, q) == (rel_has(s, g, q) || (e.0@ == g && e.1@ == q)) by {
        let t = s.push(e);
        if rel_has(t, g, q) {
            let k = choose|k: int| 0 <= k < t.len() && (#[trigger] t[k]).0@ == g && t[k].1@ == q;
            if k < s.len() {
                assert(s[k] == t[k]);
            }
        }
        if rel_has(s, g, q) {
            let k = choose|k: int| 0 <= k < s.len() && (#[trigger] s[k]).0@ == g && s[k].1@ == q;
            assert(t[k] == s[k]);
        }
        if e.0@ == g && e.1@ == q {
            assert(t[s.len() as int] == e);
        }
    }
}

/// `b1` has the inboxes of `b0`.
pub open spec fn same_inboxes(b0: MsgBus, b1: MsgBus) -> bool {
    forall|p: Seq<char>| #[trigger] b1.inbox(p) == b0.inbox(p)
}

/// `b1` has the group memberships of `b0`.
pub open spec fn same_members(b0: MsgBus, b1: MsgBus) -> bool {
    forall|g: Seq<char>, q: Seq<char>| #[trigger] b1.is_member(g, q) == b0.is_member(g, q)
}

/// `b1` is `b0` after `msg` was delivered to `pane`.
pub open spec fn delivered(b0: MsgBus, b1: MsgBus, pane: Seq<char>, msg: StoredMsg) -> bool {
    &&& same_members(b0, b1)
    &&& forall|p: Seq<char>| #[trigger]
        b1.inbox(p) == if p == pane {
            Some(after_delivery(inbox_or_fresh(b0.inbox(p)), msg))
        } else {
            b0.inbox(p)
        }
}

/// `b1` is `b0` after `pane` acked up to `up_to_seq`.
pub open spec fn acked_pane(b0: MsgBus, b1: MsgBus, pane: Seq<char>, up_to_seq: u64) -> bool {
    &&& same_members(b0, b1)
    &&& forall|p: Seq<char>| #[trigger]
        b1.inbox(p) == if p == pane {
            match b0.inbox(p) {
                Some(ib) => Some(acked(ib, up_to_seq)),
                None => None,
            }
        } else {
            b0.inbox(p)
        }
}

/// `b1` is `b0` after `pane` joined `group`.
pub open spec fn joined(b0: MsgBus, b1: MsgBus, group: Seq<char>, pane: Seq<char>) -> bool {
    &&& same_inboxes(b0, b1)
    &&& forall|g: Seq<char>, q: Seq<char>| #[trigger]
        b1.is_member(g, q) == (b0.is_member(g, q) || (g == group && q == pane))
}

/// `b1` is `b0` after `pane` left `group`.
pub open spec fn left_group(b0: MsgBus, b1: MsgBus, group: Seq<char>, pane: Seq<char>) -> bool {
    &&& same_inboxes(b0, b1)
    &&& forall|g: Seq<char>, q: Seq<char>| #[trigger]
        b1.is_member(g, q) == (b0.is_member(g, q) && !(g == group && q == pane))
}

/// `b1` is `b0` after the inbox and memberships of `pane` were torn down.
pub open spec fn pane_removed(b0: MsgBus, b1: MsgBus, pane: Seq<char>) -> bool {
    &&& forall|p: Seq<char>| #[trigger]
        b1.inbox(p) == if p == pane {
            None
        } else {
            b0.inbox(p)
        }
    &&& forall|g: Seq<char>, q: Seq<char>| #[trigger]
        b1.is_member(g, q) == (b0.is_member(g, q) && q != pane)
}

/// `b1` is `b0` after the state of `old_id` moved to `new_id`, whatever
/// `new_id` held being discarded.
pub open spec fn rekeyed(b0: MsgBus, b1: MsgBus, old_id: Seq<char>, new_id: Seq<char>) -> bool {
    &&& forall|p: Seq<char>| #[trigger]
        b1.inbox(p) == if p == new_id {
            b0.inbox(old_id)
        } else if p == old_id {
            None
        } else {
            b0.inbox(p)
        }
    &&& forall|g: Seq<char>, q: Seq<char>| #[trigger]
        b1.is_member(g, q) == if q == new_id {
            b0.is_member(g, old_id)
        } else if q == old_id {
            false
        } else {
            b0.is_member(g, q)
        }
}

/// Group names are nonempty, hold no `/` and do not begin with `@` (the
/// address-form sigil).
pub open spec fn valid_group_name(g: Seq<char>) -> bool {
    g.len() > 0 && !g.contains('/') && g[0] != '@'
}

/// Checks a group name; the error carries the name.
pub fn validate_group_name(group: &str) -> (r: Result<(), MsgError>)
    ensures
        valid_group_name(group@) ==> r is Ok,
        !valid_group_name(group@) ==> (r matches Err(MsgError::InvalidGroupName(s)) && s@ == group@),
{
    let v = crate::text::chars_of(group);
    if v.len() == 0 || crate::text::has_char(&v, '/') || v[0] == '@' {
        return Err(MsgError::InvalidGroupName(group.to_owned()));
    }
    Ok(())
}

/// In-memory message bus owned by the server.
///
/// `@all` resolution returns every pane id in the supplied directory; the
/// caller drops the sender's own pane from such a delivery.
pub struct MsgBus {
    /// pane id → inbox; no pane id occurs twice
    inboxes: Vec<(String, Inbox)>,
    /// (group name, member pane id) pairs; a group exists while it has a
    /// member
    members: Vec<(String, String)>,
}

impl MsgBus {
    /// The internal invariant: one inbox per pane id, every inbox within
    /// its caps.
    pub closed spec fn wf(&self) -> bool {
        &&& keys_distinct(self.inboxes@)
        &&& all_wf(self.inboxes@)
    }

    /// The inbox of pane `p`, if it has one.
    pub closed spec fn inbox(&self, p: Seq<char>) -> Option<InboxView> {
        lookup(self.inboxes@, p)
    }

    /// Pane `p` is a member of group `g`.
    pub closed spec fn is_member(&self, g: Seq<char>, p: Seq<char>) -> bool {
        rel_has(self.members@, g, p)
    }

    /// The sorted listing of a group's members lists exactly its members.
    pub proof fn lemma_members_listing(&self, g: Seq<char>)
        ensures
            sorted_strict(sorted_listing(|q: Seq<char>| self.is_member(g, q))),
            forall|q: Seq<char>|
                sorted_listing(|q: Seq<char>| self.is_member(g, q)).contains(q) <==> #[trigger] self.is_member(
                    g,
                    q,
                ),
    {
        let t = lemma_rel_listing(self.members@, g);
        lemma_sorted_listing(t, |q: Seq<char>| self.is_member(g, q));
    }

    /// Every stored inbox keeps its caps and numbers its seqs in order.
    pub proof fn law_inboxes_keep_caps_and_seq_order(&self, p: Seq<char>)
        requires
            self.wf(),
            self.inbox(p) is Some,
        ensures
            inbox_view_ok(self.inbox(p)->0),
    {
        lemma_lookup_some(self.inboxes@, p);
        let i = choose|i: int|
            0 <= i < self.inboxes@.len() && (#[trigger] self.inboxes@[i]).0@ == p && lookup(
                self.inboxes@,
                p,
            ) == Some(self.inboxes@[i].1.view());
        assert(self.inboxes@[i].1.wf());
    }

    /// An empty bus: no inbox and no group.
    pub fn new() -> (r: Self)
        ensures
            r.wf(),
            forall|p: Seq<char>| #[trigger] r.inbox(p) is None,
            forall|g: Seq<char>, p: Seq<char>| !#[trigger] r.is_member(g, p),
    {
        MsgBus { inboxes: Vec::new(), members: Vec::new() }
    }

    /// Index of the inbox of `p`.
    fn find_inbox(&self, p: &str) -> (r: Option<usize>)
        requires
            self.wf(),
        ensures
            r is None <==> self.inbox(p@) is None,
            r matches Some(i) ==> i < self.inboxes@.len() && self.inboxes@[i as int].0@ == p@
                && self.inbox(p@) == Some(self.inboxes@[i as int].1.view()),
    {
        let mut i: usize = 0;
        while i < self.inboxes.len()
            invariant
                self.wf(),
                i <= self.inboxes@.len(),
                forall|j: int| 0 <= j < i ==> (#[trigger] self.inboxes@[j]).0@ != p@,
            decreases self.inboxes@.len() - i,
        {
            if str_eq(self.inboxes[i].0.as_str(), p) {
                proof {
                    lemma_lookup_at(self.inboxes@, i as int);
                }
                return Some(i);
            }
            i = i + 1;
        }
        None
    }

    /// Unread count for a pane; 0 for a pane without an inbox.
    pub fn unread(&self, pane_id: &str) -> (r: u64)
        requires
            self.wf(),
        ensures
            r == match self.inbox(pane_id@) {
                Some(ib) => count_unread(ib.messages, ib.ack_seq),
                None => 0,
            },
    {
        match self.find_inbox(pane_id) {
            Some(i) => {
                assert(self.inboxes@[i as int].1.wf());
                self.inboxes[i].1.unread()
            },
            None => 0,
        }
    }

    /// Seq the next delivered message to this pane will receive.
    pub fn next_seq(&self, pane_id: &str) -> (r: u64)
        requires
            self.wf(),
        ensures
            r == match self.inbox(pane_id@) {
                Some(ib) => ib.next_seq,
                None => 1,
            },
    {
        match self.find_inbox(pane_id) {
            Some(i) => self.inboxes[i].1.next_seq,
            None => 1,
        }
    }

    /// Pure listing of a pane's inbox; never moves the ack cursor.
    ///
    /// Returns `(messages, unread, dropped, ack_seq)`: `after_seq: Some(n)`
    /// keeps only messages with a seq above `n`, `include_read: false` only
    /// the unread ones. A pane without an inbox lists as `([], 0, 0, 0)`.
    pub fn list(&self, pane_id: &str, after_seq: Option<u64>, include_read: bool) -> (r: (
        Vec<StoredMsg>,
        u64,
        u64,
        u64,
    ))
        requires
            self.wf(),
        ensures
            match self.inbox(pane_id@) {
                None => r.0@.len() == 0 && r.1 == 0 && r.2 == 0 && r.3 == 0,
                Some(ib) => {
                    &&& r.0@ == select_msgs(ib.messages, after_seq, include_read, ib.ack_seq)
                    &&& r.1 == count_unread(ib.messages, ib.ack_seq)
                    &&& r.2 == ib.dropped
                    &&& r.3 == ib.ack_seq
                },
            },
    {
        match self.find_inbox(pane_id) {
            None => (Vec::new(), 0, 0, 0),
            Some(k) => {
                let inbox = &self.inboxes[k].1;
                assert(inbox.wf());
                let mut out: Vec<StoredMsg> = Vec::new();
                let mut i: usize = 0;
                while i < inbox.messages.len()
                    invariant
                        i <= inbox.messages@.len(),
                        out@ == select_msgs(
                            inbox.messages@.take(i as int),
                            after_seq,
                            include_read,
                            inbox.ack_seq,
                        ),
                    decreases inbox.messages@.len() - i,
                {
                    assert(inbox.messages@.take(i + 1).drop_last() =~= inbox.messages@.take(
                        i as int,
                    ));
                    let m = &inbox.messages[i];
                    let after_ok = match after_seq {
                        Some(n) => m.seq > n,
                        None => true,
                    };
                    if after_ok && (include_read || m.seq > inbox.ack_seq) {
                        out.push(m.clone());
                    }
                    i = i + 1;
                }
                assert(inbox.messages@.take(i as int) =~= inbox.messages@);
                (out, inbox.unread(), inbox.dropped, inbox.ack_seq)
            },
        }
    }

    /// Advances the ack cursor to `up_to_seq`, clamped to the newest seq;
    /// a value behind the cursor changes nothing. Returns the new cursor,
    /// 0 for a pane without an inbox.
    pub fn ack(&mut self, pane_id: &str, up_to_seq: u64) -> (r: u64)
        requires
            old(self).wf(),
        ensures
            final(self).wf(),
            acked_pane(*old(self), *final(self), pane_id@, up_to_seq),
            r == match old(self).inbox(pane_id@) {
                None => 0,
                Some(ib) => acked(ib, up_to_seq).ack_seq,
            },
    {
        match self.find_inbox(pane_id) {
            None => 0,
            Some(i) => {
                let (key, mut inbox) = self.inboxes.remove(i);
                let newest_seq = inbox.newest_seq();
                let clamped = if up_to_seq < newest_seq {
                    up_to_seq
                } else {
                    newest_seq
                };
                if clamped > inbox.ack_seq {
                    inbox.ack_seq = clamped;
                }
                let r = inbox.ack_seq;
                let ghost e = (key, inbox);
                self.inboxes.insert(i, (key, inbox));
                proof {
                    assert(self.inboxes@ =~= old(self).inboxes@.update(i as int, e));
                    lemma_lookup_update(old(self).inboxes@, i as int, e);
                    assert(old(self).inboxes@[i as int].1.wf());
                    assert(e.1.view() == acked(old(self).inboxes@[i as int].1.view(), up_to_seq));
                    lemma_numbered_acked(old(self).inboxes@[i as int].1.view(), up_to_seq);
                    assert(all_wf(self.inboxes@)) by {
                        assert forall|j: int| 0 <= j < self.inboxes@.len() implies (
                        #[trigger] self.inboxes@[j]).1.wf() by {
                            if j != i {
                                assert(self.inboxes@[j] == old(self).inboxes@[j]);
                            }
                        }
                    }
                }
                r
            },
        }
    }

    /// Delivers `msg` into `pane_id`'s inbox, creating the inbox on first
    /// use. The message gets the inbox's next seq (its own seq is
    /// ignored); bodies over [`MAX_MESSAGE_BODY_BYTES`] are refused; the
    /// oldest messages are dropped while the inbox breaks a cap.
    pub fn deliver(&mut self, pane_id: &str, msg: StoredMsg) -> (r: Result<(), MsgError>)
        requires
            old(self).wf(),
        ensures
            final(self).wf(),
            body_len(msg) > MAX_MESSAGE_BODY_BYTES ==> {
                &&& r == Err::<(), MsgError>(MsgError::MessageTooLarge)
                &&& *final(self) == *old(self)
            },
            body_len(msg) <= MAX_MESSAGE_BODY_BYTES ==> {
                &&& r == Ok::<(), MsgError>(())
                &&& delivered(*old(self), *final(self), pane_id@, msg)
            },
    {
        let n = msg.body.as_str().len();
        if n > MAX_MESSAGE_BODY_BYTES {
            return Err(MsgError::MessageTooLarge);
        }
        let i = match self.find_inbox(pane_id) {
            Some(i) => i,
            None => {
                let ghost before = self.inboxes@;
                let e = (pane_id.to_owned(), Inbox::new());
                let ghost ge = e;
                self.inboxes.push(e);
                proof {
                    lemma_lookup_push(before, ge);
                    assert forall|j: int| 0 <= j < self.inboxes@.len() implies (
                    #[trigger] self.inboxes@[j]).1.wf() by {
                        if j < before.len() {
                            assert(self.inboxes@[j] == before[j]);
                        }
                    }
                }
                self.inboxes.len() - 1
            },
        };
        let ghost mid = self.inboxes@;
        assert(lookup(mid, pane_id@) == Some(mid[i as int].1.view()));
        let (key, mut inbox) = self.inboxes.remove(i);
        assert(inbox.wf());
        let ghost ib0 = inbox.view();
        let mut msg = msg;
        msg.seq = inbox.next_seq;
        let ghost stamped = msg;
        inbox.next_seq = inbox.next_seq.saturating_add(1);
        proof {
            lemma_total_push(inbox.messages@, msg);
            lemma_total_nonneg(inbox.messages@);
        }
        inbox.total_body_bytes = inbox.total_body_bytes + n;
        inbox.messages.push(msg);
        let ghost appended = inbox.messages@;
        proof {
            lemma_ordered_push(ib0.messages, ib0.next_seq, stamped);
        }
        inbox.enforce_caps();
        proof {
            lemma_numbered_after_delivery(ib0, stamped);
            lemma_capped_keeps_last(appended);
            lemma_capped_suffix(appended);
            lemma_ordered_skip(appended, inbox.next_seq, appended.len() - inbox.messages@.len());
        }
        let ghost e = (key, inbox);
        self.inboxes.insert(i, (key, inbox));
        proof {
            assert(self.inboxes@ =~= mid.update(i as int, e));
            lemma_lookup_update(mid, i as int, e);
            assert(e.1.view() == after_delivery(ib0, stamped));
            assert(stamped == StoredMsg { seq: ib0.next_seq, ..msg });
            assert(ib0 == inbox_or_fresh(old(self).inbox(pane_id@)));
        }
        Ok(())
    }

    /// Groups the pane belongs to, sorted.
    pub fn groups_of(&self, pane_id: &str) -> (r: Vec<String>)
        ensures
            sorted_strict(views(r@)),
            forall|g: Seq<char>| #[trigger] views(r@).contains(g) <==> self.is_member(g, pane_id@),
    {
        let mut out: Vec<String> = Vec::new();
        let mut i: usize = 0;
        while i < self.members.len()
            invariant
                i <= self.members@.len(),
                sorted_strict(views(out@)),
                forall|g: Seq<char>|
                    #[trigger] views(out@).contains(g) <==> rel_has(
                        self.members@.take(i as int),
                        g,
                        pane_id@,
                    ),
            decreases self.members@.len() - i,
        {
            proof {
                lemma_rel_take_step(self.members@, i as int);
            }
            if str_eq(self.members[i].1.as_str(), pane_id) {
                insert_sorted(&mut out, self.members[i].0.clone());
            }
            i = i + 1;
        }
        assert(self.members@.take(i as int) =~= self.members@);
        out
    }

    /// Members of a group, sorted; empty for an unknown group.
    pub fn group_members(&self, group: &str) -> (r: Vec<String>)
        ensures
            sorted_strict(views(r@)),
            forall|p: Seq<char>| #[trigger] views(r@).contains(p) <==> self.is_member(group@, p),
    {
        let mut out: Vec<String> = Vec::new();
        let mut i: usize = 0;
        while i < self.members.len()
            invariant
                i <= self.members@.len(),
                sorted_strict(views(out@)),
                forall|p: Seq<char>|
                    #[trigger] views(out@).contains(p) <==> rel_has(
                        self.members@.take(i as int),
                        group@,
                        p,
                    ),
            decreases self.members@.len() - i,
        {
            proof {
                lemma_rel_take_step(self.members@, i as int);
            }
            if str_eq(self.members[i].0.as_str(), group) {
                insert_sorted(&mut out, self.members[i].1.clone());
            }
            i = i + 1;
        }
        assert(self.members@.take(i as int) =~= self.members@);
        out
    }

    /// Joins `pane_id` to `group`, creating the group on first join.
    /// Returns the pane's groups after the join.
    pub fn group_join(&mut self, pane_id: &str, group: &str) -> (r: Result<Vec<String>, MsgError>)
        requires
            old(self).wf(),
        ensures
            final(self).wf(),
            !valid_group_name(group@) ==> {
                &&& r matches Err(MsgError::InvalidGroupName(s)) && s@ == group@
                &&& *final(self) == *old(self)
            },
            valid_group_name(group@) ==> {
                &&& joined(*old(self), *final(self), group@, pane_id@)
                &&& r matches Ok(v) && sorted_strict(views(v@)) && forall|g: Seq<char>|
                    #[trigger] views(v@).contains(g) <==> final(self).is_member(g, pane_id@)
            },
    {
        if let Err(e) = validate_group_name(group) {
            return Err(e);
        }
        let mut present = false;
        let mut i: usize = 0;
        while i < self.members.len()
            invariant
                i <= self.members@.len(),
                present == rel_has(self.members@.take(i as int), group@, pane_id@),
            decreases self.members@.len() - i,
        {
            proof {
                lemma_rel_take_step(self.members@, i as int);
            }
            if str_eq(self.members[i].0.as_str(), group) && str_eq(
                self.members[i].1.as_str(),
                pane_id,
            ) {
                present = true;
            }
            i = i + 1;
        }
        assert(self.members@.take(i as int) =~= self.members@);
        if !present {
            let ghost before = self.members@;
            let e = (group.to_owned(), pane_id.to_owned());
            let ghost ge = e;
            self.members.push(e);
            proof {
                lemma_rel_push(before, ge);
            }
        }
        Ok(self.groups_of(pane_id))
    }

    /// Leaves `group`; the group is gone once its last member leaves.
    /// Returns the pane's remaining groups.
    pub fn group_leave(&mut self, pane_id: &str, group: &str) -> (r: Result<Vec<String>, MsgError>)
        requires
            old(self).wf(),
        ensures
            final(self).wf(),
            !valid_group_name(group@) ==> {
                &&& r matches Err(MsgError::InvalidGroupName(s)) && s@ == group@
                &&& *final(self) == *old(self)
            },
            valid_group_name(group@) ==> {
                &&& left_group(*old(self), *final(self), group@, pane_id@)
                &&& r matches Ok(v) && sorted_strict(views(v@)) && forall|g: Seq<char>|
                    #[trigger] views(v@).contains(g) <==> final(self).is_member(g, pane_id@)
            },
    {
        if let Err(e) = validate_group_name(group) {
            return Err(e);
        }
        let mut out: Vec<(String, String)> = Vec::new();
        let mut i: usize = 0;
        while i < self.members.len()
            invariant
                i <= self.members@.len(),
                forall|g: Seq<char>, q: Seq<char>|
                    #[trigger] rel_has(out@, g, q) == (rel_has(self.members@.take(i as int), g, q)
                        && !(g == group@ && q == pane_id@)),
            decreases self.members@.len() - i,
        {
            proof {
                lemma_rel_take_step(self.members@, i as int);
            }
            let same = str_eq(self.members[i].0.as_str(), group) && str_eq(
                self.members[i].1.as_str(),
                pane_id,
            );
            if !same {
                let ghost before = out@;
                let e = (self.members[i].0.clone(), self.members[i].1.clone());
                let ghost ge = e;
                out.push(e);
                proof {
                    lemma_rel_push(before, ge);
                }
            }
            i = i + 1;
        }
        assert(self.members@.take(i as int) =~= self.members@);
        self.members = out;
        Ok(self.groups_of(pane_id))
    }

    /// Tears down the inbox and group membership of a closed pane.
    pub fn remove_pane(&mut self, pane_id: &str)
        requires
            old(self).wf(),
        ensures
            final(self).wf(),
            pane_removed(*old(self), *final(self), pane_id@),
    {
        match self.find_inbox(pane_id) {
            Some(k) => {
                let ghost before = self.inboxes@;
                self.inboxes.remove(k);
                proof {
                    lemma_lookup_remove(before, k as int);
                    assert forall|j: int| 0 <= j < self.inboxes@.len() implies (
                    #[trigger] self.inboxes@[j]).1.wf() by {
                        let j0 = if j < k { j } else { j + 1 };
                        assert(self.inboxes@[j] == before[j0]);
                    }
                }
            },
            None => {
                assert forall|p: Seq<char>| #[trigger]
                    self.inbox(p) == if p == pane_id@ {
                        None
                    } else {
                        old(self).inbox(p)
                    } by {}
            },
        }
        let mut out: Vec<(String, String)> = Vec::new();
        let mut i: usize = 0;
        while i < self.members.len()
            invariant
                i <= self.members@.len(),
                forall|g: Seq<char>, q: Seq<char>|
                    #[trigger] rel_has(out@, g, q) == (rel_has(self.members@.take(i as int), g, q)
                        && q != pane_id@),
            decreases self.members@.len() - i,
        {
            proof {
                lemma_rel_take_step(self.members@, i as int);
            }
            if !str_eq(self.members[i].1.as_str(), pane_id) {
                let ghost before = out@;
                let e = (self.members[i].0.clone(), self.members[i].1.clone());
                let ghost ge = e;
                out.push(e);
                proof {
                    lemma_rel_push(before, ge);
                }
            }
            i = i + 1;
        }
        assert(self.members@.take(i as int) =~= self.members@);
        self.members = out;
    }

    /// Re-keys all bus state from `old_id` to `new_id` when a pane's canonical id
    /// changes: the inbox moves intact (seq counter, ack cursor and dropped
    /// count kept) and every membership of `old_id` becomes one of `new_id`.
    /// Whatever `new_id` held before is discarded first.
    pub fn rekey_pane(&mut self, old_id: &str, new_id: &str)
        requires
            old(self).wf(),
        ensures
            final(self).wf(),
            old_id@ == new_id@ ==> same_inboxes(*old(self), *final(self)) && same_members(
                *old(self),
                *final(self),
            ),
            old_id@ != new_id@ ==> rekeyed(*old(self), *final(self), old_id@, new_id@),
    {
        if str_eq(old_id, new_id) {
            return ;
        }
        self.remove_pane(new_id);
        let ghost mid = *self;
        assert(mid.inbox(new_id@) is None);
        assert(lookup(mid.inboxes@, new_id@) is None);
        assert forall|k: int| 0 <= k < self.members@.len() implies (
        #[trigger] self.members@[k]).1@ != new_id@ by {
            if self.members@[k].1@ == new_id@ {
                assert(rel_has(self.members@, self.members@[k].0@, new_id@));
                assert(mid.is_member(self.members@[k].0@, new_id@));
            }
        }
        match self.find_inbox(old_id) {
            Some(k) => {
                let ghost before = self.inboxes@;
                let (_, inbox) = self.inboxes.remove(k);
                proof {
                    lemma_lookup_remove(before, k as int);
                }
                let ghost removed = self.inboxes@;
                assert(lookup(removed, new_id@) == lookup(before, new_id@));
                let e = (new_id.to_owned(), inbox);
                let ghost ge = e;
                self.inboxes.push(e);
                proof {
                    assert(ge.1.view() == lookup(before, old_id@)->0);
                    lemma_lookup_push(removed, ge);
                    assert(before[k as int].1.wf());
                    assert forall|j: int| 0 <= j < self.inboxes@.len() implies (
                    #[trigger] self.inboxes@[j]).1.wf() by {
                        if j < removed.len() {
                            let j0 = if j < k { j } else { j + 1 };
                            assert(self.inboxes@[j] == before[j0]);
                        }
                    }
                }
            },
            None => {},
        }
        let mut out: Vec<(String, String)> = Vec::new();
        let mut i: usize = 0;
        while i < self.members.len()
            invariant
                i <= self.members@.len(),
                old_id@ != new_id@,
                forall|k: int| 0 <= k < self.members@.len() ==> (#[trigger] self.members@[k]).1@
                    != new_id@,
                forall|g: Seq<char>, q: Seq<char>| #[trigger]
                    rel_has(out@, g, q) == if q == new_id@ {
                        rel_has(self.members@.take(i as int), g, old_id@)
                    } else if q == old_id@ {
                        false
                    } else {
                        rel_has(self.members@.take(i as int), g, q)
                    },
            decreases self.members@.len() - i,
        {
            proof {
                lemma_rel_take_step(self.members@, i as int);
            }
            let ghost before = out@;
            let e = if str_eq(self.members[i].1.as_str(), old_id) {
                (self.members[i].0.clone(), new_id.to_owned())
            } else {
                (self.members[i].0.clone(), self.members[i].1.clone())
            };
            let ghost ge = e;
            out.push(e);
            proof {
                lemma_rel_push(before, ge);
            }
            i = i + 1;
        }
        assert(self.members@.take(i as int) =~= self.members@);
        self.members = out;
        assert forall|p: Seq<char>| #[trigger]
            self.inbox(p) == if p == new_id@ {
                old(self).inbox(old_id@)
            } else if p == old_id@ {
                None
            } else {
                old(self).inbox(p)
            } by {
            assert(mid.inbox(p) == if p == new_id@ {
                None
            } else {
                old(self).inbox(p)
            });
            assert(mid.inbox(old_id@) == old(self).inbox(old_id@));
        }
        assert forall|g: Seq<char>, q: Seq<char>| #[trigger]
            self.is_member(g, q) == if q == new_id@ {
                old(self).is_member(g, old_id@)
            } else if q == old_id@ {
                false
            } else {
                old(self).is_member(g, q)
            } by {
            assert(mid.is_member(g, q) == (old(self).is_member(g, q) && q != new_id@));
            assert(mid.is_member(g, old_id@) == (old(self).is_member(g, old_id@)));
        }
    }
}

} // verus!

verus! {

impl Default for MsgBus {
    /// An empty bus, as [`MsgBus::new`] makes.
    fn default() -> (r: Self)
        ensures
            r.wf(),
            forall|p: Seq<char>| #[trigger] r.inbox(p) is None,
            forall|g: Seq<char>, p: Seq<char>| !#[trigger] r.is_member(g, p),
    {
        MsgBus::new()
    }
}

/// Abstract form of a [`MsgTarget`].
pub enum TargetView {
    PaneId(Seq<char>),
    Qualified(Seq<char>, Seq<char>),
    Label(Seq<char>),
    Group(Seq<char>),
    All,
}

impl View for MsgTarget {
    type V = TargetView;

    open spec fn view(&self) -> TargetView {
        match self {
            MsgTarget::PaneId(p) => TargetView::PaneId(p@),
            MsgTarget::Qualified { workspace_id, label } => TargetView::Qualified(
                workspace_id@,
                label@,
            ),
            MsgTarget::Label(l) => TargetView::Label(l@),
            MsgTarget::Group(g) => TargetView::Group(g@),
            MsgTarget::All => TargetView::All,
        }
    }
}

/// A candidate `(workspace_id, label, pane_id)`.
pub type CandView = (Seq<char>, Seq<char>, Seq<char>);

/// The views of a list of string triples.
pub open spec fn triple_views(s: Seq<(String, String, String)>) -> Seq<CandView> {
    s.map_values(|t: (String, String, String)| (t.0@, t.1@, t.2@))
}

/// Abstract form of a [`ResolveError`].
pub enum ResolveErrorView {
    NotFound,
    Ambiguous(Seq<CandView>),
    Unaddressable(Seq<char>),
    EmptyGroup(Seq<char>),
}

impl View for ResolveError {
    type V = ResolveErrorView;

    open spec fn view(&self) -> ResolveErrorView {
        match self {
            ResolveError::NotFound => ResolveErrorView::NotFound,
            ResolveError::Ambiguous(c) => ResolveErrorView::Ambiguous(triple_views(c@)),
            ResolveError::Unaddressable(e) => ResolveErrorView::Unaddressable(e@),
            ResolveError::EmptyGroup(g) => ResolveErrorView::EmptyGroup(g@),
        }
    }
}

/// A character of the public-id alphabet: ASCII digits and upper-case
/// letters.
pub open spec fn is_enc_char(c: char) -> bool {
    ('0' <= c && c <= '9') || ('A' <= c && c <= 'Z')
}

/// One or more characters of the public-id alphabet.
pub open spec fn is_enc(s: Seq<char>) -> bool {
    s.len() > 0 && forall|i: int| 0 <= i < s.len() ==> is_enc_char(#[trigger] s[i])
}

/// The canonical public pane id grammar `w<ENC>:p<ENC>`, split at the first
/// `:`. A label that merely holds a `:` (`worker:api`) is not a pane id.
pub open spec fn is_public_pane_id_spec(s: Seq<char>) -> bool {
    s.contains(':') && {
        let k = crate::text::first_pos(s, ':');
        let w = s.take(k);
        let p = s.skip(k + 1);
        &&& w.len() > 0
        &&& w[0] == 'w'
        &&& is_enc(w.skip(1))
        &&& p.len() > 0
        &&& p[0] == 'p'
        &&& is_enc(p.skip(1))
    }
}

fn is_enc_chars(v: &Vec<char>, lo: usize, hi: usize) -> (b: bool)
    requires
        lo <= hi <= v@.len(),
    ensures
        b == is_enc(v@.subrange(lo as int, hi as int)),
{
    if lo == hi {
        return false;
    }
    let mut i = lo;
    while i < hi
        invariant
            lo <= i <= hi,
            hi <= v@.len(),
            forall|j: int| lo <= j < i ==> is_enc_char(#[trigger] v@[j]),
        decreases hi - i,
    {
        let c = v[i];
        if !(('0' <= c && c <= '9') || ('A' <= c && c <= 'Z')) {
            assert(v@.subrange(lo as int, hi as int)[i - lo] == c);
            return false;
        }
        i = i + 1;
    }
    let ghost s = v@.subrange(lo as int, hi as int);
    assert forall|j: int| 0 <= j < s.len() implies is_enc_char(#[trigger] s[j]) by {
        assert(s[j] == v@[j + lo]);
    }
    true
}

/// True when `expr` is a canonical public pane id `w<ENC>:p<ENC>`.
pub fn is_public_pane_id(expr: &str) -> (b: bool)
    ensures
        b == is_public_pane_id_spec(expr@),
{
    let v = crate::text::chars_of(expr);
    match crate::text::find_char(&v, ':') {
        None => false,
        Some(k) => {
            let n = v.len();
            let ghost w = v@.take(k as int);
            let ghost p = v@.skip(k + 1);
            if k == 0 || v[0] != 'w' {
                assert(k > 0 ==> w[0] == v@[0]);
                return false;
            }
            if k + 1 >= n || v[k + 1] != 'p' {
                assert(k + 1 < n ==> p[0] == v@[k + 1]);
                return false;
            }
            proof {
                assert(w.skip(1) =~= v@.subrange(1, k as int));
                assert(p.skip(1) =~= v@.subrange(k + 2, n as int));
            }
            let a = is_enc_chars(&v, 1, k);
            let b = is_enc_chars(&v, k + 2, n);
            a && b
        },
    }
}

/// The word `all`.
pub open spec fn all_word() -> Seq<char> {
    seq!['a', 'l', 'l']
}

/// What [`MsgBus::parse_target`] makes of an expression.
pub open spec fn parse_target_spec(e: Seq<char>) -> Result<TargetView, ResolveErrorView> {
    if e.len() == 0 {
        Err(ResolveErrorView::Unaddressable(e))
    } else if e[0] == '@' {
        let rest = e.skip(1);
        if rest.len() == 0 || rest.contains('/') {
            Err(ResolveErrorView::Unaddressable(e))
        } else if rest == all_word() {
            Ok(TargetView::All)
        } else {
            Ok(TargetView::Group(rest))
        }
    } else if is_public_pane_id_spec(e) {
        Ok(TargetView::PaneId(e))
    } else if e.contains('/') {
        let k = crate::text::first_pos(e, '/');
        let ws = e.take(k);
        let label = e.skip(k + 1);
        if ws.len() == 0 || label.len() == 0 || label.contains('/') || label[0] == '@' {
            Err(ResolveErrorView::Unaddressable(e))
        } else {
            Ok(TargetView::Qualified(ws, label))
        }
    } else {
        Ok(TargetView::Label(e))
    }
}

/// The view of a parse result.
pub open spec fn target_result_view(r: Result<MsgTarget, ResolveError>) -> Result<
    TargetView,
    ResolveErrorView,
> {
    match r {
        Ok(t) => Ok(t@),
        Err(e) => Err(e@),
    }
}

/// A directory entry `(workspace_id, pane_id, manual_label)` as views.
pub open spec fn dir_view(d: Seq<(String, String, String)>) -> Seq<CandView> {
    triple_views(d)
}

/// Directory entries labelled `label` (in workspace `ws` when given), as
/// candidates `(workspace_id, label, pane_id)`, in directory order.
pub open spec fn candidates(d: Seq<CandView>, ws: Option<Seq<char>>, label: Seq<char>) -> Seq<
    CandView,
>
    decreases d.len(),
{
    if d.len() == 0 {
        Seq::empty()
    } else {
        let r = candidates(d.drop_last(), ws, label);
        let e = d.last();
        let in_ws = match ws {
            Some(w) => e.0 == w,
            None => true,
        };
        if in_ws && e.2 == label {
            r.push((e.0, e.2, e.1))
        } else {
            r
        }
    }
}

/// One candidate resolves; none is not found; more are ambiguous.
pub open spec fn pick(c: Seq<CandView>) -> Result<Seq<Seq<char>>, ResolveErrorView> {
    if c.len() == 0 {
        Err(ResolveErrorView::NotFound)
    } else if c.len() == 1 {
        Ok(seq![c[0].2])
    } else {
        Err(ResolveErrorView::Ambiguous(c))
    }
}

/// Resolution of a bare label: the sender's workspace first (skipped for
/// an external sender), then every workspace.
pub open spec fn resolve_label(d: Seq<CandView>, sender_ws: Option<Seq<char>>, label: Seq<char>) -> Result<
    Seq<Seq<char>>,
    ResolveErrorView,
> {
    match sender_ws {
        Some(w) if candidates(d, Some(w), label).len() >= 1 => pick(candidates(d, Some(w), label)),
        _ => pick(candidates(d, None, label)),
    }
}

/// The view of a resolution result.
pub open spec fn resolve_result_view(r: Result<Vec<String>, ResolveError>) -> Result<
    Seq<Seq<char>>,
    ResolveErrorView,
> {
    match r {
        Ok(v) => Ok(views(v@)),
        Err(e) => Err(e@),
    }
}

/// Some directory entry has pane id `p`.
pub open spec fn dir_has_pane(d: Seq<CandView>, p: Seq<char>) -> bool {
    exists|i: int| 0 <= i < d.len() && (#[trigger] d[i]).1 == p
}

/// What resolving `t` gives on `bus` for a sender in workspace
/// `sender_ws` against the directory `d`.
pub open spec fn resolve_spec(
    bus: MsgBus,
    t: TargetView,
    sender_ws: Option<Seq<char>>,
    d: Seq<CandView>,
) -> Result<Seq<Seq<char>>, ResolveErrorView> {
    match t {
        TargetView::PaneId(p) => if dir_has_pane(d, p) {
            Ok(seq![p])
        } else {
            Err(ResolveErrorView::NotFound)
        },
        TargetView::Qualified(ws, label) => pick(candidates(d, Some(ws), label)),
        TargetView::Label(label) => resolve_label(d, sender_ws, label),
        TargetView::Group(g) => if exists|q: Seq<char>| bus.is_member(g, q) {
            Ok(sorted_listing(|q: Seq<char>| bus.is_member(g, q)))
        } else {
            Err(ResolveErrorView::EmptyGroup(g))
        },
        TargetView::All => Ok(sorted_listing(|q: Seq<char>| dir_has_pane(d, q))),
    }
}

/// The candidates, collected from the directory.
fn collect_candidates(directory: &[(String, String, String)], ws: Option<&str>, label: &str) -> (r:
    Vec<(String, String, String)>)
    ensures
        triple_views(r@) == candidates(
            dir_view(directory@),
            match ws {
                Some(w) => Some(w@),
                None => None,
            },
            label@,
        ),
{
    let ghost d = dir_view(directory@);
    let ghost wv = match ws {
        Some(w) => Some(w@),
        None => None::<Seq<char>>,
    };
    let mut out: Vec<(String, String, String)> = Vec::new();
    let mut i: usize = 0;
    while i < directory.len()
        invariant
            i <= directory@.len(),
            d == dir_view(directory@),
            wv == match ws {
                Some(w) => Some(w@),
                None => None,
            },
            triple_views(out@) == candidates(d.take(i as int), wv, label@),
        decreases directory@.len() - i,
    {
        assert(d.take(i + 1).drop_last() =~= d.take(i as int));
        assert(d.take(i + 1).last() == d[i as int]);
        let e = &directory[i];
        let in_ws = match ws {
            Some(w) => str_eq(e.0.as_str(), w),
            None => true,
        };
        if in_ws && str_eq(e.2.as_str(), label) {
            let ghost before = out@;
            out.push((e.0.clone(), e.2.clone(), e.1.clone()));
            assert(triple_views(out@) =~= triple_views(before).push((e.0@, e.2@, e.1@)));
        }
        i = i + 1;
    }
    assert(d.take(i as int) =~= d);
    out
}

/// One candidate resolves to its pane id; none is not found; more are
/// ambiguous.
fn pick_candidate(c: Vec<(String, String, String)>) -> (r: Result<Vec<String>, ResolveError>)
    ensures
        resolve_result_view(r) == pick(triple_views(c@)),
{
    if c.len() == 0 {
        Err(ResolveError::NotFound)
    } else if c.len() == 1 {
        let mut v: Vec<String> = Vec::new();
        v.push(c[0].2.clone());
        assert(views(v@) =~= seq![triple_views(c@)[0].2]);
        Ok(v)
    } else {
        Err(ResolveError::Ambiguous(c))
    }
}

impl MsgBus {
    /// Parses a target expression.
    ///
    /// Forms: `@all`; `@name` (a group); the canonical public pane id
    /// `w<ENC>:p<ENC>`; `workspace_id/label`; else a bare label. Empty
    /// expressions, `@` alone, `@` forms holding `/`, and qualified forms
    /// with an empty part, a second `/` or a label starting with `@` are
    /// unaddressable.
    pub fn parse_target(expr: &str) -> (r: Result<MsgTarget, ResolveError>)
        ensures
            target_result_view(r) == parse_target_spec(expr@),
    {
        let v = crate::text::chars_of(expr);
        let n = v.len();
        if n == 0 {
            return Err(ResolveError::Unaddressable(expr.to_owned()));
        }
        if v[0] == '@' {
            let ghost rest = expr@.skip(1);
            assert(rest =~= v@.subrange(1, n as int));
            let rest_str = expr.substring_char(1, n);
            let rv = crate::text::chars_of(rest_str);
            assert(rv@ =~= rest);
            if n == 1 || crate::text::has_char(&rv, '/') {
                return Err(ResolveError::Unaddressable(expr.to_owned()));
            }
            if n == 4 && rv[0] == 'a' && rv[1] == 'l' && rv[2] == 'l' {
                assert(rest =~= all_word());
                return Ok(MsgTarget::All);
            }
            assert(rest != all_word()) by {
                if rest == all_word() {
                    assert(rest.len() == 3);
                    assert(rest[0] == 'a' && rest[1] == 'l' && rest[2] == 'l');
                }
            }
            return Ok(MsgTarget::Group(rest_str.to_owned()));
        }
        if is_public_pane_id(expr) {
            return Ok(MsgTarget::PaneId(expr.to_owned()));
        }
        match crate::text::find_char(&v, '/') {
            None => Ok(MsgTarget::Label(expr.to_owned())),
            Some(k) => {
                let ws = expr.substring_char(0, k);
                let label = expr.substring_char(k + 1, n);
                assert(ws@ =~= expr@.take(k as int));
                assert(label@ =~= expr@.skip(k + 1));
                let lv = crate::text::chars_of(label);
                if k == 0 || k + 1 == n || crate::text::has_char(&lv, '/') || lv[0] == '@' {
                    return Err(ResolveError::Unaddressable(expr.to_owned()));
                }
                Ok(MsgTarget::Qualified { workspace_id: ws.to_owned(), label: label.to_owned() })
            },
        }
    }

    /// Resolves a target to zero or more pane ids.
    ///
    /// `directory` entries are `(workspace_id, pane_id, manual_label)`;
    /// matching is exact and case-sensitive. A pane id resolves when the
    /// directory holds it; `workspace_id/label` looks in that workspace
    /// only; a bare label looks in the sender's workspace first (skipped
    /// when `sender_workspace` is `None`), then everywhere, refusing
    /// ambiguity; `@group` gives its members, sorted, and an empty or
    /// unknown group is an error; `@all` gives every directory pane id,
    /// sorted and without repeats.
    pub fn resolve(
        &self,
        target: &MsgTarget,
        sender_workspace: Option<&str>,
        directory: &[(String, String, String)],
    ) -> (r: Result<Vec<String>, ResolveError>)
        ensures
            resolve_result_view(r) == resolve_spec(
                *self,
                target@,
                match sender_workspace {
                    Some(w) => Some(w@),
                    None => None,
                },
                dir_view(directory@),
            ),
            ({
                let d = dir_view(directory@);
                match target@ {
                    TargetView::PaneId(p) => resolve_result_view(r) == if dir_has_pane(d, p) {
                        Ok(seq![p])
                    } else {
                        Err(ResolveErrorView::NotFound)
                    },
                    TargetView::Qualified(ws, label) => resolve_result_view(r) == pick(
                        candidates(d, Some(ws), label),
                    ),
                    TargetView::Label(label) => resolve_result_view(r) == resolve_label(
                        d,
                        match sender_workspace {
                            Some(w) => Some(w@),
                            None => None,
                        },
                        label,
                    ),
                    TargetView::Group(g) => if exists|q: Seq<char>| self.is_member(g, q) {
                        r matches Ok(v) && sorted_strict(views(v@)) && forall|q: Seq<char>|
                            #[trigger] views(v@).contains(q) <==> self.is_member(g, q)
                    } else {
                        resolve_result_view(r) == Err::<Seq<Seq<char>>, ResolveErrorView>(
                            ResolveErrorView::EmptyGroup(g),
                        )
                    },
                    TargetView::All => r matches Ok(v) && sorted_strict(views(v@)) && forall|
                        q: Seq<char>,
                    | #[trigger] views(v@).contains(q) <==> dir_has_pane(d, q),
                }
            }),
    {
        let ghost d = dir_view(directory@);
        match target {
            MsgTarget::PaneId(pane_id) => {
                let mut i: usize = 0;
                while i < directory.len()
                    invariant
                        i <= directory@.len(),
                        d == dir_view(directory@),
                        target@ == TargetView::PaneId(pane_id@),
                        forall|j: int| 0 <= j < i ==> (#[trigger] d[j]).1 != pane_id@,
                    decreases directory@.len() - i,
                {
                    if str_eq(directory[i].1.as_str(), pane_id.as_str()) {
                        let mut v: Vec<String> = Vec::new();
                        v.push(pane_id.clone());
                        assert(d[i as int].1 == pane_id@);
                        assert(views(v@) =~= seq![pane_id@]);
                        return Ok(v);
                    }
                    i = i + 1;
                }
                Err(ResolveError::NotFound)
            },
            MsgTarget::Qualified { workspace_id, label } => {
                pick_candidate(
                    collect_candidates(directory, Some(workspace_id.as_str()), label.as_str()),
                )
            },
            MsgTarget::Label(label) => {
                if let Some(ws) = sender_workspace {
                    let local = collect_candidates(directory, Some(ws), label.as_str());
                    if local.len() >= 1 {
                        return pick_candidate(local);
                    }
                }
                pick_candidate(collect_candidates(directory, None, label.as_str()))
            },
            MsgTarget::Group(name) => {
                let members = self.group_members(name.as_str());
                if members.len() == 0 {
                    assert forall|q: Seq<char>| !self.is_member(name@, q) by {
                        if self.is_member(name@, q) {
                            assert(views(members@).contains(q));
                        }
                    }
                    Err(ResolveError::EmptyGroup(name.clone()))
                } else {
                    assert(views(members@).contains(views(members@)[0]));
                    proof {
                        lemma_sorted_listing(views(members@), |q: Seq<char>| self.is_member(name@, q));
                    }
                    Ok(members)
                }
            },
            MsgTarget::All => {
                let mut ids: Vec<String> = Vec::new();
                let mut i: usize = 0;
                while i < directory.len()
                    invariant
                        i <= directory@.len(),
                        d == dir_view(directory@),
                        sorted_strict(views(ids@)),
                        forall|q: Seq<char>|
                            #[trigger] views(ids@).contains(q) <==> dir_has_pane(
                                d.take(i as int),
                                q,
                            ),
                    decreases directory@.len() - i,
                {
                    proof {
                        assert forall|q: Seq<char>| #[trigger]
                            dir_has_pane(d.take(i + 1), q) == (dir_has_pane(d.take(i as int), q)
                                || d[i as int].1 == q) by {
                            let t = d.take(i + 1);
                            if dir_has_pane(t, q) {
                                let k = choose|k: int| 0 <= k < t.len() && (#[trigger] t[k]).1 == q;
                                if k < i {
                                    assert(d.take(i as int)[k] == t[k]);
                                }
                            }
                            if dir_has_pane(d.take(i as int), q) {
                                let k = choose|k: int|
                                    0 <= k < i && (#[trigger] d.take(i as int)[k]).1 == q;
                                assert(t[k] == d.take(i as int)[k]);
                            }
                            if d[i as int].1 == q {
                                assert(t[i as int] == d[i as int]);
                            }
                        }
                    }
                    insert_sorted(&mut ids, directory[i].1.clone());
                    i = i + 1;
                }
                assert(d.take(i as int) =~= d);
                proof {
                    lemma_sorted_listing(views(ids@), |q: Seq<char>| dir_has_pane(d, q));
                }
                Ok(ids)
            },
        }
    }
}

} // verus!
