//! `team spawn --wait`: which spawned panes are waited for, and, poll by
//! poll, which became ready and when the wait ends.

use vstd::prelude::*;
use crate::order::{lemma_lt_order, sorted_strict, str_eq, str_less, str_lt};
use crate::team_cli::agent_ready;

verus! {

/// The panes still waited for, as `(pane_id, label)`, strictly ascending
/// by pane id.
#[derive(Debug, PartialEq, Eq)]
pub struct TeamWait {
    pub pending: Vec<(String, String)>,
}

/// What the wait does next.
#[derive(Debug, PartialEq, Eq)]
pub enum WaitAction {
    /// Ask the server again for these panes, after a pause.
    Poll(Vec<String>),
    /// Every waited-for pane is ready (exit code 0).
    Done,
    /// The timeout passed while these labels were not ready (exit code 3).
    TimedOut(Vec<String>),
}

/// A `(pane_id, label)` pair as values.
pub open spec fn pair_view(p: (String, String)) -> (Seq<char>, Seq<char>) {
    (p.0@, p.1@)
}

/// A list of `(pane_id, label)` pairs as values.
pub open spec fn pairs_view(v: Seq<(String, String)>) -> Seq<(Seq<char>, Seq<char>)> {
    v.map_values(|p: (String, String)| pair_view(p))
}

/// The pending panes as values.
pub open spec fn pending_view(w: TeamWait) -> Seq<(Seq<char>, Seq<char>)> {
    pairs_view(w.pending@)
}

/// The pane ids of pending entries.
pub open spec fn keys(s: Seq<(Seq<char>, Seq<char>)>) -> Seq<Seq<char>> {
    s.map_values(|p: (Seq<char>, Seq<char>)| p.0)
}

/// The labels of pending entries.
pub open spec fn labels(s: Seq<(Seq<char>, Seq<char>)>) -> Seq<Seq<char>> {
    s.map_values(|p: (Seq<char>, Seq<char>)| p.1)
}

/// A spawned pane is waited for when its agent is not the orchestrator
/// and the agent detector knows its agent.
pub open spec fn waited_for(agent: Seq<char>, detectable: bool) -> bool {
    agent != "orch"@ && detectable
}

/// `x` entered in a list ascending by pane id; an entry with the same
/// pane id is replaced.
pub open spec fn upsert(s: Seq<(Seq<char>, Seq<char>)>, x: (Seq<char>, Seq<char>)) -> Seq<
    (Seq<char>, Seq<char>),
>
    decreases s.len(),
{
    if s.len() == 0 {
        seq![x]
    } else if x.0 == s.last().0 {
        s.drop_last().push(x)
    } else if str_lt(x.0, s.last().0) {
        upsert(s.drop_last(), x).push(s.last())
    } else {
        s.push(x)
    }
}

/// The waited-for panes among the first `n` spawned panes
/// `(pane_id, label, agent)`, ascending by pane id (for a repeated pane id,
/// the later label).
pub open spec fn waited_panes(panes: Seq<(String, String, String)>, det: Seq<bool>, n: nat) -> Seq<
    (Seq<char>, Seq<char>),
>
    decreases n,
{
    if n == 0 {
        Seq::empty()
    } else {
        let r = waited_panes(panes, det, (n - 1) as nat);
        let p = panes[n - 1];
        if waited_for(p.2@, det[n - 1]) {
            upsert(r, (p.0@, p.1@))
        } else {
            r
        }
    }
}

/// The labels of the panes among the first `n` that are not waited for,
/// in order.
pub open spec fn skipped_labels(panes: Seq<(String, String, String)>, det: Seq<bool>, n: nat) -> Seq<
    Seq<char>,
>
    decreases n,
{
    if n == 0 {
        Seq::empty()
    } else {
        let r = skipped_labels(panes, det, (n - 1) as nat);
        if waited_for(panes[n - 1].2@, det[n - 1]) {
            r
        } else {
            r.push(panes[n - 1].1@)
        }
    }
}

proof fn lemma_upsert_at(s: Seq<(Seq<char>, Seq<char>)>, x: (Seq<char>, Seq<char>), j: int)
    requires
        0 <= j <= s.len(),
        forall|k: int| j <= k < s.len() ==> str_lt(x.0, #[trigger] s[k].0),
        j > 0 ==> !str_lt(x.0, s[j - 1].0),
    ensures
        j > 0 && s[j - 1].0 == x.0 ==> upsert(s, x) == s.take(j - 1).push(x) + s.skip(j),
        !(j > 0 && s[j - 1].0 == x.0) ==> upsert(s, x) == s.take(j).push(x) + s.skip(j),
    decreases s.len(),
{
    lemma_lt_order();
    if s.len() == 0 {
        assert(s.take(j).push(x) + s.skip(j) =~= seq![x]);
    } else if j == s.len() {
        assert(s.take(j - 1).push(x) + s.skip(j) =~= s.drop_last().push(x));
        assert(s.take(j).push(x) + s.skip(j) =~= s.push(x));
    } else {
        let t = s.drop_last();
        assert(str_lt(x.0, s[s.len() - 1].0));
        assert forall|k: int| j <= k < t.len() implies str_lt(x.0, #[trigger] t[k].0) by {
            assert(t[k] == s[k]);
        }
        if j > 0 {
            assert(t[j - 1] == s[j - 1]);
        }
        lemma_upsert_at(t, x, j);
        if j > 0 {
            assert(t.take(j - 1).push(x) + t.skip(j) + seq![s.last()] =~= s.take(j - 1).push(x)
                + s.skip(j));
            assert((t.take(j - 1).push(x) + t.skip(j)).push(s.last()) =~= t.take(j - 1).push(x)
                + t.skip(j) + seq![s.last()]);
        }
        assert(t.take(j).push(x) + t.skip(j) + seq![s.last()] =~= s.take(j).push(x) + s.skip(j));
        assert((t.take(j).push(x) + t.skip(j)).push(s.last()) =~= t.take(j).push(x) + t.skip(j)
            + seq![s.last()]);
    }
}

/// Entering a pane keeps the pane ids strictly ascending, and adds its id.
proof fn lemma_upsert_keys(s: Seq<(Seq<char>, Seq<char>)>, x: (Seq<char>, Seq<char>))
    requires
        sorted_strict(keys(s)),
    ensures
        sorted_strict(keys(upsert(s, x))),
        forall|k: Seq<char>| #[trigger] keys(upsert(s, x)).contains(k) <==> keys(s).contains(k)
            || k == x.0,
    decreases s.len(),
{
    lemma_lt_order();
    let u = upsert(s, x);
    if s.len() == 0 {
        assert(keys(u) =~= seq![x.0]);
        assert(keys(u)[0] == x.0);
        assert(keys(s) =~= Seq::<Seq<char>>::empty());
    } else {
        let t = s.drop_last();
        let last = s.last();
        assert(keys(t) =~= keys(s).drop_last());
        assert(keys(s) =~= keys(t).push(last.0));
        assert(keys(s)[keys(t).len() as int] == last.0);
        assert forall|i: int| 0 <= i < keys(t).len() implies str_lt(#[trigger] keys(t)[i], last.0)
            by {
            assert(keys(s)[i] == keys(t)[i]);
            assert(str_lt(keys(s)[i], keys(s)[keys(t).len() as int]));
        }
        if x.0 == last.0 {
            assert(keys(u) =~= keys(s));
            assert(keys(s).contains(x.0));
        } else if str_lt(x.0, last.0) {
            lemma_upsert_keys(t, x);
            let v = upsert(t, x);
            assert(keys(u) =~= keys(v).push(last.0));
            assert forall|k: Seq<char>| #[trigger] keys(u).contains(k) <==> keys(s).contains(k)
                || k == x.0 by {
                if keys(u).contains(k) && k != last.0 {
                    let m = choose|m: int| 0 <= m < keys(u).len() && keys(u)[m] == k;
                    assert(keys(v)[m] == k);
                    assert(keys(v).contains(k));
                }
                if keys(v).contains(k) {
                    let m = choose|m: int| 0 <= m < keys(v).len() && keys(v)[m] == k;
                    assert(keys(u)[m] == k);
                }
                if k == last.0 {
                    assert(keys(u)[keys(v).len() as int] == k);
                    assert(keys(s)[keys(t).len() as int] == k);
                }
                if keys(t).contains(k) {
                    let m = choose|m: int| 0 <= m < keys(t).len() && keys(t)[m] == k;
                    assert(keys(s)[m] == k);
                }
                if keys(s).contains(k) && k != last.0 {
                    let m = choose|m: int| 0 <= m < keys(s).len() && keys(s)[m] == k;
                    assert(keys(t)[m] == k);
                }
            }
            assert forall|a: int, b: int| 0 <= a < b < keys(u).len() implies str_lt(
                #[trigger] keys(u)[a],
                #[trigger] keys(u)[b],
            ) by {
                assert(keys(u)[a] == keys(v)[a]);
                if b < keys(v).len() {
                    assert(keys(u)[b] == keys(v)[b]);
                    assert(str_lt(keys(v)[a], keys(v)[b]));
                } else {
                    assert(keys(u)[b] == last.0);
                    assert(keys(v).contains(keys(v)[a]));
                    if keys(t).contains(keys(v)[a]) {
                        let m = choose|m: int| 0 <= m < keys(t).len() && keys(t)[m] == keys(v)[a];
                        assert(str_lt(keys(t)[m], last.0));
                    } else {
                        assert(keys(v)[a] == x.0);
                    }
                    assert(str_lt(keys(v)[a], last.0));
                }
            }
        } else {
            assert(keys(u) =~= keys(s).push(x.0));
            assert(str_lt(x.0, last.0) || str_lt(last.0, x.0));
            assert(str_lt(last.0, x.0));
            assert forall|a: int, b: int| 0 <= a < b < keys(u).len() implies str_lt(
                #[trigger] keys(u)[a],
                #[trigger] keys(u)[b],
            ) by {
                if b == keys(u).len() - 1 {
                    assert(keys(u)[a] == keys(s)[a]);
                    assert(keys(u)[b] == x.0);
                    if a < keys(s).len() - 1 {
                        assert(str_lt(keys(s)[a], last.0));
                        assert(str_lt(keys(s)[a], x.0));
                    } else {
                        assert(keys(s)[a] == last.0);
                    }
                } else {
                    assert(keys(u)[a] == keys(s)[a] && keys(u)[b] == keys(s)[b]);
                }
            }
            assert forall|k: Seq<char>| #[trigger] keys(u).contains(k) <==> keys(s).contains(k)
                || k == x.0 by {
                if keys(u).contains(k) {
                    let m = choose|m: int| 0 <= m < keys(u).len() && keys(u)[m] == k;
                    if m < keys(s).len() {
                        assert(keys(s)[m] == k);
                    }
                }
                if keys(s).contains(k) {
                    let m = choose|m: int| 0 <= m < keys(s).len() && keys(s)[m] == k;
                    assert(keys(u)[m] == k);
                }
                if k == x.0 {
                    assert(keys(u)[keys(s).len() as int] == k);
                }
            }
        }
    }
}

fn enter_pane(v: &mut Vec<(String, String)>, x: (String, String))
    ensures
        pairs_view(final(v)@) == upsert(
            pairs_view(old(v)@),
            pair_view(x),
        ),
{
    let ghost s = pairs_view(v@);
    let ghost xv = pair_view(x);
    let mut j: usize = v.len();
    while j > 0 && str_less(x.0.as_str(), v[j - 1].0.as_str())
        invariant
            j <= v@.len(),
            s == pairs_view(v@),
            xv == pair_view(x),
            forall|k: int| j <= k < s.len() ==> str_lt(xv.0, #[trigger] s[k].0),
        decreases j,
    {
        j = j - 1;
    }
    proof {
        if j > 0 {
            assert(s[j - 1].0 == v@[j - 1].0@);
        }
        lemma_upsert_at(s, xv, j as int);
    }
    if j > 0 && str_eq(v[j - 1].0.as_str(), x.0.as_str()) {
        v.set(j - 1, x);
        assert(pairs_view(v@) =~= s.take(j - 1).push(xv)
            + s.skip(j as int));
    } else {
        v.insert(j, x);
        assert(pairs_view(v@) =~= s.take(j as int).push(xv)
            + s.skip(j as int));
    }
}

/// Starts a `--wait` over the spawned panes `(pane_id, label, agent)`;
/// `detectable[i]` tells whether the agent detector knows pane `i`'s
/// agent. Answers the wait, whose pending panes are the waited-for ones
/// ascending by pane id, and the labels of the panes it skips, in order.
pub fn team_wait_start(panes: &[(String, String, String)], detectable: &[bool]) -> (r: (
    TeamWait,
    Vec<String>,
))
    requires
        detectable@.len() == panes@.len(),
    ensures
        pending_view(r.0) == waited_panes(panes@, detectable@, panes@.len()),
        sorted_strict(keys(pending_view(r.0))),
        forall|id: Seq<char>|
            #[trigger] keys(pending_view(r.0)).contains(id) <==> exists|i: int|
                0 <= i < panes@.len() && panes@[i].0@ == id && waited_for(
                    panes@[i].2@,
                    detectable@[i],
                ),
        crate::text::views(r.1@) == skipped_labels(panes@, detectable@, panes@.len()),
{
    let mut pending: Vec<(String, String)> = Vec::new();
    let mut skipped: Vec<String> = Vec::new();
    let mut i: usize = 0;
    assert(keys(pairs_view(pending@)) =~= Seq::<
        Seq<char>,
    >::empty());
    assert(crate::text::views(skipped@) =~= Seq::<Seq<char>>::empty());
    while i < panes.len()
        invariant
            detectable@.len() == panes@.len(),
            i <= panes@.len(),
            pairs_view(pending@) == waited_panes(
                panes@,
                detectable@,
                i as nat,
            ),
            sorted_strict(keys(pairs_view(pending@))),
            forall|id: Seq<char>|
                #[trigger] keys(pairs_view(pending@)).contains(
                    id,
                ) <==> exists|k: int|
                    0 <= k < i && panes@[k].0@ == id && waited_for(panes@[k].2@, detectable@[k]),
            crate::text::views(skipped@) == skipped_labels(panes@, detectable@, i as nat),
        decreases panes@.len() - i,
    {
        let p = &panes[i];
        let ghost before = pairs_view(pending@);
        let is_orch = str_eq(p.2.as_str(), "orch");
        if !is_orch && detectable[i] {
            proof {
                lemma_upsert_keys(before, (p.0@, p.1@));
            }
            enter_pane(&mut pending, (p.0.clone(), p.1.clone()));
            proof {
                let now = keys(pairs_view(pending@));
                assert forall|id: Seq<char>| #[trigger] now.contains(id) <==> exists|k: int|
                    0 <= k < i + 1 && panes@[k].0@ == id && waited_for(
                        panes@[k].2@,
                        detectable@[k],
                    ) by {
                    if id == p.0@ {
                        assert(panes@[i as int].0@ == id);
                    }
                    if exists|k: int|
                        0 <= k < i + 1 && panes@[k].0@ == id && waited_for(
                            panes@[k].2@,
                            detectable@[k],
                        ) {
                        let k = choose|k: int|
                            0 <= k < i + 1 && panes@[k].0@ == id && waited_for(
                                panes@[k].2@,
                                detectable@[k],
                            );
                        if k < i {
                            assert(keys(before).contains(id));
                        }
                    }
                    if keys(before).contains(id) {
                        let k = choose|k: int|
                            0 <= k < i && panes@[k].0@ == id && waited_for(
                                panes@[k].2@,
                                detectable@[k],
                            );
                        assert(0 <= k < i + 1);
                    }
                }
            }
        } else {
            let ghost sb = skipped@;
            skipped.push(p.1.clone());
            assert(crate::text::views(skipped@) =~= crate::text::views(sb).push(p.1@));
            proof {
                assert forall|id: Seq<char>|
                    #[trigger] keys(before).contains(id) <==> exists|k: int|
                        0 <= k < i + 1 && panes@[k].0@ == id && waited_for(
                            panes@[k].2@,
                            detectable@[k],
                        ) by {
                    if exists|k: int|
                        0 <= k < i + 1 && panes@[k].0@ == id && waited_for(
                            panes@[k].2@,
                            detectable@[k],
                        ) {
                        let k = choose|k: int|
                            0 <= k < i + 1 && panes@[k].0@ == id && waited_for(
                                panes@[k].2@,
                                detectable@[k],
                            );
                        assert(k != i);
                        assert(0 <= k < i);
                    }
                    if keys(before).contains(id) {
                        let k = choose|k: int|
                            0 <= k < i && panes@[k].0@ == id && waited_for(
                                panes@[k].2@,
                                detectable@[k],
                            );
                        assert(0 <= k < i + 1);
                    }
                }
            }
        }
        i = i + 1;
    }
    (TeamWait { pending }, skipped)
}

/// A poll reply `(agent, agent_status)` that counts as ready.
pub open spec fn reply_ready(r: (Option<String>, Option<String>)) -> bool {
    (r.0 matches Some(a) && a@.len() > 0) || (r.1 matches Some(s) && s@ != "unknown"@)
}

/// The entries among the first `n` whose reply is not ready.
pub open spec fn still_pending(
    s: Seq<(Seq<char>, Seq<char>)>,
    replies: Seq<(Option<String>, Option<String>)>,
    n: nat,
) -> Seq<(Seq<char>, Seq<char>)>
    decreases n,
{
    if n == 0 {
        Seq::empty()
    } else {
        let r = still_pending(s, replies, (n - 1) as nat);
        if reply_ready(replies[n - 1]) {
            r
        } else {
            r.push(s[n - 1])
        }
    }
}

/// The labels of the entries among the first `n` whose reply is ready.
pub open spec fn ready_labels(
    s: Seq<(Seq<char>, Seq<char>)>,
    replies: Seq<(Option<String>, Option<String>)>,
    n: nat,
) -> Seq<Seq<char>>
    decreases n,
{
    if n == 0 {
        Seq::empty()
    } else {
        let r = ready_labels(s, replies, (n - 1) as nat);
        if reply_ready(replies[n - 1]) {
            r.push(s[n - 1].1)
        } else {
            r
        }
    }
}

/// The action as values: `Poll` and `TimedOut` with their lists.
pub open spec fn action_view(a: WaitAction) -> (nat, Seq<Seq<char>>) {
    match a {
        WaitAction::Done => (0, Seq::empty()),
        WaitAction::Poll(v) => (1, crate::text::views(v@)),
        WaitAction::TimedOut(v) => (3, crate::text::views(v@)),
    }
}

/// One round of `--wait`. With nothing pending the wait is done. When
/// the deadline has passed with panes pending, it times out with their
/// labels and keeps its state. Otherwise `replies[i]` is the server's
/// `(agent, agent_status)` for pending pane `i`: the ready panes leave
/// the wait (their labels are answered, in order), and the wait is done
/// when none is left, else it polls the rest. Answers the new wait, the
/// action and the labels that became ready.
pub fn team_wait_step(
    w: &TeamWait,
    deadline_passed: bool,
    replies: &[(Option<String>, Option<String>)],
) -> (r: (TeamWait, WaitAction, Vec<String>))
    requires
        replies@.len() == w.pending@.len(),
    ensures
        ({
            let s = pending_view(*w);
            let n = s.len();
            if n == 0 {
                &&& pending_view(r.0) == s
                &&& r.1 == WaitAction::Done
                &&& r.2@.len() == 0
            } else if deadline_passed {
                &&& pending_view(r.0) == s
                &&& action_view(r.1) == (3nat, labels(s))
                &&& r.2@.len() == 0
            } else {
                let rest = still_pending(s, replies@, n);
                &&& pending_view(r.0) == rest
                &&& crate::text::views(r.2@) == ready_labels(s, replies@, n)
                &&& action_view(r.1) == if rest.len() == 0 {
                    (0nat, Seq::<Seq<char>>::empty())
                } else {
                    (1nat, keys(rest))
                }
            }
        }),
{
    let ghost s = pending_view(*w);
    let n = w.pending.len();
    if n == 0 {
        return (TeamWait { pending: Vec::new() }, WaitAction::Done, Vec::new());
    }
    if deadline_passed {
        let mut stuck: Vec<String> = Vec::new();
        let mut copy: Vec<(String, String)> = Vec::new();
        let mut i: usize = 0;
        while i < n
            invariant
                n == w.pending@.len(),
                s == pending_view(*w),
                i <= n,
                crate::text::views(stuck@) == labels(s).take(i as int),
                pairs_view(copy@) == s.take(i as int),
            decreases n - i,
        {
            let ghost sb = stuck@;
            let ghost cb = copy@;
            stuck.push(w.pending[i].1.clone());
            copy.push((w.pending[i].0.clone(), w.pending[i].1.clone()));
            assert(crate::text::views(stuck@) =~= crate::text::views(sb).push(s[i as int].1));
            assert(labels(s).take(i + 1) =~= labels(s).take(i as int).push(s[i as int].1));
            assert(pairs_view(copy@) =~= pairs_view(cb).push(s[i as int]));
            assert(s.take(i + 1) =~= s.take(i as int).push(s[i as int]));
            i = i + 1;
        }
        assert(labels(s).take(n as int) =~= labels(s));
        assert(s.take(n as int) =~= s);
        return (TeamWait { pending: copy }, WaitAction::TimedOut(stuck), Vec::new());
    }
    let mut rest: Vec<(String, String)> = Vec::new();
    let mut ids: Vec<String> = Vec::new();
    let mut ready: Vec<String> = Vec::new();
    let mut i: usize = 0;
    while i < n
        invariant
            n == w.pending@.len(),
            n == replies@.len(),
            s == pending_view(*w),
            i <= n,
            pairs_view(rest@) == still_pending(
                s,
                replies@,
                i as nat,
            ),
            crate::text::views(ids@) == keys(still_pending(s, replies@, i as nat)),
            crate::text::views(ready@) == ready_labels(s, replies@, i as nat),
        decreases n - i,
    {
        let agent: Option<&str> = match &replies[i].0 {
            Some(a) => Some(a.as_str()),
            None => None,
        };
        let status: Option<&str> = match &replies[i].1 {
            Some(t) => Some(t.as_str()),
            None => None,
        };
        let ghost rb = rest@;
        let ghost ib = ids@;
        let ghost yb = ready@;
        if agent_ready(agent, status) {
            ready.push(w.pending[i].1.clone());
            assert(crate::text::views(ready@) =~= crate::text::views(yb).push(s[i as int].1));
        } else {
            rest.push((w.pending[i].0.clone(), w.pending[i].1.clone()));
            ids.push(w.pending[i].0.clone());
            assert(pairs_view(rest@) =~= pairs_view(rb).push(s[i as int]));
            assert(crate::text::views(ids@) =~= crate::text::views(ib).push(s[i as int].0));
            assert(keys(still_pending(s, replies@, (i + 1) as nat)) =~= keys(
                still_pending(s, replies@, i as nat),
            ).push(s[i as int].0));
        }
        i = i + 1;
    }
    let action = if rest.len() == 0 {
        assert(crate::text::views(ids@) =~= Seq::<Seq<char>>::empty());
        WaitAction::Done
    } else {
        WaitAction::Poll(ids)
    };
    (TeamWait { pending: rest }, action, ready)
}

} // verus!
