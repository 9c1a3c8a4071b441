//! `msg.who`: every addressable pane with its groups and unread count,
//! and every group those panes belong to with its members.

use vstd::prelude::*;
use crate::bus::{count_unread, dir_view, CandView, MsgBus};
use crate::order::{insert_sorted, lemma_sorted_listing, sorted_listing, sorted_strict, str_less, str_lt};
use crate::schema::{MsgWhoGroupInfo, MsgWhoPaneInfo, MsgWhoResult};
use crate::text::views;

verus! {

/// A pane row as values: `(pane_id, workspace_id, label, groups, unread)`.
pub type WhoRowView = (Seq<char>, Seq<char>, Seq<char>, Seq<Seq<char>>, nat);

/// The value of a pane row.
pub open spec fn who_row_view(p: MsgWhoPaneInfo) -> WhoRowView {
    (p.pane_id@, p.workspace_id@, p.label@, views(p.groups@), p.unread as nat)
}

/// A group row as values: `(name, members)`.
pub open spec fn who_group_view(g: MsgWhoGroupInfo) -> (Seq<char>, Seq<Seq<char>>) {
    (g.name@, views(g.members@))
}

/// Unread count of a pane; 0 for a pane without an inbox.
pub open spec fn unread_of(bus: MsgBus, p: Seq<char>) -> nat {
    match bus.inbox(p) {
        Some(ib) => count_unread(ib.messages, ib.ack_seq),
        None => 0,
    }
}

/// The sorted groups of pane `p`.
pub open spec fn groups_of_spec(bus: MsgBus, p: Seq<char>) -> Seq<Seq<char>> {
    sorted_listing(|g: Seq<char>| bus.is_member(g, p))
}

/// The sorted members of group `g`.
pub open spec fn members_of_spec(bus: MsgBus, g: Seq<char>) -> Seq<Seq<char>> {
    sorted_listing(|p: Seq<char>| bus.is_member(g, p))
}

/// The row of directory entry `e = (workspace_id, pane_id, label)`.
pub open spec fn who_row(bus: MsgBus, e: CandView) -> WhoRowView {
    (e.1, e.0, e.2, groups_of_spec(bus, e.1), unread_of(bus, e.1))
}

/// Stable insertion of `x` into rows ordered by pane id: after every row
/// whose pane id does not sort above `x`'s.
pub open spec fn insert_row(s: Seq<WhoRowView>, x: WhoRowView) -> Seq<WhoRowView>
    decreases s.len(),
{
    if s.len() == 0 {
        seq![x]
    } else if str_lt(x.0, s.last().0) {
        insert_row(s.drop_last(), x).push(s.last())
    } else {
        s.push(x)
    }
}

/// The rows stably sorted by pane id (rows with equal pane ids keep their
/// order).
pub open spec fn sort_rows(s: Seq<WhoRowView>) -> Seq<WhoRowView>
    decreases s.len(),
{
    if s.len() == 0 {
        s
    } else {
        insert_row(sort_rows(s.drop_last()), s.last())
    }
}

/// The pane rows of `msg.who` for directory `d`.
pub open spec fn who_panes_spec(bus: MsgBus, d: Seq<CandView>) -> Seq<WhoRowView> {
    sort_rows(d.map_values(|e: CandView| who_row(bus, e)))
}

/// A group that some directory pane belongs to.
pub open spec fn listed_group(bus: MsgBus, d: Seq<CandView>, g: Seq<char>) -> bool {
    exists|i: int| 0 <= i < d.len() && bus.is_member(g, #[trigger] d[i].1)
}

/// The group rows of `msg.who` for directory `d`: the groups of the
/// directory's panes, sorted, each with all of its members, sorted.
pub open spec fn who_groups_spec(bus: MsgBus, d: Seq<CandView>) -> Seq<
    (Seq<char>, Seq<Seq<char>>),
> {
    sorted_listing(|g: Seq<char>| listed_group(bus, d, g)).map_values(
        |g: Seq<char>| (g, members_of_spec(bus, g)),
    )
}

/// Inserting at `j`, where every row from `j` on sorts above `x` and the
/// row before `j` (if any) does not, is [`insert_row`].
proof fn lemma_insert_row_at(s: Seq<WhoRowView>, x: WhoRowView, j: int)
    requires
        0 <= j <= s.len(),
        forall|k: int| j <= k < s.len() ==> str_lt(x.0, #[trigger] s[k].0),
        j > 0 ==> !str_lt(x.0, s[j - 1].0),
    ensures
        insert_row(s, x) == s.take(j).push(x) + s.skip(j),
    decreases s.len(),
{
    if s.len() == 0 {
        assert(s.take(j).push(x) + s.skip(j) =~= seq![x]);
    } else if j == s.len() {
        assert(s.take(j).push(x) + s.skip(j) =~= s.push(x));
    } else {
        let t = s.drop_last();
        assert(str_lt(x.0, s[s.len() - 1].0));
        assert forall|k: int| j <= k < t.len() implies str_lt(x.0, #[trigger] t[k].0) by {
            assert(t[k] == s[k]);
        }
        if j > 0 {
            assert(t[j - 1] == s[j - 1]);
        }
        lemma_insert_row_at(t, x, j);
        assert(t.take(j).push(x) + t.skip(j) + seq![s.last()] =~= s.take(j).push(x) + s.skip(j));
        assert((t.take(j).push(x) + t.skip(j)).push(s.last()) =~= t.take(j).push(x) + t.skip(j)
            + seq![s.last()]);
    }
}

fn pane_row(bus: &MsgBus, e: &(String, String, String)) -> (r: MsgWhoPaneInfo)
    requires
        bus.wf(),
    ensures
        who_row_view(r) == who_row(*bus, (e.0@, e.1@, e.2@)),
        forall|g: Seq<char>| #[trigger] views(r.groups@).contains(g) <==> bus.is_member(g, e.1@),
{
    let groups = bus.groups_of(e.1.as_str());
    proof {
        lemma_sorted_listing(views(groups@), |g: Seq<char>| bus.is_member(g, e.1@));
    }
    let unread = bus.unread(e.1.as_str());
    MsgWhoPaneInfo {
        pane_id: e.1.clone(),
        workspace_id: e.0.clone(),
        label: e.2.clone(),
        groups,
        unread,
    }
}

/// Handles `msg.who` for the directory `(workspace_id, pane_id, label)`
/// of every addressable pane: one row per pane, stably sorted by pane id,
/// with the pane's sorted groups and unread count; and one row per group
/// that some listed pane belongs to, sorted by name, with the group's
/// sorted members.
pub fn handle_msg_who(bus: &MsgBus, directory: &[(String, String, String)]) -> (r: MsgWhoResult)
    requires
        bus.wf(),
    ensures
        r.panes@.map_values(|p: MsgWhoPaneInfo| who_row_view(p)) == who_panes_spec(
            *bus,
            dir_view(directory@),
        ),
        r.groups@.map_values(|g: MsgWhoGroupInfo| who_group_view(g)) == who_groups_spec(
            *bus,
            dir_view(directory@),
        ),
{
    let ghost d = dir_view(directory@);
    let ghost rows = d.map_values(|e: CandView| who_row(*bus, e));
    let mut panes: Vec<MsgWhoPaneInfo> = Vec::new();
    let mut names: Vec<String> = Vec::new();
    let mut i: usize = 0;
    while i < directory.len()
        invariant
            bus.wf(),
            i <= directory@.len(),
            d == dir_view(directory@),
            rows == d.map_values(|e: CandView| who_row(*bus, e)),
            panes@.map_values(|p: MsgWhoPaneInfo| who_row_view(p)) == sort_rows(
                rows.take(i as int),
            ),
            sorted_strict(views(names@)),
            forall|g: Seq<char>| #[trigger]
                views(names@).contains(g) <==> listed_group(*bus, d.take(i as int), g),
        decreases directory@.len() - i,
    {
        let row = pane_row(bus, &directory[i]);
        let ghost x = who_row_view(row);
        let ghost sv = panes@.map_values(|p: MsgWhoPaneInfo| who_row_view(p));
        assert(x == rows[i as int]);
        let mut j: usize = panes.len();
        while j > 0 && str_less(row.pane_id.as_str(), panes[j - 1].pane_id.as_str())
            invariant
                j <= panes@.len(),
                sv == panes@.map_values(|p: MsgWhoPaneInfo| who_row_view(p)),
                x == who_row_view(row),
                forall|k: int| j <= k < sv.len() ==> str_lt(x.0, #[trigger] sv[k].0),
            decreases j,
        {
            j = j - 1;
        }
        proof {
            if j > 0 {
                assert(sv[j - 1].0 == panes@[j - 1].pane_id@);
            }
            lemma_insert_row_at(sv, x, j as int);
            assert(rows.take(i + 1).drop_last() =~= rows.take(i as int));
        }
        // each of the pane's groups joins the listed groups
        let mut k: usize = 0;
        let ghost gs = views(row.groups@);
        while k < row.groups.len()
            invariant
                i < directory@.len(),
                k <= row.groups@.len(),
                gs == views(row.groups@),
                gs == groups_of_spec(*bus, directory@[i as int].1@),
                forall|g: Seq<char>| #[trigger] gs.contains(g) <==> bus.is_member(g, directory@[i as int].1@),
                sorted_strict(views(names@)),
                forall|g: Seq<char>| #[trigger]
                    views(names@).contains(g) <==> (listed_group(*bus, d.take(i as int), g)
                        || gs.take(k as int).contains(g)),
            decreases row.groups@.len() - k,
        {
            insert_sorted(&mut names, row.groups[k].clone());
            proof {
                let t = gs.take(k + 1);
                assert(t =~= gs.take(k as int).push(gs[k as int]));
                assert(gs[k as int] == row.groups@[k as int]@);
                assert forall|g: Seq<char>| #[trigger] t.contains(g) <==> (gs.take(k as int).contains(
                    g,
                ) || g == gs[k as int]) by {
                    if t.contains(g) && g != gs[k as int] {
                        let m = choose|m: int| 0 <= m < t.len() && t[m] == g;
                        assert(gs.take(k as int)[m] == g);
                    }
                    if gs.take(k as int).contains(g) {
                        let m = choose|m: int| 0 <= m < k && gs.take(k as int)[m] == g;
                        assert(t[m] == g);
                    }
                    if g == gs[k as int] {
                        assert(t[k as int] == g);
                    }
                }
            }
            k = k + 1;
        }
        proof {
            assert(gs.take(k as int) =~= gs);
            let p = directory@[i as int].1@;
            assert(d[i as int].1 == p);
            assert forall|g: Seq<char>| #[trigger]
                views(names@).contains(g) <==> listed_group(*bus, d.take(i + 1), g) by {
                let t = d.take(i + 1);
                if listed_group(*bus, t, g) {
                    let m = choose|m: int| 0 <= m < t.len() && bus.is_member(g, #[trigger] t[m].1);
                    if m < i {
                        assert(d.take(i as int)[m] == t[m]);
                    } else {
                        assert(t[m].1 == p);
                    }
                }
                if listed_group(*bus, d.take(i as int), g) {
                    let m = choose|m: int|
                        0 <= m < i && bus.is_member(g, #[trigger] d.take(i as int)[m].1);
                    assert(t[m] == d.take(i as int)[m]);
                }
                if gs.contains(g) {
                    assert(t[i as int].1 == p);
                }
            }
        }
        panes.insert(j, row);
        assert(panes@.map_values(|p: MsgWhoPaneInfo| who_row_view(p)) =~= sv.take(j as int).push(x)
            + sv.skip(j as int));
        i = i + 1;
    }
    assert(rows.take(i as int) =~= rows);
    assert(d.take(i as int) =~= d);
    proof {
        lemma_sorted_listing(views(names@), |g: Seq<char>| listed_group(*bus, d, g));
    }
    let ghost ns = views(names@);
    let mut groups: Vec<MsgWhoGroupInfo> = Vec::new();
    let mut n: usize = 0;
    while n < names.len()
        invariant
            bus.wf(),
            n <= names@.len(),
            ns == views(names@),
            groups@.map_values(|g: MsgWhoGroupInfo| who_group_view(g)) == ns.take(
                n as int,
            ).map_values(|g: Seq<char>| (g, members_of_spec(*bus, g))),
        decreases names@.len() - n,
    {
        let members = bus.group_members(names[n].as_str());
        proof {
            lemma_sorted_listing(views(members@), |p: Seq<char>| bus.is_member(ns[n as int], p));
        }
        let ghost mv = views(members@);
        assert(mv == members_of_spec(*bus, ns[n as int]));
        let info = MsgWhoGroupInfo { name: names[n].clone(), members };
        assert(who_group_view(info) == (ns[n as int], members_of_spec(*bus, ns[n as int])));
        let ghost before = groups@;
        groups.push(info);
        assert(groups@ == before.push(info));
        assert(groups@.map_values(|g: MsgWhoGroupInfo| who_group_view(g)) =~= before.map_values(
            |g: MsgWhoGroupInfo| who_group_view(g),
        ).push(who_group_view(info)));
        assert(ns.take(n + 1) =~= ns.take(n as int).push(ns[n as int]));
        assert(ns.take(n + 1).map_values(|g: Seq<char>| (g, members_of_spec(*bus, g))) =~= ns.take(
            n as int,
        ).map_values(|g: Seq<char>| (g, members_of_spec(*bus, g))).push(
            (ns[n as int], members_of_spec(*bus, ns[n as int])),
        ));
        n = n + 1;
    }
    assert(ns.take(n as int) =~= ns);
    MsgWhoResult { panes, groups }
}

} // verus!
