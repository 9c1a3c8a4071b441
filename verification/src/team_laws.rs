//! Properties of team spawning and of the `msg.who` listing.

use vstd::prelude::*;
use vstd::arithmetic::div_mod::{lemma_basic_div, lemma_div_plus_one};
use crate::order::{lemma_lt_order, str_lt};
use crate::schema::TeamSpawnParams;
use crate::who::{insert_row, sort_rows, who_panes_spec, who_row, WhoRowView};
use crate::bus::{joined, valid_group_name, dir_view, dir_has_pane, count_unread, StoredMsg, CandView, is_public_pane_id_spec, parse_target_spec, all_word, MsgBus, ResolveErrorView, TargetView};
use crate::team::{
    label_join_steps, launch_steps, spawn_script, SpawnStep,
    div_ceil, first_label_error, grid_rows, label_error, labels_of, entry_views, layout_spec,
    orch_word, team_plan_spec, valid_name_spec, is_ceil_sqrt, SplitDirection, TeamErrorView, TeamPlanView,
    MAX_TEAM_PANES,
};

verus! {

proof fn lemma_div_ceil_zero(cols: nat)
    requires
        cols > 0,
    ensures
        div_ceil(0, cols) == 0,
{
    lemma_basic_div(cols - 1, cols as int);
}

/// Placing one row takes one row off the count.
proof fn lemma_div_ceil_step(left: nat, cols: nat)
    requires
        left > 0,
        cols > 0,
    ensures
        div_ceil(left, cols) == 1 + div_ceil(
            (left - if left < cols {
                left
            } else {
                cols
            }) as nat,
            cols,
        ),
{
    lemma_div_plus_one(left - 1, cols as int);
    if left < cols {
        lemma_basic_div(left - 1, cols as int);
        lemma_div_ceil_zero(cols);
    } else {
        assert((left - cols) + cols - 1 == left - 1);
    }
}

/// The rows from `r` on hold `left` panes, each once: their seeds
/// `r..r + rows` and the panes `next..` made by splitting right; each
/// right split takes a pane that exists by then (split `t` of these is
/// the `(next - 1 + t)`-th split overall).
proof fn lemma_grid_rows(cols: nat, r: nat, left: nat, next: nat)
    requires
        cols > 0,
        r + div_ceil(left, cols) <= next,
    ensures
        ({
            let (s, g) = grid_rows(cols, r, left, next);
            let rows = div_ceil(left, cols);
            &&& g.len() == left
            &&& s.len() + rows == left
            &&& g.no_duplicates()
            &&& forall|i: int|
                0 <= i < g.len() ==> (r <= #[trigger] g[i] < r + rows) || (next <= g[i] < next
                    + left - rows)
            &&& forall|t: int|
                0 <= t < s.len() ==> (#[trigger] s[t]).0 + 1 <= next + t && s[t].1
                    == SplitDirection::Right
        }),
    decreases left,
{
    if left == 0 {
        lemma_div_ceil_zero(cols);
    } else {
        let c = if left < cols {
            left
        } else {
            cols
        };
        lemma_div_ceil_step(left, cols);
        let rows = div_ceil(left, cols);
        let rest_rows = div_ceil((left - c) as nat, cols);
        let r2 = r + 1;
        let next2 = (next + c - 1) as nat;
        lemma_grid_rows(cols, r2, (left - c) as nat, next2);
        let at = |t: int|
            if t == 0 {
                r
            } else {
                (next + t - 1) as nat
            };
        let row_s = Seq::new((c - 1) as nat, |t: int| (at(t), SplitDirection::Right));
        let row_g = Seq::new(c, |t: int| at(t));
        let rest = grid_rows(cols, r2, (left - c) as nat, next2);
        let (s, g) = grid_rows(cols, r, left, next);
        assert(s == row_s + rest.0);
        assert(g == row_g + rest.1);
        assert forall|i: int| 0 <= i < g.len() implies (r <= #[trigger] g[i] < r + rows) || (next
            <= g[i] < next + left - rows) by {
            if i >= c {
                assert(g[i] == rest.1[i - c]);
            }
        }
        assert forall|t: int| 0 <= t < s.len() implies (#[trigger] s[t]).0 + 1 <= next + t && s[t].1
            == SplitDirection::Right by {
            if t >= c - 1 {
                assert(s[t] == rest.0[t - (c - 1)]);
            }
        }
        assert forall|i: int, j: int| 0 <= i < g.len() && 0 <= j < g.len() && i != j implies g[i]
            != g[j] by {
            if i >= c {
                assert(g[i] == rest.1[i - c]);
            }
            if j >= c {
                assert(g[j] == rest.1[j - c]);
            }
            if i >= c && j >= c {
                assert(rest.1[i - c] != rest.1[j - c]);
            }
        }
    }
}

/// The team grid holds every pane once: pane numbers `0..total`, each in
/// one place. It takes `total - 1` splits, the first `rows - 1` of them
/// down and the rest right, and the `k`-th split always takes a pane
/// that exists by then (a pane numbered `k` or lower).
pub proof fn law_team_grid_places_every_pane_once(total: nat, cols: nat)
    requires
        total >= 1,
        cols >= 1,
    ensures
        ({
            let (s, g) = layout_spec(total, cols);
            &&& g.len() == total
            &&& g.no_duplicates()
            &&& forall|i: int| 0 <= i < g.len() ==> #[trigger] g[i] < total
            &&& s.len() + 1 == total
            &&& forall|k: int| 0 <= k < s.len() ==> (#[trigger] s[k]).0 <= k
            &&& forall|k: int|
                0 <= k < s.len() ==> ((#[trigger] s[k]).1 == SplitDirection::Down <==> k + 1
                    < div_ceil(total, cols))
        }),
{
    let rows = div_ceil(total, cols);
    assert(rows >= 1) by {
        lemma_div_ceil_step(total, cols);
    }
    lemma_grid_rows(cols, 0, total, rows);
    let filled = grid_rows(cols, 0, total, rows);
    let downs = Seq::new((rows - 1) as nat, |k: int| (k as nat, SplitDirection::Down));
    let (s, g) = layout_spec(total, cols);
    assert(s == downs + filled.0);
    assert forall|k: int| 0 <= k < s.len() implies (#[trigger] s[k]).0 <= k && (s[k].1
        == SplitDirection::Down <==> k + 1 < rows) by {
        if k >= rows - 1 {
            assert(s[k] == filled.0[k - (rows - 1)]);
        }
    }
}

/// When no label is wrong, each label passes its own check.
proof fn lemma_no_label_error(ls: Seq<Seq<char>>, with_orch: bool, n: nat, i: int)
    requires
        first_label_error(ls, with_orch, n) is None,
        0 <= i < n,
    ensures
        label_error(ls[i], ls.take(i), with_orch) is None,
    decreases n,
{
    if i < n - 1 {
        lemma_no_label_error(ls, with_orch, (n - 1) as nat, i);
    }
}

/// A valid name that is not a pane id parses as a bare label.
proof fn lemma_valid_label_parses(l: Seq<char>)
    requires
        valid_name_spec(l),
        !is_public_pane_id_spec(l),
    ensures
        parse_target_spec(l) == Ok::<TargetView, ResolveErrorView>(TargetView::Label(l)),
{
}

/// Every pane of an accepted team is addressable by its label: the
/// labels (the orchestrator's `orch` included) are distinct, and each
/// parses as a bare label, never as a pane id; the team's name, as
/// `@name`, addresses its group, and is a valid group name (so joining
/// the panes to it cannot be refused); the team fits [`MAX_TEAM_PANES`], each
/// pane has a label, an agent and a command, and the group had no member
/// before.
pub proof fn law_accepted_team_is_addressable(
    params: crate::schema::TeamSpawnParams,
    bus: MsgBus,
    reg: Seq<(Seq<char>, Seq<char>)>,
)
    requires
        team_plan_spec(params, bus, reg) is Ok,
    ensures
        ({
            let p = team_plan_spec(params, bus, reg)->Ok_0;
            &&& 1 <= p.labels.len() <= MAX_TEAM_PANES
            &&& p.agents.len() == p.labels.len()
            &&& p.commands.len() == p.labels.len()
            &&& p.labels.no_duplicates()
            &&& forall|i: int|
                0 <= i < p.labels.len() ==> parse_target_spec(#[trigger] p.labels[i]) == Ok::<
                    TargetView,
                    ResolveErrorView,
                >(TargetView::Label(p.labels[i]))
            &&& parse_target_spec(seq!['@'] + params.name@) == Ok::<TargetView, ResolveErrorView>(
                TargetView::Group(params.name@),
            )
            &&& valid_group_name(params.name@)
            &&& !exists|q: Seq<char>| bus.is_member(params.name@, q)
        }),
{
    let es = entry_views(params.entries@);
    let ls = labels_of(es);
    let w = params.with_orch;
    let n = es.len();
    let p = team_plan_spec(params, bus, reg)->Ok_0;
    assert(first_label_error(ls, w, n) is None);
    let orch = orch_word();
    assert(!orch.contains(':') && !orch.contains('/')) by {
        if orch.contains(':') {
            let k = choose|k: int| 0 <= k < orch.len() && orch[k] == ':';
        }
        if orch.contains('/') {
            let k = choose|k: int| 0 <= k < orch.len() && orch[k] == '/';
        }
    }
    assert forall|i: int| 0 <= i < n implies label_error(ls[i], ls.take(i), w) is None by {
        lemma_no_label_error(ls, w, n, i);
    }
    assert forall|i: int| 0 <= i < p.labels.len() implies parse_target_spec(#[trigger] p.labels[i])
        == Ok::<TargetView, ResolveErrorView>(TargetView::Label(p.labels[i])) by {
        if i < n {
            assert(p.labels[i] == ls[i]);
            assert(label_error(ls[i], ls.take(i), w) is None);
            lemma_valid_label_parses(ls[i]);
        } else {
            assert(p.labels[i] == orch);
        }
    }
    assert forall|a: int, b: int|
        0 <= a < p.labels.len() && 0 <= b < p.labels.len() && a != b implies p.labels[a]
        != p.labels[b] by {
        let i = if a < b {
            a
        } else {
            b
        };
        let j = if a < b {
            b
        } else {
            a
        };
        assert(label_error(ls[i], ls.take(i), w) is None);
        if j < n {
            assert(label_error(ls[j], ls.take(j), w) is None);
            assert(ls.take(j)[i] == ls[i]);
            assert(p.labels[i] == ls[i] && p.labels[j] == ls[j]);
        } else {
            assert(p.labels[j] == orch);
            assert(p.labels[i] == ls[i]);
        }
    }
    let e = seq!['@'] + params.name@;
    assert(e.skip(1) =~= params.name@);
    assert(params.name@ != all_word());
}

/// Rows in order of pane id (equal ids may sit in either order).
pub open spec fn rows_sorted(s: Seq<WhoRowView>) -> bool {
    forall|i: int, j: int| 0 <= i < j < s.len() ==> !str_lt(#[trigger] s[j].0, #[trigger] s[i].0)
}

proof fn lemma_insert_row(s: Seq<WhoRowView>, x: WhoRowView)
    requires
        rows_sorted(s),
    ensures
        rows_sorted(insert_row(s, x)),
        insert_row(s, x).to_multiset() =~= s.to_multiset().insert(x),
        forall|e: WhoRowView| #[trigger] insert_row(s, x).contains(e) <==> s.contains(e) || e == x,
    decreases s.len(),
{
    broadcast use vstd::seq_lib::to_multiset_build;

    lemma_lt_order();
    if s.len() == 0 {
        assert(seq![x] =~= s.push(x));
        assert(seq![x][0] == x);
    } else if str_lt(x.0, s.last().0) {
        let t = s.drop_last();
        let last = s.last();
        assert(rows_sorted(t)) by {
            assert forall|i: int, j: int| 0 <= i < j < t.len() implies !str_lt(
                #[trigger] t[j].0,
                #[trigger] t[i].0,
            ) by {
                assert(t[i] == s[i] && t[j] == s[j]);
            }
        }
        lemma_insert_row(t, x);
        let u = insert_row(t, x);
        assert forall|e: WhoRowView| u.contains(e) implies !str_lt(last.0, e.0) by {
            if t.contains(e) {
                let k = choose|k: int| 0 <= k < t.len() && t[k] == e;
                assert(s[k] == e);
                assert(s[s.len() - 1] == last);
            }
        }
        let v = u.push(last);
        assert forall|i: int, j: int| 0 <= i < j < v.len() implies !str_lt(
            #[trigger] v[j].0,
            #[trigger] v[i].0,
        ) by {
            assert(v[i] == u[i]);
            if j == v.len() - 1 {
                assert(u.contains(v[i]));
            } else {
                assert(v[j] == u[j]);
            }
        }
        assert(s =~= t.push(last));
        assert forall|e: WhoRowView| #[trigger] v.contains(e) <==> s.contains(e) || e == x by {
            if v.contains(e) && e != last {
                let k = choose|k: int| 0 <= k < v.len() && v[k] == e;
                assert(u.contains(e));
                if t.contains(e) {
                    let m = choose|m: int| 0 <= m < t.len() && t[m] == e;
                    assert(s[m] == e);
                }
            }
            if s.contains(e) {
                let k = choose|k: int| 0 <= k < s.len() && s[k] == e;
                if k < s.len() - 1 {
                    assert(t[k] == e);
                    assert(u.contains(e));
                    let m = choose|m: int| 0 <= m < u.len() && u[m] == e;
                    assert(v[m] == e);
                } else {
                    assert(v[v.len() - 1] == e);
                }
            }
            if e == x {
                assert(u.contains(x));
                let m = choose|m: int| 0 <= m < u.len() && u[m] == x;
                assert(v[m] == x);
            }
        }
        assert(v.to_multiset() =~= u.to_multiset().insert(last));
        assert(s.to_multiset() =~= t.to_multiset().insert(last));
    } else {
        let v = s.push(x);
        assert forall|i: int, j: int| 0 <= i < j < v.len() implies !str_lt(
            #[trigger] v[j].0,
            #[trigger] v[i].0,
        ) by {
            if j == v.len() - 1 {
                assert(v[j] == x);
                assert(v[i] == s[i]);
                let l = s[s.len() - 1].0;
                assert(!str_lt(x.0, l));
                if i < s.len() - 1 {
                    assert(!str_lt(l, s[i].0));
                    if str_lt(x.0, s[i].0) {
                        if s[i].0 == l {
                        } else if str_lt(s[i].0, l) {
                            assert(str_lt(x.0, l));
                        } else {
                            assert(str_lt(l, s[i].0));
                        }
                    }
                }
            } else {
                assert(v[i] == s[i] && v[j] == s[j]);
            }
        }
        assert forall|e: WhoRowView| #[trigger] v.contains(e) <==> s.contains(e) || e == x by {
            if v.contains(e) {
                let k = choose|k: int| 0 <= k < v.len() && v[k] == e;
                if k < s.len() {
                    assert(s[k] == e);
                }
            }
            if s.contains(e) {
                let k = choose|k: int| 0 <= k < s.len() && s[k] == e;
                assert(v[k] == e);
            }
            if e == x {
                assert(v[s.len() as int] == x);
            }
        }
    }
}

proof fn lemma_sort_rows(s: Seq<WhoRowView>)
    ensures
        rows_sorted(sort_rows(s)),
        sort_rows(s).to_multiset() =~= s.to_multiset(),
    decreases s.len(),
{
    broadcast use vstd::seq_lib::to_multiset_build;

    if s.len() == 0 {
    } else {
        lemma_sort_rows(s.drop_last());
        lemma_insert_row(sort_rows(s.drop_last()), s.last());
        assert(s =~= s.drop_last().push(s.last()));
    }
}

/// `msg.who` lists each directory pane once, in order of pane id: its
/// rows are sorted by pane id and are, as a multiset, exactly the
/// directory's rows.
pub proof fn law_who_lists_each_directory_pane_by_id(
    bus: MsgBus,
    directory: Seq<(String, String, String)>,
)
    ensures
        rows_sorted(who_panes_spec(bus, dir_view(directory))),
        who_panes_spec(bus, dir_view(directory)).to_multiset() =~= dir_view(directory).map_values(
            |e: CandView| who_row(bus, e),
        ).to_multiset(),
{
    lemma_sort_rows(dir_view(directory).map_values(|e: CandView| who_row(bus, e)));
}

/// A spawn labels every pane and joins it to the group before it sends
/// any command: in the steps of a spawn that does not fail, every label
/// and join comes after every split and the balance and before every
/// launch, and between them pane after pane is labelled, then joined.
pub proof fn law_spawn_labels_before_launching(splits: nat, commands: Seq<Seq<char>>)
    ensures
        ({
            let sc = spawn_script(splits, commands);
            let first_label = splits + 2;
            let first_launch = first_label + 2 * commands.len();
            &&& forall|j: int|
                0 <= j < first_label ==> !(#[trigger] sc[j] is Label) && !(sc[j] is JoinGroup)
            &&& forall|j: int|
                first_launch <= j < sc.len() ==> !(#[trigger] sc[j] is Label) && !(
                sc[j] is JoinGroup) && !(sc[j] is Split) && !(sc[j] is Balance)
            &&& sc.subrange(first_label as int, first_launch as int) == label_join_steps(
                commands.len(),
            )
            &&& sc.last() == SpawnStep::Finish
        }),
{
    let sc = spawn_script(splits, commands);
    let lj = label_join_steps(commands.len());
    let ls = launch_steps(commands, 0);
    let first_label = splits + 2;
    let first_launch = first_label + 2 * commands.len();
    assert(sc == seq![SpawnStep::CreateWorkspace] + Seq::new(
        splits,
        |k: int| SpawnStep::Split(k as usize),
    ) + seq![SpawnStep::Balance] + lj + ls + seq![SpawnStep::Finish]);
    assert forall|j: int| first_launch <= j < sc.len() implies !(#[trigger] sc[j] is Label) && !(
    sc[j] is JoinGroup) && !(sc[j] is Split) && !(sc[j] is Balance) by {
        if j < sc.len() - 1 {
            assert(sc[j] == ls[j - first_launch]);
            crate::team::lemma_launch_steps_are_launches(commands, 0, j - first_launch);
        }
    }
    assert(sc.subrange(first_label as int, first_launch as int) =~= lj);
}

/// A completed spawn makes the team's group exactly its panes: when the
/// group had no member before and the join steps then join the grid's
/// panes `ids[0]`, `ids[1]`, ... to it one after another (taking the bus
/// from `buses[k]` to `buses[k + 1]`), the group's members are exactly
/// the grid's panes, every other group is as it was, and no inbox
/// changed.
pub proof fn law_spawn_joins_make_the_team_group(
    name: Seq<char>,
    ids: Seq<Seq<char>>,
    buses: Seq<MsgBus>,
)
    requires
        buses.len() == ids.len() + 1,
        forall|k: int|
            0 <= k < ids.len() ==> joined(#[trigger] buses[k], buses[k + 1], name, ids[k]),
        !exists|q: Seq<char>| buses[0].is_member(name, q),
    ensures
        forall|q: Seq<char>| #[trigger] buses.last().is_member(name, q) <==> ids.contains(q),
        forall|g: Seq<char>, q: Seq<char>|
            g != name ==> (#[trigger] buses.last().is_member(g, q) == buses[0].is_member(g, q)),
        forall|p: Seq<char>| #[trigger] buses.last().inbox(p) == buses[0].inbox(p),
    decreases ids.len(),
{
    if ids.len() == 0 {
        assert forall|q: Seq<char>| #[trigger] buses.last().is_member(name, q) <==> ids.contains(q) by {
            assert(!buses[0].is_member(name, q));
        }
    } else {
        let n = ids.len() - 1;
        let ids0 = ids.drop_last();
        let b0 = buses.drop_last();
        assert forall|k: int| 0 <= k < ids0.len() implies joined(#[trigger] b0[k], b0[k + 1], name, ids0[k]) by {
            assert(b0[k] == buses[k] && b0[k + 1] == buses[k + 1] && ids0[k] == ids[k]);
            assert(joined(buses[k], buses[k + 1], name, ids[k]));
        }
        law_spawn_joins_make_the_team_group(name, ids0, b0);
        let before = buses[n];
        let after = buses[n + 1];
        assert(b0.last() == before);
        assert(buses.last() == after);
        assert(joined(buses[n], buses[n + 1], name, ids[n]));
        assert forall|q: Seq<char>| #[trigger] after.is_member(name, q) <==> ids.contains(q) by {
            assert(after.is_member(name, q) == (before.is_member(name, q) || q == ids[n]));
            assert(before.is_member(name, q) <==> ids0.contains(q));
            if ids0.contains(q) {
                let m = choose|m: int| 0 <= m < ids0.len() && ids0[m] == q;
                assert(ids[m] == q);
            }
            if q == ids[n] {
                assert(ids.contains(q));
            }
            if ids.contains(q) {
                let m = choose|m: int| 0 <= m < ids.len() && ids[m] == q;
                if m < n {
                    assert(ids0[m] == q);
                }
            }
        }
        assert forall|g: Seq<char>, q: Seq<char>| g != name implies (#[trigger] after.is_member(g, q)
            == buses[0].is_member(g, q)) by {
            assert(after.is_member(g, q) == before.is_member(g, q));
            assert(b0[0] == buses[0]);
        }
        assert forall|p: Seq<char>| #[trigger] after.inbox(p) == buses[0].inbox(p) by {
            assert(after.inbox(p) == before.inbox(p));
            assert(b0[0] == buses[0]);
        }
    }
}

/// Counting up from a number whose predecessor's square is below `n`
/// reaches the ceiling of the square root of `n`.
proof fn lemma_ceil_sqrt_from(n: nat, c: nat) -> (r: nat)
    requires
        c == 0 || (c - 1) * (c - 1) < n,
    ensures
        is_ceil_sqrt(n, r),
    decreases n - c,
{
    if c * c >= n {
        c
    } else {
        assert(c <= c * c) by (nonlinear_arith);
        lemma_ceil_sqrt_from(n, c + 1)
    }
}

/// An accepted team plan lays out every team pane, the orchestrator's
/// included: with `total` the number of roster entries plus one when
/// `with_orch` is set, the plan has one label per pane, `cols` is the
/// least number whose square reaches `total`, and `rows` is `total`
/// divided by `cols`, rounded up, so that `rows` rows of `cols` hold
/// every pane and one row fewer would not.
pub proof fn law_team_grid_fits_every_pane(
    params: TeamSpawnParams,
    bus: MsgBus,
    reg: Seq<(Seq<char>, Seq<char>)>,
)
    requires
        team_plan_spec(params, bus, reg) is Ok,
    ensures
        ({
            let p = team_plan_spec(params, bus, reg)->Ok_0;
            let total = params.entries@.len() + if params.with_orch {
                1nat
            } else {
                0nat
            };
            &&& p.labels.len() == total
            &&& p.cols >= 1
            &&& p.cols * p.cols >= total
            &&& (p.cols - 1) * (p.cols - 1) < total
            &&& p.rows == (total + p.cols - 1) / (p.cols as int)
            &&& p.rows * p.cols >= total
            &&& (p.rows - 1) * p.cols < total
        }),
{
    let p = team_plan_spec(params, bus, reg)->Ok_0;
    let es = entry_views(params.entries@);
    let total = es.len() + if params.with_orch {
        1nat
    } else {
        0nat
    };
    lemma_ceil_sqrt_from(total, 0);
    let c = choose|c: nat| is_ceil_sqrt(total, c);
    assert(is_ceil_sqrt(total, c));
    assert(p.cols == c);
    assert(c >= 1);
    let rows = p.rows;
    assert(rows == (total + c - 1) / (c as int));
    assert(rows * c >= total && (rows - 1) * c < total) by (nonlinear_arith)
        requires
            c >= 1,
            rows == (total + c - 1) / (c as int),
    {
        let q = (total + c - 1) / (c as int);
        let m = (total + c - 1) % (c as int);
        assert(total + c - 1 == c * q + m && 0 <= m < c);
    }
}

/// The unread count of a message list is the length of its messages
/// whose seq is above the cursor.
proof fn lemma_count_unread_is_filter(s: Seq<StoredMsg>, ack: u64)
    ensures
        count_unread(s, ack) == s.filter(|m: StoredMsg| m.seq > ack).len(),
    decreases s.len(),
{
    reveal(Seq::filter);
    if s.len() > 0 {
        lemma_count_unread_is_filter(s.drop_last(), ack);
    }
}

/// Each `msg.who` pane row is the row of a directory pane, and its unread
/// count is the number of that pane's inbox messages whose seq is above
/// the inbox's ack cursor (read messages are not counted); a pane without
/// an inbox has 0.
pub proof fn law_who_counts_only_unread(bus: MsgBus, directory: Seq<(String, String, String)>)
    ensures
        forall|k: int|
            0 <= k < who_panes_spec(bus, dir_view(directory)).len() ==> dir_has_pane(
                dir_view(directory),
                (#[trigger] who_panes_spec(bus, dir_view(directory))[k]).0,
            ),
        forall|k: int|
            0 <= k < who_panes_spec(bus, dir_view(directory)).len() ==> (#[trigger] who_panes_spec(
                bus,
                dir_view(directory),
            )[k]).4 == match bus.inbox(who_panes_spec(bus, dir_view(directory))[k].0) {
                Some(ib) => ib.messages.filter(|m: StoredMsg| m.seq > ib.ack_seq).len(),
                None => 0,
            },
{
    broadcast use vstd::seq_lib::to_multiset_contains;

    let d = dir_view(directory);
    let rows = d.map_values(|e: CandView| who_row(bus, e));
    let w = who_panes_spec(bus, d);
    lemma_sort_rows(rows);
    assert forall|k: int| 0 <= k < w.len() implies dir_has_pane(d, (#[trigger] w[k]).0) && w[k].4
        == match bus.inbox(w[k].0) {
        Some(ib) => ib.messages.filter(|m: StoredMsg| m.seq > ib.ack_seq).len(),
        None => 0,
    } by {
        assert(w.contains(w[k]));
        assert(w.to_multiset().count(w[k]) > 0);
        assert(rows.contains(w[k]));
        let i = choose|i: int| 0 <= i < rows.len() && rows[i] == w[k];
        assert(rows[i] == who_row(bus, d[i]));
        assert(d[i].1 == w[k].0);
        match bus.inbox(w[k].0) {
            Some(ib) => {
                lemma_count_unread_is_filter(ib.messages, ib.ack_seq);
            },
            None => {},
        }
    }
}

} // verus!
