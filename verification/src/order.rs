//! Lexicographic order on strings and strictly sorted string lists.
//!
//! Strings are ordered character by character by code point, a proper
//! prefix first. On UTF-8 text this is the byte order that `String`'s
//! `Ord` uses.

use vstd::prelude::*;
use crate::text::{chars_of, views};

verus! {

/// `a` sorts strictly before `b`.
pub open spec fn str_lt(a: Seq<char>, b: Seq<char>) -> bool
    decreases a.len(),
{
    if a.len() == 0 {
        b.len() > 0
    } else if b.len() == 0 {
        false
    } else if a[0] != b[0] {
        a[0] < b[0]
    } else {
        str_lt(a.drop_first(), b.drop_first())
    }
}

/// No string sorts before itself.
pub proof fn lemma_lt_irreflexive(a: Seq<char>)
    ensures
        !str_lt(a, a),
    decreases a.len(),
{
    if a.len() > 0 {
        lemma_lt_irreflexive(a.drop_first());
    }
}

/// Sorting before is transitive.
pub proof fn lemma_lt_transitive(a: Seq<char>, b: Seq<char>, c: Seq<char>)
    requires
        str_lt(a, b),
        str_lt(b, c),
    ensures
        str_lt(a, c),
    decreases a.len(),
{
    if a.len() > 0 && b.len() > 0 && c.len() > 0 {
        if a[0] == b[0] && b[0] == c[0] {
            lemma_lt_transitive(a.drop_first(), b.drop_first(), c.drop_first());
        }
    }
}

/// Of two different strings, one sorts before the other.
pub proof fn lemma_lt_total(a: Seq<char>, b: Seq<char>)
    requires
        a != b,
    ensures
        str_lt(a, b) || str_lt(b, a),
    decreases a.len(),
{
    if a.len() > 0 && b.len() > 0 && a[0] == b[0] {
        if a.drop_first() == b.drop_first() {
            assert(a =~= seq![a[0]] + a.drop_first());
            assert(b =~= seq![b[0]] + b.drop_first());
        }
        lemma_lt_total(a.drop_first(), b.drop_first());
    } else if a.len() == 0 && b.len() == 0 {
        assert(a =~= b);
    }
}

/// The facts of a strict total order, for every string.
pub proof fn lemma_lt_order()
    ensures
        forall|a: Seq<char>| !(#[trigger] str_lt(a, a)),
        forall|a: Seq<char>, b: Seq<char>, c: Seq<char>|
            #[trigger] str_lt(a, b) && #[trigger] str_lt(b, c) ==> str_lt(a, c),
        forall|a: Seq<char>, b: Seq<char>|
            a != b ==> #[trigger] str_lt(a, b) || #[trigger] str_lt(b, a),
{
    assert forall|a: Seq<char>| !(#[trigger] str_lt(a, a)) by {
        lemma_lt_irreflexive(a);
    }
    assert forall|a: Seq<char>, b: Seq<char>, c: Seq<char>|
        #[trigger] str_lt(a, b) && #[trigger] str_lt(b, c) implies str_lt(a, c) by {
        lemma_lt_transitive(a, b, c);
    }
    assert forall|a: Seq<char>, b: Seq<char>| a != b implies #[trigger] str_lt(a, b)
        || #[trigger] str_lt(b, a) by {
        lemma_lt_total(a, b);
    }
}

proof fn lemma_lt_skip(a: Seq<char>, b: Seq<char>, i: int)
    requires
        0 <= i <= a.len(),
        i <= b.len(),
        forall|j: int| 0 <= j < i ==> a[j] == b[j],
    ensures
        str_lt(a, b) == str_lt(a.skip(i), b.skip(i)),
    decreases i,
{
    if i == 0 {
        assert(a.skip(0) =~= a);
        assert(b.skip(0) =~= b);
    } else {
        lemma_lt_skip(a.drop_first(), b.drop_first(), i - 1);
        assert(a.drop_first().skip(i - 1) =~= a.skip(i));
        assert(b.drop_first().skip(i - 1) =~= b.skip(i));
    }
}

/// True when `a` sorts strictly before `b`.
pub fn str_less(a: &str, b: &str) -> (r: bool)
    ensures
        r == str_lt(a@, b@),
{
    let x = chars_of(a);
    let y = chars_of(b);
    let mut i: usize = 0;
    while i < x.len() && i < y.len() && x[i] == y[i]
        invariant
            i <= x@.len(),
            i <= y@.len(),
            forall|j: int| 0 <= j < i ==> x@[j] == y@[j],
        decreases x@.len() - i,
    {
        i = i + 1;
    }
    proof {
        lemma_lt_skip(x@, y@, i as int);
    }
    if i == x.len() {
        i < y.len()
    } else if i == y.len() {
        false
    } else {
        assert(x@.skip(i as int)[0] == x@[i as int]);
        assert(y@.skip(i as int)[0] == y@[i as int]);
        x[i] < y[i]
    }
}

/// True when the two strings are equal.
pub fn str_eq(a: &str, b: &str) -> (r: bool)
    ensures
        r == (a@ == b@),
{
    let x = chars_of(a);
    let y = chars_of(b);
    if x.len() != y.len() {
        return false;
    }
    let mut i: usize = 0;
    while i < x.len()
        invariant
            x@.len() == y@.len(),
            x@ == a@,
            y@ == b@,
            i <= x@.len(),
            forall|j: int| 0 <= j < i ==> x@[j] == y@[j],
        decreases x@.len() - i,
    {
        if x[i] != y[i] {
            assert(x@[i as int] != y@[i as int]);
            return false;
        }
        i = i + 1;
    }
    assert(x@ =~= y@);
    true
}

/// Every element sorts strictly before every later one (so no element
/// occurs twice).
pub open spec fn sorted_strict(s: Seq<Seq<char>>) -> bool {
    forall|i: int, j: int| 0 <= i < j < s.len() ==> str_lt(#[trigger] s[i], #[trigger] s[j])
}

/// Two strictly sorted lists with the same elements are equal.
pub proof fn lemma_sorted_unique(a: Seq<Seq<char>>, b: Seq<Seq<char>>)
    requires
        sorted_strict(a),
        sorted_strict(b),
        forall|x: Seq<char>| a.contains(x) <==> b.contains(x),
    ensures
        a == b,
    decreases a.len(),
{
    lemma_lt_order();
    if a.len() == 0 {
        if b.len() > 0 {
            assert(b.contains(b[0]));
        }
        assert(a =~= b);
    } else if b.len() == 0 {
        assert(a.contains(a[0]));
    } else {
        // the first elements are both the least element
        assert(a.contains(a[0]));
        assert(b.contains(b[0]));
        let ia = choose|i: int| 0 <= i < a.len() && a[i] == b[0];
        let ib = choose|i: int| 0 <= i < b.len() && b[i] == a[0];
        if ia > 0 {
            assert(str_lt(a[0], a[ia]));
        }
        if ib > 0 {
            assert(str_lt(b[0], b[ib]));
        }
        assert(a[0] == b[0]);
        let ta = a.drop_first();
        let tb = b.drop_first();
        assert forall|x: Seq<char>| ta.contains(x) <==> tb.contains(x) by {
            if ta.contains(x) {
                let k = choose|k: int| 0 <= k < ta.len() && ta[k] == x;
                assert(a[k + 1] == x);
                assert(str_lt(a[0], a[k + 1]));
                assert(b.contains(x));
                let m = choose|m: int| 0 <= m < b.len() && b[m] == x;
                assert(m != 0);
                assert(tb[m - 1] == x);
            }
            if tb.contains(x) {
                let k = choose|k: int| 0 <= k < tb.len() && tb[k] == x;
                assert(b[k + 1] == x);
                assert(str_lt(b[0], b[k + 1]));
                assert(a.contains(x));
                let m = choose|m: int| 0 <= m < a.len() && a[m] == x;
                assert(m != 0);
                assert(ta[m - 1] == x);
            }
        }
        lemma_sorted_unique(ta, tb);
        assert(a =~= seq![a[0]] + ta);
        assert(b =~= seq![b[0]] + tb);
    }
}

/// Adds `x` to a strictly sorted list, keeping it strictly sorted; a list
/// that already holds `x` is left as it is.
pub fn insert_sorted(v: &mut Vec<String>, x: String)
    requires
        sorted_strict(views(old(v)@)),
    ensures
        sorted_strict(views(final(v)@)),
        forall|y: Seq<char>|
            #[trigger] views(final(v)@).contains(y) <==> views(old(v)@).contains(y) || y == x@,
{
    proof {
        lemma_lt_order();
    }
    let ghost old_v = views(v@);
    let mut i: usize = 0;
    while i < v.len() && str_less(v[i].as_str(), x.as_str())
        invariant
            i <= v@.len(),
            views(v@) == old_v,
            sorted_strict(old_v),
            forall|j: int| 0 <= j < i ==> str_lt(#[trigger] old_v[j], x@),
        decreases v@.len() - i,
    {
        i = i + 1;
    }
    if i < v.len() && v[i] == x {
        assert(old_v[i as int] == x@);
        assert(old_v.contains(x@));
        return ;
    }
    let ghost xv = x@;
    v.insert(i, x);
    proof {
        let nv = views(v@);
        assert(nv =~= old_v.insert(i as int, xv));
        if i < old_v.len() {
            assert(!str_lt(old_v[i as int], xv));
            assert(old_v[i as int] != xv);
            assert(str_lt(xv, old_v[i as int]));
        }
        assert forall|a: int, b: int| 0 <= a < b < nv.len() implies str_lt(
            #[trigger] nv[a],
            #[trigger] nv[b],
        ) by {
            if b < i {
            } else if b == i {
            } else if a < i {
                assert(str_lt(nv[a], xv));
                assert(str_lt(xv, old_v[i as int]));
                if b - 1 > i {
                    assert(str_lt(old_v[i as int], old_v[b - 1]));
                }
            } else if a == i {
                if b - 1 > i {
                    assert(str_lt(old_v[i as int], old_v[b - 1]));
                }
            } else {
                assert(nv[a] == old_v[a - 1]);
                assert(nv[b] == old_v[b - 1]);
            }
        }
        assert forall|y: Seq<char>| #[trigger] nv.contains(y) <==> old_v.contains(y) || y == xv by {
            if nv.contains(y) {
                let k = choose|k: int| 0 <= k < nv.len() && nv[k] == y;
                if k < i {
                    assert(old_v[k] == y);
                } else if k > i {
                    assert(old_v[k - 1] == y);
                }
            }
            if old_v.contains(y) {
                let k = choose|k: int| 0 <= k < old_v.len() && old_v[k] == y;
                if k < i {
                    assert(nv[k] == y);
                } else {
                    assert(nv[k + 1] == y);
                }
            }
            if y == xv {
                assert(nv[i as int] == y);
            }
        }
    }
}

/// True when `v` holds `x`.
pub fn contains_str(v: &Vec<String>, x: &str) -> (b: bool)
    ensures
        b == views(v@).contains(x@),
{
    let mut i: usize = 0;
    while i < v.len()
        invariant
            i <= v@.len(),
            forall|j: int| 0 <= j < i ==> #[trigger] views(v@)[j] != x@,
        decreases v@.len() - i,
    {
        if str_eq(v[i].as_str(), x) {
            assert(views(v@)[i as int] == x@);
            return true;
        }
        i = i + 1;
    }
    false
}

/// The strictly sorted list of the strings that satisfy `p`.
pub open spec fn sorted_listing(p: spec_fn(Seq<char>) -> bool) -> Seq<Seq<char>> {
    choose|s: Seq<Seq<char>>| sorted_strict(s) && forall|q: Seq<char>| #[trigger] s.contains(q) <==> p(q)
}

/// A strictly sorted list of exactly the strings that satisfy `p` is
/// their sorted listing.
pub proof fn lemma_sorted_listing(s: Seq<Seq<char>>, p: spec_fn(Seq<char>) -> bool)
    requires
        sorted_strict(s),
        forall|q: Seq<char>| #[trigger] s.contains(q) <==> p(q),
    ensures
        sorted_listing(p) == s,
{
    let t = sorted_listing(p);
    assert(sorted_strict(t) && forall|q: Seq<char>| #[trigger] t.contains(q) <==> p(q));
    lemma_sorted_unique(s, t);
}

/// `x` entered into a strictly sorted list (kept once).
pub open spec fn sorted_insert(s: Seq<Seq<char>>, x: Seq<char>) -> Seq<Seq<char>>
    decreases s.len(),
{
    if s.len() == 0 {
        seq![x]
    } else if x == s.last() {
        s
    } else if str_lt(x, s.last()) {
        sorted_insert(s.drop_last(), x).push(s.last())
    } else {
        s.push(x)
    }
}

/// Entering an element keeps a list strictly sorted and adds the element.
pub proof fn lemma_sorted_insert(s: Seq<Seq<char>>, x: Seq<char>)
    requires
        sorted_strict(s),
    ensures
        sorted_strict(sorted_insert(s, x)),
        forall|k: Seq<char>| #[trigger] sorted_insert(s, x).contains(k) <==> s.contains(k) || k
            == x,
    decreases s.len(),
{
    lemma_lt_order();
    let u = sorted_insert(s, x);
    if s.len() == 0 {
        assert(u[0] == x);
    } else {
        let t = s.drop_last();
        let last = s.last();
        assert(s =~= t.push(last));
        assert forall|i: int| 0 <= i < t.len() implies str_lt(#[trigger] t[i], last) by {
            assert(s[i] == t[i]);
            assert(str_lt(s[i], s[t.len() as int]));
        }
        if x == last {
            assert(s.contains(x));
        } else if str_lt(x, last) {
            assert(sorted_strict(t)) by {
                assert forall|a: int, b: int| 0 <= a < b < t.len() implies str_lt(
                    #[trigger] t[a],
                    #[trigger] t[b],
                ) by {
                    assert(t[a] == s[a] && t[b] == s[b]);
                }
            }
            lemma_sorted_insert(t, x);
            let v = sorted_insert(t, x);
            assert(u == v.push(last));
            assert forall|a: int, b: int| 0 <= a < b < u.len() implies str_lt(
                #[trigger] u[a],
                #[trigger] u[b],
            ) by {
                assert(u[a] == v[a]);
                if b < v.len() {
                    assert(u[b] == v[b]);
                } else {
                    assert(u[b] == last);
                    assert(v.contains(v[a]));
                    if t.contains(v[a]) {
                        let m = choose|m: int| 0 <= m < t.len() && t[m] == v[a];
                        assert(str_lt(t[m], last));
                    }
                }
            }
            assert forall|k: Seq<char>| #[trigger] u.contains(k) <==> s.contains(k) || k == x by {
                if u.contains(k) && k != last {
                    let m = choose|m: int| 0 <= m < u.len() && u[m] == k;
                    assert(v[m] == k);
                    assert(v.contains(k));
                }
                if v.contains(k) {
                    let m = choose|m: int| 0 <= m < v.len() && v[m] == k;
                    assert(u[m] == k);
                }
                if k == last {
                    assert(u[v.len() as int] == k);
                    assert(s[t.len() as int] == k);
                }
                if t.contains(k) {
                    let m = choose|m: int| 0 <= m < t.len() && t[m] == k;
                    assert(s[m] == k);
                }
                if s.contains(k) && k != last {
                    let m = choose|m: int| 0 <= m < s.len() && s[m] == k;
                    assert(t[m] == k);
                }
            }
        } else {
            assert(str_lt(x, last) || str_lt(last, x));
            assert(u == s.push(x));
            assert forall|a: int, b: int| 0 <= a < b < u.len() implies str_lt(
                #[trigger] u[a],
                #[trigger] u[b],
            ) by {
                if b == u.len() - 1 {
                    assert(u[a] == s[a]);
                    assert(u[b] == x);
                    if a < s.len() - 1 {
                        assert(str_lt(s[a], last));
                    } else {
                        assert(s[a] == last);
                    }
                } else {
                    assert(u[a] == s[a] && u[b] == s[b]);
                }
            }
            assert forall|k: Seq<char>| #[trigger] u.contains(k) <==> s.contains(k) || k == x by {
                if u.contains(k) {
                    let m = choose|m: int| 0 <= m < u.len() && u[m] == k;
                    if m < s.len() {
                        assert(s[m] == k);
                    }
                }
                if s.contains(k) {
                    let m = choose|m: int| 0 <= m < s.len() && s[m] == k;
                    assert(u[m] == k);
                }
                if k == x {
                    assert(u[s.len() as int] == k);
                }
            }
        }
    }
}

} // verus!
