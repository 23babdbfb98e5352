//! Address-family classification and the two-level stable ordering of
//! name-server addresses: within a line, preferred-family (colon-bearing)
//! addresses come first; across lines, lines led by a preferred-family
//! address come first. Both levels are stable.

use vstd::prelude::*;
use core::cmp::Ordering;

verus! {

/// An address belongs to the preferred family when its textual form contains
/// the family-6 separator character.
pub open spec fn is_v6(a: Seq<char>) -> bool {
    a.contains(':')
}

/// Executable mirror of `is_v6`.
pub fn is_preferred_family(a: &str) -> (r: bool)
    ensures
        r == is_v6(a@),
{
    let n = a.unicode_len();
    let mut i: usize = 0;
    while i < n
        invariant
            i <= n,
            n == a@.len(),
            forall|j: int| 0 <= j < i ==> a@[j] != ':',
        decreases n - i,
    {
        if a.get_char(i) == ':' {
            assert(a@.contains(':')) by {
                assert(a@[i as int] == ':');
            }
            return true;
        }
        i += 1;
    }
    false
}

/// Pairwise comparator over the family classification. Two addresses of the
/// same family compare as equal, so a stable sort driven by this comparator
/// keeps their original relative order.
pub fn sort_v6_over_v4(a: &str, b: &str) -> (r: Ordering)
    ensures
        is_v6(a@) && !is_v6(b@) ==> r == Ordering::Less,
        !is_v6(a@) && is_v6(b@) ==> r == Ordering::Greater,
        is_v6(a@) == is_v6(b@) ==> r == Ordering::Equal,
{
    let av = is_preferred_family(a);
    let bv = is_preferred_family(b);
    if av == bv {
        Ordering::Equal
    } else if av {
        Ordering::Less
    } else {
        Ordering::Greater
    }
}

/// Predicate form of `is_v6`, shared by every `filter` application so that
/// all of them speak of one and the same function value.
pub open spec fn v6_pred() -> spec_fn(Seq<char>) -> bool {
    |a: Seq<char>| is_v6(a)
}

/// Complement of `v6_pred`.
pub open spec fn other_pred() -> spec_fn(Seq<char>) -> bool {
    |a: Seq<char>| !is_v6(a)
}

/// Stable intra-line reordering: the preferred-family addresses in their
/// original order, then the remaining addresses in their original order.
pub open spec fn sort_addrs(g: Seq<Seq<char>>) -> Seq<Seq<char>> {
    g.filter(v6_pred()) + g.filter(other_pred())
}

/// A directive whose (first) address is of the preferred family.
pub open spec fn leading_v6(g: Seq<Seq<char>>) -> bool {
    g.len() > 0 && is_v6(g[0])
}

/// Predicate form of `leading_v6`.
pub open spec fn lead_pred() -> spec_fn(Seq<Seq<char>>) -> bool {
    |g: Seq<Seq<char>>| leading_v6(g)
}

/// Complement of `lead_pred`.
pub open spec fn other_lead_pred() -> spec_fn(Seq<Seq<char>>) -> bool {
    |g: Seq<Seq<char>>| !leading_v6(g)
}

/// Stable inter-line reordering of the per-directive address groups.
pub open spec fn sort_groups(gs: Seq<Seq<Seq<char>>>) -> Seq<Seq<Seq<char>>> {
    gs.filter(lead_pred()) + gs.filter(other_lead_pred())
}

/// Every address group sorted intra-line.
pub open spec fn sorted_each(gs: Seq<Seq<Seq<char>>>) -> Seq<Seq<Seq<char>>> {
    gs.map_values(|g: Seq<Seq<char>>| sort_addrs(g))
}

/// The whole ordering step: sort each group by family, then sort the groups
/// by the family of their leading address.
pub open spec fn ordered_groups(gs: Seq<Seq<Seq<char>>>) -> Seq<Seq<Seq<char>>> {
    sort_groups(sorted_each(gs))
}

/// `filter` over a sequence extended by one element.
pub proof fn lemma_filter_push<A>(s: Seq<A>, p: spec_fn(A) -> bool, x: A)
    ensures
        s.push(x).filter(p) == s.filter(p) + if p(x) {
            seq![x]
        } else {
            Seq::<A>::empty()
        },
{
    reveal(Seq::filter);
    assert(s.push(x).drop_last() =~= s);
    assert(s.push(x).last() == x);
    if p(x) {
        assert(s.filter(p).push(x) =~= s.filter(p) + seq![x]);
    } else {
        assert(s.filter(p) =~= s.filter(p) + Seq::<A>::empty());
    }
}

/// Executable intra-line reordering.
pub fn sort_addresses(g: &Vec<String>) -> (r: Vec<String>)
    ensures
        r.deep_view() == sort_addrs(g.deep_view()),
{
    let ghost gv = g.deep_view();
    let mut r: Vec<String> = Vec::new();
    let n = g.len();
    proof {
        assert(gv.len() == n);
        assert(gv.take(0) =~= Seq::<Seq<char>>::empty());
        reveal(Seq::filter);
        assert(r.deep_view() =~= gv.take(0).filter(v6_pred()));
    }
    let mut i: usize = 0;
    while i < n
        invariant
            i <= n,
            n == g.len(),
            gv == g.deep_view(),
            r.deep_view() == gv.take(i as int).filter(v6_pred()),
        decreases n - i,
    {
        let ghost old_r = r.deep_view();
        if is_preferred_family(g[i].as_str()) {
            r.push(g[i].clone());
            proof {
                assert(r.deep_view() =~= old_r.push(gv[i as int]));
            }
        }
        proof {
            assert(gv.take(i + 1) =~= gv.take(i as int).push(gv[i as int]));
            lemma_filter_push(gv.take(i as int), v6_pred(), gv[i as int]);
            if v6_pred()(gv[i as int]) {
                assert(r.deep_view() =~= gv.take(i as int).filter(v6_pred()) + seq![gv[i as int]]);
            } else {
                assert(r.deep_view() =~= gv.take(i as int).filter(v6_pred()) + Seq::<Seq<char>>::empty());
            }
        }
        i += 1;
    }
    let ghost v6_part = r.deep_view();
    proof {
        assert(gv.take(n as int) =~= gv);
        assert(v6_part == gv.filter(v6_pred()));
        assert(gv.take(0) =~= Seq::<Seq<char>>::empty());
        reveal(Seq::filter);
    }
    let mut i: usize = 0;
    while i < n
        invariant
            i <= n,
            n == g.len(),
            gv == g.deep_view(),
            r.deep_view() == v6_part + gv.take(i as int).filter(other_pred()),
        decreases n - i,
    {
        let ghost old_r = r.deep_view();
        if !is_preferred_family(g[i].as_str()) {
            r.push(g[i].clone());
            proof {
                assert(r.deep_view() =~= old_r.push(gv[i as int]));
            }
        }
        proof {
            assert(gv.take(i + 1) =~= gv.take(i as int).push(gv[i as int]));
            lemma_filter_push(gv.take(i as int), other_pred(), gv[i as int]);
            if other_pred()(gv[i as int]) {
                assert(r.deep_view() =~= v6_part + (gv.take(i as int).filter(other_pred()) + seq![gv[i as int]]));
            } else {
                assert(r.deep_view() =~= v6_part + (gv.take(i as int).filter(other_pred()) + Seq::<Seq<char>>::empty()));
            }
        }
        i += 1;
    }
    proof {
        assert(gv.take(n as int) =~= gv);
    }
    r
}

/// Whether a (sorted) group's leading address is of the preferred family.
fn has_preferred_lead(g: &Vec<String>) -> (r: bool)
    ensures
        r == leading_v6(g.deep_view()),
{
    if g.len() == 0 {
        false
    } else {
        let r = is_preferred_family(g[0].as_str());
        proof {
            assert(g.deep_view()[0] == g@[0]@);
        }
        r
    }
}

/// Executable ordering step: sorts every group intra-line, then emits the
/// groups with a preferred-family leading address first, the rest after,
/// each block in its original order.
pub fn order_groups(groups: &Vec<Vec<String>>) -> (r: Vec<Vec<String>>)
    ensures
        r.deep_view() == ordered_groups(groups.deep_view()),
{
    let ghost gv = groups.deep_view();
    let n = groups.len();
    let mut r: Vec<Vec<String>> = Vec::new();
    proof {
        assert(gv.len() == n);
        assert(sorted_each(gv.take(0)) =~= Seq::<Seq<Seq<char>>>::empty());
        reveal(Seq::filter);
        assert(r.deep_view() =~= sorted_each(gv.take(0)).filter(lead_pred()));
    }
    let mut i: usize = 0;
    while i < n
        invariant
            i <= n,
            n == groups.len(),
            gv == groups.deep_view(),
            r.deep_view() == sorted_each(gv.take(i as int)).filter(lead_pred()),
        decreases n - i,
    {
        let ghost old_r = r.deep_view();
        let sg = sort_addresses(&groups[i]);
        proof {
            assert(groups@[i as int].deep_view() == gv[i as int]);
        }
        if has_preferred_lead(&sg) {
            r.push(sg);
            proof {
                assert(r.deep_view() =~= old_r.push(sort_addrs(gv[i as int])));
            }
        }
        proof {
            assert(sorted_each(gv.take(i + 1)) =~= sorted_each(gv.take(i as int)).push(
                sort_addrs(gv[i as int]),
            ));
            lemma_filter_push(sorted_each(gv.take(i as int)), lead_pred(), sort_addrs(gv[i as int]));
            if lead_pred()(sort_addrs(gv[i as int])) {
                assert(r.deep_view() =~= old_r + seq![sort_addrs(gv[i as int])]);
            } else {
                assert(r.deep_view() =~= old_r + Seq::<Seq<Seq<char>>>::empty());
            }
        }
        i += 1;
    }
    let ghost lead_part = r.deep_view();
    proof {
        assert(gv.take(n as int) =~= gv);
        assert(lead_part == sorted_each(gv).filter(lead_pred()));
    }
    let mut i: usize = 0;
    while i < n
        invariant
            i <= n,
            n == groups.len(),
            gv == groups.deep_view(),
            r.deep_view() == lead_part + sorted_each(gv.take(i as int)).filter(other_lead_pred()),
        decreases n - i,
    {
        let ghost old_r = r.deep_view();
        let sg = sort_addresses(&groups[i]);
        proof {
            assert(groups@[i as int].deep_view() == gv[i as int]);
        }
        if !has_preferred_lead(&sg) {
            r.push(sg);
            proof {
                assert(r.deep_view() =~= old_r.push(sort_addrs(gv[i as int])));
            }
        }
        proof {
            assert(sorted_each(gv.take(i + 1)) =~= sorted_each(gv.take(i as int)).push(
                sort_addrs(gv[i as int]),
            ));
            lemma_filter_push(
                sorted_each(gv.take(i as int)),
                other_lead_pred(),
                sort_addrs(gv[i as int]),
            );
            if other_lead_pred()(sort_addrs(gv[i as int])) {
                assert(r.deep_view() =~= lead_part + (sorted_each(gv.take(i as int)).filter(
                    other_lead_pred(),
                ) + seq![sort_addrs(gv[i as int])]));
            } else {
                assert(r.deep_view() =~= lead_part + (sorted_each(gv.take(i as int)).filter(
                    other_lead_pred(),
                ) + Seq::<Seq<Seq<char>>>::empty()));
            }
        }
        i += 1;
    }
    proof {
        assert(gv.take(n as int) =~= gv);
    }
    r
}

} // verus!
