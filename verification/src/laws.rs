//! The properties the transformation guarantees, stated and proved over the
//! specification functions that the executable contracts are written in.

use vstd::prelude::*;
use crate::order::{
    is_v6, lead_pred, leading_v6, ordered_groups, other_lead_pred, other_pred, sort_addrs,
    sort_groups, sorted_each, v6_pred,
};
use crate::text::{
    contains_seq, is_space, lemma_tokens_of_prefix_token, lemma_tokens_of_space_prefix, tokens_of,
    wf_token,
};
use crate::scan::{
    addrs_of, dir_count_before, directive_count, directive_groups, is_directive_line, keyword,
    lemma_directive_groups_wf, lemma_groups_concat, lemma_groups_take_succ, wf_groups,
};
use crate::rewrite::{lemma_count_before_lt, render_line, rewrite_spec, spaced};
use crate::header::{header_line, marker};
use crate::pipeline::{lemma_ordered_len, lemma_partition_len, transform_spec};

verus! {

/// Filtering a sequence made only of elements that satisfy the predicate
/// leaves it whole.
pub proof fn lemma_filter_all<A>(s: Seq<A>, p: spec_fn(A) -> bool)
    requires
        forall|i: int| 0 <= i < s.len() ==> p(#[trigger] s[i]),
    ensures
        s.filter(p) == s,
    decreases s.len(),
{
    reveal(Seq::filter);
    if s.len() > 0 {
        lemma_filter_all(s.drop_last(), p);
        assert(p(s.last()));
        assert(s.filter(p) =~= s);
    }
}

/// Filtering by a predicate no element satisfies leaves nothing.
pub proof fn lemma_filter_none<A>(s: Seq<A>, p: spec_fn(A) -> bool)
    requires
        forall|i: int| 0 <= i < s.len() ==> !p(#[trigger] s[i]),
    ensures
        s.filter(p) == Seq::<A>::empty(),
    decreases s.len(),
{
    reveal(Seq::filter);
    if s.len() > 0 {
        lemma_filter_none(s.drop_last(), p);
    }
}

/// In a partition `s.filter(p) + s.filter(q)` (with `q` the complement of
/// `p`), no element failing `p` precedes one satisfying it.
pub proof fn lemma_partition_ordered<A>(s: Seq<A>, p: spec_fn(A) -> bool, q: spec_fn(A) -> bool)
    requires
        forall|x: A| #[trigger] q(x) == !p(x),
    ensures
        forall|i: int, j: int|
            #![trigger (s.filter(p) + s.filter(q))[i], (s.filter(p) + s.filter(q))[j]]
            0 <= i < j < (s.filter(p) + s.filter(q)).len() && p(
                (s.filter(p) + s.filter(q))[j],
            ) ==> p((s.filter(p) + s.filter(q))[i]),
{
    broadcast use vstd::seq_lib::group_filter_ensures;

    let t = s.filter(p) + s.filter(q);
    assert forall|i: int, j: int|
        #![trigger t[i], t[j]]
        0 <= i < j < t.len() && p(t[j]) implies p(t[i]) by {
        if j >= s.filter(p).len() {
            assert(t[j] == s.filter(q)[j - s.filter(p).len()]);
            assert(q(t[j]));
        }
        if i < s.filter(p).len() {
            assert(t[i] == s.filter(p)[i]);
        } else {
            assert(t[i] == s.filter(q)[i - s.filter(p).len()]);
            assert(q(t[i]));
            assert(j > i >= s.filter(p).len());
        }
    }
}

/// Within a reordered address list, no other-family address precedes a
/// preferred-family address.
pub proof fn lemma_intra_line_ordering(g: Seq<Seq<char>>)
    ensures
        forall|i: int, j: int|
            #![trigger sort_addrs(g)[i], sort_addrs(g)[j]]
            0 <= i < j < sort_addrs(g).len() && is_v6(sort_addrs(g)[j]) ==> is_v6(
                sort_addrs(g)[i],
            ),
{
    lemma_partition_ordered(g, v6_pred(), other_pred());
    assert forall|i: int, j: int|
        #![trigger sort_addrs(g)[i], sort_addrs(g)[j]]
        0 <= i < j < sort_addrs(g).len() && is_v6(sort_addrs(g)[j]) implies is_v6(
        sort_addrs(g)[i],
    ) by {
        assert(v6_pred()(sort_addrs(g)[j]));
    }
}

/// Across the reordered directives, no directive led by an other-family
/// address precedes one led by a preferred-family address.
pub proof fn lemma_inter_line_ordering(gs: Seq<Seq<Seq<char>>>)
    ensures
        forall|i: int, j: int|
            #![trigger ordered_groups(gs)[i], ordered_groups(gs)[j]]
            0 <= i < j < ordered_groups(gs).len() && leading_v6(ordered_groups(gs)[j])
                ==> leading_v6(ordered_groups(gs)[i]),
{
    lemma_partition_ordered(sorted_each(gs), lead_pred(), other_lead_pred());
    assert forall|i: int, j: int|
        #![trigger ordered_groups(gs)[i], ordered_groups(gs)[j]]
        0 <= i < j < ordered_groups(gs).len() && leading_v6(
        ordered_groups(gs)[j],
    ) implies leading_v6(ordered_groups(gs)[i]) by {
        assert(lead_pred()(ordered_groups(gs)[j]));
    }
}

/// Stability, intra-line: within a line, the preferred-family addresses keep
/// exactly their original relative order, and so do the other-family
/// addresses.
pub proof fn lemma_intra_line_stability(g: Seq<Seq<char>>)
    ensures
        sort_addrs(g).filter(v6_pred()) == g.filter(v6_pred()),
        sort_addrs(g).filter(other_pred()) == g.filter(other_pred()),
{
    broadcast use vstd::seq_lib::group_filter_ensures;

    let a = g.filter(v6_pred());
    let b = g.filter(other_pred());
    Seq::filter_distributes_over_add(a, b, v6_pred());
    Seq::filter_distributes_over_add(a, b, other_pred());
    lemma_filter_all(a, v6_pred());
    lemma_filter_none(b, v6_pred());
    lemma_filter_none(a, other_pred());
    lemma_filter_all(b, other_pred());
    assert(a + Seq::<Seq<char>>::empty() =~= a);
    assert(Seq::<Seq<char>>::empty() + b =~= b);
}

/// Stability, inter-line: directive lines with the same leading-address
/// family keep exactly their original relative order.
pub proof fn lemma_inter_line_stability(gs: Seq<Seq<Seq<char>>>)
    ensures
        ordered_groups(gs).filter(lead_pred()) == sorted_each(gs).filter(lead_pred()),
        ordered_groups(gs).filter(other_lead_pred()) == sorted_each(gs).filter(other_lead_pred()),
{
    broadcast use vstd::seq_lib::group_filter_ensures;

    let s = sorted_each(gs);
    let a = s.filter(lead_pred());
    let b = s.filter(other_lead_pred());
    Seq::filter_distributes_over_add(a, b, lead_pred());
    Seq::filter_distributes_over_add(a, b, other_lead_pred());
    lemma_filter_all(a, lead_pred());
    lemma_filter_none(b, lead_pred());
    lemma_filter_none(a, other_lead_pred());
    lemma_filter_all(b, other_lead_pred());
    assert(a + Seq::<Seq<Seq<char>>>::empty() =~= a);
    assert(Seq::<Seq<Seq<char>>>::empty() + b =~= b);
}

/// Reordering the addresses of a line twice is the same as doing it once.
pub proof fn lemma_sort_addrs_idempotent(g: Seq<Seq<char>>)
    ensures
        sort_addrs(sort_addrs(g)) == sort_addrs(g),
{
    lemma_intra_line_stability(g);
}

/// Reordering the directives twice is the same as doing it once.
pub proof fn lemma_sort_groups_idempotent(gs: Seq<Seq<Seq<char>>>)
    ensures
        sort_groups(sort_groups(gs)) == sort_groups(gs),
{
    broadcast use vstd::seq_lib::group_filter_ensures;

    let a = gs.filter(lead_pred());
    let b = gs.filter(other_lead_pred());
    Seq::filter_distributes_over_add(a, b, lead_pred());
    Seq::filter_distributes_over_add(a, b, other_lead_pred());
    lemma_filter_all(a, lead_pred());
    lemma_filter_none(b, lead_pred());
    lemma_filter_none(a, other_lead_pred());
    lemma_filter_all(b, other_lead_pred());
    assert(a + Seq::<Seq<Seq<char>>>::empty() =~= a);
    assert(Seq::<Seq<Seq<char>>>::empty() + b =~= b);
}

/// Every address group is made of well-formed tokens.
pub open spec fn wf_group(g: Seq<Seq<char>>) -> bool {
    forall|j: int| 0 <= j < g.len() ==> wf_token(#[trigger] g[j])
}

/// Splitting the space-joined rendering of well-formed tokens recovers
/// exactly those tokens.
pub proof fn lemma_spaced_tokens(g: Seq<Seq<char>>)
    requires
        wf_group(g),
    ensures
        tokens_of(spaced(g)) == g,
        spaced(g).len() == 0 || is_space(spaced(g)[0]),
    decreases g.len(),
{
    if g.len() == 0 {
        assert(tokens_of(spaced(g)) =~= g);
    } else {
        let rest = g.drop_first();
        assert(wf_group(rest)) by {
            assert forall|j: int| 0 <= j < rest.len() implies wf_token(#[trigger] rest[j]) by {
                assert(rest[j] == g[j + 1]);
            }
        }
        lemma_spaced_tokens(rest);
        let x = g.first() + spaced(rest);
        assert(spaced(g) =~= seq![' '] + x);
        lemma_tokens_of_space_prefix(x);
        lemma_tokens_of_prefix_token(g.first(), spaced(rest));
        assert(tokens_of(spaced(g)) == seq![g.first()] + rest);
        assert(seq![g.first()] + rest =~= g);
        assert(spaced(g)[0] == ' ');
    }
}

/// A rewritten directive line parses back to exactly the group it was
/// rendered from.
pub proof fn lemma_render_round_trip(g: Seq<Seq<char>>)
    requires
        wf_group(g),
    ensures
        is_directive_line(render_line(g)),
        tokens_of(render_line(g)) == seq![keyword()] + g,
        addrs_of(render_line(g)) == g,
{
    reveal_strlit("nameserver");
    assert(keyword().len() == 10);
    assert(wf_token(keyword())) by {
        assert forall|j: int| 0 <= j < keyword().len() implies !is_space(#[trigger] keyword()[j]) by {
            assert(keyword()[0] == 'n');
            assert(keyword()[1] == 'a');
            assert(keyword()[2] == 'm');
            assert(keyword()[3] == 'e');
            assert(keyword()[4] == 's');
            assert(keyword()[5] == 'e');
            assert(keyword()[6] == 'r');
            assert(keyword()[7] == 'v');
            assert(keyword()[8] == 'e');
            assert(keyword()[9] == 'r');
        }
    }
    lemma_spaced_tokens(g);
    lemma_tokens_of_prefix_token(keyword(), spaced(g));
    assert(tokens_of(render_line(g)) == seq![keyword()] + tokens_of(spaced(g)));
    assert(addrs_of(render_line(g)) =~= g);
    assert(render_line(g).subrange(0, keyword().len() as int) =~= keyword());
}

/// The group stored for a directive line sits at position
/// `dir_count_before` of the document's group list.
pub proof fn lemma_groups_index(doc: Seq<Seq<char>>, i: int)
    requires
        0 <= i < doc.len(),
        is_directive_line(doc[i]),
    ensures
        dir_count_before(doc, i) < directive_count(doc),
        directive_groups(doc)[dir_count_before(doc, i) as int] == addrs_of(doc[i]),
{
    lemma_groups_take_succ(doc, i);
    lemma_groups_concat(doc.take(i + 1), doc.skip(i + 1));
    assert(doc.take(i + 1) + doc.skip(i + 1) =~= doc);
    let c = dir_count_before(doc, i) as int;
    assert(directive_groups(doc.take(i + 1))[c] == addrs_of(doc[i]));
    assert(directive_groups(doc)[c] == directive_groups(doc.take(i + 1))[c]);
}

/// Rewriting a document with one well-formed group per directive line yields
/// a document whose directive lines carry exactly those groups, in order.
pub proof fn lemma_rewrite_groups(doc: Seq<Seq<char>>, gs: Seq<Seq<Seq<char>>>)
    requires
        wf_groups(gs),
        directive_count(doc) <= gs.len(),
    ensures
        directive_groups(rewrite_spec(doc, gs)) == gs.take(directive_count(doc) as int),
    decreases doc.len(),
{
    let rw = rewrite_spec(doc, gs);
    if doc.len() == 0 {
        assert(rw =~= Seq::<Seq<char>>::empty());
        assert(directive_groups(rw) =~= gs.take(0));
    } else {
        let d = doc.drop_last();
        let last = doc.len() - 1;
        assert(doc.take(last) =~= d);
        assert(doc.take(doc.len() as int) =~= doc);
        lemma_count_before_lt(doc, last);
        assert(directive_count(d) <= directive_count(doc));
        lemma_rewrite_groups(d, gs);
        assert(rw.drop_last() =~= rewrite_spec(d, gs)) by {
            assert forall|i: int| 0 <= i < d.len() implies rw[i] == rewrite_spec(d, gs)[i] by {
                assert(d[i] == doc[i]);
                assert(doc.take(i) =~= d.take(i));
            }
        }
        let c = directive_count(d) as int;
        if is_directive_line(doc[last]) {
            assert(rw.last() == render_line(gs[c]));
            assert(wf_group(gs[c])) by {
                assert forall|j: int| 0 <= j < gs[c].len() implies wf_token(#[trigger] gs[c][j]) by {
                    assert(wf_groups(gs));
                }
            }
            lemma_render_round_trip(gs[c]);
            assert(directive_groups(rw) == directive_groups(rw.drop_last()) + seq![
                addrs_of(rw.last()),
            ]);
            assert(directive_groups(rw) =~= gs.take(directive_count(doc) as int));
        } else {
            assert(rw.last() == doc.last());
            assert(directive_groups(rw) == directive_groups(rw.drop_last()) + Seq::<
                Seq<Seq<char>>,
            >::empty());
            assert(directive_groups(rw) =~= gs.take(directive_count(doc) as int));
        }
    }
}

/// A text free of the comment character.
pub open spec fn hash_free(t: Seq<char>) -> bool {
    forall|l: int| 0 <= l < t.len() ==> t[l] != '#'
}

/// Every address of every group is free of the comment character.
pub open spec fn hash_free_groups(gs: Seq<Seq<Seq<char>>>) -> bool {
    forall|k: int, j: int|
        0 <= k < gs.len() && 0 <= j < gs[k].len() ==> hash_free(#[trigger] gs[k][j])
}

/// Reordering a line never adds or loses an address.
pub proof fn lemma_sort_addrs_len(g: Seq<Seq<char>>)
    ensures
        sort_addrs(g).len() == g.len(),
{
    lemma_partition_len(g, v6_pred(), other_pred());
}

/// Every address of a reordered line is an address of the original line.
pub proof fn lemma_sort_addrs_elements(g: Seq<Seq<char>>)
    ensures
        forall|j: int| 0 <= j < sort_addrs(g).len() ==> g.contains(#[trigger] sort_addrs(g)[j]),
{
    let a = g.filter(v6_pred());
    let b = g.filter(other_pred());
    assert forall|j: int| 0 <= j < sort_addrs(g).len() implies g.contains(
        #[trigger] sort_addrs(g)[j],
    ) by {
        if j < a.len() {
            assert(sort_addrs(g)[j] == a[j]);
            assert(a.contains(a[j]));
            g.lemma_filter_contains_rev(v6_pred(), a[j]);
        } else {
            assert(sort_addrs(g)[j] == b[j - a.len()]);
            assert(b.contains(b[j - a.len()]));
            g.lemma_filter_contains_rev(other_pred(), b[j - a.len()]);
        }
    }
}

/// `x` is the intra-line reordering of one of the original groups.
pub open spec fn is_image(gs: Seq<Seq<Seq<char>>>, x: Seq<Seq<char>>) -> bool {
    exists|i: int| 0 <= i < gs.len() && x == #[trigger] sort_addrs(gs[i])
}

/// Every reordered group is the intra-line reordering of some original
/// group, and the reordering step keeps the group count.
pub proof fn lemma_ordered_elements(gs: Seq<Seq<Seq<char>>>)
    ensures
        ordered_groups(gs).len() == gs.len(),
        forall|k: int|
            0 <= k < ordered_groups(gs).len() ==> is_image(gs, #[trigger] ordered_groups(gs)[k]),
{
    lemma_ordered_len(gs);
    let s = sorted_each(gs);
    let a = s.filter(lead_pred());
    let b = s.filter(other_lead_pred());
    assert forall|k: int| 0 <= k < ordered_groups(gs).len() implies is_image(
        gs,
        #[trigger] ordered_groups(gs)[k],
    ) by {
        let x = ordered_groups(gs)[k];
        if k < a.len() {
            assert(x == a[k]);
            assert(a.contains(a[k]));
            s.lemma_filter_contains_rev(lead_pred(), a[k]);
        } else {
            assert(x == b[k - a.len()]);
            assert(b.contains(b[k - a.len()]));
            s.lemma_filter_contains_rev(other_lead_pred(), b[k - a.len()]);
        }
        assert(s.contains(x));
        let i = choose|i: int| 0 <= i < s.len() && s[i] == x;
        assert(s.len() == gs.len());
        assert(s[i] == sort_addrs(gs[i]));
        assert(0 <= i < gs.len() && ordered_groups(gs)[k] == sort_addrs(gs[i]));
    }
}

/// A single non-directive line contributes no group.
pub proof fn lemma_groups_single(x: Seq<char>)
    requires
        !is_directive_line(x),
    ensures
        directive_groups(seq![x]) == Seq::<Seq<Seq<char>>>::empty(),
{
    assert(seq![x].last() == x);
    assert(seq![x].drop_last() =~= Seq::<Seq<char>>::empty());
    assert(directive_groups(Seq::<Seq<char>>::empty()) == Seq::<Seq<Seq<char>>>::empty());
    assert(directive_groups(seq![x]) =~= Seq::<Seq<Seq<char>>>::empty());
}

/// A pair of non-directive lines contributes no group.
pub proof fn lemma_groups_pair(x: Seq<char>, y: Seq<char>)
    requires
        !is_directive_line(x),
        !is_directive_line(y),
    ensures
        directive_groups(seq![x, y]) == Seq::<Seq<Seq<char>>>::empty(),
{
    lemma_groups_single(x);
    assert(seq![x, y].last() == y);
    assert(seq![x, y].drop_last() =~= seq![x]);
    assert(directive_groups(seq![x, y]) =~= Seq::<Seq<Seq<char>>>::empty());
}

/// The reordering step keeps every group made of well-formed, comment-free
/// addresses well formed and comment-free.
pub proof fn lemma_ordered_inherit(gs: Seq<Seq<Seq<char>>>)
    ensures
        wf_groups(gs) ==> wf_groups(ordered_groups(gs)),
        hash_free_groups(gs) ==> hash_free_groups(ordered_groups(gs)),
{
    lemma_ordered_elements(gs);
    let ogs = ordered_groups(gs);
    if wf_groups(gs) {
        assert forall|k: int, j: int|
            0 <= k < ogs.len() && 0 <= j < ogs[k].len() implies wf_token(#[trigger] ogs[k][j]) by {
            assert(is_image(gs, ogs[k]));
            let i = choose|i: int| 0 <= i < gs.len() && ogs[k] == sort_addrs(gs[i]);
            lemma_sort_addrs_elements(gs[i]);
            assert(gs[i].contains(sort_addrs(gs[i])[j]));
            let j2 = choose|j2: int| 0 <= j2 < gs[i].len() && gs[i][j2] == sort_addrs(gs[i])[j];
            assert(wf_token(gs[i][j2]));
        }
    }
    if hash_free_groups(gs) {
        assert forall|k: int, j: int|
            0 <= k < ogs.len() && 0 <= j < ogs[k].len() implies hash_free(
            #[trigger] ogs[k][j],
        ) by {
            assert(is_image(gs, ogs[k]));
            let i = choose|i: int| 0 <= i < gs.len() && ogs[k] == sort_addrs(gs[i]);
            lemma_sort_addrs_elements(gs[i]);
            assert(gs[i].contains(sort_addrs(gs[i])[j]));
            let j2 = choose|j2: int| 0 <= j2 < gs[i].len() && gs[i][j2] == sort_addrs(gs[i])[j];
            assert(hash_free(gs[i][j2]));
        }
    }
}

/// The space-joined rendering of comment-free addresses contains no comment
/// character after the keyword.
pub proof fn lemma_spaced_hash_free(g: Seq<Seq<char>>)
    requires
        forall|j: int| 0 <= j < g.len() ==> hash_free(#[trigger] g[j]),
    ensures
        forall|l: int| 0 <= l < spaced(g).len() ==> spaced(g)[l] != '#',
    decreases g.len(),
{
    if g.len() > 0 {
        let rest = g.drop_first();
        assert forall|j: int| 0 <= j < rest.len() implies hash_free(#[trigger] rest[j]) by {
            assert(rest[j] == g[j + 1]);
        }
        lemma_spaced_hash_free(rest);
        let g0 = g.first();
        assert forall|l: int| 0 <= l < spaced(g).len() implies spaced(g)[l] != '#' by {
            if l == 0 {
                assert(spaced(g)[0] == ' ');
            } else if l < 1 + g0.len() {
                assert(spaced(g)[l] == g0[l - 1]);
                assert(hash_free(g0));
            } else {
                assert(spaced(g)[l] == spaced(rest)[l - 1 - g0.len()]);
            }
        }
    }
}

/// A rewritten directive line never carries the marker text.
pub proof fn lemma_render_no_marker(g: Seq<Seq<char>>)
    requires
        forall|j: int| 0 <= j < g.len() ==> hash_free(#[trigger] g[j]),
    ensures
        !contains_seq(render_line(g), marker()),
{
    reveal_strlit("nameserver");
    reveal_strlit("# Nameservers (possibly) reordered by resolvloser on");
    lemma_spaced_hash_free(g);
    let r = render_line(g);
    assert forall|l: int| 0 <= l < r.len() implies r[l] != '#' by {
        if l < keyword().len() {
            assert(r[l] == keyword()[l]);
        } else {
            assert(r[l] == spaced(g)[l - keyword().len()]);
        }
    }
    if contains_seq(r, marker()) {
        let k = choose|k: int|
            0 <= k && k + marker().len() <= r.len() && #[trigger] r.subrange(
                k,
                k + marker().len() as int,
            ) == marker();
        assert(r.subrange(k, k + marker().len() as int)[0] == r[k]);
        assert(marker()[0] == '#');
        assert(false);
    }
}

/// The marker header line is a comment, not a directive, and always carries
/// the marker; the bare separator line is not a directive either.
pub proof fn lemma_header_line_shape(ts: Seq<char>)
    ensures
        !is_directive_line(header_line(ts)),
        !is_directive_line("#"@),
        contains_seq(header_line(ts), marker()),
{
    reveal_strlit("nameserver");
    reveal_strlit("#");
    reveal_strlit("# Nameservers (possibly) reordered by resolvloser on");
    let h = header_line(ts);
    assert(h[0] == marker()[0]);
    if is_directive_line(h) {
        assert(h.subrange(0, keyword().len() as int)[0] == h[0]);
        assert(false);
    }
    assert("#"@.len() == 1);
    assert(!is_directive_line("#"@));
    assert(h.subrange(0, 0 + marker().len() as int) =~= marker());
}

/// Every address extracted from the document is free of the comment
/// character. This rules out the pathological inputs whose rewritten first
/// line would itself spell out the marker text.
pub open spec fn addrs_hash_free(doc: Seq<Seq<char>>) -> bool {
    hash_free_groups(directive_groups(doc))
}

/// Cardinality preservation and exact correspondence: the transformed
/// document has exactly one directive line per original directive line, its
/// groups are the reordered original groups, and each keeps its address
/// count.
pub proof fn lemma_cardinality_preservation(doc: Seq<Seq<char>>, ts: Seq<char>)
    requires
        addrs_hash_free(doc),
    ensures
        directive_groups(transform_spec(doc, ts)) == ordered_groups(directive_groups(doc)),
        directive_count(transform_spec(doc, ts)) == directive_count(doc),
        forall|k: int|
            0 <= k < directive_count(doc) ==> exists|i: int|
                0 <= i < directive_count(doc) && #[trigger] directive_groups(
                    transform_spec(doc, ts),
                )[k] == sort_addrs(directive_groups(doc)[i]) && directive_groups(
                    transform_spec(doc, ts),
                )[k].len() == directive_groups(doc)[i].len(),
{
    let gs = directive_groups(doc);
    let ogs = ordered_groups(gs);
    lemma_ordered_len(gs);
    lemma_directive_groups_wf(doc);
    lemma_ordered_inherit(gs);
    let rw = rewrite_spec(doc, ogs);
    lemma_rewrite_groups(doc, ogs);
    assert(ogs.take(directive_count(doc) as int) =~= ogs);
    assert(directive_groups(rw) == ogs);
    lemma_header_line_shape(ts);
    let out = transform_spec(doc, ts);
    if doc.len() == 0 {
        assert(rw.len() == 0);
        assert(!(rw.len() > 0 && contains_seq(rw[0], marker())));
        assert(out =~= seq![header_line(ts), "#"@]);
        lemma_groups_pair(header_line(ts), "#"@);
        assert(directive_groups(out) == Seq::<Seq<Seq<char>>>::empty());
        assert(directive_groups(rw) =~= Seq::<Seq<Seq<char>>>::empty());
        assert(directive_groups(out) =~= ogs);
    } else {
        assert(rw.len() == doc.len());
        if contains_seq(rw[0], marker()) {
            // The rewritten first line can carry the marker only if the
            // original first line did: a rendered directive line never does.
            if is_directive_line(doc[0]) {
                assert(doc.take(0) =~= Seq::<Seq<char>>::empty());
                assert(dir_count_before(doc, 0) == 0);
                lemma_count_before_lt(doc, 0);
                assert(rw[0] == render_line(ogs[0]));
                assert forall|j: int| 0 <= j < ogs[0].len() implies hash_free(
                    #[trigger] ogs[0][j],
                ) by {
                    assert(hash_free_groups(ogs));
                }
                lemma_render_no_marker(ogs[0]);
                assert(false);
            }
            assert(rw[0] == doc[0]);
            let out2 = rw.update(0, header_line(ts));
            assert(out == out2);
            assert(rw =~= seq![rw[0]] + rw.skip(1));
            assert(out2 =~= seq![header_line(ts)] + rw.skip(1));
            lemma_groups_concat(seq![rw[0]], rw.skip(1));
            lemma_groups_concat(seq![header_line(ts)], rw.skip(1));
            lemma_groups_single(rw[0]);
            lemma_groups_single(header_line(ts));
            assert(directive_groups(out2) =~= directive_groups(rw));
        } else {
            let out2 = seq![header_line(ts), "#"@] + rw;
            assert(out == out2);
            lemma_groups_concat(seq![header_line(ts), "#"@], rw);
            lemma_groups_pair(header_line(ts), "#"@);
            assert(directive_groups(out2) =~= directive_groups(rw));
        }
    }
    lemma_ordered_elements(gs);
    assert forall|k: int| 0 <= k < directive_count(doc) implies exists|i: int|
        0 <= i < directive_count(doc) && #[trigger] directive_groups(out)[k] == sort_addrs(
            directive_groups(doc)[i],
        ) && directive_groups(out)[k].len() == directive_groups(doc)[i].len() by {
        assert(is_image(gs, ogs[k]));
        let i = choose|i: int| 0 <= i < gs.len() && ogs[k] == sort_addrs(gs[i]);
        lemma_sort_addrs_len(gs[i]);
        assert(directive_groups(out)[k] == ogs[k]);
    }
}


/// Passthrough fidelity: a non-directive input line reappears byte-identical
/// in the output — shifted down by two lines when the header is inserted,
/// and at its own position otherwise (line 0 excepted, where a pre-existing
/// marker line is refreshed in place).
pub proof fn lemma_passthrough(doc: Seq<Seq<char>>, ts: Seq<char>, i: int)
    requires
        0 <= i < doc.len(),
        !is_directive_line(doc[i]),
    ensures
        transform_spec(doc, ts).len() == doc.len() + 2 ==> transform_spec(doc, ts)[i + 2]
            == doc[i],
        transform_spec(doc, ts).len() == doc.len() && i > 0 ==> transform_spec(doc, ts)[i]
            == doc[i],
        transform_spec(doc, ts).len() == doc.len() || transform_spec(doc, ts).len() == doc.len()
            + 2,
{
    let ogs = ordered_groups(directive_groups(doc));
    let rw = rewrite_spec(doc, ogs);
    assert(rw[i] == doc[i]);
    if rw.len() > 0 && contains_seq(rw[0], marker()) {
        assert(transform_spec(doc, ts) == rw.update(0, header_line(ts)));
    } else {
        assert(transform_spec(doc, ts) == seq![header_line(ts), "#"@] + rw);
        assert(transform_spec(doc, ts)[i + 2] == rw[i]);
    }
}

/// A group the intra-line sort leaves unchanged. Kept opaque so that proofs
/// can pass the fact around without expanding the sort.
#[verifier::opaque]
pub open spec fn intra_fixed(g: Seq<Seq<char>>) -> bool {
    sort_addrs(g) == g
}

/// Applying the intra-line sort to groups it already fixes changes nothing.
pub proof fn lemma_sorted_each_fixed(x: Seq<Seq<Seq<char>>>)
    requires
        forall|k: int| 0 <= k < x.len() ==> intra_fixed(#[trigger] x[k]),
    ensures
        sorted_each(x) == x,
{
    assert forall|k: int| 0 <= k < x.len() implies sorted_each(x)[k] == x[k] by {
        assert(intra_fixed(x[k]));
        reveal(intra_fixed);
    }
    assert(sorted_each(x) =~= x);
}

/// Filtering keeps every group that the intra-line sort already fixes.
pub proof fn lemma_filter_preserves_fixed(
    x: Seq<Seq<Seq<char>>>,
    p: spec_fn(Seq<Seq<char>>) -> bool,
)
    requires
        forall|k: int| 0 <= k < x.len() ==> intra_fixed(#[trigger] x[k]),
    ensures
        forall|k: int| 0 <= k < x.filter(p).len() ==> intra_fixed(#[trigger] x.filter(p)[k]),
{
    assert forall|k: int| 0 <= k < x.filter(p).len() implies intra_fixed(
        #[trigger] x.filter(p)[k],
    ) by {
        let e = x.filter(p)[k];
        assert(x.filter(p).contains(e));
        x.lemma_filter_contains_rev(p, e);
        let i = choose|i: int| 0 <= i < x.len() && x[i] == e;
        assert(intra_fixed(x[i]));
    }
}

/// Concatenation keeps every group that the intra-line sort already fixes.
pub proof fn lemma_concat_preserves_fixed(a: Seq<Seq<Seq<char>>>, b: Seq<Seq<Seq<char>>>)
    requires
        forall|k: int| 0 <= k < a.len() ==> intra_fixed(#[trigger] a[k]),
        forall|k: int| 0 <= k < b.len() ==> intra_fixed(#[trigger] b[k]),
    ensures
        forall|k: int| 0 <= k < (a + b).len() ==> intra_fixed(#[trigger] (a + b)[k]),
{
    assert forall|k: int| 0 <= k < (a + b).len() implies intra_fixed(#[trigger] (a + b)[k]) by {
        if k < a.len() {
            assert((a + b)[k] == a[k]);
            assert(intra_fixed(a[k]));
        } else {
            assert((a + b)[k] == b[k - a.len()]);
            assert(intra_fixed(b[k - a.len()]));
        }
    }
}

/// Each group of `sorted_each` is already intra-line sorted.
pub proof fn lemma_sorted_each_pointwise(gs: Seq<Seq<Seq<char>>>)
    ensures
        forall|k: int| 0 <= k < sorted_each(gs).len() ==> intra_fixed(#[trigger] sorted_each(gs)[k]),
{
    assert forall|k: int| 0 <= k < sorted_each(gs).len() implies intra_fixed(
        #[trigger] sorted_each(gs)[k],
    ) by {
        lemma_sorted_each_pointwise_at(gs, k);
    }
}

/// One position of `lemma_sorted_each_pointwise`.
proof fn lemma_sorted_each_pointwise_at(gs: Seq<Seq<Seq<char>>>, k: int)
    requires
        0 <= k < gs.len(),
    ensures
        intra_fixed(sorted_each(gs)[k]),
{
    let y = gs[k];
    let z = sort_addrs(y);
    assert(sorted_each(gs)[k] == z);
    lemma_sort_addrs_idempotent(y);
    assert(sort_addrs(z) == z);
    reveal(intra_fixed);
}

/// A reordered group list is already intra-line sorted.
pub proof fn lemma_sorted_each_fix(gs: Seq<Seq<Seq<char>>>)
    ensures
        sorted_each(ordered_groups(gs)) == ordered_groups(gs),
{
    let x = sorted_each(gs);
    lemma_sorted_each_pointwise(gs);
    lemma_filter_preserves_fixed(x, lead_pred());
    lemma_filter_preserves_fixed(x, other_lead_pred());
    lemma_concat_preserves_fixed(x.filter(lead_pred()), x.filter(other_lead_pred()));
    assert(ordered_groups(gs) == x.filter(lead_pred()) + x.filter(other_lead_pred()));
    lemma_sorted_each_fixed(ordered_groups(gs));
}

/// Reordering the whole group list twice is the same as doing it once.
pub proof fn lemma_ordered_idempotent(gs: Seq<Seq<Seq<char>>>)
    ensures
        ordered_groups(ordered_groups(gs)) == ordered_groups(gs),
{
    let ogs = ordered_groups(gs);
    lemma_sorted_each_fix(gs);
    lemma_sort_groups_idempotent(sorted_each(gs));
    assert(ordered_groups(ogs) == sort_groups(sorted_each(ogs)));
    assert(sort_groups(ogs) == ogs);
}

/// A document whose directive lines are already canonical renderings of
/// their own address groups is left unchanged by the rewriter.
pub proof fn lemma_rewrite_fixpoint(d: Seq<Seq<char>>, gs: Seq<Seq<Seq<char>>>)
    requires
        directive_groups(d) == gs,
        forall|i: int|
            0 <= i < d.len() && is_directive_line(#[trigger] d[i]) ==> d[i] == render_line(
                addrs_of(d[i]),
            ),
    ensures
        rewrite_spec(d, gs) == d,
{
    assert forall|i: int| 0 <= i < d.len() implies rewrite_spec(d, gs)[i] == d[i] by {
        if is_directive_line(d[i]) {
            lemma_groups_index(d, i);
            assert(gs[dir_count_before(d, i) as int] == addrs_of(d[i]));
        }
    }
    assert(rewrite_spec(d, gs) =~= d);
}

/// Idempotent structure: transforming the transformed document again (with a
/// fresh timestamp) changes nothing but the header timestamp — the address
/// ordering is already settled and the header is never duplicated.
pub proof fn lemma_idempotent_structure(doc: Seq<Seq<char>>, t1: Seq<char>, t2: Seq<char>)
    requires
        addrs_hash_free(doc),
    ensures
        transform_spec(transform_spec(doc, t1), t2) == transform_spec(doc, t2),
{
    let gs = directive_groups(doc);
    let ogs = ordered_groups(gs);
    let rw = rewrite_spec(doc, ogs);
    let out1 = transform_spec(doc, t1);
    lemma_cardinality_preservation(doc, t1);
    lemma_ordered_idempotent(gs);
    assert(directive_groups(out1) == ogs);
    assert(ordered_groups(directive_groups(out1)) == ogs);

    lemma_directive_groups_wf(doc);
    lemma_ordered_inherit(gs);
    lemma_header_line_shape(t1);

    // Every directive line of the once-transformed document is the canonical
    // rendering of its own address group.
    assert forall|i: int|
        0 <= i < out1.len() && is_directive_line(#[trigger] out1[i]) implies out1[i] == render_line(
        addrs_of(out1[i]),
    ) by {
        let j = if out1.len() == doc.len() + 2 { i - 2 } else { i };
        if rw.len() > 0 && contains_seq(rw[0], marker()) {
            assert(out1 == rw.update(0, header_line(t1)));
            assert(i != 0);
            assert(out1[i] == rw[i]);
        } else {
            assert(out1 == seq![header_line(t1), "#"@] + rw);
            assert(i >= 2);
            assert(out1[i] == rw[i - 2]);
        }
        let k = choose|k: int| 0 <= k < rw.len() && out1[i] == rw[k];
        assert(is_directive_line(rw[k]));
        assert(is_directive_line(doc[k])) by {
            if !is_directive_line(doc[k]) {
                assert(rw[k] == doc[k]);
            }
        }
        lemma_count_before_lt(doc, k);
        let c = dir_count_before(doc, k) as int;
        assert(rw[k] == render_line(ogs[c]));
        assert(wf_group(ogs[c])) by {
            assert forall|j2: int| 0 <= j2 < ogs[c].len() implies wf_token(
                #[trigger] ogs[c][j2],
            ) by {
                assert(wf_groups(ogs));
            }
        }
        lemma_render_round_trip(ogs[c]);
    }
    lemma_rewrite_fixpoint(out1, ogs);

    let out2 = transform_spec(out1, t2);
    assert(out1[0] == header_line(t1)) by {
        if rw.len() > 0 && contains_seq(rw[0], marker()) {
            assert(out1 == rw.update(0, header_line(t1)));
        } else {
            assert(out1 == seq![header_line(t1), "#"@] + rw);
        }
    }
    assert(out1.len() > 0);
    assert(out2 == out1.update(0, header_line(t2)));

    lemma_header_line_shape(t2);
    if rw.len() > 0 && contains_seq(rw[0], marker()) {
        assert(transform_spec(doc, t2) == rw.update(0, header_line(t2)));
        assert(out2 =~= rw.update(0, header_line(t2)));
    } else {
        assert(transform_spec(doc, t2) == seq![header_line(t2), "#"@] + rw);
        assert(out2 =~= seq![header_line(t2), "#"@] + rw);
    }
}

} // verus!
