//! Line rewriter: writes the reordered address groups back into the
//! directive lines, in document order, leaving every other line unchanged.

use vstd::prelude::*;
use crate::scan::{
    dir_count_before, directive_count, directive_groups, is_directive_line, keyword,
    lemma_groups_concat, lemma_groups_take_succ,
};

verus! {

/// The addresses of a group, each preceded by a single space.
pub open spec fn spaced(g: Seq<Seq<char>>) -> Seq<char>
    decreases g.len(),
{
    if g.len() == 0 {
        Seq::empty()
    } else {
        seq![' '] + g.first() + spaced(g.drop_first())
    }
}

/// The text of a rewritten directive line: the keyword, then the addresses
/// joined by single spaces.
pub open spec fn render_line(g: Seq<Seq<char>>) -> Seq<char> {
    keyword() + spaced(g)
}

/// The document with the content of its `k`-th directive line replaced by the
/// rendering of the `k`-th group; all other lines keep their content.
pub open spec fn rewrite_spec(doc: Seq<Seq<char>>, gs: Seq<Seq<Seq<char>>>) -> Seq<Seq<char>> {
    Seq::new(
        doc.len(),
        |i: int|
            if is_directive_line(doc[i]) {
                render_line(gs[dir_count_before(doc, i) as int])
            } else {
                doc[i]
            },
    )
}

/// Strictly fewer directives lie before a directive line than in the whole
/// document.
pub proof fn lemma_count_before_lt(doc: Seq<Seq<char>>, i: int)
    requires
        0 <= i < doc.len(),
    ensures
        dir_count_before(doc, i) + if is_directive_line(doc[i]) {
            1int
        } else {
            0int
        } <= directive_count(doc),
        dir_count_before(doc, i + 1) == dir_count_before(doc, i) + if is_directive_line(doc[i]) {
            1int
        } else {
            0int
        },
{
    lemma_groups_take_succ(doc, i);
    lemma_groups_concat(doc.take(i + 1), doc.skip(i + 1));
    assert(doc.take(i + 1) + doc.skip(i + 1) =~= doc);
}

/// Renders one directive line from its address group.
pub fn render_directive(g: &Vec<String>) -> (r: String)
    ensures
        r@ == render_line(g.deep_view()),
{
    let ghost gv = g.deep_view();
    let mut out = String::from_str("nameserver");
    proof {
        assert(gv.skip(0) =~= gv);
        assert(out@ + spaced(gv.skip(0)) =~= render_line(gv));
    }
    let n = g.len();
    let mut i: usize = 0;
    while i < n
        invariant
            i <= n,
            n == g.len(),
            gv == g.deep_view(),
            render_line(gv) == out@ + spaced(gv.skip(i as int)),
        decreases n - i,
    {
        let ghost old_out = out@;
        out.append(" ");
        out.append(g[i].as_str());
        proof {
            reveal_strlit(" ");
            assert(" "@ =~= seq![' ']);
            let t = gv.skip(i as int);
            assert(t.first() == gv[i as int]);
            assert(t.drop_first() =~= gv.skip(i + 1));
            assert(spaced(t) == seq![' '] + gv[i as int] + spaced(gv.skip(i + 1)));
            assert(g@[i as int]@ == gv[i as int]);
            assert(out@ + spaced(gv.skip(i + 1)) =~= old_out + spaced(t));
        }
        i += 1;
    }
    proof {
        assert(gv.skip(n as int) =~= Seq::<Seq<char>>::empty());
        assert(out@ + spaced(gv.skip(n as int)) =~= out@);
    }
    out
}

/// Rewrites the document: the `k`-th directive line receives the `k`-th
/// group, every other line is emitted byte-identical. The caller must hand
/// over exactly one group per directive line; a mismatch is a pipeline bug,
/// which this contract rules out.
pub fn rewrite_lines(lines: &Vec<String>, groups: &Vec<Vec<String>>) -> (r: Vec<String>)
    requires
        groups.deep_view().len() == directive_count(lines.deep_view()),
    ensures
        r.deep_view() == rewrite_spec(lines.deep_view(), groups.deep_view()),
{
    let ghost doc = lines.deep_view();
    let ghost gv = groups.deep_view();
    let n = lines.len();
    let m = groups.len();
    let mut r: Vec<String> = Vec::new();
    let mut k: usize = 0;
    proof {
        assert(doc.len() == n);
        assert(doc.take(0) =~= Seq::<Seq<char>>::empty());
        assert(r.deep_view() =~= rewrite_spec(doc, gv).take(0));
    }
    let mut i: usize = 0;
    while i < n
        invariant
            i <= n,
            n == lines.len(),
            doc == lines.deep_view(),
            gv == groups.deep_view(),
            gv.len() == directive_count(doc),
            m == groups.len(),
            m == gv.len(),
            k == dir_count_before(doc, i as int),
            k <= m,
            r.deep_view() == rewrite_spec(doc, gv).take(i as int),
        decreases n - i,
    {
        let ghost old_r = r.deep_view();
        proof {
            lemma_count_before_lt(doc, i as int);
        }
        let line = &lines[i];
        proof {
            assert(line@ == doc[i as int]);
        }
        if crate::text::str_starts_with(line.as_str(), "nameserver") {
            assert(is_directive_line(doc[i as int]));
            let rendered = render_directive(&groups[k]);
            proof {
                assert(groups@[k as int].deep_view() == gv[k as int]);
            }
            r.push(rendered);
            k = k + 1;
            proof {
                assert(r.deep_view() =~= old_r.push(rewrite_spec(doc, gv)[i as int]));
            }
        } else {
            assert(!is_directive_line(doc[i as int]));
            r.push(line.clone());
            proof {
                assert(r.deep_view() =~= old_r.push(rewrite_spec(doc, gv)[i as int]));
            }
        }
        proof {
            assert(rewrite_spec(doc, gv).take(i + 1) =~= rewrite_spec(doc, gv).take(i as int).push(
                rewrite_spec(doc, gv)[i as int],
            ));
        }
        i += 1;
    }
    proof {
        assert(rewrite_spec(doc, gv).take(n as int) =~= rewrite_spec(doc, gv));
    }
    r
}

} // verus!
