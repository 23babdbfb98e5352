//! The whole transformation: scan the directives, order their addresses,
//! rewrite the directive lines in place, then refresh the marker header.

use vstd::prelude::*;
use crate::header::{local_timestamp, refresh_header_with, refresh_spec};
use crate::order::{lead_pred, order_groups, ordered_groups, other_lead_pred, sorted_each};
use crate::rewrite::{rewrite_lines, rewrite_spec};
use crate::scan::{directive_count, directive_groups, has_malformed, is_malformed_line, scan_directives, ResolvError};

verus! {

/// The transformed document for a given input document and timestamp text:
/// every directive line rewritten with its reordered address group, every
/// other line untouched, and the marker header refreshed or prepended.
pub open spec fn transform_spec(doc: Seq<Seq<char>>, ts: Seq<char>) -> Seq<Seq<char>> {
    refresh_spec(rewrite_spec(doc, ordered_groups(directive_groups(doc))), ts)
}

/// Filtering a sequence by a predicate and by its complement splits it into
/// two parts whose lengths add up to the whole.
pub proof fn lemma_partition_len<A>(s: Seq<A>, p: spec_fn(A) -> bool, q: spec_fn(A) -> bool)
    requires
        forall|x: A| #[trigger] q(x) == !p(x),
    ensures
        s.filter(p).len() + s.filter(q).len() == s.len(),
    decreases s.len(),
{
    reveal(Seq::filter);
    if s.len() > 0 {
        lemma_partition_len(s.drop_last(), p, q);
        assert(q(s.last()) == !p(s.last()));
    }
}

/// The ordering step never creates or loses a directive group.
pub proof fn lemma_ordered_len(gs: Seq<Seq<Seq<char>>>)
    ensures
        ordered_groups(gs).len() == gs.len(),
{
    lemma_partition_len(sorted_each(gs), lead_pred(), other_lead_pred());
}

/// Transforms the document with an injected timestamp text. Succeeds exactly
/// when no directive line is malformed, and then produces precisely the
/// document `transform_spec` describes; otherwise reports the first
/// malformed directive line and leaves nothing changed.
pub fn transform_with(lines: &Vec<String>, ts: &str) -> (r: Result<Vec<String>, ResolvError>)
    ensures
        ({
            let doc = lines.deep_view();
            match r {
                Ok(out) => !has_malformed(doc) && out.deep_view() == transform_spec(doc, ts@),
                Err(ResolvError::MalformedDirective { line_no }) => has_malformed(doc)
                    && line_no < doc.len() && is_malformed_line(doc[line_no as int]) && forall|
                    j: int,
                |
                    0 <= j < line_no ==> !is_malformed_line(#[trigger] doc[j]),
            }
        }),
{
    let ghost doc = lines.deep_view();
    match scan_directives(lines) {
        Err(e) => Err(e),
        Ok(groups) => {
            let ordered = order_groups(&groups);
            proof {
                lemma_ordered_len(directive_groups(doc));
                assert(ordered.deep_view().len() == directive_count(doc));
            }
            let mut out = rewrite_lines(lines, &ordered);
            refresh_header_with(&mut out, ts);
            Ok(out)
        },
    }
}

/// Transforms the document, stamping the header with the current local
/// time. Succeeds exactly when no directive line is malformed; whatever text
/// the clock yields, the result is `transform_spec` for some timestamp.
pub fn transform(lines: &Vec<String>) -> (r: Result<Vec<String>, ResolvError>)
    ensures
        ({
            let doc = lines.deep_view();
            match r {
                Ok(out) => !has_malformed(doc) && exists|ts: Seq<char>|
                    out.deep_view() == transform_spec(doc, ts),
                Err(ResolvError::MalformedDirective { line_no }) => has_malformed(doc)
                    && line_no < doc.len() && is_malformed_line(doc[line_no as int]) && forall|
                    j: int,
                |
                    0 <= j < line_no ==> !is_malformed_line(#[trigger] doc[j]),
            }
        }),
{
    let ts = local_timestamp();
    let r = transform_with(lines, ts.as_str());
    proof {
        if r is Ok {
            assert(r->Ok_0.deep_view() == transform_spec(lines.deep_view(), ts@));
        }
    }
    r
}

} // verus!
