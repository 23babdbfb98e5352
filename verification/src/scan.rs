//! Directive scanner: finds the name-server directive lines of a document
//! and extracts, per directive line, the ordered list of address tokens.
//! A directive line with no address tokens is a recoverable parse error.

use vstd::prelude::*;
use crate::text::{
    is_space, split_tokens, starts_with, str_starts_with, tokens_of, wf_token, lemma_tokens_wf,
};

verus! {

/// The keyword that opens a name-server directive line.
pub open spec fn keyword() -> Seq<char> {
    "nameserver"@
}

/// A name-server directive line begins with the keyword. Blank lines and
/// comment lines (which begin with `#`) can never do so, so the scanner's
/// skipping of those is subsumed by this test.
pub open spec fn is_directive_line(s: Seq<char>) -> bool {
    starts_with(s, keyword())
}

/// The address tokens of a directive line: every whitespace-separated token
/// of the line after the leading keyword token.
pub open spec fn addrs_of(s: Seq<char>) -> Seq<Seq<char>> {
    tokens_of(s).drop_first()
}

/// The per-directive address groups of a document, in document order.
pub open spec fn directive_groups(doc: Seq<Seq<char>>) -> Seq<Seq<Seq<char>>>
    decreases doc.len(),
{
    if doc.len() == 0 {
        Seq::empty()
    } else {
        directive_groups(doc.drop_last()) + if is_directive_line(doc.last()) {
            seq![addrs_of(doc.last())]
        } else {
            Seq::empty()
        }
    }
}

/// Number of directive lines in the document.
pub open spec fn directive_count(doc: Seq<Seq<char>>) -> nat {
    directive_groups(doc).len()
}

/// Number of directive lines strictly before position `i`.
pub open spec fn dir_count_before(doc: Seq<Seq<char>>, i: int) -> nat {
    directive_count(doc.take(i))
}

/// A directive line that declares no address at all.
pub open spec fn is_malformed_line(s: Seq<char>) -> bool {
    is_directive_line(s) && addrs_of(s).len() == 0
}

/// Whether any line of the document is a malformed directive.
pub open spec fn has_malformed(doc: Seq<Seq<char>>) -> bool {
    exists|i: int| 0 <= i < doc.len() && is_malformed_line(#[trigger] doc[i])
}

/// The error a scan of the document can surface: some directive line carries
/// zero address tokens. `line_no` is the first such line.
#[derive(Clone, Copy, PartialEq, Eq, Structural, Debug)]
pub enum ResolvError {
    MalformedDirective { line_no: usize },
}

/// Unfolds the groups of a one-longer prefix of the document.
pub proof fn lemma_groups_take_succ(doc: Seq<Seq<char>>, i: int)
    requires
        0 <= i < doc.len(),
    ensures
        directive_groups(doc.take(i + 1)) == directive_groups(doc.take(i)) + if is_directive_line(
            doc[i],
        ) {
            seq![addrs_of(doc[i])]
        } else {
            Seq::<Seq<Seq<char>>>::empty()
        },
{
    assert(doc.take(i + 1).drop_last() =~= doc.take(i));
    assert(doc.take(i + 1).last() == doc[i]);
}

/// Groups of a concatenation: the groups of each part, in order.
pub proof fn lemma_groups_concat(a: Seq<Seq<char>>, b: Seq<Seq<char>>)
    ensures
        directive_groups(a + b) == directive_groups(a) + directive_groups(b),
    decreases b.len(),
{
    if b.len() == 0 {
        assert(a + b =~= a);
        assert(directive_groups(a) + directive_groups(b) =~= directive_groups(a));
    } else {
        lemma_groups_concat(a, b.drop_last());
        assert((a + b).drop_last() =~= a + b.drop_last());
        assert((a + b).last() == b.last());
        if is_directive_line(b.last()) {
            assert(directive_groups(a + b) =~= directive_groups(a) + directive_groups(b));
        } else {
            assert(directive_groups(b) == directive_groups(b.drop_last()));
            assert(directive_groups(a + b) =~= directive_groups(a) + directive_groups(b));
        }
    }
}

/// A directive line has at least one token (the keyword itself).
pub proof fn lemma_directive_has_token(s: Seq<char>)
    requires
        is_directive_line(s),
    ensures
        tokens_of(s).len() >= 1,
        addrs_of(s).len() == tokens_of(s).len() - 1,
{
    reveal_strlit("nameserver");
    assert(s.subrange(0, keyword().len() as int)[0] == s[0]);
    assert(s[0] == 'n');
    assert(!is_space(s[0]));
    assert(tokens_of(s)[0] == s.take(crate::text::token_len(s) as int));
    assert(addrs_of(s) =~= tokens_of(s).subrange(1, tokens_of(s).len() as int));
}

/// Every address of every group extracted from the document is a nonempty,
/// whitespace-free token.
pub open spec fn wf_groups(gs: Seq<Seq<Seq<char>>>) -> bool {
    forall|k: int, j: int|
        0 <= k < gs.len() && 0 <= j < gs[k].len() ==> wf_token(#[trigger] gs[k][j])
}

/// Scans the document for name-server directives. Returns the ordered list
/// of per-directive address groups, or reports the first directive line that
/// declares no address.
pub fn scan_directives(lines: &Vec<String>) -> (r: Result<Vec<Vec<String>>, ResolvError>)
    ensures
        ({
            let doc = lines.deep_view();
            match r {
                Ok(groups) => !has_malformed(doc) && groups.deep_view() == directive_groups(doc),
                Err(ResolvError::MalformedDirective { line_no }) => has_malformed(doc)
                    && line_no < doc.len() && is_malformed_line(doc[line_no as int]) && forall|
                    j: int,
                |
                    0 <= j < line_no ==> !is_malformed_line(#[trigger] doc[j]),
            }
        }),
{
    let ghost doc = lines.deep_view();
    let n = lines.len();
    let mut groups: Vec<Vec<String>> = Vec::new();
    proof {
        assert(doc.len() == n);
        assert(doc.take(0) =~= Seq::<Seq<char>>::empty());
        assert(groups.deep_view() =~= directive_groups(doc.take(0)));
    }
    let mut i: usize = 0;
    while i < n
        invariant
            i <= n,
            n == lines.len(),
            doc == lines.deep_view(),
            groups.deep_view() == directive_groups(doc.take(i as int)),
            forall|j: int| 0 <= j < i ==> !is_malformed_line(#[trigger] doc[j]),
        decreases n - i,
    {
        let line = &lines[i];
        proof {
            assert(line@ == doc[i as int]);
        }
        let ghost old_groups = groups.deep_view();
        if str_starts_with(line.as_str(), "nameserver") {
            assert(is_directive_line(doc[i as int]));
            let mut toks = split_tokens(line.as_str());
            proof {
                lemma_directive_has_token(doc[i as int]);
            }
            if toks.len() <= 1 {
                assert(is_malformed_line(doc[i as int]));
                return Err(ResolvError::MalformedDirective { line_no: i });
            }
            let _kw = toks.remove(0);
            proof {
                assert(toks.deep_view() =~= tokens_of(doc[i as int]).drop_first());
            }
            groups.push(toks);
            proof {
                assert(groups.deep_view() =~= old_groups.push(addrs_of(doc[i as int])));
                lemma_groups_take_succ(doc, i as int);
                assert(groups.deep_view() =~= directive_groups(doc.take(i + 1)));
            }
        } else {
            proof {
                lemma_groups_take_succ(doc, i as int);
                assert(groups.deep_view() =~= directive_groups(doc.take(i + 1)));
            }
        }
        i += 1;
    }
    proof {
        assert(doc.take(n as int) =~= doc);
    }
    Ok(groups)
}

/// The groups that the scanner extracts are made of well-formed tokens.
pub proof fn lemma_directive_groups_wf(doc: Seq<Seq<char>>)
    ensures
        wf_groups(directive_groups(doc)),
    decreases doc.len(),
{
    if doc.len() > 0 {
        lemma_directive_groups_wf(doc.drop_last());
        let gs = directive_groups(doc);
        let pre = directive_groups(doc.drop_last());
        assert forall|k: int, j: int|
            0 <= k < gs.len() && 0 <= j < gs[k].len() implies wf_token(#[trigger] gs[k][j]) by {
            if k < pre.len() {
                assert(gs[k] == pre[k]);
            } else {
                assert(is_directive_line(doc.last()));
                assert(gs[k] == addrs_of(doc.last()));
                lemma_tokens_wf(doc.last());
                lemma_directive_has_token(doc.last());
                assert(addrs_of(doc.last())[j] == tokens_of(doc.last())[j + 1]);
            }
        }
    }
}

} // verus!
