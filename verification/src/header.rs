//! Header manager: keeps exactly one two-line marker comment at the top of
//! the document — a marker line with a refreshed local timestamp, then a bare
//! separator comment. A pre-existing marker line is replaced in place; a
//! document without one has the two lines prepended.

use vstd::prelude::*;
use vstd::pervasive::VecAdditionalExecFns;
use crate::text::{contains_seq, str_contains_str};

verus! {

/// The fixed marker text that identifies the managed header line.
pub open spec fn marker() -> Seq<char> {
    "# Nameservers (possibly) reordered by resolvloser on"@
}

/// The full marker header line for a given timestamp text.
pub open spec fn header_line(ts: Seq<char>) -> Seq<char> {
    marker() + seq![' '] + ts
}

/// The document after the header step: if line 0 carries the marker, its
/// content is replaced by a fresh marker line; otherwise the marker line and
/// a bare separator comment are inserted at the front.
pub open spec fn refresh_spec(doc: Seq<Seq<char>>, ts: Seq<char>) -> Seq<Seq<char>> {
    if doc.len() > 0 && contains_seq(doc[0], marker()) {
        doc.update(0, header_line(ts))
    } else {
        seq![header_line(ts), "#"@] + doc
    }
}

/// Relies on `chrono::Local::now` and `chrono::DateTime::to_rfc2822` for the
/// human-readable, timezone-aware timestamp written into the marker header.
/// The text depends on the clock, so nothing is assumed about it.
#[verifier::external_body]
pub(crate) fn local_timestamp() -> String {
    chrono::Local::now().to_rfc2822()
}

/// Builds the marker header line from an injected timestamp text.
pub fn gen_header_with(ts: &str) -> (r: String)
    ensures
        r@ == header_line(ts@),
{
    let mut out = String::from_str("# Nameservers (possibly) reordered by resolvloser on");
    out.append(" ");
    out.append(ts);
    proof {
        reveal_strlit(" ");
        assert(" "@ =~= seq![' ']);
        assert(out@ =~= marker() + seq![' '] + ts@);
    }
    out
}

/// Builds the marker header line stamped with the current local time.
pub fn gen_header() -> (r: String)
    ensures
        exists|ts: Seq<char>| r@ == header_line(ts),
{
    let ts = local_timestamp();
    let r = gen_header_with(ts.as_str());
    proof {
        assert(r@ == header_line(ts@));
    }
    r
}

/// Replaces or inserts the marker header, with an injected timestamp text.
pub fn refresh_header_with(lines: &mut Vec<String>, ts: &str)
    ensures
        final(lines).deep_view() == refresh_spec(old(lines).deep_view(), ts@),
{
    let ghost doc = lines.deep_view();
    let has_marker = if lines.len() > 0 {
        let r = str_contains_str(lines[0].as_str(), "# Nameservers (possibly) reordered by resolvloser on");
        proof {
            assert(lines@[0]@ == doc[0]);
        }
        r
    } else {
        false
    };
    let h = gen_header_with(ts);
    if has_marker {
        lines.set(0, h);
        proof {
            assert(lines.deep_view() =~= doc.update(0, header_line(ts@)));
        }
    } else {
        lines.insert(0, h);
        lines.insert(1, String::from_str("#"));
        proof {
            assert(lines.deep_view() =~= seq![header_line(ts@), "#"@] + doc);
        }
    }
}

/// Replaces or inserts the marker header, stamped with the current local
/// time. Whatever text the clock yields, the document is reshaped exactly as
/// `refresh_spec` describes for some timestamp.
pub fn refresh_header(lines: &mut Vec<String>)
    ensures
        exists|ts: Seq<char>|
            final(lines).deep_view() == refresh_spec(old(lines).deep_view(), ts),
{
    let ts = local_timestamp();
    refresh_header_with(lines, ts.as_str());
    proof {
        assert(lines.deep_view() == refresh_spec(old(lines).deep_view(), ts@));
    }
}

} // verus!
