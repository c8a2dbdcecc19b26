//! A compile-time code-templating engine: given a loop variable, an integer
//! range and a token tree, it produces the tree in which the body (or each
//! marked section of it) is repeated once per value of the range, with the
//! loop variable substituted by that value.
//!
//! The invocation has the form `<var> in <int>..<int> { <body> }` (or
//! `..=` for an inclusive end).  Inside the body, `#( ... )*` marks a
//! section to repeat; when no such marker stands anywhere in the body, the
//! whole body is repeated instead.  Within a repeated section a bare
//! occurrence of the loop variable becomes the value's decimal literal,
//! and `ident~<var>` fuses into one identifier ending in the value.

pub mod decimal;
pub mod expand;
pub mod header;
pub mod scan;
pub mod subst;
pub mod tree;

use vstd::prelude::*;
use crate::expand::{expand_frag, expand_fragment};
use crate::header::{HeaderError, header_spec, parse_header};
use crate::scan::{
    contains_marker, lemma_scan_finds_markers, lemma_single_marker, marker_frag, scan_frag,
    scan_fragment,
};
use crate::tree::{NodeView, Node, view_frag};

verus! {

/// The engine's output for a body: the scanner's rewriting when it found
/// a marker anywhere, else the expansion of the whole body.
pub open spec fn expansion_output(
    body: Seq<NodeView>,
    var: Seq<char>,
    start: int,
    end: int,
) -> Seq<NodeView> {
    let sc = scan_frag(body, var, start, end);
    if sc.1 {
        sc.0
    } else {
        expand_frag(body, var, start, end)
    }
}

/// The engine's answer for a whole invocation: the expansion of the body
/// under the parsed header, or the header's error.
pub open spec fn invocation_output(f: Seq<NodeView>) -> Result<Seq<NodeView>, HeaderError> {
    match header_spec(f) {
        Ok(h) => Ok(expansion_output(h.3, h.0, h.1, h.2)),
        Err(e) => Err(e),
    }
}

/// Law: a body in which no marker stands anywhere is repeated wholesale —
/// the output is the concatenation, over the range in ascending order, of
/// the body's substitutions; an empty or inverted range yields an empty
/// output.
pub proof fn lemma_whole_body_expansion(
    body: Seq<NodeView>,
    var: Seq<char>,
    start: int,
    end: int,
)
    requires
        !contains_marker(body),
    ensures
        expansion_output(body, var, start, end) == expand_frag(body, var, start, end),
        end <= start ==> expansion_output(body, var, start, end) == Seq::<NodeView>::empty(),
{
    lemma_scan_finds_markers(body, var, start, end);
}

/// Law: a body holding exactly one marker — a prefix with no marker, the
/// marker around a fragment, then a suffix with no marker — yields the
/// prefix once and untouched, then the expansion of the enclosed
/// fragment over the range, then the suffix once and untouched.
pub proof fn lemma_single_marker_output(
    p: Seq<NodeView>,
    mid: Seq<NodeView>,
    s: Seq<NodeView>,
    var: Seq<char>,
    start: int,
    end: int,
)
    requires
        !contains_marker(p),
        !contains_marker(s),
    ensures
        expansion_output(p + marker_frag(mid) + s, var, start, end) == p + expand_frag(
            mid,
            var,
            start,
            end,
        ) + s,
{
    lemma_single_marker(p, mid, s, var, start, end);
}

/// Expands one whole invocation: parses the header, scans the body for
/// markers, and falls back to repeating the whole body when none was
/// found anywhere — exactly as `invocation_output` prescribes on the
/// model.
pub fn expand_invocation(input: Vec<Node>) -> (r: Result<Vec<Node>, HeaderError>)
    ensures
        match r {
            Ok(out) => invocation_output(view_frag(input@)) == Ok::<_, HeaderError>(
                view_frag(out@),
            ),
            Err(e) => invocation_output(view_frag(input@)) == Err::<Seq<NodeView>, _>(e),
        },
{
    match parse_header(input) {
        Ok(p) => {
            let (ls, body) = p;
            let res = scan_fragment(&body, &ls.var, ls.start, ls.end);
            if res.1 {
                Ok(res.0)
            } else {
                Ok(expand_fragment(&body, &ls.var, ls.start, ls.end))
            }
        },
        Err(e) => Err(e),
    }
}

} // verus!
