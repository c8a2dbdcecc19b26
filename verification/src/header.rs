//! The header parser: reads the invocation — a loop-variable identifier,
//! the keyword `in`, a start literal, `..` or `..=`, an end literal, then
//! a brace-delimited body — into a loop specification and the body
//! fragment, or reports a located error naming the expected construct.

use vstd::prelude::*;
use crate::decimal::{all_digits, dec_value, parse_decimal};
use crate::tree::{
    Delim, Node, NodeView, clone_chars, clone_frag, is_ident_text, is_symbol, lemma_view_frag,
    view_frag, view_node,
};

verus! {

/// The construct that was expected at the position where parsing failed.
#[derive(Clone, Copy, PartialEq, Eq, Structural, Debug)]
pub enum HeaderErrorKind {
    LoopVar,
    InKeyword,
    StartBound,
    RangeDots,
    EndBound,
    Body,
    TrailingTokens,
}

/// A located header error: the index of the offending token in the
/// invocation (one past the last token when the input ends too early)
/// and the construct expected there.
#[derive(Clone, Copy, PartialEq, Eq, Structural, Debug)]
pub struct HeaderError {
    pub pos: usize,
    pub kind: HeaderErrorKind,
}

/// The loop variable and the half-open range it runs over.  An empty or
/// inverted range is valid and simply yields zero iterations.
pub struct LoopSpec {
    pub var: Vec<char>,
    pub start: u64,
    pub end: u64,
}

/// The text of the keyword that separates variable and range.
pub open spec fn kw_in() -> Seq<char> {
    seq!['i', 'n']
}

/// The index a header error points at: the token's own index, or one
/// past the end when the input stops before it.
pub open spec fn pos_at(f: Seq<NodeView>, k: int) -> int {
    if k < f.len() {
        k
    } else {
        f.len() as int
    }
}

/// The text of an identifier node.
pub open spec fn ident_text(v: NodeView) -> Seq<char> {
    match v {
        NodeView::Ident { text } => text,
        _ => Seq::empty(),
    }
}

/// The text of a literal node.
pub open spec fn literal_text(v: NodeView) -> Seq<char> {
    match v {
        NodeView::Literal { text } => text,
        _ => Seq::empty(),
    }
}

/// The children of a group node.
pub open spec fn group_body(v: NodeView) -> Seq<NodeView> {
    match v {
        NodeView::Group { delim, body } => body,
        _ => Seq::empty(),
    }
}

/// Whether a node is a literal holding a non-negative decimal integer
/// that still fits in a `u64` after adding `extra`.
pub open spec fn is_bound_lit(v: NodeView, extra: int) -> bool {
    &&& v matches NodeView::Literal { text }
    &&& all_digits(literal_text(v))
    &&& dec_value(literal_text(v)) + extra <= u64::MAX
}

/// What the header parser returns on the model of the invocation: the
/// loop variable's text, the half-open range (an inclusive end bound is
/// already raised by one), and the body fragment — or the first error,
/// located at the offending token.
pub open spec fn header_spec(f: Seq<NodeView>) -> Result<
    (Seq<char>, int, int, Seq<NodeView>),
    HeaderError,
> {
    if !(f.len() >= 1 && f[0] matches NodeView::Ident { text: _ }) {
        Err(HeaderError { pos: pos_at(f, 0) as usize, kind: HeaderErrorKind::LoopVar })
    } else if !(f.len() >= 2 && f[1] == (NodeView::Ident { text: kw_in() })) {
        Err(HeaderError { pos: pos_at(f, 1) as usize, kind: HeaderErrorKind::InKeyword })
    } else if !(f.len() >= 3 && is_bound_lit(f[2], 0)) {
        Err(HeaderError { pos: pos_at(f, 2) as usize, kind: HeaderErrorKind::StartBound })
    } else if !(f.len() >= 4 && f[3] == (NodeView::Symbol { ch: '.' })) {
        Err(HeaderError { pos: pos_at(f, 3) as usize, kind: HeaderErrorKind::RangeDots })
    } else if !(f.len() >= 5 && f[4] == (NodeView::Symbol { ch: '.' })) {
        Err(HeaderError { pos: pos_at(f, 4) as usize, kind: HeaderErrorKind::RangeDots })
    } else {
        let inclusive = f.len() >= 6 && f[5] == (NodeView::Symbol { ch: '=' });
        let extra: int = if inclusive {
            1
        } else {
            0
        };
        let ei: int = if inclusive {
            6
        } else {
            5
        };
        if !(f.len() > ei && is_bound_lit(f[ei], extra)) {
            Err(HeaderError { pos: pos_at(f, ei) as usize, kind: HeaderErrorKind::EndBound })
        } else if !(f.len() > ei + 1 && f[ei + 1] matches NodeView::Group {
            delim: Delim::Brace,
            body: _,
        }) {
            Err(HeaderError { pos: pos_at(f, ei + 1) as usize, kind: HeaderErrorKind::Body })
        } else if f.len() > ei + 2 {
            Err(HeaderError { pos: (ei + 2) as usize, kind: HeaderErrorKind::TrailingTokens })
        } else {
            Ok(
                (
                    ident_text(f[0]),
                    dec_value(literal_text(f[2])),
                    dec_value(literal_text(f[ei])) + extra,
                    group_body(f[ei + 1]),
                ),
            )
        }
    }
}

/// Whether a node is a group with the given delimiter.
fn is_group_with(n: &Node, d: Delim) -> (r: bool)
    ensures
        r == (view_node(*n) matches NodeView::Group { delim, body: _ } && delim == d),
{
    match n {
        Node::Group(dd, _) => *dd == d,
        _ => false,
    }
}

/// Parses the invocation into the loop specification and the body, or
/// the located error, exactly as `header_spec` prescribes on its model.
pub fn parse_header(input: Vec<Node>) -> (r: Result<(LoopSpec, Vec<Node>), HeaderError>)
    ensures
        match r {
            Ok(p) => header_spec(view_frag(input@)) == Ok::<_, HeaderError>(
                (p.0.var@, p.0.start as int, p.0.end as int, view_frag(p.1@)),
            ),
            Err(e) => header_spec(view_frag(input@)) == Err::<(Seq<char>, int, int, Seq<NodeView>), _>(e),
        },
{
    proof {
        lemma_view_frag(input@);
    }
    let n = input.len();
    if n < 1 {
        return Err(HeaderError { pos: n, kind: HeaderErrorKind::LoopVar });
    }
    let var: Vec<char> = match &input[0] {
        Node::Ident(t) => clone_chars(t),
        _ => {
            return Err(HeaderError { pos: 0, kind: HeaderErrorKind::LoopVar });
        },
    };
    let mut kw: Vec<char> = Vec::new();
    kw.push('i');
    kw.push('n');
    proof {
        assert(kw@ =~= kw_in());
    }
    if n < 2 || !is_ident_text(&input[1], &kw) {
        let pos = if n < 2 {
            n
        } else {
            1
        };
        return Err(HeaderError { pos, kind: HeaderErrorKind::InKeyword });
    }
    if n < 3 {
        return Err(HeaderError { pos: n, kind: HeaderErrorKind::StartBound });
    }
    let start_v: u64 = match &input[2] {
        Node::Literal(t) => {
            match parse_decimal(t) {
                Some(v) => v,
                None => {
                    return Err(HeaderError { pos: 2, kind: HeaderErrorKind::StartBound });
                },
            }
        },
        _ => {
            return Err(HeaderError { pos: 2, kind: HeaderErrorKind::StartBound });
        },
    };
    if n < 4 || !is_symbol(&input[3], '.') {
        let pos = if n < 4 {
            n
        } else {
            3
        };
        return Err(HeaderError { pos, kind: HeaderErrorKind::RangeDots });
    }
    if n < 5 || !is_symbol(&input[4], '.') {
        let pos = if n < 5 {
            n
        } else {
            4
        };
        return Err(HeaderError { pos, kind: HeaderErrorKind::RangeDots });
    }
    let inclusive = n >= 6 && is_symbol(&input[5], '=');
    let ei: usize = if inclusive {
        6
    } else {
        5
    };
    if n <= ei {
        return Err(HeaderError { pos: n, kind: HeaderErrorKind::EndBound });
    }
    let end_v: u64 = match &input[ei] {
        Node::Literal(t) => {
            match parse_decimal(t) {
                Some(v) => {
                    if inclusive && v == u64::MAX {
                        return Err(HeaderError { pos: ei, kind: HeaderErrorKind::EndBound });
                    }
                    if inclusive {
                        v + 1
                    } else {
                        v
                    }
                },
                None => {
                    return Err(HeaderError { pos: ei, kind: HeaderErrorKind::EndBound });
                },
            }
        },
        _ => {
            return Err(HeaderError { pos: ei, kind: HeaderErrorKind::EndBound });
        },
    };
    if n <= ei + 1 || !is_group_with(&input[ei + 1], Delim::Brace) {
        let pos = if n <= ei + 1 {
            n
        } else {
            ei + 1
        };
        return Err(HeaderError { pos, kind: HeaderErrorKind::Body });
    }
    if n > ei + 2 {
        return Err(HeaderError { pos: ei + 2, kind: HeaderErrorKind::TrailingTokens });
    }
    let body: Vec<Node> = match &input[ei + 1] {
        Node::Group(_, ch) => clone_frag(ch),
        _ => {
            proof {
                assert(false);
            }
            Vec::new()
        },
    };
    Ok((LoopSpec { var, start: start_v, end: end_v }, body))
}

} // verus!
