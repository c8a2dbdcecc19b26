//! The marker scanner: walks a fragment depth-first, left to right, with a
//! three-node window.  Each repetition marker — the symbol `#`, a
//! parenthesized group, the symbol `*`, as direct siblings — is replaced
//! by the expansion of the enclosed group, and the scanner reports whether
//! any marker was found at any nesting depth.  Expansion output is
//! terminal: it is never rescanned.

use vstd::prelude::*;
use crate::expand::{expand_frag, expand_fragment};
use crate::tree::{
    Delim, Node, NodeView, clone_node, is_symbol, lemma_view_frag, lemma_view_frag_concat,
    lemma_view_frag_push, view_frag, view_node,
};

verus! {

/// Whether a fragment begins with a repetition marker: `#`, a
/// parenthesized group, `*`.
pub open spec fn marker_head(f: Seq<NodeView>) -> bool {
    &&& f.len() >= 3
    &&& f[0] == (NodeView::Symbol { ch: '#' })
    &&& f[1] matches NodeView::Group { delim: Delim::Paren, body: _ }
    &&& f[2] == (NodeView::Symbol { ch: '*' })
}

/// The children of the marker's parenthesized group.
pub open spec fn marker_body(f: Seq<NodeView>) -> Seq<NodeView>
    recommends
        marker_head(f),
{
    match f[1] {
        NodeView::Group { delim, body } => body,
        _ => Seq::empty(),
    }
}

/// The three sibling nodes of a repetition marker around a fragment.
pub open spec fn marker_frag(mid: Seq<NodeView>) -> Seq<NodeView> {
    seq![
        (NodeView::Symbol { ch: '#' }),
        (NodeView::Group { delim: Delim::Paren, body: mid }),
        (NodeView::Symbol { ch: '*' }),
    ]
}

/// Whether a repetition marker stands anywhere in the fragment: as three
/// direct siblings at this level, or inside some group, however deep.
pub open spec fn contains_marker(f: Seq<NodeView>) -> bool
    decreases f,
{
    if f.len() == 0 {
        false
    } else {
        marker_head(f) || (match f[0] {
            NodeView::Group { delim, body } => contains_marker(body),
            _ => false,
        }) || contains_marker(f.subrange(1, f.len() as int))
    }
}

/// The scanner's result: the fragment with every marker replaced by the
/// expansion of its enclosed group, and whether any marker was found.
pub open spec fn scan_frag(f: Seq<NodeView>, var: Seq<char>, start: int, end: int) -> (Seq<
    NodeView,
>, bool)
    decreases f,
{
    if f.len() == 0 {
        (Seq::empty(), false)
    } else if marker_head(f) {
        let rest = scan_frag(f.subrange(3, f.len() as int), var, start, end);
        (expand_frag(marker_body(f), var, start, end) + rest.0, true)
    } else {
        match f[0] {
            NodeView::Group { delim, body } => {
                let inner = scan_frag(body, var, start, end);
                let rest = scan_frag(f.subrange(1, f.len() as int), var, start, end);
                (seq![(NodeView::Group { delim, body: inner.0 })] + rest.0, inner.1 || rest.1)
            },
            _ => {
                let rest = scan_frag(f.subrange(1, f.len() as int), var, start, end);
                (seq![f[0]] + rest.0, rest.1)
            },
        }
    }
}

/// Splicing a middle part into a concatenation, associated either way.
proof fn lemma_seq_assoc(a: Seq<NodeView>, b: Seq<NodeView>, c: Seq<NodeView>, d: Seq<NodeView>, e: Seq<NodeView>)
    requires
        a == b + c,
        c == d + e,
    ensures
        a == (b + d) + e,
{
    assert((b + d) + e =~= b + (d + e));
}

/// Law: the scanner's flag is exact — it reports a marker precisely when
/// one stands somewhere in the fragment, at any nesting depth.
pub proof fn lemma_scan_finds_markers(f: Seq<NodeView>, var: Seq<char>, start: int, end: int)
    ensures
        scan_frag(f, var, start, end).1 == contains_marker(f),
    decreases f,
{
    if f.len() == 0 {
    } else if marker_head(f) {
    } else {
        lemma_scan_finds_markers(f.subrange(1, f.len() as int), var, start, end);
        match f[0] {
            NodeView::Group { delim, body } => {
                lemma_scan_finds_markers(body, var, start, end);
            },
            _ => {},
        }
    }
}

/// Law: on a fragment with no marker anywhere the scanner is the
/// identity: it hands the fragment back untouched and reports nothing.
pub proof fn lemma_scan_identity(f: Seq<NodeView>, var: Seq<char>, start: int, end: int)
    requires
        !contains_marker(f),
    ensures
        scan_frag(f, var, start, end).0 == f,
        !scan_frag(f, var, start, end).1,
    decreases f,
{
    if f.len() == 0 {
        assert(scan_frag(f, var, start, end).0 =~= f);
    } else {
        assert(!marker_head(f));
        let rest = f.subrange(1, f.len() as int);
        lemma_scan_identity(rest, var, start, end);
        match f[0] {
            NodeView::Group { delim, body } => {
                lemma_scan_identity(body, var, start, end);
                assert(seq![f[0]] + rest =~= f);
            },
            _ => {
                assert(seq![f[0]] + rest =~= f);
            },
        }
    }
}

/// Law: a body holding exactly one marker expands to the prefix before
/// it, then the expansion of the enclosed fragment, then the suffix after
/// it; prefix and suffix appear exactly once, untouched.
pub proof fn lemma_single_marker(
    p: Seq<NodeView>,
    mid: Seq<NodeView>,
    s: Seq<NodeView>,
    var: Seq<char>,
    start: int,
    end: int,
)
    requires
        !contains_marker(p),
        !contains_marker(s),
    ensures
        scan_frag(p + marker_frag(mid) + s, var, start, end).0 == p + expand_frag(
            mid,
            var,
            start,
            end,
        ) + s,
        scan_frag(p + marker_frag(mid) + s, var, start, end).1,
    decreases p,
{
    let whole = p + marker_frag(mid) + s;
    if p.len() == 0 {
        assert(whole =~= marker_frag(mid) + s);
        assert(whole[1] == (NodeView::Group { delim: Delim::Paren, body: mid }));
        assert(marker_head(whole));
        assert(marker_body(whole) == mid);
        assert(whole.subrange(3, whole.len() as int) =~= s);
        lemma_scan_identity(s, var, start, end);
        assert(scan_frag(whole, var, start, end).0 =~= p + expand_frag(mid, var, start, end) + s);
    } else {
        let p1 = p.subrange(1, p.len() as int);
        let tail = p1 + marker_frag(mid) + s;
        assert(whole[0] == p[0]);
        assert(whole.len() == p.len() + 3 + s.len());
        // no marker starts at the first node: its window would lie in the
        // prefix, or cross into the marker's own `#`, which no window fits
        if marker_head(whole) {
            if p.len() >= 3 {
                assert(whole[1] == p[1]);
                assert(whole[2] == p[2]);
                assert(marker_head(p));
                assert(false);
            } else if p.len() == 2 {
                assert(whole[2] == marker_frag(mid)[0]);
                assert(false);
            } else {
                assert(whole[1] == marker_frag(mid)[0]);
                assert(false);
            }
        }
        lemma_single_marker(p1, mid, s, var, start, end);
        assert(whole.subrange(1, whole.len() as int) =~= tail);
        match p[0] {
            NodeView::Group { delim, body } => {
                lemma_scan_identity(body, var, start, end);
                assert(scan_frag(whole, var, start, end).0 == seq![p[0]] + scan_frag(
                    tail,
                    var,
                    start,
                    end,
                ).0);
                assert(seq![p[0]] + (p1 + expand_frag(mid, var, start, end) + s) =~= p
                    + expand_frag(mid, var, start, end) + s);
            },
            _ => {
                assert(seq![p[0]] + (p1 + expand_frag(mid, var, start, end) + s) =~= p
                    + expand_frag(mid, var, start, end) + s);
            },
        }
    }
}

/// Whether a node is a parenthesized group.
fn is_paren_group(n: &Node) -> (r: bool)
    ensures
        r == (view_node(*n) matches NodeView::Group { delim: Delim::Paren, body: _ }),
{
    match n {
        Node::Group(Delim::Paren, _) => true,
        _ => false,
    }
}

/// Scans a fragment for repetition markers, replacing each by the
/// expansion of its enclosed group, and reports whether any was found, as
/// the scan of its model prescribes.
pub fn scan_fragment(f: &Vec<Node>, var: &Vec<char>, start: u64, end: u64) -> (r: (Vec<Node>, bool))
    ensures
        view_frag(r.0@) == scan_frag(view_frag(f@), var@, start as int, end as int).0,
        r.1 == scan_frag(view_frag(f@), var@, start as int, end as int).1,
    decreases f@,
{
    let ghost fv = view_frag(f@);
    let ghost w = scan_frag(fv, var@, start as int, end as int);
    let mut r: Vec<Node> = Vec::new();
    let mut found: bool = false;
    let mut i: usize = 0;
    proof {
        lemma_view_frag(f@);
        assert(fv.subrange(0, fv.len() as int) =~= fv);
        assert(view_frag(r@) + w.0 =~= w.0);
    }
    while i < f.len()
        invariant
            i <= f@.len(),
            fv == view_frag(f@),
            fv.len() == f@.len(),
            w == scan_frag(fv, var@, start as int, end as int),
            w.0 == view_frag(r@) + scan_frag(
                fv.subrange(i as int, fv.len() as int),
                var@,
                start as int,
                end as int,
            ).0,
            w.1 == (found || scan_frag(
                fv.subrange(i as int, fv.len() as int),
                var@,
                start as int,
                end as int,
            ).1),
        decreases f@.len() - i,
    {
        proof {
            lemma_view_frag(f@);
        }
        let ghost s = fv.subrange(i as int, fv.len() as int);
        let ghost r0 = r@;
        if f.len() - i >= 3 && is_symbol(&f[i], '#') && is_paren_group(&f[i + 1]) && is_symbol(
            &f[i + 2],
            '*',
        ) {
            proof {
                assert(s[0] == fv[i as int]);
                assert(s[1] == fv[i as int + 1]);
                assert(s[2] == fv[i as int + 2]);
                assert(marker_head(s));
            }
            match &f[i + 1] {
                Node::Group(_, ch) => {
                    let mut piece = expand_fragment(ch, var, start, end);
                    let ghost p0 = piece@;
                    r.append(&mut piece);
                    found = true;
                    proof {
                        assert(marker_body(s) == view_frag(ch@));
                        assert(s.subrange(3, s.len() as int) =~= fv.subrange(
                            i as int + 3,
                            fv.len() as int,
                        ));
                        lemma_view_frag_concat(r0, p0);
                        lemma_seq_assoc(w.0, view_frag(r0), scan_frag(s, var@, start as int,
                            end as int).0, view_frag(p0), scan_frag(fv.subrange(i as int + 3,
                            fv.len() as int), var@, start as int, end as int).0);
                    }
                    i = i + 3;
                },
                _ => {
                    proof {
                        assert(false);
                    }
                },
            }
        } else {
            proof {
                assert(s[0] == fv[i as int]);
                assert(!marker_head(s));
            }
            match &f[i] {
                Node::Group(d, ch) => {
                    proof {
                        assert(f@[i as int] == Node::Group(*d, *ch));
                        assert(decreases_to!(f@ => ch@));
                    }
                    let res = scan_fragment(ch, var, start, end);
                    let node = Node::Group(*d, res.0);
                    let ghost v = view_node(node);
                    found = found || res.1;
                    proof {
                        assert(s[0] == (NodeView::Group { delim: *d, body: view_frag(ch@) }));
                        assert(s.subrange(1, s.len() as int) =~= fv.subrange(
                            i as int + 1,
                            fv.len() as int,
                        ));
                        assert(scan_frag(s, var@, start as int, end as int).0 == seq![v]
                            + scan_frag(fv.subrange(i as int + 1, fv.len() as int), var@,
                            start as int, end as int).0);
                    }
                    let ghost gn = node;
                    r.push(node);
                    proof {
                        lemma_view_frag_push(r0, gn);
                        assert(view_frag(r@) =~= view_frag(r0) + seq![v]);
                        lemma_seq_assoc(w.0, view_frag(r0), scan_frag(s, var@, start as int,
                            end as int).0, seq![v], scan_frag(fv.subrange(i as int + 1,
                            fv.len() as int), var@, start as int, end as int).0);
                    }
                    i = i + 1;
                },
                other => {
                    let node = clone_node(other);
                    let ghost v = view_node(node);
                    proof {
                        assert(v == s[0]);
                        assert(s.subrange(1, s.len() as int) =~= fv.subrange(
                            i as int + 1,
                            fv.len() as int,
                        ));
                        assert(scan_frag(s, var@, start as int, end as int).0 == seq![v]
                            + scan_frag(fv.subrange(i as int + 1, fv.len() as int), var@,
                            start as int, end as int).0);
                    }
                    let ghost gn = node;
                    r.push(node);
                    proof {
                        lemma_view_frag_push(r0, gn);
                        assert(view_frag(r@) =~= view_frag(r0) + seq![v]);
                        lemma_seq_assoc(w.0, view_frag(r0), scan_frag(s, var@, start as int,
                            end as int).0, seq![v], scan_frag(fv.subrange(i as int + 1,
                            fv.len() as int), var@, start as int, end as int).0);
                    }
                    i = i + 1;
                },
            }
        }
    }
    proof {
        assert(fv.subrange(f@.len() as int, fv.len() as int) =~= Seq::<NodeView>::empty());
        assert(view_frag(r@) + Seq::<NodeView>::empty() =~= view_frag(r@));
    }
    (r, found)
}

} // verus!
