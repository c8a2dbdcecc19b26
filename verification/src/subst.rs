//! The substitutor: rewrites one fragment for one concrete value of the
//! loop variable.  A bare occurrence of the loop variable becomes an
//! unsuffixed decimal literal; an identifier immediately followed by the
//! fusion symbol `~` and the loop variable fuses into one new identifier;
//! groups are rewritten recursively; everything else is copied unchanged.

use vstd::prelude::*;
use crate::decimal::{dec_rep, to_decimal};
use crate::tree::{
    Node, NodeView, chars_eq, clone_chars, clone_node, is_ident_text, is_symbol, lemma_view_frag,
    lemma_view_frag_push, view_frag, view_node,
};

verus! {

/// Whether a fragment begins with a fusion window: an identifier other
/// than the loop variable, the symbol `~`, then the loop variable.
pub open spec fn fusion_window(f: Seq<NodeView>, var: Seq<char>) -> bool {
    &&& f.len() >= 3
    &&& f[0] matches NodeView::Ident { text } && text != var
    &&& f[1] == (NodeView::Symbol { ch: '~' })
    &&& f[2] == (NodeView::Ident { text: var })
}

/// The substitution of one fragment for one value `n` of the loop
/// variable, applied left to right with a three-node lookahead for the
/// fusion window.
pub open spec fn subst_frag(f: Seq<NodeView>, var: Seq<char>, n: nat) -> Seq<NodeView>
    decreases f,
{
    if f.len() == 0 {
        Seq::empty()
    } else {
        match f[0] {
            NodeView::Ident { text } => if text == var {
                seq![(NodeView::Literal { text: dec_rep(n) })] + subst_frag(
                    f.subrange(1, f.len() as int),
                    var,
                    n,
                )
            } else if fusion_window(f, var) {
                seq![(NodeView::Ident { text: text + dec_rep(n) })] + subst_frag(
                    f.subrange(3, f.len() as int),
                    var,
                    n,
                )
            } else {
                seq![f[0]] + subst_frag(f.subrange(1, f.len() as int), var, n)
            },
            NodeView::Group { delim, body } => seq![
                (NodeView::Group { delim, body: subst_frag(body, var, n) }),
            ] + subst_frag(f.subrange(1, f.len() as int), var, n),
            _ => seq![f[0]] + subst_frag(f.subrange(1, f.len() as int), var, n),
        }
    }
}

/// Whether the loop variable occurs as an identifier anywhere in the
/// fragment, at any nesting depth.
pub open spec fn mentions_var(f: Seq<NodeView>, var: Seq<char>) -> bool
    decreases f,
{
    if f.len() == 0 {
        false
    } else {
        let rest = mentions_var(f.subrange(1, f.len() as int), var);
        match f[0] {
            NodeView::Ident { text } => text == var || rest,
            NodeView::Group { delim, body } => mentions_var(body, var) || rest,
            _ => rest,
        }
    }
}

/// One step of the loop in `substitute_fragment`: consuming `k` input
/// nodes that substitute to the single node `v` keeps the running output
/// a prefix of the whole substitution.
proof fn lemma_subst_step(
    fv: Seq<NodeView>,
    var: Seq<char>,
    n: nat,
    i: int,
    k: int,
    v: NodeView,
    r0: Seq<NodeView>,
    r1: Seq<NodeView>,
)
    requires
        0 <= i,
        1 <= k,
        i + k <= fv.len(),
        subst_frag(fv, var, n) == r0 + subst_frag(fv.subrange(i, fv.len() as int), var, n),
        subst_frag(fv.subrange(i, fv.len() as int), var, n) == seq![v] + subst_frag(
            fv.subrange(i + k, fv.len() as int),
            var,
            n,
        ),
        r1 == r0.push(v),
    ensures
        subst_frag(fv, var, n) == r1 + subst_frag(fv.subrange(i + k, fv.len() as int), var, n),
{
    assert(r0.push(v) + subst_frag(fv.subrange(i + k, fv.len() as int), var, n) =~= r0 + (seq![v]
        + subst_frag(fv.subrange(i + k, fv.len() as int), var, n)));
}

/// Rewrites a fragment for one value of the loop variable, as the
/// substitution of its model prescribes.
pub fn substitute_fragment(f: &Vec<Node>, var: &Vec<char>, n: u64) -> (r: Vec<Node>)
    ensures
        view_frag(r@) == subst_frag(view_frag(f@), var@, n as nat),
    decreases f@,
{
    let ghost fv = view_frag(f@);
    let mut r: Vec<Node> = Vec::new();
    let mut i: usize = 0;
    proof {
        lemma_view_frag(f@);
        assert(fv.subrange(0, fv.len() as int) =~= fv);
        assert(view_frag(r@) + subst_frag(fv, var@, n as nat) =~= subst_frag(fv, var@, n as nat));
    }
    while i < f.len()
        invariant
            i <= f@.len(),
            fv == view_frag(f@),
            fv.len() == f@.len(),
            subst_frag(fv, var@, n as nat) == view_frag(r@) + subst_frag(
                fv.subrange(i as int, fv.len() as int),
                var@,
                n as nat,
            ),
        decreases f@.len() - i,
    {
        proof {
            lemma_view_frag(f@);
        }
        let ghost s = fv.subrange(i as int, fv.len() as int);
        let ghost r0 = r@;
        match &f[i] {
            Node::Ident(t) => {
                if chars_eq(t, var) {
                    let node = Node::Literal(to_decimal(n));
                    let ghost v = view_node(node);
                    proof {
                        assert(s.subrange(1, s.len() as int) =~= fv.subrange(
                            i as int + 1,
                            fv.len() as int,
                        ));
                        assert(subst_frag(s, var@, n as nat) == seq![v] + subst_frag(
                            fv.subrange(i as int + 1, fv.len() as int),
                            var@,
                            n as nat,
                        ));
                    }
                    let ghost gn = node;
                    r.push(node);
                    proof {
                        lemma_view_frag_push(r0, gn);
                        assert(view_frag(r@) == view_frag(r0).push(v));
                        lemma_subst_step(fv, var@, n as nat, i as int, 1, v, view_frag(r0),
                            view_frag(r@));
                    }
                    i = i + 1;
                } else if f.len() - i >= 3 && is_symbol(&f[i + 1], '~') && is_ident_text(
                    &f[i + 2],
                    var,
                ) {
                    let mut text = clone_chars(t);
                    let mut digits = to_decimal(n);
                    text.append(&mut digits);
                    let node = Node::Ident(text);
                    let ghost v = view_node(node);
                    proof {
                        assert(s[1] == fv[i as int + 1]);
                        assert(s[2] == fv[i as int + 2]);
                        assert(fusion_window(s, var@));
                        assert(s.subrange(3, s.len() as int) =~= fv.subrange(
                            i as int + 3,
                            fv.len() as int,
                        ));
                        assert(subst_frag(s, var@, n as nat) == seq![v] + subst_frag(
                            fv.subrange(i as int + 3, fv.len() as int),
                            var@,
                            n as nat,
                        ));
                    }
                    let ghost gn = node;
                    r.push(node);
                    proof {
                        lemma_view_frag_push(r0, gn);
                        assert(view_frag(r@) == view_frag(r0).push(v));
                        lemma_subst_step(fv, var@, n as nat, i as int, 3, v, view_frag(r0),
                            view_frag(r@));
                    }
                    i = i + 3;
                } else {
                    let node = Node::Ident(clone_chars(t));
                    let ghost v = view_node(node);
                    proof {
                        assert(!fusion_window(s, var@));
                        assert(v == s[0]);
                        assert(s.subrange(1, s.len() as int) =~= fv.subrange(
                            i as int + 1,
                            fv.len() as int,
                        ));
                        assert(subst_frag(s, var@, n as nat) == seq![v] + subst_frag(
                            fv.subrange(i as int + 1, fv.len() as int),
                            var@,
                            n as nat,
                        ));
                    }
                    let ghost gn = node;
                    r.push(node);
                    proof {
                        lemma_view_frag_push(r0, gn);
                        assert(view_frag(r@) == view_frag(r0).push(v));
                        lemma_subst_step(fv, var@, n as nat, i as int, 1, v, view_frag(r0),
                            view_frag(r@));
                    }
                    i = i + 1;
                }
            },
            Node::Group(d, ch) => {
                proof {
                    assert(f@[i as int] == Node::Group(*d, *ch));
                    assert(decreases_to!(f@ => ch@));
                }
                let sub = substitute_fragment(ch, var, n);
                let node = Node::Group(*d, sub);
                let ghost v = view_node(node);
                proof {
                    assert(s[0] == (NodeView::Group { delim: *d, body: view_frag(ch@) }));
                    assert(v == (NodeView::Group {
                        delim: *d,
                        body: subst_frag(view_frag(ch@), var@, n as nat),
                    }));
                    assert(s.subrange(1, s.len() as int) =~= fv.subrange(
                        i as int + 1,
                        fv.len() as int,
                    ));
                    assert(subst_frag(s, var@, n as nat) == seq![v] + subst_frag(
                        fv.subrange(i as int + 1, fv.len() as int),
                        var@,
                        n as nat,
                    ));
                }
                let ghost gn = node;
                r.push(node);
                proof {
                    lemma_view_frag_push(r0, gn);
                    assert(view_frag(r@) == view_frag(r0).push(v));
                    lemma_subst_step(fv, var@, n as nat, i as int, 1, v, view_frag(r0),
                        view_frag(r@));
                }
                i = i + 1;
            },
            other => {
                let node = clone_node(other);
                let ghost v = view_node(node);
                proof {
                    assert(v == s[0]);
                    assert(s.subrange(1, s.len() as int) =~= fv.subrange(
                        i as int + 1,
                        fv.len() as int,
                    ));
                    assert(subst_frag(s, var@, n as nat) == seq![v] + subst_frag(
                        fv.subrange(i as int + 1, fv.len() as int),
                        var@,
                        n as nat,
                    ));
                }
                let ghost gn = node;
                r.push(node);
                proof {
                    lemma_view_frag_push(r0, gn);
                    assert(view_frag(r@) == view_frag(r0).push(v));
                    lemma_subst_step(fv, var@, n as nat, i as int, 1, v, view_frag(r0),
                        view_frag(r@));
                }
                i = i + 1;
            },
        }
    }
    proof {
        assert(fv.subrange(f@.len() as int, fv.len() as int) =~= Seq::<NodeView>::empty());
        assert(view_frag(r@) + Seq::<NodeView>::empty() =~= view_frag(r@));
    }
    r
}

/// Law: a token that is not the loop variable and not part of a fusion
/// window passes through substitution unchanged, for every value.  A
/// fragment in which the loop variable never occurs is returned exactly
/// as it was.
pub proof fn lemma_subst_untouched(f: Seq<NodeView>, var: Seq<char>, n: nat)
    requires
        !mentions_var(f, var),
    ensures
        subst_frag(f, var, n) == f,
    decreases f,
{
    if f.len() == 0 {
        assert(subst_frag(f, var, n) =~= f);
    } else {
        let rest = f.subrange(1, f.len() as int);
        lemma_subst_untouched(rest, var, n);
        match f[0] {
            NodeView::Ident { text } => {
                assert(text != var);
                if fusion_window(f, var) {
                    let rest2 = rest.subrange(1, rest.len() as int);
                    assert(rest2[0] == f[2]);
                    assert(mentions_var(rest2, var));
                    assert(mentions_var(rest, var));
                    assert(false);
                }
                assert(seq![f[0]] + rest =~= f);
            },
            NodeView::Group { delim, body } => {
                lemma_subst_untouched(body, var, n);
                assert(seq![f[0]] + rest =~= f);
            },
            _ => {
                assert(seq![f[0]] + rest =~= f);
            },
        }
    }
}

} // verus!
