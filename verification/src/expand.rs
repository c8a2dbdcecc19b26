//! The expander: concatenates, for each value of the half-open range in
//! ascending order, the substitution of the fragment for that value.  An
//! empty or inverted range yields an empty output.

use vstd::prelude::*;
use crate::subst::{subst_frag, substitute_fragment};
use crate::tree::{Node, NodeView, lemma_view_frag_concat, view_frag};

verus! {

/// The concatenation, for `n` from `start` up to but excluding `end`, of
/// the substitutions of the fragment; empty when `end <= start`.
pub open spec fn expand_frag(f: Seq<NodeView>, var: Seq<char>, start: int, end: int) -> Seq<
    NodeView,
>
    decreases end - start,
{
    if start >= end {
        Seq::empty()
    } else {
        subst_frag(f, var, start as nat) + expand_frag(f, var, start + 1, end)
    }
}

/// Extending the range by one value appends that value's substitution.
pub proof fn lemma_expand_snoc(f: Seq<NodeView>, var: Seq<char>, start: int, end: int)
    requires
        start <= end,
    ensures
        expand_frag(f, var, start, end + 1) == expand_frag(f, var, start, end) + subst_frag(
            f,
            var,
            end as nat,
        ),
    decreases end - start,
{
    if start == end {
        assert(expand_frag(f, var, start + 1, end + 1) =~= Seq::<NodeView>::empty());
        assert(expand_frag(f, var, start, end) =~= Seq::<NodeView>::empty());
        assert(subst_frag(f, var, start as nat) + Seq::<NodeView>::empty() =~= subst_frag(
            f,
            var,
            start as nat,
        ));
        assert(Seq::<NodeView>::empty() + subst_frag(f, var, end as nat) =~= subst_frag(
            f,
            var,
            end as nat,
        ));
    } else {
        lemma_expand_snoc(f, var, start + 1, end);
        assert((subst_frag(f, var, start as nat) + expand_frag(f, var, start + 1, end))
            + subst_frag(f, var, end as nat) =~= subst_frag(f, var, start as nat) + (expand_frag(
            f,
            var,
            start + 1,
            end,
        ) + subst_frag(f, var, end as nat)));
    }
}

/// Builds the expansion of a fragment over the whole range, one value at
/// a time, in ascending order.
pub fn expand_fragment(f: &Vec<Node>, var: &Vec<char>, start: u64, end: u64) -> (r: Vec<Node>)
    ensures
        view_frag(r@) == expand_frag(view_frag(f@), var@, start as int, end as int),
{
    let ghost fv = view_frag(f@);
    let mut r: Vec<Node> = Vec::new();
    if start >= end {
        proof {
            assert(view_frag(r@) =~= expand_frag(fv, var@, start as int, end as int));
        }
        return r;
    }
    let mut k: u64 = start;
    proof {
        assert(view_frag(r@) =~= expand_frag(fv, var@, start as int, start as int));
    }
    while k < end
        invariant
            start <= k <= end,
            fv == view_frag(f@),
            view_frag(r@) == expand_frag(fv, var@, start as int, k as int),
        decreases end - k,
    {
        let mut piece = substitute_fragment(f, var, k);
        let ghost r0 = r@;
        let ghost p0 = piece@;
        r.append(&mut piece);
        proof {
            lemma_view_frag_concat(r0, p0);
            lemma_expand_snoc(fv, var@, start as int, k as int);
        }
        k = k + 1;
    }
    r
}

} // verus!
