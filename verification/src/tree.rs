//! The token tree: atomic tokens and delimited groups, together with the
//! mathematical model that every contract of the engine speaks about.

use vstd::prelude::*;

verus! {

/// The delimiter of a group: parentheses, braces, brackets, or no visible
/// delimiter at all.
#[derive(Clone, Copy, PartialEq, Eq, Structural, Debug)]
pub enum Delim {
    Paren,
    Brace,
    Bracket,
    Bare,
}

/// One node of a token tree: an identifier, a literal, a one-character
/// symbol, or a delimited group of child nodes.  Identifier and literal
/// text is held as its characters.
#[derive(Debug, PartialEq, Eq)]
pub enum Node {
    Ident(Vec<char>),
    Literal(Vec<char>),
    Symbol(char),
    Group(Delim, Vec<Node>),
}

/// The model of a node: the same shape over `Seq`, so that contracts can
/// state structural equalities extensionally.
#[verifier::ext_equal]
pub enum NodeView {
    Ident { text: Seq<char> },
    Literal { text: Seq<char> },
    Symbol { ch: char },
    Group { delim: Delim, body: Seq<NodeView> },
}

/// The model of one node.
pub open spec fn view_node(n: Node) -> NodeView
    decreases n,
{
    match n {
        Node::Ident(t) => NodeView::Ident { text: t@ },
        Node::Literal(t) => NodeView::Literal { text: t@ },
        Node::Symbol(c) => NodeView::Symbol { ch: c },
        Node::Group(d, ch) => NodeView::Group { delim: d, body: view_frag(ch@) },
    }
}

/// The model of a fragment: an ordered sequence of nodes.
pub open spec fn view_frag(ns: Seq<Node>) -> Seq<NodeView>
    decreases ns,
{
    if ns.len() == 0 {
        Seq::empty()
    } else {
        seq![view_node(ns[0])] + view_frag(ns.subrange(1, ns.len() as int))
    }
}

/// A fragment's model is the pointwise model of its nodes.
pub proof fn lemma_view_frag(ns: Seq<Node>)
    ensures
        view_frag(ns).len() == ns.len(),
        forall|i: int| 0 <= i < ns.len() ==> view_frag(ns)[i] == view_node(ns[i]),
    decreases ns,
{
    if ns.len() > 0 {
        lemma_view_frag(ns.subrange(1, ns.len() as int));
    }
}

/// The model of a concatenation is the concatenation of the models.
pub proof fn lemma_view_frag_concat(a: Seq<Node>, b: Seq<Node>)
    ensures
        view_frag(a + b) == view_frag(a) + view_frag(b),
{
    lemma_view_frag(a);
    lemma_view_frag(b);
    lemma_view_frag(a + b);
    assert(view_frag(a + b) =~= view_frag(a) + view_frag(b));
}

/// Appending one node appends its model.
pub proof fn lemma_view_frag_push(s: Seq<Node>, x: Node)
    ensures
        view_frag(s.push(x)) == view_frag(s).push(view_node(x)),
{
    assert(s.push(x) =~= s + seq![x]);
    lemma_view_frag_concat(s, seq![x]);
    assert(seq![x].subrange(1, 1) =~= Seq::<Node>::empty());
    assert(view_frag(Seq::<Node>::empty()) == Seq::<NodeView>::empty());
    assert(view_frag(seq![x]) =~= seq![view_node(x)]);
    assert(view_frag(s) + seq![view_node(x)] =~= view_frag(s).push(view_node(x)));
}

/// Whether two character vectors hold the same text.
pub fn chars_eq(a: &Vec<char>, b: &Vec<char>) -> (r: bool)
    ensures
        r == (a@ == b@),
{
    if a.len() != b.len() {
        return false;
    }
    let mut i: usize = 0;
    while i < a.len()
        invariant
            i <= a.len(),
            a.len() == b.len(),
            forall|j: int| 0 <= j < i ==> a@[j] == b@[j],
        decreases a.len() - i,
    {
        if a[i] != b[i] {
            return false;
        }
        i += 1;
    }
    proof {
        assert(a@ =~= b@);
    }
    true
}

/// A fresh copy of a character vector.
pub fn clone_chars(a: &Vec<char>) -> (r: Vec<char>)
    ensures
        r@ == a@,
{
    let mut r: Vec<char> = Vec::new();
    let mut i: usize = 0;
    while i < a.len()
        invariant
            i <= a.len(),
            r@.len() == i,
            forall|j: int| 0 <= j < i ==> r@[j] == a@[j],
        decreases a.len() - i,
    {
        r.push(a[i]);
        i += 1;
    }
    proof {
        assert(r@ =~= a@);
    }
    r
}

/// Whether a node is the given one-character symbol.
pub fn is_symbol(n: &Node, c: char) -> (r: bool)
    ensures
        r == (view_node(*n) == (NodeView::Symbol { ch: c })),
{
    match n {
        Node::Symbol(s) => *s == c,
        _ => false,
    }
}

/// Whether a node is an identifier with exactly the given text.
pub fn is_ident_text(n: &Node, text: &Vec<char>) -> (r: bool)
    ensures
        r == (view_node(*n) == (NodeView::Ident { text: text@ })),
{
    match n {
        Node::Ident(t) => chars_eq(t, text),
        _ => false,
    }
}

/// A fresh copy of a node, equal to the original in the model.
pub fn clone_node(n: &Node) -> (r: Node)
    ensures
        view_node(r) == view_node(*n),
    decreases *n,
{
    match n {
        Node::Ident(t) => Node::Ident(clone_chars(t)),
        Node::Literal(t) => Node::Literal(clone_chars(t)),
        Node::Symbol(c) => Node::Symbol(*c),
        Node::Group(d, ch) => Node::Group(*d, clone_frag(ch)),
    }
}

/// A fresh copy of a fragment, equal to the original in the model.
pub fn clone_frag(ns: &Vec<Node>) -> (r: Vec<Node>)
    ensures
        view_frag(r@) == view_frag(ns@),
    decreases ns@,
{
    let mut r: Vec<Node> = Vec::new();
    let mut i: usize = 0;
    while i < ns.len()
        invariant
            i <= ns@.len(),
            r@.len() == i,
            forall|j: int| 0 <= j < i ==> view_node(r@[j]) == view_node(ns@[j]),
        decreases ns@.len() - i,
    {
        let c = clone_node(&ns[i]);
        r.push(c);
        i += 1;
    }
    proof {
        lemma_view_frag(r@);
        lemma_view_frag(ns@);
        assert(view_frag(r@) =~= view_frag(ns@));
    }
    r
}

} // verus!
