use seq_expander::expand_invocation;
use seq_expander::tree::{Delim, Node};

fn chars(s: &str) -> Vec<char> {
    s.chars().collect()
}

fn ident(s: &str) -> Node {
    Node::Ident(chars(s))
}

fn lit(s: &str) -> Node {
    Node::Literal(chars(s))
}

fn sym(c: char) -> Node {
    Node::Symbol(c)
}

fn group(d: Delim, ns: Vec<Node>) -> Node {
    Node::Group(d, ns)
}

fn invocation(var: &str, start: &str, inclusive: bool, end: &str, body: Vec<Node>) -> Vec<Node> {
    let mut v = vec![ident(var), ident("in"), lit(start), sym('.'), sym('.')];
    if inclusive {
        v.push(sym('='));
    }
    v.push(lit(end));
    v.push(group(Delim::Brace, body));
    v
}

#[test]
fn whole_body_three_times() {
    // n in 0..3 { f(n); }  =>  f(0); f(1); f(2);
    let body = vec![ident("f"), group(Delim::Paren, vec![ident("n")]), sym(';')];
    let out = expand_invocation(invocation("n", "0", false, "3", body)).unwrap();
    let expected = vec![
        ident("f"),
        group(Delim::Paren, vec![lit("0")]),
        sym(';'),
        ident("f"),
        group(Delim::Paren, vec![lit("1")]),
        sym(';'),
        ident("f"),
        group(Delim::Paren, vec![lit("2")]),
        sym(';'),
    ];
    assert_eq!(out, expected);
}

#[test]
fn inclusive_range_with_fusion() {
    // n in 1..=2 { const X~n: u8 = n; }  =>  const X1: u8 = 1; const X2: u8 = 2;
    let body = vec![
        ident("const"),
        ident("X"),
        sym('~'),
        ident("n"),
        sym(':'),
        ident("u8"),
        sym('='),
        ident("n"),
        sym(';'),
    ];
    let out = expand_invocation(invocation("n", "1", true, "2", body)).unwrap();
    let expected = vec![
        ident("const"),
        ident("X1"),
        sym(':'),
        ident("u8"),
        sym('='),
        lit("1"),
        sym(';'),
        ident("const"),
        ident("X2"),
        sym(':'),
        ident("u8"),
        sym('='),
        lit("2"),
        sym(';'),
    ];
    assert_eq!(out, expected);
}

#[test]
fn marked_section_keeps_prefix_and_suffix_once() {
    // n in 0..2 { prefix; #( item(n); )* suffix; }
    //   =>  prefix; item(0); item(1); suffix;
    let body = vec![
        ident("prefix"),
        sym(';'),
        sym('#'),
        group(
            Delim::Paren,
            vec![ident("item"), group(Delim::Paren, vec![ident("n")]), sym(';')],
        ),
        sym('*'),
        ident("suffix"),
        sym(';'),
    ];
    let out = expand_invocation(invocation("n", "0", false, "2", body)).unwrap();
    let expected = vec![
        ident("prefix"),
        sym(';'),
        ident("item"),
        group(Delim::Paren, vec![lit("0")]),
        sym(';'),
        ident("item"),
        group(Delim::Paren, vec![lit("1")]),
        sym(';'),
        ident("suffix"),
        sym(';'),
    ];
    assert_eq!(out, expected);
}

#[test]
fn empty_range_yields_nothing() {
    // n in 5..5 { body(n); }  =>  (nothing)
    let body = vec![ident("body"), group(Delim::Paren, vec![ident("n")]), sym(';')];
    let out = expand_invocation(invocation("n", "5", false, "5", body)).unwrap();
    assert_eq!(out, Vec::<Node>::new());
}

#[test]
fn empty_range_yields_nothing_with_marker() {
    // n in 5..5 { #( body(n); )* }  =>  (nothing)
    let body = vec![
        sym('#'),
        group(
            Delim::Paren,
            vec![ident("body"), group(Delim::Paren, vec![ident("n")]), sym(';')],
        ),
        sym('*'),
    ];
    let out = expand_invocation(invocation("n", "5", false, "5", body)).unwrap();
    assert_eq!(out, Vec::<Node>::new());
}

#[test]
fn fusion_never_leaves_the_tilde() {
    // N in 3..5 { ident~N }  =>  ident3 ident4
    let body = vec![ident("ident"), sym('~'), ident("N")];
    let out = expand_invocation(invocation("N", "3", false, "5", body)).unwrap();
    assert_eq!(out, vec![ident("ident3"), ident("ident4")]);
}

#[test]
fn marker_found_at_arbitrary_nesting_depth() {
    // n in 0..2 { a; [ { #( y(n) )* } ] }
    //   =>  a; [ { y(0) y(1) } ]
    let marker = vec![
        sym('#'),
        group(Delim::Paren, vec![ident("y"), group(Delim::Paren, vec![ident("n")])]),
        sym('*'),
    ];
    let body = vec![
        ident("a"),
        sym(';'),
        group(Delim::Bracket, vec![group(Delim::Brace, marker)]),
    ];
    let out = expand_invocation(invocation("n", "0", false, "2", body)).unwrap();
    let expected = vec![
        ident("a"),
        sym(';'),
        group(
            Delim::Bracket,
            vec![group(
                Delim::Brace,
                vec![
                    ident("y"),
                    group(Delim::Paren, vec![lit("0")]),
                    ident("y"),
                    group(Delim::Paren, vec![lit("1")]),
                ],
            )],
        ),
    ];
    assert_eq!(out, expected);
}

#[test]
fn tokens_without_the_variable_pass_through_each_iteration() {
    // n in 0..3 { foo; }  =>  foo; foo; foo;
    let body = vec![ident("foo"), sym(';')];
    let out = expand_invocation(invocation("n", "0", false, "3", body)).unwrap();
    let expected = vec![ident("foo"), sym(';'), ident("foo"), sym(';'), ident("foo"), sym(';')];
    assert_eq!(out, expected);
}

#[test]
fn variable_followed_by_tilde_and_variable_takes_plain_substitution() {
    // the fusion anchor must be an identifier other than the variable:
    // n in 7..8 { n ~ n }  =>  7 ~ 7
    let body = vec![ident("n"), sym('~'), ident("n")];
    let out = expand_invocation(invocation("n", "7", false, "8", body)).unwrap();
    assert_eq!(out, vec![lit("7"), sym('~'), lit("7")]);
}

#[test]
fn incomplete_fusion_window_is_copied() {
    // n in 2..3 { x ~ }  =>  x ~
    let body = vec![ident("x"), sym('~')];
    let out = expand_invocation(invocation("n", "2", false, "3", body)).unwrap();
    assert_eq!(out, vec![ident("x"), sym('~')]);
}

#[test]
fn fusion_window_ending_the_fragment_fuses() {
    // n in 9..10 { x ~ n }  =>  x9
    let body = vec![ident("x"), sym('~'), ident("n")];
    let out = expand_invocation(invocation("n", "9", false, "10", body)).unwrap();
    assert_eq!(out, vec![ident("x9")]);
}

#[test]
fn marker_parts_split_across_groups_do_not_match() {
    // the three marker nodes must be direct siblings: a `#` inside one
    // group followed by `( a )` and `*` as siblings is no marker, so the
    // whole body is repeated
    let body = || {
        vec![
            group(Delim::Paren, vec![sym('#')]),
            group(Delim::Paren, vec![ident("a")]),
            sym('*'),
        ]
    };
    let out = expand_invocation(invocation("n", "0", false, "2", body())).unwrap();
    let mut expected = body();
    expected.extend(body());
    assert_eq!(out, expected);
}

#[test]
fn substitution_reaches_into_groups() {
    // n in 0..1 { { n } (k~n) }  =>  { 0 } (k0)
    let body = vec![
        group(Delim::Brace, vec![ident("n")]),
        group(Delim::Paren, vec![ident("k"), sym('~'), ident("n")]),
    ];
    let out = expand_invocation(invocation("n", "0", false, "1", body)).unwrap();
    let expected = vec![
        group(Delim::Brace, vec![lit("0")]),
        group(Delim::Paren, vec![ident("k0")]),
    ];
    assert_eq!(out, expected);
}

#[test]
fn two_sibling_markers_each_expand() {
    // n in 1..3 { #( a~n )* and #( b(n) )* }  =>  a1 a2 and b(1) b(2)
    let body = vec![
        sym('#'),
        group(Delim::Paren, vec![ident("a"), sym('~'), ident("n")]),
        sym('*'),
        ident("and"),
        sym('#'),
        group(Delim::Paren, vec![ident("b"), group(Delim::Paren, vec![ident("n")])]),
        sym('*'),
    ];
    let out = expand_invocation(invocation("n", "1", false, "3", body)).unwrap();
    let expected = vec![
        ident("a1"),
        ident("a2"),
        ident("and"),
        ident("b"),
        group(Delim::Paren, vec![lit("1")]),
        ident("b"),
        group(Delim::Paren, vec![lit("2")]),
    ];
    assert_eq!(out, expected);
}

#[test]
fn marker_inside_expansion_output_is_not_rescanned() {
    // the marked section itself contains the marker tokens `#` and `*`
    // around a further group; the inner triple is substituted literally,
    // never expanded a second time
    let inner = vec![sym('#'), group(Delim::Paren, vec![ident("n")]), sym('*')];
    let body = vec![sym('#'), group(Delim::Paren, inner), sym('*')];
    let out = expand_invocation(invocation("n", "4", false, "6", body)).unwrap();
    let expected = vec![
        sym('#'),
        group(Delim::Paren, vec![lit("4")]),
        sym('*'),
        sym('#'),
        group(Delim::Paren, vec![lit("5")]),
        sym('*'),
    ];
    assert_eq!(out, expected);
}
