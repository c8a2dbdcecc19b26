use seq_expander::expand_invocation;
use seq_expander::header::{HeaderError, HeaderErrorKind, parse_header};
use seq_expander::tree::{Delim, Node};

fn chars(s: &str) -> Vec<char> {
    s.chars().collect()
}

fn ident(s: &str) -> Node {
    Node::Ident(chars(s))
}

fn lit(s: &str) -> Node {
    Node::Literal(chars(s))
}

fn sym(c: char) -> Node {
    Node::Symbol(c)
}

fn group(d: Delim, ns: Vec<Node>) -> Node {
    Node::Group(d, ns)
}

fn err(pos: usize, kind: HeaderErrorKind) -> HeaderError {
    HeaderError { pos, kind }
}

#[test]
fn empty_invocation_wants_a_loop_variable() {
    assert_eq!(expand_invocation(vec![]), Err(err(0, HeaderErrorKind::LoopVar)));
}

#[test]
fn leading_literal_is_no_loop_variable() {
    let input = vec![lit("1"), ident("in"), lit("0"), sym('.'), sym('.'), lit("3")];
    assert_eq!(expand_invocation(input), Err(err(0, HeaderErrorKind::LoopVar)));
}

#[test]
fn wrong_keyword_is_reported_at_its_token() {
    let input = vec![ident("n"), ident("of"), lit("0"), sym('.'), sym('.'), lit("3")];
    assert_eq!(expand_invocation(input), Err(err(1, HeaderErrorKind::InKeyword)));
}

#[test]
fn missing_keyword_is_reported_past_the_end() {
    let input = vec![ident("n")];
    assert_eq!(expand_invocation(input), Err(err(1, HeaderErrorKind::InKeyword)));
}

#[test]
fn start_bound_must_be_an_integer_literal() {
    let input = vec![ident("n"), ident("in"), ident("x"), sym('.'), sym('.'), lit("3")];
    assert_eq!(expand_invocation(input), Err(err(2, HeaderErrorKind::StartBound)));
}

#[test]
fn start_bound_with_stray_characters_is_rejected() {
    let input = vec![ident("n"), ident("in"), lit("12x"), sym('.'), sym('.'), lit("3")];
    assert_eq!(expand_invocation(input), Err(err(2, HeaderErrorKind::StartBound)));
}

#[test]
fn start_bound_too_large_for_a_machine_word_is_rejected() {
    // one past the largest 64-bit value
    let input = vec![
        ident("n"),
        ident("in"),
        lit("18446744073709551616"),
        sym('.'),
        sym('.'),
        lit("3"),
    ];
    assert_eq!(expand_invocation(input), Err(err(2, HeaderErrorKind::StartBound)));
}

#[test]
fn missing_first_dot_is_reported() {
    let input = vec![ident("n"), ident("in"), lit("0"), sym(','), lit("3")];
    assert_eq!(expand_invocation(input), Err(err(3, HeaderErrorKind::RangeDots)));
}

#[test]
fn missing_second_dot_is_reported() {
    let input = vec![ident("n"), ident("in"), lit("0"), sym('.'), sym(';'), lit("3")];
    assert_eq!(expand_invocation(input), Err(err(4, HeaderErrorKind::RangeDots)));
}

#[test]
fn missing_end_bound_is_reported_past_the_end() {
    let input = vec![ident("n"), ident("in"), lit("0"), sym('.'), sym('.')];
    assert_eq!(expand_invocation(input), Err(err(5, HeaderErrorKind::EndBound)));
}

#[test]
fn inclusive_end_bound_at_the_machine_limit_is_rejected() {
    // 18446744073709551615 is the largest 64-bit value: an inclusive
    // range would need one more
    let input = vec![
        ident("n"),
        ident("in"),
        lit("0"),
        sym('.'),
        sym('.'),
        sym('='),
        lit("18446744073709551615"),
        group(Delim::Brace, vec![]),
    ];
    assert_eq!(expand_invocation(input), Err(err(6, HeaderErrorKind::EndBound)));
}

#[test]
fn exclusive_end_bound_at_the_machine_limit_is_accepted() {
    let input = vec![
        ident("n"),
        ident("in"),
        lit("18446744073709551615"),
        sym('.'),
        sym('.'),
        lit("18446744073709551615"),
        group(Delim::Brace, vec![ident("x")]),
    ];
    assert_eq!(expand_invocation(input), Ok(vec![]));
}

#[test]
fn body_must_be_brace_delimited() {
    let input = vec![
        ident("n"),
        ident("in"),
        lit("0"),
        sym('.'),
        sym('.'),
        lit("2"),
        group(Delim::Paren, vec![ident("x")]),
    ];
    assert_eq!(expand_invocation(input), Err(err(6, HeaderErrorKind::Body)));
}

#[test]
fn missing_body_is_reported_past_the_end() {
    let input = vec![ident("n"), ident("in"), lit("0"), sym('.'), sym('.'), lit("2")];
    assert_eq!(expand_invocation(input), Err(err(6, HeaderErrorKind::Body)));
}

#[test]
fn tokens_after_the_body_are_rejected() {
    let input = vec![
        ident("n"),
        ident("in"),
        lit("0"),
        sym('.'),
        sym('.'),
        lit("2"),
        group(Delim::Brace, vec![ident("x")]),
        sym(';'),
    ];
    assert_eq!(expand_invocation(input), Err(err(7, HeaderErrorKind::TrailingTokens)));
}

#[test]
fn parse_header_reads_the_inclusive_range() {
    let input = vec![
        ident("i"),
        ident("in"),
        lit("4"),
        sym('.'),
        sym('.'),
        sym('='),
        lit("7"),
        group(Delim::Brace, vec![ident("i")]),
    ];
    let (ls, body) = parse_header(input).unwrap();
    assert_eq!(ls.var, chars("i"));
    assert_eq!(ls.start, 4);
    assert_eq!(ls.end, 8);
    assert_eq!(body, vec![ident("i")]);
}

#[test]
fn parse_header_reads_the_exclusive_range() {
    let input = vec![
        ident("i"),
        ident("in"),
        lit("4"),
        sym('.'),
        sym('.'),
        lit("7"),
        group(Delim::Brace, vec![]),
    ];
    let (ls, body) = parse_header(input).unwrap();
    assert_eq!(ls.var, chars("i"));
    assert_eq!(ls.start, 4);
    assert_eq!(ls.end, 7);
    assert_eq!(body, Vec::<Node>::new());
}

#[test]
fn inverted_range_is_accepted_and_empty() {
    let input = vec![
        ident("n"),
        ident("in"),
        lit("9"),
        sym('.'),
        sym('.'),
        lit("2"),
        group(Delim::Brace, vec![ident("x"), ident("n")]),
    ];
    assert_eq!(expand_invocation(input), Ok(vec![]));
}
