use hasse::edge_input::{accept_edge, parse_edge, EdgeParseError, EdgeRejection};

#[test]
fn two_numbers_make_an_edge() {
    assert_eq!(parse_edge("3 4"), Ok((3, 4)));
    assert_eq!(parse_edge("  10\t0 \n"), Ok((10, 0)));
    assert_eq!(parse_edge("+3 4"), Ok((3, 4)));
    assert_eq!(parse_edge("007 8"), Ok((7, 8)));
}

#[test]
fn wrong_number_of_words() {
    assert_eq!(parse_edge(""), Err(EdgeParseError::WrongCount));
    assert_eq!(parse_edge("   "), Err(EdgeParseError::WrongCount));
    assert_eq!(parse_edge("3"), Err(EdgeParseError::WrongCount));
    assert_eq!(parse_edge("3 4 5"), Err(EdgeParseError::WrongCount));
}

#[test]
fn words_that_are_not_numbers() {
    assert_eq!(parse_edge("x 4"), Err(EdgeParseError::InvalidFirst));
    assert_eq!(parse_edge("-3 4"), Err(EdgeParseError::InvalidFirst));
    assert_eq!(parse_edge("+ 4"), Err(EdgeParseError::InvalidFirst));
    assert_eq!(parse_edge("3 y"), Err(EdgeParseError::InvalidSecond));
    assert_eq!(parse_edge("3 4.5"), Err(EdgeParseError::InvalidSecond));
    assert_eq!(parse_edge("1 \u{0663}"), Err(EdgeParseError::InvalidSecond));
}

#[test]
fn numbers_that_do_not_fit() {
    assert_eq!(parse_edge("99999999999999999999999 1"), Err(EdgeParseError::InvalidFirst));
    let max = usize::MAX.to_string();
    assert_eq!(parse_edge(&format!("{} 1", max)), Ok((usize::MAX, 1)));
}

#[test]
fn unicode_white_space_separates_words() {
    assert_eq!(parse_edge("1\u{3000}2"), Ok((1, 2)));
    assert_eq!(parse_edge("1\u{a0}2"), Ok((1, 2)));
}

#[test]
fn parse_agrees_with_std() {
    for s in ["0", "12", "+5", "-1", "", "+", "18446744073709551616", "1_0", " 1"] {
        let chars: Vec<char> = s.chars().collect();
        assert_eq!(hasse::edge_input::parse_numeral(&chars), s.parse::<usize>().ok());
    }
}

#[test]
fn accepted_edges_must_fit_the_graph() {
    assert_eq!(accept_edge("1 2", 3), Ok((1, 2)));
    assert_eq!(accept_edge("1 3", 3), Err(EdgeRejection::OutOfRange));
    assert_eq!(accept_edge("3 0", 3), Err(EdgeRejection::OutOfRange));
    assert_eq!(accept_edge("1", 3), Err(EdgeRejection::Malformed(EdgeParseError::WrongCount)));
    assert_eq!(accept_edge("a 1", 3), Err(EdgeRejection::Malformed(EdgeParseError::InvalidFirst)));
}
