use xensieve::parser::ParseError;
use xensieve::Residual;
use xensieve::Sieve;

#[test]
fn test_parse_single_literal() {
    let s = Sieve::new("3@1").unwrap();
    assert_eq!(s.to_string(), "Sieve{3@1}");
}

#[test]
fn test_parse_normalizes_literal() {
    assert_eq!(Sieve::new("3@4").unwrap().to_string(), "Sieve{3@1}");
    assert_eq!(Sieve::new("5@5").unwrap().to_string(), "Sieve{5@0}");
    assert_eq!(Sieve::new("0@5").unwrap().to_string(), "Sieve{0@0}");
}

#[test]
fn test_parse_union_membership_window() {
    let s = Sieve::new("3@0|5@1").unwrap();
    let mut members = Vec::new();
    for v in 0..15 {
        if s.contains(v) {
            members.push(v);
        }
    }
    assert_eq!(members, vec![0, 1, 3, 6, 9, 11, 12]);
}

#[test]
fn test_parse_whitespace() {
    let s = Sieve::new("3@0 & 5@0").unwrap();
    assert_eq!(s.contains(15), true);
    assert_eq!(s.contains(16), false);
    assert_eq!(s.contains(30), true);
}

#[test]
fn test_parse_precedence_and_over_or() {
    // `&` binds tighter than `|`: 12@0 alone would miss 3 and 5.
    let s = Sieve::new("3@0&4@0|5@0").unwrap();
    assert_eq!(s.to_string(), "Sieve{3@0&4@0|5@0}");
    assert_eq!(s.contains(12), true);
    assert_eq!(s.contains(5), true);
    assert_eq!(s.contains(3), false);
    assert_eq!(s.contains(4), false);
}

#[test]
fn test_parse_precedence_not_tightest() {
    // `!` applies to the literal, not to the whole intersection.
    let s = Sieve::new("!3@0&2@0").unwrap();
    assert_eq!(s.contains(2), true);
    assert_eq!(s.contains(6), false);
    assert_eq!(s.contains(4), true);
    assert_eq!(s.contains(3), false);
}

#[test]
fn test_parse_parentheses() {
    let grouped = Sieve::new("!(3@0|5@0)").unwrap();
    for v in 0..30 {
        let inner = v % 3 == 0 || v % 5 == 0;
        assert_eq!(grouped.contains(v), !inner);
    }
}

#[test]
fn test_parse_xor() {
    let s = Sieve::new("2@0^3@0").unwrap();
    assert_eq!(s.contains(0), false);
    assert_eq!(s.contains(2), true);
    assert_eq!(s.contains(3), true);
    assert_eq!(s.contains(6), false);
}

#[test]
fn test_parse_left_associative() {
    // 1@0^1@0^1@0 groups as (1@0^1@0)^1@0 == everything.
    let s = Sieve::new("1@0^1@0^1@0").unwrap();
    assert_eq!(s.contains(0), true);
    assert_eq!(s.contains(7), true);
}

#[test]
fn test_parse_error_bad_token() {
    assert_eq!(Sieve::new("3@0 % 5@0").unwrap_err(), ParseError::BadToken);
    assert_eq!(Sieve::new("@3").unwrap_err(), ParseError::BadToken);
}

#[test]
fn test_parse_error_bad_literal() {
    assert_eq!(Sieve::new("3@").unwrap_err(), ParseError::BadLiteral);
    assert_eq!(Sieve::new("12").unwrap_err(), ParseError::BadLiteral);
    assert_eq!(Sieve::new("3@@4").unwrap_err(), ParseError::BadLiteral);
    assert_eq!(
        Sieve::new("4398046511104@0").unwrap_err(),
        ParseError::BadLiteral
    );
}

#[test]
fn test_parse_error_missing_operand() {
    assert_eq!(Sieve::new("3@0&").unwrap_err(), ParseError::MissingOperand);
    assert_eq!(Sieve::new("&3@0").unwrap_err(), ParseError::MissingOperand);
    assert_eq!(Sieve::new("!").unwrap_err(), ParseError::MissingOperand);
}

#[test]
fn test_parse_error_unmatched_parenthesis() {
    assert_eq!(
        Sieve::new("(3@0").unwrap_err(),
        ParseError::UnmatchedParenthesis
    );
    assert_eq!(
        Sieve::new("3@0)").unwrap_err(),
        ParseError::UnmatchedParenthesis
    );
}

#[test]
fn test_parse_error_incomplete_expression() {
    assert_eq!(Sieve::new("").unwrap_err(), ParseError::IncompleteExpression);
    assert_eq!(
        Sieve::new("3@0 5@0").unwrap_err(),
        ParseError::IncompleteExpression
    );
}

#[test]
fn test_display_parse_round_trip() {
    for (m, s) in [(3i128, 0i128), (5, 8), (0, 2), (12, 7), (999_999_999_999, 123)] {
        let r = Residual::new(m, s);
        let text = r.to_string();
        let sieve = Sieve::new(&text).unwrap();
        let framed = format!("Sieve{{{}}}", text);
        assert_eq!(sieve.to_string(), framed);
        for v in -30..30 {
            assert_eq!(sieve.contains(v), r.contains(v));
        }
    }
}
