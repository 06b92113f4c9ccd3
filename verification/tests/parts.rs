//! The parts that the scanner is made of.

use gate_lexer::bytes::{digit, letter, name_byte};
use gate_lexer::header::{find_gate_header, HeaderSpan};
use gate_lexer::numeral::parse_count;
use gate_lexer::rules::{find_gate_keyword, find_name_clause, Literal};
use gate_lexer::Tokens;

fn header_in(span: &str) -> Option<(usize, usize, usize)> {
    find_gate_header(span.as_bytes()).map(|HeaderSpan { at, paren, comma }| (at, paren, comma))
}

#[test]
fn byte_classes() {
    for byte in 0..=255u8 {
        let ch = byte as char;
        assert_eq!(letter(byte), ch.is_ascii_alphabetic());
        assert_eq!(digit(byte), ch.is_ascii_digit());
        assert_eq!(
            name_byte(byte),
            ch.is_ascii_alphabetic() || ch == ',' || ch == ' '
        );
    }
}

#[test]
fn counts_up_to_the_limit() {
    assert_eq!(parse_count(b"0", 0, 1), Some(0));
    assert_eq!(parse_count(b"7", 0, 1), Some(7));
    assert_eq!(parse_count(b"42", 0, 2), Some(42));
    assert_eq!(parse_count(b"255", 0, 3), Some(255));
    assert_eq!(parse_count(b"0255", 0, 4), Some(255));
    assert_eq!(parse_count(b"000", 0, 3), Some(0));
    for value in 0..=255u32 {
        let text = value.to_string();
        assert_eq!(
            parse_count(text.as_bytes(), 0, text.len()),
            Some(value as u8)
        );
    }
}

#[test]
fn counts_above_the_limit() {
    assert_eq!(parse_count(b"256", 0, 3), None);
    assert_eq!(parse_count(b"260", 0, 3), None);
    assert_eq!(parse_count(b"300", 0, 3), None);
    assert_eq!(parse_count(b"1000", 0, 4), None);
    assert_eq!(parse_count(b"0256", 0, 4), None);
    assert_eq!(parse_count(b"65536", 0, 5), None);
    assert_eq!(parse_count(b"18446744073709551616", 0, 20), None);
    for value in 256..=3000u32 {
        let text = value.to_string();
        assert_eq!(parse_count(text.as_bytes(), 0, text.len()), None);
    }
}

#[test]
fn counts_are_read_between_the_bounds() {
    assert_eq!(parse_count(b"(12, 345)", 1, 3), Some(12));
    assert_eq!(parse_count(b"(12, 345)", 5, 8), None);
    assert_eq!(parse_count(b"(12, 345)", 5, 7), Some(34));
    assert_eq!(parse_count(b"(12, 345)", 2, 3), Some(2));
}

#[test]
fn header_at_the_end_of_a_span() {
    assert_eq!(header_in("Gate and(2, 1)"), Some((0, 8, 10)));
    assert_eq!(header_in("Gate a(0, 0)"), Some((0, 6, 8)));
    assert_eq!(header_in("\n  Gate and(12, 345)"), Some((3, 11, 14)));
    assert_eq!(header_in("Gate a, b (1, 2)"), Some((0, 10, 12)));
}

#[test]
fn header_that_starts_first_is_found() {
    assert_eq!(header_in("Gate Gate a(1, 2)"), Some((0, 11, 13)));
    assert_eq!(header_in("Gate 1 Gate a(1, 2)"), Some((7, 13, 15)));
    assert_eq!(header_in("xGate Gate Gate (1, 2)"), Some((1, 16, 18)));
    assert_eq!(header_in("GateGate a(1, 2)"), Some((4, 10, 12)));
    assert_eq!(header_in("Gate Gate (1, 2)"), Some((0, 10, 12)));
}

#[test]
fn no_header_at_the_end_of_a_span() {
    for span in [
        "",
        ")",
        "Gate and(2, 1",
        "Gate and(2, 1) ",
        "Gate and(2,1)",
        "Gate and(2,  1)",
        "Gate and(, 1)",
        "Gate and(2, )",
        "Gate and(a, 1)",
        "Gate and2, 1)",
        "Gate and((2, 1)",
        "Gate a1(2, 1)",
        "Gate a-b(2, 1)",
        "gate and(2, 1)",
        "Gateand(2, 1)",
        "Gat and(2, 1)",
        "and(2, 1)",
        "(2, 1)",
        " (2, 1)",
        "Gate(2, 1)",
        "Gate (2, 1)",
        "Gate  (2, 1)",
        "Gate , ,(2, 1)",
        "a Gate (2, 1)",
    ] {
        assert_eq!(header_in(span), None, "in {:?}", span);
    }
}

#[test]
fn name_clause_at_the_end_of_a_span() {
    assert_eq!(find_name_clause(b" x;"), Some(0));
    assert_eq!(find_name_clause(b" x "), Some(0));
    assert_eq!(find_name_clause(b" Name;"), Some(0));
    assert_eq!(find_name_clause(b"  x;"), Some(1));
    assert_eq!(find_name_clause(b"\n x;"), Some(1));
    assert_eq!(find_name_clause(b"a b c;"), Some(3));
    assert_eq!(find_name_clause(b"a1 b c;"), Some(4));
    assert_eq!(find_name_clause(b"; long name, with more;"), Some(17));
    assert_eq!(find_name_clause(b" a, b "), Some(3));
}

#[test]
fn no_name_clause_at_the_end_of_a_span() {
    for span in [
        "", " ", "  ", "   ", " ;", "x;", " x", " x\n", "\tx;", " x1;", " 1;", " x;y", ";;;", " ,;",
        " a,;", " a b;x", ",x;", " a, ",
    ] {
        assert_eq!(find_name_clause(span.as_bytes()), None, "in {:?}", span);
    }
}

#[test]
fn keyword_that_opens_a_header() {
    assert_eq!(find_gate_keyword(b"Gate "), Some(0));
    assert_eq!(find_gate_keyword(b"a Gate b Gate c"), Some(2));
    assert_eq!(find_gate_keyword(b"GatGate "), Some(3));
    assert_eq!(find_gate_keyword(b""), None);
    assert_eq!(find_gate_keyword(b"Gate"), None);
    assert_eq!(find_gate_keyword(b"Gate\n"), None);
    assert_eq!(find_gate_keyword(b"gate "), None);
    assert_eq!(find_gate_keyword(b"Gat e "), None);
}

#[test]
fn literal_patterns() {
    let all = [
        (Literal::StartScope, "{", Tokens::StartScope),
        (Literal::EndScope, "}", Tokens::EndScope),
        (Literal::Input, "in", Tokens::Input),
        (Literal::Output, "out", Tokens::Output),
        (Literal::DeclareVar, "let", Tokens::DeclareVar),
        (Literal::Assignment, "=", Tokens::Assignment),
        (Literal::SemiColon, ";", Tokens::SemiColon),
    ];
    for (literal, pattern, token) in all.iter() {
        assert_eq!(literal.width(), pattern.len());
        assert_eq!(literal.give(), *token);
        for (_, other, _) in all.iter() {
            assert_eq!(literal.ends(other.as_bytes()), pattern == other);
            let behind = format!("some text{}", other);
            assert_eq!(literal.ends(behind.as_bytes()), pattern == other);
            let before = format!("{}\n", other);
            assert!(!literal.ends(before.as_bytes()));
        }
        assert!(!literal.ends(b""));
        assert!(!literal.ends(&pattern.as_bytes()[1..]));
    }
}

#[test]
fn tokens_that_open_a_name() {
    assert!(Tokens::DeclareVar.opens_name());
    assert!(Tokens::Input.opens_name());
    assert!(Tokens::Output.opens_name());
    for token in [
        Tokens::Gate("let".to_string(), 1, 1),
        Tokens::Name("in".to_string()),
        Tokens::ReferenceVar("out".to_string()),
        Tokens::Code,
        Tokens::StartScope,
        Tokens::EndScope,
        Tokens::Assignment,
        Tokens::SemiColon,
        Tokens::Function("let".to_string(), 1, 1),
        Tokens::LPeren,
        Tokens::RPeren,
    ] {
        assert!(!token.opens_name());
    }
}
