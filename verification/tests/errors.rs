use gate_lexer::{tokenize, LexError, Tokens};

fn tokens_of(source: &str) -> Result<Vec<Tokens>, LexError> {
    tokenize(source.to_string())
}

#[test]
fn first_count_above_the_limit() {
    assert_eq!(
        tokens_of("Gate big(256, 1)"),
        Err(LexError::ArityOutOfRange(9))
    );
}

#[test]
fn second_count_above_the_limit() {
    assert_eq!(
        tokens_of("Gate big(1, 300)"),
        Err(LexError::ArityOutOfRange(12))
    );
}

#[test]
fn both_counts_above_the_limit() {
    assert_eq!(
        tokens_of("Gate big(1000, 1000)"),
        Err(LexError::ArityOutOfRange(9))
    );
}

#[test]
fn count_far_above_the_limit() {
    assert_eq!(
        tokens_of("Gate big(1, 340282366920938463463374607431768211456)"),
        Err(LexError::ArityOutOfRange(12))
    );
}

#[test]
fn count_offset_counts_from_the_start_of_the_text() {
    assert_eq!(
        tokens_of("let x;\nGate big(999, 1)"),
        Err(LexError::ArityOutOfRange(16))
    );
}

#[test]
fn header_with_a_count_that_is_no_numeral() {
    assert_eq!(
        tokens_of("Gate and(x, 1);"),
        Err(LexError::MalformedGateHeader(0))
    );
}

#[test]
fn header_without_the_space_after_the_comma() {
    assert_eq!(
        tokens_of("{}\nGate and(2,1)\nlet x;"),
        Err(LexError::MalformedGateHeader(3))
    );
}

#[test]
fn header_whose_name_holds_a_keyword() {
    assert_eq!(
        tokens_of("Gate inverter(1, 1)"),
        Err(LexError::MalformedGateHeader(0))
    );
}

#[test]
fn header_passed_over_by_a_later_header() {
    assert_eq!(
        tokens_of("Gate 5 Gate and(2, 1)"),
        Err(LexError::MalformedGateHeader(0))
    );
}

#[test]
fn header_passed_over_by_a_name() {
    assert_eq!(
        tokens_of("let\nGate x;"),
        Err(LexError::MalformedGateHeader(4))
    );
}

#[test]
fn header_cut_short_by_the_end_of_the_text() {
    assert_eq!(
        tokens_of("Gate and(2, 1"),
        Err(LexError::MalformedGateHeader(0))
    );
}

#[test]
fn keyword_gate_as_a_name_is_no_header() {
    assert_eq!(
        tokens_of("let Gate = x;"),
        Ok(vec![
            Tokens::DeclareVar,
            Tokens::Name("Gate".to_string()),
            Tokens::Assignment,
            Tokens::SemiColon
        ])
    );
}

#[test]
fn text_left_pending_at_the_end() {
    assert_eq!(tokens_of("let x;\n"), Err(LexError::UnterminatedSpan(6)));
    assert_eq!(tokens_of("word"), Err(LexError::UnterminatedSpan(0)));
    assert_eq!(tokens_of("let x"), Err(LexError::UnterminatedSpan(3)));
}

#[test]
fn name_ended_by_a_space_stays_pending() {
    assert_eq!(tokens_of("let x "), Err(LexError::UnterminatedSpan(5)));
}

#[test]
fn scope_left_open() {
    assert_eq!(tokens_of("{"), Err(LexError::UnterminatedScope(0)));
    assert_eq!(tokens_of("let x;\n{in y;"), Err(LexError::UnterminatedScope(7)));
}

#[test]
fn outermost_scope_left_open_is_named() {
    assert_eq!(tokens_of("{{}"), Err(LexError::UnterminatedScope(0)));
    assert_eq!(tokens_of("{}{"), Err(LexError::UnterminatedScope(2)));
    assert_eq!(tokens_of("{} {{ {} {"), Err(LexError::UnterminatedScope(3)));
    assert_eq!(tokens_of("}{"), Err(LexError::UnterminatedScope(1)));
}

#[test]
fn pending_text_is_named_before_an_open_scope() {
    assert_eq!(tokens_of("{ let x"), Err(LexError::UnterminatedSpan(5)));
    assert_eq!(tokens_of("{\n"), Err(LexError::UnterminatedSpan(1)));
    assert_eq!(
        tokens_of("{ Gate and(2, 1"),
        Err(LexError::MalformedGateHeader(2))
    );
}

#[test]
fn first_error_wins() {
    assert_eq!(
        tokens_of("Gate big(256, 1) Gate and(x, 1);"),
        Err(LexError::ArityOutOfRange(9))
    );
}
