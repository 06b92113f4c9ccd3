use gate_lexer::{tokenize, tokenize_bytes, LexError, Tokens};

fn name(text: &str) -> Tokens {
    Tokens::Name(text.to_string())
}

fn gate(text: &str, inputs: u8, outputs: u8) -> Tokens {
    Tokens::Gate(text.to_string(), inputs, outputs)
}

fn tokens_of(source: &str) -> Result<Vec<Tokens>, LexError> {
    tokenize(source.to_string())
}

#[test]
fn declares_a_variable() {
    assert_eq!(
        tokens_of("let x;"),
        Ok(vec![Tokens::DeclareVar, name("x"), Tokens::SemiColon])
    );
}

#[test]
fn declares_an_input() {
    assert_eq!(
        tokens_of("in x;"),
        Ok(vec![Tokens::Input, name("x"), Tokens::SemiColon])
    );
}

#[test]
fn declares_an_output() {
    assert_eq!(
        tokens_of("out y;"),
        Ok(vec![Tokens::Output, name("y"), Tokens::SemiColon])
    );
}

#[test]
fn empty_scope() {
    assert_eq!(
        tokens_of("{}"),
        Ok(vec![Tokens::StartScope, Tokens::EndScope])
    );
}

#[test]
fn words_outside_a_declaration_give_no_token() {
    assert_eq!(
        tokens_of("x = y;"),
        Ok(vec![Tokens::Assignment, Tokens::SemiColon])
    );
}

#[test]
fn empty_text_gives_no_token() {
    assert_eq!(tokens_of(""), Ok(vec![]));
}

#[test]
fn gate_declaration() {
    assert_eq!(tokens_of("Gate and(2, 1)"), Ok(vec![gate("and", 2, 1)]));
}

#[test]
fn gate_counts_at_their_limits() {
    assert_eq!(tokens_of("Gate wide(255, 0)"), Ok(vec![gate("wide", 255, 0)]));
    assert_eq!(tokens_of("Gate wide(0, 255)"), Ok(vec![gate("wide", 0, 255)]));
}

#[test]
fn gate_counts_with_zeros_in_front() {
    assert_eq!(tokens_of("Gate pad(007, 0010)"), Ok(vec![gate("pad", 7, 10)]));
    assert_eq!(
        tokens_of("Gate pad(000000000000000000000000255, 1)"),
        Ok(vec![gate("pad", 255, 1)])
    );
}

#[test]
fn gate_without_a_letter_in_its_name() {
    assert_eq!(
        tokens_of("Gate (1, 2)"),
        Err(LexError::MalformedGateHeader(0))
    );
    assert_eq!(
        tokens_of("Gate , (1, 2)"),
        Err(LexError::MalformedGateHeader(0))
    );
}

#[test]
fn gate_name_with_separators() {
    assert_eq!(
        tokens_of("Gate half adder(2, 2)"),
        Ok(vec![gate("half adder", 2, 2)])
    );
    assert_eq!(tokens_of("Gate a,b (1, 1)"), Ok(vec![gate("a,b ", 1, 1)]));
}

#[test]
fn gate_name_takes_the_longest_header() {
    assert_eq!(
        tokens_of("Gate Gate twice(1, 1)"),
        Ok(vec![gate("Gate twice", 1, 1)])
    );
}

#[test]
fn gate_after_text_without_meaning() {
    assert_eq!(
        tokens_of("\n\t Gate nand(2, 1)"),
        Ok(vec![gate("nand", 2, 1)])
    );
}

#[test]
fn gates_on_lines_of_their_own() {
    assert_eq!(
        tokens_of("Gate and(2, 1)\nGate or(2, 1)\nGate not(1, 1)"),
        Ok(vec![gate("and", 2, 1), gate("or", 2, 1), gate("not", 1, 1)])
    );
}

#[test]
fn a_whole_program() {
    let source = "Gate and(2, 1)\n{\nin a;\nout b;\nlet c = a;\n}";
    assert_eq!(
        tokens_of(source),
        Ok(vec![
            gate("and", 2, 1),
            Tokens::StartScope,
            Tokens::Input,
            name("a"),
            Tokens::SemiColon,
            Tokens::Output,
            name("b"),
            Tokens::SemiColon,
            Tokens::DeclareVar,
            name("c"),
            Tokens::Assignment,
            Tokens::SemiColon,
            Tokens::EndScope,
        ])
    );
}

#[test]
fn name_ended_by_a_space() {
    assert_eq!(
        tokens_of("let x = y;"),
        Ok(vec![
            Tokens::DeclareVar,
            name("x"),
            Tokens::Assignment,
            Tokens::SemiColon
        ])
    );
}

#[test]
fn name_is_a_run_of_letters() {
    assert_eq!(
        tokens_of("let  x;"),
        Ok(vec![Tokens::DeclareVar, name("x"), Tokens::SemiColon])
    );
    assert_eq!(
        tokens_of("let   x;"),
        Ok(vec![Tokens::DeclareVar, name("x"), Tokens::SemiColon])
    );
    assert_eq!(
        tokens_of("out LongName;"),
        Ok(vec![Tokens::Output, name("LongName"), Tokens::SemiColon])
    );
}

#[test]
fn name_holds_no_separator() {
    assert_eq!(
        tokens_of("in a, b;"),
        Ok(vec![Tokens::Input, name("b"), Tokens::SemiColon])
    );
    assert_eq!(
        tokens_of("let , ;"),
        Ok(vec![Tokens::DeclareVar, Tokens::SemiColon])
    );
    assert_eq!(
        tokens_of("let a1 b2 c;"),
        Ok(vec![Tokens::DeclareVar, name("c"), Tokens::SemiColon])
    );
}

#[test]
fn name_needs_a_space_before_it() {
    assert_eq!(
        tokens_of("let\nx;"),
        Ok(vec![Tokens::DeclareVar, Tokens::SemiColon])
    );
}

#[test]
fn name_only_after_a_keyword() {
    assert_eq!(
        tokens_of("let x; y;"),
        Ok(vec![
            Tokens::DeclareVar,
            name("x"),
            Tokens::SemiColon,
            Tokens::SemiColon
        ])
    );
    assert_eq!(
        tokens_of("{ x; }"),
        Ok(vec![Tokens::StartScope, Tokens::SemiColon, Tokens::EndScope])
    );
}

#[test]
fn keyword_inside_a_word() {
    assert_eq!(
        tokens_of("let input;"),
        Ok(vec![Tokens::DeclareVar, Tokens::Input, Tokens::SemiColon])
    );
    assert_eq!(
        tokens_of("outlet;"),
        Ok(vec![Tokens::Output, Tokens::DeclareVar, Tokens::SemiColon])
    );
}

#[test]
fn keywords_one_after_another() {
    assert_eq!(
        tokens_of("let in out x;"),
        Ok(vec![
            Tokens::DeclareVar,
            Tokens::Input,
            Tokens::Output,
            name("x"),
            Tokens::SemiColon
        ])
    );
}

#[test]
fn scopes_within_scopes() {
    assert_eq!(
        tokens_of("{{}{{}}}"),
        Ok(vec![
            Tokens::StartScope,
            Tokens::StartScope,
            Tokens::EndScope,
            Tokens::StartScope,
            Tokens::StartScope,
            Tokens::EndScope,
            Tokens::EndScope,
            Tokens::EndScope,
        ])
    );
}

#[test]
fn a_scope_end_that_closes_nothing() {
    assert_eq!(tokens_of("}"), Ok(vec![Tokens::EndScope]));
    assert_eq!(
        tokens_of("}{}"),
        Ok(vec![Tokens::EndScope, Tokens::StartScope, Tokens::EndScope])
    );
}

#[test]
fn punctuation_alone() {
    assert_eq!(
        tokens_of("{;=}"),
        Ok(vec![
            Tokens::StartScope,
            Tokens::SemiColon,
            Tokens::Assignment,
            Tokens::EndScope
        ])
    );
}

#[test]
fn bytes_that_are_not_ascii_have_no_meaning() {
    assert_eq!(
        tokens_of("let \u{e9};"),
        Ok(vec![Tokens::DeclareVar, Tokens::SemiColon])
    );
    assert_eq!(
        tokenize_bytes(&[0xff, 0xfe, b'{', 0x80, b'}']),
        Ok(vec![Tokens::StartScope, Tokens::EndScope])
    );
}

#[test]
fn text_and_bytes_agree() {
    let source = "Gate xor(2, 1)\nlet q;";
    assert_eq!(tokens_of(source), tokenize_bytes(source.as_bytes()));
    assert_eq!(
        tokenize_bytes(source.as_bytes()),
        Ok(vec![
            gate("xor", 2, 1),
            Tokens::DeclareVar,
            name("q"),
            Tokens::SemiColon
        ])
    );
}

#[test]
fn a_long_text() {
    let statements = 50_000;
    let mut source = String::new();
    for _ in 0..statements {
        source.push_str("Gate and(2, 1)\n{ let a = b; in c; out d; }\n");
    }
    source.push_str("Gate last(0, 0)");
    let tokens = tokens_of(&source).unwrap();
    assert_eq!(tokens.len(), statements * 13 + 1);
    assert_eq!(tokens[0], gate("and", 2, 1));
    assert_eq!(tokens[13 * (statements - 1) + 12], Tokens::EndScope);
    assert_eq!(tokens[tokens.len() - 1], gate("last", 0, 0));
}

#[test]
fn a_long_text_without_any_token() {
    let source = "a ".repeat(500_000);
    assert_eq!(tokens_of(&source), Err(LexError::UnterminatedSpan(0)));
    let source = format!("{};", ") 1) (1, 1) , 1)".repeat(50_000));
    assert_eq!(tokens_of(&source), Ok(vec![Tokens::SemiColon]));
}
