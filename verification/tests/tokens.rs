use gate_lexer::{LexError, Tokens};

fn one_of_each() -> Vec<Tokens> {
    vec![
        Tokens::Gate("and".to_string(), 2, 1),
        Tokens::Name("and".to_string()),
        Tokens::Input,
        Tokens::Output,
        Tokens::DeclareVar,
        Tokens::ReferenceVar("and".to_string()),
        Tokens::Code,
        Tokens::StartScope,
        Tokens::EndScope,
        Tokens::Assignment,
        Tokens::SemiColon,
        Tokens::Function("and".to_string(), 2, 1),
        Tokens::LPeren,
        Tokens::RPeren,
    ]
}

#[test]
fn tokens_equal_themselves_and_no_other_kind() {
    let left = one_of_each();
    let right = one_of_each();
    for (i, a) in left.iter().enumerate() {
        for (j, b) in right.iter().enumerate() {
            assert_eq!(a == b, i == j, "{:?} and {:?}", a, b);
        }
    }
}

#[test]
fn tokens_differ_by_name() {
    assert_ne!(
        Tokens::Gate("and".to_string(), 2, 1),
        Tokens::Gate("or".to_string(), 2, 1)
    );
    assert_ne!(Tokens::Name("a".to_string()), Tokens::Name("b".to_string()));
    assert_ne!(
        Tokens::ReferenceVar("a".to_string()),
        Tokens::ReferenceVar("b".to_string())
    );
    assert_ne!(
        Tokens::Function("f".to_string(), 1, 1),
        Tokens::Function("g".to_string(), 1, 1)
    );
}

#[test]
fn tokens_differ_by_count() {
    assert_ne!(
        Tokens::Gate("and".to_string(), 2, 1),
        Tokens::Gate("and".to_string(), 3, 1)
    );
    assert_ne!(
        Tokens::Gate("and".to_string(), 2, 1),
        Tokens::Gate("and".to_string(), 2, 2)
    );
    assert_ne!(
        Tokens::Function("f".to_string(), 2, 1),
        Tokens::Function("f".to_string(), 1, 1)
    );
    assert_ne!(
        Tokens::Function("f".to_string(), 2, 1),
        Tokens::Function("f".to_string(), 2, 0)
    );
}

#[test]
fn tokens_print_their_kind_and_what_they_hold() {
    let printed: Vec<String> = one_of_each().iter().map(|t| format!("{:?}", t)).collect();
    assert_eq!(
        printed,
        vec![
            "Gate(\"and\", 2, 1)",
            "Name(\"and\")",
            "Input",
            "Output",
            "DeclareVar",
            "ReferenceVar(\"and\")",
            "Code",
            "StartScope",
            "EndScope",
            "Assignment",
            "SemiColon",
            "Function(\"and\", 2, 1)",
            "LPeren",
            "RPeren",
        ]
    );
}

#[test]
fn token_sequence_prints_as_a_list() {
    let tokens = vec![
        Tokens::DeclareVar,
        Tokens::Name("x".to_string()),
        Tokens::SemiColon,
    ];
    assert_eq!(
        format!("{:?}", tokens),
        "[DeclareVar, Name(\"x\"), SemiColon]"
    );
}

#[test]
fn a_cloned_token_is_equal() {
    for token in one_of_each() {
        assert_eq!(token.clone(), token);
    }
}

#[test]
fn errors_differ_by_kind_and_offset() {
    assert_eq!(LexError::ArityOutOfRange(3), LexError::ArityOutOfRange(3));
    assert_ne!(LexError::ArityOutOfRange(3), LexError::ArityOutOfRange(4));
    assert_ne!(
        LexError::ArityOutOfRange(3),
        LexError::MalformedGateHeader(3)
    );
    assert_ne!(
        LexError::UnterminatedSpan(3),
        LexError::MalformedGateHeader(3)
    );
    assert_ne!(
        LexError::UnterminatedSpan(3),
        LexError::UnterminatedScope(3)
    );
    assert_eq!(
        LexError::UnterminatedScope(3),
        LexError::UnterminatedScope(3)
    );
}
