//! The rules, written as regular expressions and searched in the whole
//! pending span, give the tokens that the scanner gives.

use gate_lexer::{tokenize_bytes, LexError, Tokens};
use regex::Regex;

struct Patterns {
    gate: Regex,
    count: Regex,
    name: Regex,
    literals: Vec<(Regex, Tokens)>,
}

fn patterns() -> Patterns {
    let literal = |pattern: &str, token: Tokens| (Regex::new(pattern).unwrap(), token);
    Patterns {
        gate: Regex::new(r"Gate [a-z, A-Z]*[a-zA-Z][a-z, A-Z]*\(\d+, \d+\)").unwrap(),
        count: Regex::new(r"\d+").unwrap(),
        name: Regex::new(r" [a-zA-Z]+;| [a-zA-Z]+ ").unwrap(),
        literals: vec![
            literal(r"\{", Tokens::StartScope),
            literal(r"\}", Tokens::EndScope),
            literal("in", Tokens::Input),
            literal("out", Tokens::Output),
            literal("let", Tokens::DeclareVar),
            literal("=", Tokens::Assignment),
            literal(";", Tokens::SemiColon),
        ],
    }
}

/// How many characters of `span` stand before the byte index `index`.
fn chars_before(span: &str, index: usize) -> usize {
    span[..index].chars().count()
}

/// The offset of the keyword `Gate ` that a match at `at` passes over.
fn passed_keyword(span: &str, at: usize) -> Option<usize> {
    let keyword = chars_before(span, span.find("Gate ")?);
    if keyword < at {
        Some(keyword)
    } else {
        None
    }
}

fn scan_with_patterns(patterns: &Patterns, source: &[u8]) -> Result<Vec<Tokens>, LexError> {
    let mut tokens: Vec<Tokens> = vec![];
    let mut open: Vec<usize> = vec![];
    let mut span = String::new();
    let mut offset = 0;
    for (index, byte) in source.iter().enumerate() {
        span.push(*byte as char);
        if let Some(found) = patterns.gate.find(&span) {
            assert_eq!(found.end(), span.len(), "a header is found at its last byte");
            let at = chars_before(&span, found.start());
            if let Some(keyword) = passed_keyword(&span, at) {
                return Err(LexError::MalformedGateHeader(offset + keyword));
            }
            let text = found.as_str();
            let paren = text.find('(').unwrap();
            let mut counts = vec![];
            for count in patterns.count.find_iter(&text[paren..]) {
                match count.as_str().parse::<u8>() {
                    Ok(value) => counts.push(value),
                    Err(_) => {
                        return Err(LexError::ArityOutOfRange(
                            offset + at + paren + count.start(),
                        ))
                    }
                }
            }
            tokens.push(Tokens::Gate(text[5..paren].to_string(), counts[0], counts[1]));
            span.clear();
            offset = index + 1;
        }
        let expects_name = matches!(
            tokens.last(),
            Some(Tokens::DeclareVar) | Some(Tokens::Input) | Some(Tokens::Output)
        );
        if expects_name {
            if let Some(found) = patterns.name.find(&span) {
                assert_eq!(found.end(), span.len(), "a name is found at its last byte");
                let at = chars_before(&span, found.start());
                if let Some(keyword) = passed_keyword(&span, at) {
                    return Err(LexError::MalformedGateHeader(offset + keyword));
                }
                let text = found.as_str();
                tokens.push(Tokens::Name(text[1..text.len() - 1].to_string()));
                span = text[text.len() - 1..].to_string();
                offset = index;
            }
        }
        for (pattern, token) in patterns.literals.iter() {
            if let Some(found) = pattern.find(&span) {
                assert_eq!(found.end(), span.len(), "a literal is found at its last byte");
                let at = chars_before(&span, found.start());
                if let Some(keyword) = passed_keyword(&span, at) {
                    return Err(LexError::MalformedGateHeader(offset + keyword));
                }
                match token {
                    Tokens::StartScope => open.push(index),
                    Tokens::EndScope => {
                        open.pop();
                    }
                    _ => {}
                }
                tokens.push(token.clone());
                span.clear();
                offset = index + 1;
            }
        }
    }
    if let Some(keyword) = span.find("Gate ") {
        Err(LexError::MalformedGateHeader(
            offset + chars_before(&span, keyword),
        ))
    } else if !span.is_empty() {
        Err(LexError::UnterminatedSpan(offset))
    } else if let Some(scope) = open.first() {
        Err(LexError::UnterminatedScope(*scope))
    } else {
        Ok(tokens)
    }
}

fn agree(patterns: &Patterns, source: &[u8]) {
    assert_eq!(
        tokenize_bytes(source),
        scan_with_patterns(patterns, source),
        "on {:?}",
        String::from_utf8_lossy(source)
    );
}

const WORDS: [&str; 24] = [
    "Gate ", "Gate", "and", "or", "x", "A", "(", ")", "1", "0", "25", "256", ", ", ",", " ", ";",
    "let", "in", "out", "=", "{", "}", "\n", "é",
];

fn text_of(words: &[usize]) -> Vec<u8> {
    let mut text = vec![];
    for word in words {
        text.extend_from_slice(WORDS[*word].as_bytes());
    }
    text
}

#[test]
fn patterns_agree_on_chosen_texts() {
    let patterns = patterns();
    let texts = [
        "",
        "let x;",
        "in x;",
        "out y;",
        "{}",
        "x = y;",
        "Gate and(2, 1)",
        "Gate and(2, 1)\nGate or(2, 1)\n{\nin a, b;\nout c;\nlet d = a;\n}",
        "Gate  some, gate (000, 255)",
        "Gate Gate Gate (1, 2)",
        "Gate (1, 2)",
        "Gate  , (1, 2) Gate a(1, 2)",
        "in a, b; out , c ; let  d  e;",
        "Gate a(1, 2)Gate b(3, 4)",
        "Gate a(1, 2) Gate 7 Gate b(3, 4)",
        "Gate a(256, 2)",
        "Gate a(2, 256)",
        "Gate a(99999999999999999999, 99999999999999999999)",
        "Gate a(1,2)",
        "Gate a (1, 2",
        "Gate a((1, 2)",
        "Gate a(1, 2))",
        "Gate a(1, , 2)",
        "gate a(1, 2)",
        "Gate\ta(1, 2)",
        "let   x  y   z;",
        "let x",
        "let x ",
        "let x  ",
        "let , ;",
        "let ;",
        "let  ;",
        "in out let  x ;",
        "letx;",
        "let Gate ;",
        "let Gate x;",
        "let\nGate x;",
        "outin",
        "winter",
        "{ let a = b; { in c; } out d; }",
        "{ let a = b; { in c; out d; }",
        "} let a = b; } in c; { out d; }",
        "Gate a(1, 2); let b;",
    ];
    for text in texts {
        agree(&patterns, text.as_bytes());
    }
}

#[test]
fn patterns_agree_on_bytes_that_are_not_ascii() {
    let patterns = patterns();
    agree(&patterns, &[0xff, b'l', b'e', b't', b' ', 0xe9, b';']);
    agree(&patterns, &[b'l', b'e', b't', b' ', b'x', 0xa0, b';']);
    agree(&patterns, &[0x80, b'{', 0x81, b'}', 0x82]);
    agree(&patterns, b"Gate \xb2(1, 2)");
    agree(&patterns, b"Gate a(\xb2, 2)");
    agree(&patterns, b"\xc3\xa9Gate a(1, 2)");
    agree(&patterns, b"\xc3\xa9 Gate  Gate a(1, 300)");
}

#[test]
fn patterns_agree_on_all_short_texts() {
    let patterns = patterns();
    let count = WORDS.len();
    for a in 0..count {
        agree(&patterns, &text_of(&[a]));
        for b in 0..count {
            agree(&patterns, &text_of(&[a, b]));
            for c in 0..count {
                agree(&patterns, &text_of(&[a, b, c]));
            }
        }
    }
}

#[test]
fn patterns_agree_on_longer_texts() {
    let patterns = patterns();
    let mut state: u64 = 0x2545_f491_4f6c_dd1d;
    for _ in 0..4000 {
        let mut words = vec![];
        state = state.wrapping_mul(6364136223846793005).wrapping_add(1442695040888963407);
        let length = 4 + (state >> 60) as usize;
        for _ in 0..length {
            state = state.wrapping_mul(6364136223846793005).wrapping_add(1442695040888963407);
            words.push((state >> 33) as usize % WORDS.len());
        }
        agree(&patterns, &text_of(&words));
    }
}

#[test]
fn patterns_agree_on_texts_made_of_declarations() {
    let patterns = patterns();
    let parts = [
        "Gate and(2, 1)",
        "Gate or (12, 0)",
        "Gate x(300, 1)",
        "let a;",
        "let b = a;",
        "in c;",
        "out d, e;",
        "{",
        "}",
        "\n",
        " ",
        "Gate ",
    ];
    for a in parts {
        for b in parts {
            for c in parts {
                let text = format!("{}{}{}", a, b, c);
                agree(&patterns, text.as_bytes());
            }
        }
    }
}
