//! From a `Name` token back to the text that it was written as.

use crate::bytes::{
    all_letters, chars_of, is_letter, lemma_longest_suffix, lemma_occurs_in_longer, longest_suffix,
    occurs_at, SEMICOLON, SPACE,
};
use crate::laws::context::lemma_tokens_in_context;
use crate::laws::progress::{lemma_scan_span, spans};
use crate::lexer::{lex, scan};
use crate::rules::{
    apply_rules, gate_rule, is_name_clause, lemma_name_clause_at, literal_rule, name_clause,
    name_clauses, then_literal, then_name, Literal, Scan,
};
use crate::token::{opens_name, TokenView};
use vstd::prelude::*;

verus! {

/// `token` is the `Name` token of `letters`: one letter or more.
pub open spec fn names(token: TokenView, letters: Seq<u8>) -> bool {
    &&& letters.len() > 0
    &&& all_letters(letters)
    &&& token == TokenView::Name(chars_of(letters))
}

/// If `token` is a `Name` token, it holds one letter or more and nothing
/// else, and these letters stand in `input` after a space and before a `;`
/// or a space.
pub open spec fn is_written(input: Seq<u8>, token: TokenView) -> bool {
    token is Name ==> exists|letters: Seq<u8>, end: u8, at: int|
        {
            &&& names(token, letters)
            &&& end == SEMICOLON || end == SPACE
            &&& #[trigger] occurs_at(input, name_clause(letters, end), at)
        }
}

/// Every `Name` token of `tokens` is written in `input`.
pub open spec fn all_written(input: Seq<u8>, tokens: Seq<TokenView>) -> bool {
    forall|k: int| 0 <= k < tokens.len() ==> is_written(input, #[trigger] tokens[k])
}

/// A text ends with one name clause at most: the space that opens it is the
/// byte before the letters at its end.
pub proof fn lemma_name_clause_unique(text: Seq<u8>, at: int, other: int)
    requires
        0 <= at <= text.len(),
        0 <= other <= text.len(),
        is_name_clause(text.subrange(at, text.len() as int)),
        is_name_clause(text.subrange(other, text.len() as int)),
    ensures
        at == other,
{
    lemma_name_clause_at(text, at);
    lemma_name_clause_at(text, other);
    if at < other {
        assert(is_letter(text[other]));
    }
    if other < at {
        assert(is_letter(text[at]));
    }
}

/// A name clause is made of its parts: the space, its letters and the byte
/// that ends it.
pub proof fn lemma_name_clause_parts(text: Seq<u8>)
    requires
        is_name_clause(text),
    ensures
        text == name_clause(text.subrange(1, text.len() - 1), text.last()),
        all_letters(text.subrange(1, text.len() - 1)),
{
    let letters = text.subrange(1, text.len() - 1);
    assert(text =~= name_clause(letters, text.last()));
    assert forall|k: int| 0 <= k < letters.len() implies is_letter(#[trigger] letters[k]) by {
        assert(letters[k] == text[k + 1]);
    }
}

/// One more token that is written in `input` keeps all tokens written.
proof fn lemma_push_written(input: Seq<u8>, tokens: Seq<TokenView>, token: TokenView)
    requires
        all_written(input, tokens),
        is_written(input, token),
    ensures
        all_written(input, tokens.push(token)),
{
    assert forall|k: int| 0 <= k < tokens.push(token).len() implies is_written(
        input,
        #[trigger] tokens.push(token)[k],
    ) by {
        if k < tokens.len() {
            assert(tokens.push(token)[k] == tokens[k]);
        }
    }
}

/// A literal rule keeps all names written.
proof fn lemma_literal_written(input: Seq<u8>, scan: Scan, literal: Literal)
    requires
        all_written(input, scan.tokens),
        literal_rule(scan, literal) is Ok,
    ensures
        all_written(input, literal_rule(scan, literal)->Ok_0.tokens),
{
    lemma_push_written(input, scan.tokens, literal.token());
}

/// The name rule gives a name that is written in the text.
proof fn lemma_name_written(input: Seq<u8>, scan: Scan)
    requires
        spans(input, scan),
        all_written(input, scan.tokens),
        then_name(Ok(scan)) is Ok,
    ensures
        all_written(input, then_name(Ok(scan))->Ok_0.tokens),
{
    let after = then_name(Ok(scan))->Ok_0;
    if after != scan {
        let n = scan.span.len() as int;
        lemma_longest_suffix(scan.span, name_clauses(), 0);
        let at = longest_suffix(scan.span, name_clauses(), 0)->Some_0;
        let clause = scan.span.subrange(at, n);
        let letters = scan.span.subrange(at + 1, n - 1);
        let token = TokenView::Name(chars_of(letters));
        assert(is_name_clause(clause));
        lemma_name_clause_parts(clause);
        assert(clause.subrange(1, clause.len() - 1) =~= letters);
        assert(input.subrange(scan.offset + at, scan.offset + at + clause.len()) =~= clause);
        assert(occurs_at(input, name_clause(letters, clause.last()), scan.offset + at));
        assert(names(token, letters));
        assert(after.tokens == scan.tokens.push(token));
        lemma_push_written(input, scan.tokens, token);
    }
}

/// The rules keep all names written.
proof fn lemma_rules_written(input: Seq<u8>, scan: Scan)
    requires
        spans(input, scan),
        all_written(input, scan.tokens),
        apply_rules(scan) is Ok,
    ensures
        all_written(input, apply_rules(scan)->Ok_0.tokens),
{
    let n = input.len() as int;
    assert(input.subrange(n, n) =~= Seq::<u8>::empty());
    let gate = gate_rule(scan);
    assert(all_written(input, gate->Ok_0.tokens) && spans(input, gate->Ok_0)) by {
        if gate->Ok_0 != scan {
            lemma_push_written(input, scan.tokens, gate->Ok_0.tokens.last());
        }
    }
    let name = then_name(gate);
    lemma_name_written(input, gate->Ok_0);
    lemma_literal_written(input, name->Ok_0, Literal::StartScope);
    let start_scope = then_literal(name, Literal::StartScope);
    lemma_literal_written(input, start_scope->Ok_0, Literal::EndScope);
    let end_scope = then_literal(start_scope, Literal::EndScope);
    lemma_literal_written(input, end_scope->Ok_0, Literal::Input);
    let input_rule = then_literal(end_scope, Literal::Input);
    lemma_literal_written(input, input_rule->Ok_0, Literal::Output);
    let output = then_literal(input_rule, Literal::Output);
    lemma_literal_written(input, output->Ok_0, Literal::DeclareVar);
    let declare = then_literal(output, Literal::DeclareVar);
    lemma_literal_written(input, declare->Ok_0, Literal::Assignment);
    let assignment = then_literal(declare, Literal::Assignment);
    lemma_literal_written(input, assignment->Ok_0, Literal::SemiColon);
}

/// At every point of a scan, every `Name` token given so far is written in
/// the text.
pub proof fn lemma_name_source(input: Seq<u8>)
    requires
        scan(input) is Ok,
    ensures
        all_written(input, scan(input)->Ok_0.tokens),
    decreases input.len(),
{
    if input.len() > 0 {
        let front = input.drop_last();
        lemma_name_source(front);
        lemma_scan_span(front);
        let before = scan(front)->Ok_0;
        let read = before.read(input.last());
        assert(read.span =~= input.subrange(before.offset as int, input.len() as int));
        assert forall|k: int| 0 <= k < read.tokens.len() implies is_written(
            input,
            #[trigger] read.tokens[k],
        ) by {
            let token = read.tokens[k];
            if token is Name {
                assert(is_written(front, token));
                let (letters, end, place) = choose|letters: Seq<u8>, end: u8, place: int|
                    {
                        &&& names(token, letters)
                        &&& end == SEMICOLON || end == SPACE
                        &&& #[trigger] occurs_at(front, name_clause(letters, end), place)
                    };
                lemma_occurs_in_longer(front, input, name_clause(letters, end), place);
            }
        }
        lemma_rules_written(input, read);
    }
}

/// Every `Name` token of a text is a run of letters, one or more, that
/// stands in the text after a space and before a `;` or a space.
pub proof fn lemma_names_written(input: Seq<u8>)
    requires
        lex(input) is Ok,
    ensures
        all_written(input, lex(input)->Ok_0),
{
    lemma_name_source(input);
}

/// Every `Name` token of a text stands directly after `let`, `in` or `out`,
/// and is a run of letters, one or more, that stands in the text after a
/// space and before a `;` or a space.
pub proof fn lemma_name_token(input: Seq<u8>, k: int)
    requires
        lex(input) is Ok,
        0 <= k < lex(input)->Ok_0.len(),
        lex(input)->Ok_0[k] is Name,
    ensures
        k > 0,
        opens_name(lex(input)->Ok_0[k - 1]),
        is_written(input, lex(input)->Ok_0[k]),
{
    lemma_names_written(input);
    lemma_tokens_in_context(input);
}

} // verus!
