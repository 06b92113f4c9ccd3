//! From a `Gate` token back to the text that it was written as.

use crate::bytes::{
    chars_of, lemma_bytes_of_chars, lemma_longest_suffix, lemma_occurs_in_longer, longest_suffix,
    occurs_at, occurs_in,
};
use crate::header::{declaration_text, gate_headers, header_of, is_gate_header, GateHeader};
use crate::laws::progress::{lemma_scan_span, spans};
use crate::lexer::{lex, scan};
use crate::numeral::{is_canonical, lemma_decimal_of_value, numeral_value};
use crate::rules::{apply_rules, gate_rule, literal_rule, then_literal, then_name, Literal, Scan};
use crate::token::TokenView;
use vstd::prelude::*;

verus! {

/// `token` is the `Gate` token that `header` gives.
pub open spec fn written_as(token: TokenView, header: GateHeader) -> bool {
    &&& header.well_formed()
    &&& numeral_value(header.inputs) <= 255
    &&& numeral_value(header.outputs) <= 255
    &&& token == TokenView::Gate(
        chars_of(header.name),
        numeral_value(header.inputs) as u8,
        numeral_value(header.outputs) as u8,
    )
}

/// If `token` is a `Gate` token, a header that gives it stands in `input`.
pub open spec fn has_source(input: Seq<u8>, token: TokenView) -> bool {
    token is Gate ==> exists|header: GateHeader, at: int|
        written_as(token, header) && #[trigger] occurs_at(input, header.text(), at)
}

/// Every `Gate` token of `tokens` has its header in `input`.
pub open spec fn all_sourced(input: Seq<u8>, tokens: Seq<TokenView>) -> bool {
    forall|k: int| 0 <= k < tokens.len() ==> has_source(input, #[trigger] tokens[k])
}

/// One more token with its header in `input` keeps all tokens sourced.
proof fn lemma_push_sourced(input: Seq<u8>, tokens: Seq<TokenView>, token: TokenView)
    requires
        all_sourced(input, tokens),
        has_source(input, token),
    ensures
        all_sourced(input, tokens.push(token)),
{
    assert forall|k: int| 0 <= k < tokens.push(token).len() implies has_source(
        input,
        #[trigger] tokens.push(token)[k],
    ) by {
        if k < tokens.len() {
            assert(tokens.push(token)[k] == tokens[k]);
        }
    }
}

/// A literal rule keeps all tokens sourced.
proof fn lemma_literal_sourced(input: Seq<u8>, scan: Scan, literal: Literal)
    requires
        all_sourced(input, scan.tokens),
        literal_rule(scan, literal) is Ok,
    ensures
        all_sourced(input, literal_rule(scan, literal)->Ok_0.tokens),
{
    lemma_push_sourced(input, scan.tokens, literal.token());
}

/// The rules keep all tokens sourced.
proof fn lemma_rules_sourced(input: Seq<u8>, scan: Scan)
    requires
        spans(input, scan),
        all_sourced(input, scan.tokens),
        apply_rules(scan) is Ok,
    ensures
        all_sourced(input, apply_rules(scan)->Ok_0.tokens),
{
    let n = scan.span.len() as int;
    let gate = gate_rule(scan);
    assert(all_sourced(input, gate->Ok_0.tokens)) by {
        lemma_longest_suffix(scan.span, gate_headers(), 0);
        match longest_suffix(scan.span, gate_headers(), 0) {
            None => {},
            Some(at) => {
                let written = scan.span.subrange(at, n);
                assert(is_gate_header(written));
                let header = header_of(written);
                let token = TokenView::Gate(
                    chars_of(header.name),
                    numeral_value(header.inputs) as u8,
                    numeral_value(header.outputs) as u8,
                );
                assert(input.subrange(scan.offset + at, scan.offset + at + written.len())
                    =~= written);
                assert(occurs_at(input, header.text(), scan.offset + at));
                assert(written_as(token, header));
                lemma_push_sourced(input, scan.tokens, token);
            },
        }
    }
    let name = then_name(gate);
    assert(all_sourced(input, name->Ok_0.tokens)) by {
        let at = gate->Ok_0;
        if name->Ok_0 != at {
            lemma_push_sourced(input, at.tokens, name->Ok_0.tokens.last());
        }
    }
    lemma_literal_sourced(input, name->Ok_0, Literal::StartScope);
    let start_scope = then_literal(name, Literal::StartScope);
    lemma_literal_sourced(input, start_scope->Ok_0, Literal::EndScope);
    let end_scope = then_literal(start_scope, Literal::EndScope);
    lemma_literal_sourced(input, end_scope->Ok_0, Literal::Input);
    let input_rule = then_literal(end_scope, Literal::Input);
    lemma_literal_sourced(input, input_rule->Ok_0, Literal::Output);
    let output = then_literal(input_rule, Literal::Output);
    lemma_literal_sourced(input, output->Ok_0, Literal::DeclareVar);
    let declare = then_literal(output, Literal::DeclareVar);
    lemma_literal_sourced(input, declare->Ok_0, Literal::Assignment);
    let assignment = then_literal(declare, Literal::Assignment);
    lemma_literal_sourced(input, assignment->Ok_0, Literal::SemiColon);
}

/// Every `Gate` token of a scan was written in the source text: a gate
/// header stands there that has the token's name, and counts of its values.
pub proof fn lemma_gate_source(input: Seq<u8>)
    requires
        scan(input) is Ok,
    ensures
        all_sourced(input, scan(input)->Ok_0.tokens),
    decreases input.len(),
{
    if input.len() > 0 {
        let front = input.drop_last();
        lemma_gate_source(front);
        lemma_scan_span(front);
        let before = scan(front)->Ok_0;
        let at = before.read(input.last());
        assert(at.span =~= input.subrange(before.offset as int, input.len() as int));
        assert forall|k: int| 0 <= k < at.tokens.len() implies has_source(
            input,
            #[trigger] at.tokens[k],
        ) by {
            let token = at.tokens[k];
            if token is Gate {
                assert(has_source(front, token));
                let (header, place) = choose|header: GateHeader, place: int|
                    written_as(token, header) && #[trigger] occurs_at(
                        front,
                        header.text(),
                        place,
                    );
                lemma_occurs_in_longer(front, input, header.text(), place);
            }
        }
        lemma_rules_sourced(input, at);
    }
}

/// A `Gate` token can be written back wherever the header that gives it
/// writes its counts without zeros in front: the declaration made of the
/// token's name and counts is that header, and so stands in the text where
/// the header stands.
pub proof fn lemma_gate_round_trip(input: Seq<u8>, token: TokenView, header: GateHeader, at: int)
    requires
        written_as(token, header),
        occurs_at(input, header.text(), at),
        is_canonical(header.inputs),
        is_canonical(header.outputs),
    ensures
        declaration_text(token->Gate_0, token->Gate_1, token->Gate_2) == header.text(),
        occurs_in(input, declaration_text(token->Gate_0, token->Gate_1, token->Gate_2)),
{
    lemma_decimal_of_value(header.inputs);
    lemma_decimal_of_value(header.outputs);
    lemma_bytes_of_chars(header.name);
    assert(declaration_text(token->Gate_0, token->Gate_1, token->Gate_2) == header.text());
}

/// Every `Gate` token of a text has in the text a header that gives it, and
/// where that header writes its counts without zeros in front, the
/// declaration made of the token's name and counts stands in the text.
pub proof fn lemma_gate_written_back(input: Seq<u8>, k: int)
    requires
        lex(input) is Ok,
        0 <= k < lex(input)->Ok_0.len(),
        lex(input)->Ok_0[k] is Gate,
    ensures
        ({
            let token = lex(input)->Ok_0[k];
            exists|header: GateHeader, at: int|
                {
                    &&& written_as(token, header)
                    &&& #[trigger] occurs_at(input, header.text(), at)
                    &&& is_canonical(header.inputs) && is_canonical(header.outputs) ==> occurs_in(
                        input,
                        declaration_text(token->Gate_0, token->Gate_1, token->Gate_2),
                    )
                }
        }),
{
    let token = lex(input)->Ok_0[k];
    lemma_gate_source(input);
    assert(has_source(input, token));
    let (header, at) = choose|header: GateHeader, at: int|
        written_as(token, header) && #[trigger] occurs_at(input, header.text(), at);
    if is_canonical(header.inputs) && is_canonical(header.outputs) {
        lemma_gate_round_trip(input, token, header, at);
    }
}

} // verus!
