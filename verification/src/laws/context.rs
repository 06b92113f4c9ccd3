//! Which tokens a scan gives, and where it gives a name.

use crate::lexer::{lex, scan};
use crate::rules::{apply_rules, gate_rule, literal_rule, then_literal, then_name, Literal, Scan};
use crate::token::{opens_name, TokenView};
use vstd::prelude::*;

verus! {

/// A token of a kind that some rule gives.
pub open spec fn is_given(token: TokenView) -> bool {
    ||| token is Gate
    ||| token is Name
    ||| token is Input
    ||| token is Output
    ||| token is DeclareVar
    ||| token is StartScope
    ||| token is EndScope
    ||| token is Assignment
    ||| token is SemiColon
}

/// Every token of `tokens` is of a kind that some rule gives, and every
/// `Name` token stands directly after `let`, `in` or `out`.
pub open spec fn in_context(tokens: Seq<TokenView>) -> bool {
    forall|k: int|
        0 <= k < tokens.len() ==> {
            &&& is_given(#[trigger] tokens[k])
            &&& tokens[k] is Name ==> k > 0 && opens_name(tokens[k - 1])
        }
}

/// One more token keeps the tokens in context, where it is of a kind that
/// some rule gives and, if it is a name, follows `let`, `in` or `out`.
proof fn lemma_push_in_context(tokens: Seq<TokenView>, token: TokenView)
    requires
        in_context(tokens),
        is_given(token),
        token is Name ==> tokens.len() > 0 && opens_name(tokens.last()),
    ensures
        in_context(tokens.push(token)),
{
    let longer = tokens.push(token);
    assert forall|k: int| 0 <= k < longer.len() implies {
        &&& is_given(#[trigger] longer[k])
        &&& longer[k] is Name ==> k > 0 && opens_name(longer[k - 1])
    } by {
        if k < tokens.len() {
            assert(longer[k] == tokens[k]);
            if k > 0 {
                assert(longer[k - 1] == tokens[k - 1]);
            }
        }
    }
}

/// A literal rule keeps the tokens in context.
proof fn lemma_literal_in_context(scan: Scan, literal: Literal)
    requires
        in_context(scan.tokens),
        literal_rule(scan, literal) is Ok,
    ensures
        in_context(literal_rule(scan, literal)->Ok_0.tokens),
{
    lemma_push_in_context(scan.tokens, literal.token());
}

/// The rules keep the tokens in context.
proof fn lemma_rules_in_context(scan: Scan)
    requires
        in_context(scan.tokens),
        apply_rules(scan) is Ok,
    ensures
        in_context(apply_rules(scan)->Ok_0.tokens),
{
    let gate = gate_rule(scan);
    assert(in_context(gate->Ok_0.tokens)) by {
        if gate->Ok_0 != scan {
            lemma_push_in_context(scan.tokens, gate->Ok_0.tokens.last());
        }
    }
    let name = then_name(gate);
    assert(in_context(name->Ok_0.tokens)) by {
        let at = gate->Ok_0;
        if name->Ok_0 != at {
            lemma_push_in_context(at.tokens, name->Ok_0.tokens.last());
        }
    }
    lemma_literal_in_context(name->Ok_0, Literal::StartScope);
    let start_scope = then_literal(name, Literal::StartScope);
    lemma_literal_in_context(start_scope->Ok_0, Literal::EndScope);
    let end_scope = then_literal(start_scope, Literal::EndScope);
    lemma_literal_in_context(end_scope->Ok_0, Literal::Input);
    let input = then_literal(end_scope, Literal::Input);
    lemma_literal_in_context(input->Ok_0, Literal::Output);
    let output = then_literal(input, Literal::Output);
    lemma_literal_in_context(output->Ok_0, Literal::DeclareVar);
    let declare = then_literal(output, Literal::DeclareVar);
    lemma_literal_in_context(declare->Ok_0, Literal::Assignment);
    let assignment = then_literal(declare, Literal::Assignment);
    lemma_literal_in_context(assignment->Ok_0, Literal::SemiColon);
}

/// At every point of a scan, the tokens given so far are in context.
pub proof fn lemma_scan_in_context(input: Seq<u8>)
    requires
        scan(input) is Ok,
    ensures
        in_context(scan(input)->Ok_0.tokens),
    decreases input.len(),
{
    if input.len() > 0 {
        lemma_scan_in_context(input.drop_last());
        lemma_rules_in_context(scan(input.drop_last())->Ok_0.read(input.last()));
    }
}

/// The tokens of a text are of the kinds that the rules give, and a `Name`
/// token stands nowhere but directly after `let`, `in` or `out`.
pub proof fn lemma_tokens_in_context(input: Seq<u8>)
    requires
        lex(input) is Ok,
    ensures
        in_context(lex(input)->Ok_0),
{
    lemma_scan_in_context(input);
}

} // verus!
