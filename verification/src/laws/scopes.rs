//! Scopes that are open, counted in the tokens.

use crate::bytes::{lemma_ends_with_1, OPEN_BRACE};
use crate::laws::progress::{lemma_scan_span, spans};
use crate::lexer::{lex, scan};
use crate::rules::{apply_rules, gate_rule, literal_rule, then_literal, then_name, Literal, Scan};
use crate::token::TokenView;
use vstd::prelude::*;

verus! {

/// How many scopes `tokens` leave open: `{` opens one, and `}` closes one
/// if one is open.
pub open spec fn unclosed(tokens: Seq<TokenView>) -> nat
    decreases tokens.len(),
{
    if tokens.len() == 0 {
        0
    } else {
        let before = unclosed(tokens.drop_last());
        match tokens.last() {
            TokenView::StartScope => before + 1,
            TokenView::EndScope => if before > 0 {
                (before - 1) as nat
            } else {
                0
            },
            _ => before,
        }
    }
}

/// The scopes that a scan holds open are those that its tokens leave open,
/// and each starts at a `{` of `input`.
pub open spec fn scopes_counted(input: Seq<u8>, scan: Scan) -> bool {
    &&& scan.open.len() == unclosed(scan.tokens)
    &&& forall|i: int|
        0 <= i < scan.open.len() ==> (#[trigger] scan.open[i]) < input.len()
            && input[scan.open[i] as int] == OPEN_BRACE
}

/// What one more token does to the scopes that are left open.
proof fn lemma_unclosed_push(tokens: Seq<TokenView>, token: TokenView)
    ensures
        unclosed(tokens.push(token)) == match token {
            TokenView::StartScope => unclosed(tokens) + 1,
            TokenView::EndScope => if unclosed(tokens) > 0 {
                (unclosed(tokens) - 1) as nat
            } else {
                0
            },
            _ => unclosed(tokens),
        },
{
    assert(tokens.push(token).drop_last() =~= tokens);
}

/// A literal rule keeps the scopes counted.
proof fn lemma_literal_scopes(input: Seq<u8>, scan: Scan, literal: Literal)
    requires
        spans(input, scan),
        scopes_counted(input, scan),
        literal_rule(scan, literal) is Ok,
    ensures
        scopes_counted(input, literal_rule(scan, literal)->Ok_0),
        spans(input, literal_rule(scan, literal)->Ok_0),
{
    let after = literal_rule(scan, literal)->Ok_0;
    let n = input.len() as int;
    assert(input.subrange(n, n) =~= Seq::<u8>::empty());
    if after != scan {
        lemma_unclosed_push(scan.tokens, literal.token());
        lemma_ends_with_1(scan.span, OPEN_BRACE);
        assert(scan.span.len() > 0);
        assert(scan.span.last() == input[n - 1]);
    }
}

/// The rules keep the scopes counted.
proof fn lemma_rules_scopes(input: Seq<u8>, scan: Scan)
    requires
        spans(input, scan),
        scopes_counted(input, scan),
        apply_rules(scan) is Ok,
    ensures
        scopes_counted(input, apply_rules(scan)->Ok_0),
{
    let n = input.len() as int;
    assert(input.subrange(n, n) =~= Seq::<u8>::empty());
    let gate = gate_rule(scan);
    assert(scopes_counted(input, gate->Ok_0) && spans(input, gate->Ok_0)) by {
        if gate->Ok_0 != scan {
            lemma_unclosed_push(scan.tokens, gate->Ok_0.tokens.last());
        }
    }
    let name = then_name(gate);
    assert(scopes_counted(input, name->Ok_0) && spans(input, name->Ok_0)) by {
        let at = gate->Ok_0;
        if name->Ok_0 != at {
            lemma_unclosed_push(at.tokens, name->Ok_0.tokens.last());
            assert(input.subrange(n - 1, n) =~= seq![at.span.last()]);
        }
    }
    lemma_literal_scopes(input, name->Ok_0, Literal::StartScope);
    let start_scope = then_literal(name, Literal::StartScope);
    lemma_literal_scopes(input, start_scope->Ok_0, Literal::EndScope);
    let end_scope = then_literal(start_scope, Literal::EndScope);
    lemma_literal_scopes(input, end_scope->Ok_0, Literal::Input);
    let input_rule = then_literal(end_scope, Literal::Input);
    lemma_literal_scopes(input, input_rule->Ok_0, Literal::Output);
    let output = then_literal(input_rule, Literal::Output);
    lemma_literal_scopes(input, output->Ok_0, Literal::DeclareVar);
    let declare = then_literal(output, Literal::DeclareVar);
    lemma_literal_scopes(input, declare->Ok_0, Literal::Assignment);
    let assignment = then_literal(declare, Literal::Assignment);
    lemma_literal_scopes(input, assignment->Ok_0, Literal::SemiColon);
}

/// At every point of a scan, the scopes that it holds open are those that
/// its tokens leave open, and each starts at a `{` of the text.
pub proof fn lemma_scan_scopes(input: Seq<u8>)
    requires
        scan(input) is Ok,
    ensures
        scopes_counted(input, scan(input)->Ok_0),
    decreases input.len(),
{
    if input.len() > 0 {
        let front = input.drop_last();
        lemma_scan_scopes(front);
        lemma_scan_span(front);
        let before = scan(front)->Ok_0;
        let read = before.read(input.last());
        assert(read.span =~= input.subrange(before.offset as int, input.len() as int));
        lemma_rules_scopes(input, read);
    }
}

/// The tokens of a text leave no scope open.
pub proof fn lemma_scopes_closed(input: Seq<u8>)
    requires
        lex(input) is Ok,
    ensures
        unclosed(lex(input)->Ok_0) == 0,
{
    lemma_scan_scopes(input);
}

} // verus!
