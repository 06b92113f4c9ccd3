//! How a scan moves on: where its pending span stands, and what the rules
//! can make of it.

use crate::bytes::{ends_with, lemma_longest_suffix, longest_suffix};
use crate::header::gate_headers;
use crate::lexer::scan;
use crate::rules::{
    apply_rules, gate_rule, literal_rule, name_clauses, then_literal, then_name, Literal, Scan,
};
use crate::token::{expects_name, TokenView};
use vstd::prelude::*;

verus! {

/// The pending span of a scan is the end of what was read, and starts at
/// the scan's offset.
pub open spec fn spans(input: Seq<u8>, scan: Scan) -> bool {
    &&& scan.offset <= input.len()
    &&& scan.span == input.subrange(scan.offset as int, input.len() as int)
}

/// The rules keep the pending span at the end of what was read.
pub proof fn lemma_rules_span(input: Seq<u8>, scan: Scan)
    requires
        spans(input, scan),
        apply_rules(scan) is Ok,
    ensures
        spans(input, apply_rules(scan)->Ok_0),
{
    let n = input.len() as int;
    assert(input.subrange(n, n) =~= Seq::<u8>::empty());
    let gate = gate_rule(scan);
    assert(spans(input, gate->Ok_0));
    let name = then_name(gate);
    assert(spans(input, name->Ok_0)) by {
        let before = gate->Ok_0;
        if name->Ok_0 != before {
            assert(input.subrange(n - 1, n) =~= seq![before.span.last()]);
        }
    }
    let start_scope = then_literal(name, Literal::StartScope);
    assert(spans(input, start_scope->Ok_0));
    let end_scope = then_literal(start_scope, Literal::EndScope);
    assert(spans(input, end_scope->Ok_0));
    let input_rule = then_literal(end_scope, Literal::Input);
    assert(spans(input, input_rule->Ok_0));
    let output = then_literal(input_rule, Literal::Output);
    assert(spans(input, output->Ok_0));
    let declare = then_literal(output, Literal::DeclareVar);
    assert(spans(input, declare->Ok_0));
    let assignment = then_literal(declare, Literal::Assignment);
    assert(spans(input, assignment->Ok_0));
}

/// At every point of a scan, the pending span is the end of what was read.
pub proof fn lemma_scan_span(input: Seq<u8>)
    requires
        scan(input) is Ok,
    ensures
        spans(input, scan(input)->Ok_0),
    decreases input.len(),
{
    if input.len() == 0 {
        assert(input.subrange(0, 0) =~= Seq::<u8>::empty());
    } else {
        let front = input.drop_last();
        lemma_scan_span(front);
        let before = scan(front)->Ok_0;
        assert(before.read(input.last()).span =~= input.subrange(
            before.offset as int,
            input.len() as int,
        ));
        lemma_rules_span(input, before.read(input.last()));
    }
}

/// No literal rule finds its pattern at the end of `span`.
pub open spec fn ends_with_no_literal(span: Seq<u8>) -> bool {
    forall|literal: Literal| !ends_with(span, #[trigger] literal.pattern())
}

/// What the rules make of a scan `read`, where they give no error, is one
/// of three things. A rule has fired and nothing is pending. Or the name
/// rule has fired, and the byte that ended the name is pending and is no
/// token by itself. Or no rule has fired: no rule found its pattern at the
/// end of the pending span.
pub open spec fn outcome(read: Scan, after: Scan) -> bool {
    ||| after.span.len() == 0
    ||| {
        &&& read.span.len() > 0
        &&& after.span == seq![read.span.last()]
        &&& !expects_name(after.tokens)
        &&& ends_with_no_literal(after.span)
    }
    ||| {
        &&& after == read
        &&& longest_suffix(read.span, gate_headers(), 0) is None
        &&& expects_name(read.tokens) ==> longest_suffix(read.span, name_clauses(), 0) is None
        &&& ends_with_no_literal(read.span)
    }
}

/// After a literal rule that has not fired, the pending span does not end
/// with its pattern; after one that has fired, nothing is pending.
proof fn lemma_literal_outcome(scan: Scan, literal: Literal)
    requires
        literal_rule(scan, literal) is Ok,
    ensures
        ({
            let after = literal_rule(scan, literal)->Ok_0;
            ||| after.span.len() == 0
            ||| after == scan && !ends_with(scan.span, literal.pattern())
        }),
{
}

/// The rules end in one of the three ways that [`outcome`] tells apart.
pub proof fn lemma_rules_outcome(read: Scan)
    requires
        apply_rules(read) is Ok,
    ensures
        outcome(read, apply_rules(read)->Ok_0),
{
    let after = apply_rules(read)->Ok_0;
    let gate = gate_rule(read);
    let name = then_name(gate);
    let start_scope = then_literal(name, Literal::StartScope);
    let end_scope = then_literal(start_scope, Literal::EndScope);
    let input = then_literal(end_scope, Literal::Input);
    let output = then_literal(input, Literal::Output);
    let declare = then_literal(output, Literal::DeclareVar);
    let assignment = then_literal(declare, Literal::Assignment);
    lemma_literal_outcome(name->Ok_0, Literal::StartScope);
    lemma_literal_outcome(start_scope->Ok_0, Literal::EndScope);
    lemma_literal_outcome(end_scope->Ok_0, Literal::Input);
    lemma_literal_outcome(input->Ok_0, Literal::Output);
    lemma_literal_outcome(output->Ok_0, Literal::DeclareVar);
    lemma_literal_outcome(declare->Ok_0, Literal::Assignment);
    lemma_literal_outcome(assignment->Ok_0, Literal::SemiColon);
    if after.span.len() > 0 {
        assert(after == name->Ok_0);
        assert forall|literal: Literal| !ends_with(after.span, #[trigger] literal.pattern()) by {
            match literal {
                Literal::StartScope => {},
                Literal::EndScope => {},
                Literal::Input => {},
                Literal::Output => {},
                Literal::DeclareVar => {},
                Literal::Assignment => {},
                Literal::SemiColon => {},
            }
        }
        if name->Ok_0 != gate->Ok_0 {
            lemma_longest_suffix(read.span, name_clauses(), 0);
            assert(after.tokens.last() is Name);
        }
    }
}

/// A literal rule takes no token back.
proof fn lemma_literal_append(first: Seq<TokenView>, scan: Scan, literal: Literal)
    requires
        first.is_prefix_of(scan.tokens),
        literal_rule(scan, literal) is Ok,
    ensures
        first.is_prefix_of(literal_rule(scan, literal)->Ok_0.tokens),
{
}

/// The rules take no token back: the tokens before them start the tokens
/// after them.
pub proof fn lemma_rules_append(scan: Scan)
    requires
        apply_rules(scan) is Ok,
    ensures
        scan.tokens.is_prefix_of(apply_rules(scan)->Ok_0.tokens),
{
    let first = scan.tokens;
    let gate = gate_rule(scan);
    assert(first.is_prefix_of(gate->Ok_0.tokens));
    let name = then_name(gate);
    assert(first.is_prefix_of(name->Ok_0.tokens));
    lemma_literal_append(first, name->Ok_0, Literal::StartScope);
    let start_scope = then_literal(name, Literal::StartScope);
    lemma_literal_append(first, start_scope->Ok_0, Literal::EndScope);
    let end_scope = then_literal(start_scope, Literal::EndScope);
    lemma_literal_append(first, end_scope->Ok_0, Literal::Input);
    let input = then_literal(end_scope, Literal::Input);
    lemma_literal_append(first, input->Ok_0, Literal::Output);
    let output = then_literal(input, Literal::Output);
    lemma_literal_append(first, output->Ok_0, Literal::DeclareVar);
    let declare = then_literal(output, Literal::DeclareVar);
    lemma_literal_append(first, declare->Ok_0, Literal::Assignment);
    let assignment = then_literal(declare, Literal::Assignment);
    lemma_literal_append(first, assignment->Ok_0, Literal::SemiColon);
}

/// A scan only adds tokens: the tokens that the first `n` bytes of a text
/// give start the tokens of the whole text.
pub proof fn lemma_tokens_append(input: Seq<u8>, n: int)
    requires
        0 <= n <= input.len(),
        scan(input) is Ok,
    ensures
        scan(input.take(n)) is Ok,
        scan(input.take(n))->Ok_0.tokens.is_prefix_of(scan(input)->Ok_0.tokens),
    decreases input.len() - n,
{
    if n == input.len() {
        assert(input.take(n) =~= input);
    } else {
        lemma_tokens_append(input, n + 1);
        let longer = input.take(n + 1);
        assert(longer.drop_last() =~= input.take(n));
        lemma_rules_append(scan(input.take(n))->Ok_0.read(longer.last()));
    }
}

} // verus!
