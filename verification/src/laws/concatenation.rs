//! Two texts, one written after the other.

use crate::bytes::{lemma_ends_with_last, CLOSE_BRACE, CLOSE_PAREN, SEMICOLON};
use crate::laws::progress::lemma_scan_span;
use crate::lexer::{lex, scan};
use crate::rules::{apply_rules, gate_rule, literal_rule, then_literal, then_name, Literal, Scan};
use crate::token::{expects_name, LexError, TokenView};
use vstd::prelude::*;

verus! {

/// A scan that stands `by` bytes further into a longer text, after the
/// tokens `before`.
pub open spec fn moved(scan: Scan, by: nat, before: Seq<TokenView>) -> Scan {
    Scan {
        offset: scan.offset + by,
        span: scan.span,
        tokens: before + scan.tokens,
        open: scan.open.map_values(|offset: nat| offset + by),
    }
}

/// Tokens `before` that leave open whether a name comes next: the scan has
/// given a token since, or they do not call for a name.
pub open spec fn settled(before: Seq<TokenView>, scan: Scan) -> bool {
    scan.tokens.len() > 0 || !expects_name(before)
}

/// Where the rules give no error, they do the same to a scan that is moved.
pub proof fn lemma_rules_moved(scan: Scan, by: nat, before: Seq<TokenView>)
    requires
        apply_rules(scan) is Ok,
        settled(before, scan),
    ensures
        apply_rules(moved(scan, by, before)) == Ok::<Scan, LexError>(
            moved(apply_rules(scan)->Ok_0, by, before),
        ),
        settled(before, apply_rules(scan)->Ok_0),
{
    let far = moved(scan, by, before);
    let gate = gate_rule(scan);
    assert(gate_rule(far) == Ok::<Scan, LexError>(moved(gate->Ok_0, by, before))) by {
        lemma_give_moved(scan, by, before);
    }
    let name = then_name(gate);
    assert(then_name(gate_rule(far)) == Ok::<Scan, LexError>(moved(name->Ok_0, by, before))) by {
        let at = gate->Ok_0;
        assert(expects_name(before + at.tokens) == expects_name(at.tokens)) by {
            if at.tokens.len() > 0 {
                assert((before + at.tokens).last() == at.tokens.last());
            } else {
                assert(before + at.tokens =~= before);
            }
        }
        if name->Ok_0 != at {
            let token = name->Ok_0.tokens.last();
            assert((before + at.tokens).push(token) =~= before + at.tokens.push(token));
        }
    }
    lemma_literal_moved(name->Ok_0, by, before, Literal::StartScope);
    let start_scope = then_literal(name, Literal::StartScope);
    lemma_literal_moved(start_scope->Ok_0, by, before, Literal::EndScope);
    let end_scope = then_literal(start_scope, Literal::EndScope);
    lemma_literal_moved(end_scope->Ok_0, by, before, Literal::Input);
    let input = then_literal(end_scope, Literal::Input);
    lemma_literal_moved(input->Ok_0, by, before, Literal::Output);
    let output = then_literal(input, Literal::Output);
    lemma_literal_moved(output->Ok_0, by, before, Literal::DeclareVar);
    let declare = then_literal(output, Literal::DeclareVar);
    lemma_literal_moved(declare->Ok_0, by, before, Literal::Assignment);
    let assignment = then_literal(declare, Literal::Assignment);
    lemma_literal_moved(assignment->Ok_0, by, before, Literal::SemiColon);
}

/// To give a token and to move a scan can be done in either order.
proof fn lemma_give_moved(scan: Scan, by: nat, before: Seq<TokenView>)
    ensures
        forall|token: TokenView| #[trigger]
            moved(scan, by, before).give(token) == moved(scan.give(token), by, before),
{
    assert forall|token: TokenView| #[trigger]
        moved(scan, by, before).give(token) == moved(scan.give(token), by, before) by {
        assert((before + scan.tokens).push(token) =~= before + scan.tokens.push(token));
    }
}

/// Where a literal rule gives no error, it does the same to a scan that is
/// moved.
proof fn lemma_literal_moved(scan: Scan, by: nat, before: Seq<TokenView>, literal: Literal)
    requires
        literal_rule(scan, literal) is Ok,
    ensures
        literal_rule(moved(scan, by, before), literal) == Ok::<Scan, LexError>(
            moved(literal_rule(scan, literal)->Ok_0, by, before),
        ),
        settled(before, scan) ==> settled(before, literal_rule(scan, literal)->Ok_0),
{
    lemma_give_moved(scan, by, before);
    let after = literal_rule(scan, literal)->Ok_0;
    if after != scan {
        let shift = |offset: nat| offset + by;
        assert(moved(after, by, before).open =~= literal.nest(
            moved(scan, by, before).open,
            moved(scan, by, before).last_offset(),
        )) by {
            match literal {
                Literal::StartScope => {
                    assert(scan.open.push(scan.last_offset()).map_values(shift)
                        =~= scan.open.map_values(shift).push(scan.last_offset() + by));
                },
                Literal::EndScope => {
                    if scan.open.len() > 0 {
                        assert(scan.open.drop_last().map_values(shift) =~= scan.open.map_values(
                            shift,
                        ).drop_last());
                    }
                },
                _ => {},
            }
        }
    }
}

/// A scan with nothing pending and no scope open is the scan before the
/// first byte, moved.
proof fn lemma_start_moved(input: Seq<u8>)
    requires
        scan(input) is Ok,
        scan(input)->Ok_0.span.len() == 0,
        scan(input)->Ok_0.open.len() == 0,
    ensures
        scan(input)->Ok_0 == moved(Scan::start(), input.len(), scan(input)->Ok_0.tokens),
{
    let end = scan(input)->Ok_0;
    lemma_scan_span(input);
    assert(end.tokens + Seq::<TokenView>::empty() =~= end.tokens);
    assert(end =~= moved(Scan::start(), input.len(), end.tokens));
}

/// To read a byte and to move a scan can be done in either order.
proof fn lemma_read_moved(scan: Scan, by: nat, before: Seq<TokenView>, byte: u8)
    ensures
        moved(scan, by, before).read(byte) == moved(scan.read(byte), by, before),
{
}

/// The scan of a text that follows another, as far as it gives no error, is
/// the scan of the text alone, moved behind the other.
pub proof fn lemma_scan_after(first: Seq<u8>, second: Seq<u8>)
    requires
        scan(first) is Ok,
        scan(first)->Ok_0.span.len() == 0,
        scan(first)->Ok_0.open.len() == 0,
        !expects_name(scan(first)->Ok_0.tokens),
        scan(second) is Ok,
    ensures
        scan(first + second) == Ok::<Scan, LexError>(
            moved(scan(second)->Ok_0, first.len(), scan(first)->Ok_0.tokens),
        ),
        settled(scan(first)->Ok_0.tokens, scan(second)->Ok_0),
    decreases second.len(),
{
    let before = scan(first)->Ok_0.tokens;
    if second.len() == 0 {
        assert(first + second =~= first);
        lemma_start_moved(first);
    } else {
        let front = second.drop_last();
        let byte = second.last();
        assert(scan(front) is Ok);
        lemma_scan_after(first, front);
        let at = scan(front)->Ok_0;
        assert(scan(second) == apply_rules(at.read(byte)));
        let whole = first + second;
        assert(scan(whole) == apply_rules(moved(at.read(byte), first.len(), before))) by {
            assert(whole.drop_last() =~= first + front);
            assert(whole.last() == byte);
            lemma_read_moved(at, first.len(), before, byte);
        }
        lemma_rules_moved(at.read(byte), first.len(), before);
    }
}

/// The tokens of two texts written one after the other are the tokens of
/// the first and then those of the second, where each text alone gives
/// tokens and the first does not end with `let`, `in` or `out`.
pub proof fn lemma_concatenation(first: Seq<u8>, second: Seq<u8>)
    requires
        lex(first) is Ok,
        lex(second) is Ok,
        !expects_name(lex(first)->Ok_0),
    ensures
        lex(first + second) == Ok::<Seq<TokenView>, LexError>(
            lex(first)->Ok_0 + lex(second)->Ok_0,
        ),
{
    lemma_scan_after(first, second);
}

/// A byte that ends a statement: `)`, `;` or `}`.
pub open spec fn ends_statement(byte: u8) -> bool {
    byte == CLOSE_PAREN || byte == SEMICOLON || byte == CLOSE_BRACE
}

/// What holds of a scan while the rules are applied after a byte that ends
/// a statement: what is pending ends with that byte, and where nothing is
/// pending, the last token calls for no name.
spec fn closes(scan: Scan, byte: u8) -> bool {
    if scan.span.len() > 0 {
        scan.span.last() == byte
    } else {
        !expects_name(scan.tokens)
    }
}

/// A literal rule keeps a scan as [`closes`] asks, after a byte that ends a
/// statement.
proof fn lemma_literal_closes(scan: Scan, literal: Literal, byte: u8)
    requires
        ends_statement(byte),
        closes(scan, byte),
        literal_rule(scan, literal) is Ok,
    ensures
        closes(literal_rule(scan, literal)->Ok_0, byte),
{
    let after = literal_rule(scan, literal)->Ok_0;
    if after != scan {
        lemma_ends_with_last(scan.span, literal.pattern());
        assert(after.tokens.last() == literal.token());
    }
}

/// After a byte that ends a statement, the rules leave a text pending or a
/// last token that calls for no name.
proof fn lemma_rules_close(read: Scan)
    requires
        read.span.len() > 0,
        ends_statement(read.span.last()),
        apply_rules(read) is Ok,
    ensures
        closes(apply_rules(read)->Ok_0, read.span.last()),
{
    let byte = read.span.last();
    let gate = gate_rule(read);
    assert(closes(gate->Ok_0, byte)) by {
        if gate->Ok_0 != read {
            assert(gate->Ok_0.tokens.last() is Gate);
        }
    }
    let name = then_name(gate);
    assert(closes(name->Ok_0, byte)) by {
        if name->Ok_0 != gate->Ok_0 {
            assert(name->Ok_0.span.last() == byte);
        }
    }
    lemma_literal_closes(name->Ok_0, Literal::StartScope, byte);
    let start_scope = then_literal(name, Literal::StartScope);
    lemma_literal_closes(start_scope->Ok_0, Literal::EndScope, byte);
    let end_scope = then_literal(start_scope, Literal::EndScope);
    lemma_literal_closes(end_scope->Ok_0, Literal::Input, byte);
    let input = then_literal(end_scope, Literal::Input);
    lemma_literal_closes(input->Ok_0, Literal::Output, byte);
    let output = then_literal(input, Literal::Output);
    lemma_literal_closes(output->Ok_0, Literal::DeclareVar, byte);
    let declare = then_literal(output, Literal::DeclareVar);
    lemma_literal_closes(declare->Ok_0, Literal::Assignment, byte);
    let assignment = then_literal(declare, Literal::Assignment);
    lemma_literal_closes(assignment->Ok_0, Literal::SemiColon, byte);
}

/// A text that gives tokens and ends with `)`, `;` or `}` does not end with
/// the token `let`, `in` or `out`: no name is called for after it.
pub proof fn lemma_statement_end(input: Seq<u8>)
    requires
        lex(input) is Ok,
        input.len() > 0,
        ends_statement(input.last()),
    ensures
        !expects_name(lex(input)->Ok_0),
{
    let before = scan(input.drop_last())->Ok_0;
    let read = before.read(input.last());
    assert(read.span.last() == input.last());
    lemma_rules_close(read);
}

/// The tokens of two statements written one after the other are the tokens
/// of the first and then those of the second: for any two texts that give
/// tokens alone, where the first is empty or ends with `)`, `;` or `}`.
pub proof fn lemma_statements_concatenate(first: Seq<u8>, second: Seq<u8>)
    requires
        lex(first) is Ok,
        lex(second) is Ok,
        first.len() > 0 ==> ends_statement(first.last()),
    ensures
        lex(first + second) == Ok::<Seq<TokenView>, LexError>(
            lex(first)->Ok_0 + lex(second)->Ok_0,
        ),
{
    if first.len() > 0 {
        lemma_statement_end(first);
    }
    lemma_concatenation(first, second);
}

} // verus!
