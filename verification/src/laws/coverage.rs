//! Why it is enough to look for a pattern at the end of the pending span.

use crate::bytes::{ends_with, lemma_longest_suffix};
use crate::header::{gate_headers, header_of, is_gate_header, lemma_text_layout};
use crate::laws::progress::lemma_rules_outcome;
use crate::lexer::scan;
use crate::rules::{is_name_clause, name_clauses, Literal, Scan};
use crate::token::expects_name;
use vstd::prelude::*;

verus! {

/// No part of the pending span is a pattern that a rule looks for: neither
/// a gate header nor the pattern of a literal rule, nor, where a name may
/// come next, a name clause.
pub open spec fn nothing_missed(scan: Scan) -> bool {
    forall|from: int, to: int|
        0 <= from <= to <= scan.span.len() ==> {
            let part = #[trigger] scan.span.subrange(from, to);
            &&& !is_gate_header(part)
            &&& forall|literal: Literal| part != #[trigger] literal.pattern()
            &&& expects_name(scan.tokens) ==> !is_name_clause(part)
        }
}

/// A rule that looks for its pattern at the end of the pending span misses
/// none that stands elsewhere in it: between two bytes of a scan, no
/// pattern stands in the pending span at all. A pattern is found when its
/// last byte is read.
pub proof fn lemma_nothing_missed(input: Seq<u8>)
    requires
        scan(input) is Ok,
    ensures
        nothing_missed(scan(input)->Ok_0),
    decreases input.len(),
{
    let after = scan(input)->Ok_0;
    if input.len() == 0 {
        lemma_short_part();
    } else {
        let before = scan(input.drop_last())->Ok_0;
        let read = before.read(input.last());
        lemma_nothing_missed(input.drop_last());
        lemma_rules_outcome(read);
        let n = read.span.len() as int;
        if after.span.len() <= 1 {
            lemma_short_part();
            assert forall|from: int, to: int| 0 <= from <= to <= after.span.len() implies {
                let part = #[trigger] after.span.subrange(from, to);
                &&& !is_gate_header(part)
                &&& forall|literal: Literal| part != #[trigger] literal.pattern()
                &&& expects_name(after.tokens) ==> !is_name_clause(part)
            } by {
                let part = after.span.subrange(from, to);
                assert forall|literal: Literal| part != #[trigger] literal.pattern() by {
                    if part == literal.pattern() {
                        assert(part.len() == 1);
                        assert(part =~= after.span);
                        assert(after.span.subrange(0, 1) =~= after.span);
                        assert(ends_with(after.span, literal.pattern()));
                    }
                }
            }
        } else {
            assert(after == read);
            lemma_longest_suffix(read.span, gate_headers(), 0);
            lemma_longest_suffix(read.span, name_clauses(), 0);
            assert forall|from: int, to: int| 0 <= from <= to <= n implies {
                let part = #[trigger] read.span.subrange(from, to);
                &&& !is_gate_header(part)
                &&& forall|literal: Literal| part != #[trigger] literal.pattern()
                &&& expects_name(read.tokens) ==> !is_name_clause(part)
            } by {
                let part = read.span.subrange(from, to);
                if to < n {
                    assert(part =~= before.span.subrange(from, to));
                } else {
                    assert(!gate_headers()(read.span.subrange(from, n)));
                    if expects_name(read.tokens) {
                        assert(!name_clauses()(read.span.subrange(from, n)));
                    }
                    assert forall|literal: Literal| part != #[trigger] literal.pattern() by {
                        if part == literal.pattern() {
                            assert(ends_with(read.span, literal.pattern()));
                        }
                    }
                }
            }
        }
    }
}

/// A gate header has twelve bytes at least, a name clause three, and the
/// pattern of a literal rule one.
proof fn lemma_short_part()
    ensures
        forall|text: Seq<u8>| #[trigger] is_gate_header(text) ==> text.len() >= 12,
        forall|text: Seq<u8>| #[trigger] is_name_clause(text) ==> text.len() >= 3,
        forall|literal: Literal| 1 <= (#[trigger] literal.pattern()).len() <= 3,
{
    assert forall|text: Seq<u8>| #[trigger] is_gate_header(text) implies text.len() >= 12 by {
        lemma_text_layout(header_of(text));
    }
}

} // verus!
