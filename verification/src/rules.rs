//! The lexical rules, and what each does to a scan.
//!
//! A scan holds the tokens given so far and the pending span: the bytes read
//! since the last token. After every byte the rules are tried on the pending
//! span, in a fixed order. A rule looks for its pattern at the end of the
//! span, wherever in the span the pattern starts; where it finds it, the rule
//! fires: it gives a token and empties the span. What stands in the span
//! before the pattern is passed over and gives no token.
//!
//! One thing is never passed over in silence: the keyword `Gate `. A rule
//! that fires behind it fails, as what followed the keyword was no gate
//! header. So does the end of the text: it fails on any span that is still
//! pending.
//!
//! A scan also keeps where each `{` stands that no `}` has closed yet. The
//! end of the text fails where one is left.

use crate::bytes::{
    chars_of, declare_keyword, ends_with, first_occurrence, gate_keyword, input_keyword, is_letter,
    lemma_ends_with_1, lemma_ends_with_2, lemma_ends_with_3, lemma_first_occurrence,
    lemma_gate_keyword_at, lemma_longest_suffix, letter, letters_between, longest_suffix,
    output_keyword, CLOSE_BRACE, EQUALS, OPEN_BRACE, SEMICOLON, SPACE,
};
use crate::header::{gate_headers, header_of};
use crate::numeral::count_of;
use crate::token::{expects_name, LexError, TokenView, Tokens};
use vstd::prelude::*;

verus! {

/// A scan between two bytes of the source text.
#[verifier::ext_equal]
pub ghost struct Scan {
    /// Where in the source text the pending span starts.
    pub offset: nat,
    /// The pending span: the bytes read since the last token.
    pub span: Seq<u8>,
    /// The tokens given so far.
    pub tokens: Seq<TokenView>,
    /// Where the scopes that are open start: the offset of each `{` that no
    /// `}` has closed yet, the innermost last.
    pub open: Seq<nat>,
}

impl Scan {
    /// The scan before the first byte.
    pub open spec fn start() -> Scan {
        Scan { offset: 0, span: Seq::empty(), tokens: Seq::empty(), open: Seq::empty() }
    }

    /// This scan with one more byte in its pending span.
    pub open spec fn read(self, byte: u8) -> Scan {
        Scan { span: self.span.push(byte), ..self }
    }

    /// This scan after a rule has fired: `token` is given and the pending
    /// span is empty.
    pub open spec fn give(self, token: TokenView) -> Scan {
        Scan {
            offset: self.offset + self.span.len(),
            span: Seq::empty(),
            tokens: self.tokens.push(token),
            open: self.open,
        }
    }

    /// This scan after the name rule has fired: `token` is given and the
    /// pending span holds the last byte alone.
    pub open spec fn give_name(self, token: TokenView) -> Scan {
        Scan {
            offset: (self.offset + self.span.len() - 1) as nat,
            span: seq![self.span.last()],
            tokens: self.tokens.push(token),
            open: self.open,
        }
    }

    /// Where the last byte of the pending span stands in the source text.
    pub open spec fn last_offset(self) -> nat {
        (self.offset + self.span.len() - 1) as nat
    }
}

/// A rule whose pattern is a fixed text.
#[derive(Clone, Copy, Debug, PartialEq, Eq, Structural)]
pub enum Literal {
    /// `{`
    StartScope,
    /// `}`
    EndScope,
    /// `in`
    Input,
    /// `out`
    Output,
    /// `let`
    DeclareVar,
    /// `=`
    Assignment,
    /// `;`
    SemiColon,
}

impl Literal {
    /// The text that the rule looks for.
    pub open spec fn pattern(self) -> Seq<u8> {
        match self {
            Literal::StartScope => seq![OPEN_BRACE],
            Literal::EndScope => seq![CLOSE_BRACE],
            Literal::Input => input_keyword(),
            Literal::Output => output_keyword(),
            Literal::DeclareVar => declare_keyword(),
            Literal::Assignment => seq![EQUALS],
            Literal::SemiColon => seq![SEMICOLON],
        }
    }

    /// The token that the rule gives.
    pub open spec fn token(self) -> TokenView {
        match self {
            Literal::StartScope => TokenView::StartScope,
            Literal::EndScope => TokenView::EndScope,
            Literal::Input => TokenView::Input,
            Literal::Output => TokenView::Output,
            Literal::DeclareVar => TokenView::DeclareVar,
            Literal::Assignment => TokenView::Assignment,
            Literal::SemiColon => TokenView::SemiColon,
        }
    }

    /// The scopes that are open after the rule has fired on a pattern that
    /// stands at `at`, where those of `open` were open before: `{` opens a
    /// scope, `}` closes the innermost, if one is open, and no other pattern
    /// does either.
    pub open spec fn nest(self, open: Seq<nat>, at: nat) -> Seq<nat> {
        match self {
            Literal::StartScope => open.push(at),
            Literal::EndScope => if open.len() > 0 {
                open.drop_last()
            } else {
                open
            },
            _ => open,
        }
    }

    /// How many bytes the pattern has.
    pub fn width(self) -> (width: usize)
        ensures
            width == self.pattern().len(),
            1 <= width <= 3,
    {
        match self {
            Literal::Input => 2,
            Literal::Output | Literal::DeclareVar => 3,
            _ => 1,
        }
    }

    /// Whether `span` ends with the pattern.
    pub fn ends(self, span: &[u8]) -> (yes: bool)
        ensures
            yes == ends_with(span@, self.pattern()),
    {
        let n = span.len();
        proof {
            lemma_ends_with_1(span@, OPEN_BRACE);
            lemma_ends_with_1(span@, CLOSE_BRACE);
            lemma_ends_with_1(span@, EQUALS);
            lemma_ends_with_1(span@, SEMICOLON);
            lemma_ends_with_2(span@, 105, 110);
            lemma_ends_with_3(span@, 111, 117, 116);
            lemma_ends_with_3(span@, 108, 101, 116);
        }
        match self {
            Literal::StartScope => n >= 1 && span[n - 1] == OPEN_BRACE,
            Literal::EndScope => n >= 1 && span[n - 1] == CLOSE_BRACE,
            Literal::Input => n >= 2 && span[n - 2] == 105 && span[n - 1] == 110,
            Literal::Output => n >= 3 && span[n - 3] == 111 && span[n - 2] == 117 && span[n - 1]
                == 116,
            Literal::DeclareVar => n >= 3 && span[n - 3] == 108 && span[n - 2] == 101 && span[n
                - 1] == 116,
            Literal::Assignment => n >= 1 && span[n - 1] == EQUALS,
            Literal::SemiColon => n >= 1 && span[n - 1] == SEMICOLON,
        }
    }

    /// The token that the rule gives.
    pub fn give(self) -> (token: Tokens)
        ensures
            token@ == self.token(),
    {
        match self {
            Literal::StartScope => Tokens::StartScope,
            Literal::EndScope => Tokens::EndScope,
            Literal::Input => Tokens::Input,
            Literal::Output => Tokens::Output,
            Literal::DeclareVar => Tokens::DeclareVar,
            Literal::Assignment => Tokens::Assignment,
            Literal::SemiColon => Tokens::SemiColon,
        }
    }
}

/// `text` is a name clause: a space, one letter or more, and a `;` or a
/// space that ends it.
pub open spec fn is_name_clause(text: Seq<u8>) -> bool {
    &&& text.len() >= 3
    &&& text[0] == SPACE
    &&& letters_between(text, 1, text.len() - 1)
    &&& (text.last() == SEMICOLON || text.last() == SPACE)
}

/// The name clause of `letters` that `end` ends: a space, the letters, and
/// `end`.
pub open spec fn name_clause(letters: Seq<u8>, end: u8) -> Seq<u8> {
    seq![SPACE] + letters + seq![end]
}

/// The class of texts that are a name clause.
pub open spec fn name_clauses() -> spec_fn(Seq<u8>) -> bool {
    |text: Seq<u8>| is_name_clause(text)
}

/// Where the keyword `Gate ` first stands in `span`, if that is before
/// `before`. A rule that fires on a pattern that starts at `before` passes
/// this keyword over.
pub open spec fn passed_keyword(span: Seq<u8>, before: int) -> Option<int> {
    match first_occurrence(span, gate_keyword(), 0) {
        Some(at) => if at < before {
            Some(at)
        } else {
            None
        },
        None => None,
    }
}

/// The first rule, that of a gate header. It fires where the pending span
/// ends with a gate header, and takes the longest. It gives a `Gate` token
/// with the header's name and counts. It fails where it passes the keyword
/// `Gate ` over, and where a count is above 255: at the first such count.
pub open spec fn gate_rule(scan: Scan) -> Result<Scan, LexError> {
    match longest_suffix(scan.span, gate_headers(), 0) {
        None => Ok(scan),
        Some(at) => {
            let header = header_of(scan.span.subrange(at, scan.span.len() as int));
            match passed_keyword(scan.span, at) {
                Some(keyword) => Err(
                    LexError::MalformedGateHeader((scan.offset + keyword) as usize),
                ),
                None => match (count_of(header.inputs), count_of(header.outputs)) {
                    (None, _) => Err(
                        LexError::ArityOutOfRange(
                            (scan.offset + at + header.inputs_at()) as usize,
                        ),
                    ),
                    (Some(_), None) => Err(
                        LexError::ArityOutOfRange(
                            (scan.offset + at + header.outputs_at()) as usize,
                        ),
                    ),
                    (Some(inputs), Some(outputs)) => Ok(
                        scan.give(TokenView::Gate(chars_of(header.name), inputs, outputs)),
                    ),
                },
            }
        },
    }
}

/// The second rule, the name. It is tried only where the last token is
/// `let`, `in` or `out`, and fires where the pending span ends with a name
/// clause; no span ends with more than one. It gives a `Name` token with the
/// letters of the clause, and keeps the last byte as the pending span, so
/// that a `;` there still gives its own token. It fails where it passes the
/// keyword `Gate ` over.
pub open spec fn name_rule(scan: Scan) -> Result<Scan, LexError> {
    if !expects_name(scan.tokens) {
        Ok(scan)
    } else {
        match longest_suffix(scan.span, name_clauses(), 0) {
            None => Ok(scan),
            Some(at) => match passed_keyword(scan.span, at) {
                Some(keyword) => Err(
                    LexError::MalformedGateHeader((scan.offset + keyword) as usize),
                ),
                None => Ok(
                    scan.give_name(
                        TokenView::Name(
                            chars_of(scan.span.subrange(at + 1, scan.span.len() - 1)),
                        ),
                    ),
                ),
            },
        }
    }
}

/// A rule with a fixed pattern. It fires where the pending span ends with
/// the pattern, and gives the rule's token; `{` opens a scope and `}` closes
/// one. It fails where it passes the keyword `Gate ` over.
pub open spec fn literal_rule(scan: Scan, literal: Literal) -> Result<Scan, LexError> {
    if ends_with(scan.span, literal.pattern()) {
        match passed_keyword(scan.span, scan.span.len() - literal.pattern().len()) {
            Some(keyword) => Err(LexError::MalformedGateHeader((scan.offset + keyword) as usize)),
            None => Ok(
                Scan {
                    open: literal.nest(scan.open, scan.last_offset()),
                    ..scan.give(literal.token())
                },
            ),
        }
    } else {
        Ok(scan)
    }
}

/// The name rule, tried after an earlier rule has not failed.
pub open spec fn then_name(earlier: Result<Scan, LexError>) -> Result<Scan, LexError> {
    match earlier {
        Ok(scan) => name_rule(scan),
        Err(error) => Err(error),
    }
}

/// A literal rule, tried after an earlier rule has not failed.
pub open spec fn then_literal(earlier: Result<Scan, LexError>, literal: Literal) -> Result<
    Scan,
    LexError,
> {
    match earlier {
        Ok(scan) => literal_rule(scan, literal),
        Err(error) => Err(error),
    }
}

/// All rules, each tried once and in order on what the rule before it left.
pub open spec fn apply_rules(scan: Scan) -> Result<Scan, LexError> {
    let gate = gate_rule(scan);
    let name = then_name(gate);
    let start_scope = then_literal(name, Literal::StartScope);
    let end_scope = then_literal(start_scope, Literal::EndScope);
    let input = then_literal(end_scope, Literal::Input);
    let output = then_literal(input, Literal::Output);
    let declare = then_literal(output, Literal::DeclareVar);
    let assignment = then_literal(declare, Literal::Assignment);
    then_literal(assignment, Literal::SemiColon)
}

/// What the end of the source text makes of a scan: its tokens, where the
/// pending span is empty and no scope is open. Else it fails. Where a span
/// is pending, it fails at the keyword `Gate `, where the span holds it, and
/// else at the start of the span. Where nothing is pending, it fails at the
/// outermost scope that is open.
pub open spec fn finish(scan: Scan) -> Result<Seq<TokenView>, LexError> {
    if scan.span.len() > 0 {
        match first_occurrence(scan.span, gate_keyword(), 0) {
            Some(keyword) => Err(LexError::MalformedGateHeader((scan.offset + keyword) as usize)),
            None => Err(LexError::UnterminatedSpan(scan.offset as usize)),
        }
    } else if scan.open.len() > 0 {
        Err(LexError::UnterminatedScope(scan.open.first() as usize))
    } else {
        Ok(scan.tokens)
    }
}

/// Where in `text` a suffix starts that is a name clause.
pub proof fn lemma_name_clause_at(text: Seq<u8>, at: int)
    requires
        0 <= at <= text.len(),
    ensures
        is_name_clause(text.subrange(at, text.len() as int)) <==> {
            &&& at + 3 <= text.len()
            &&& text[at] == SPACE
            &&& letters_between(text, at + 1, text.len() - 1)
            &&& (text.last() == SEMICOLON || text.last() == SPACE)
        },
{
    let n = text.len() as int;
    let tail = text.subrange(at, n);
    if at + 3 <= n {
        assert(tail[0] == text[at]);
        assert(tail.last() == text.last());
        if is_name_clause(tail) {
            assert forall|k: int| at + 1 <= k < n - 1 implies is_letter(#[trigger] text[k]) by {
                assert(tail[k - at] == text[k]);
            }
        }
        if letters_between(text, at + 1, n - 1) {
            assert forall|k: int| 1 <= k < tail.len() - 1 implies is_letter(#[trigger] tail[k]) by {
                assert(tail[k] == text[at + k]);
            }
        }
    }
}

/// Looks for a name clause at the end of `span`, and returns where it
/// starts.
pub fn find_name_clause(span: &[u8]) -> (found: Option<usize>)
    ensures
        match longest_suffix(span@, name_clauses(), 0) {
            Some(at) => found == Some(at as usize) && 0 <= at && at + 3 <= span.len(),
            None => found is None,
        },
{
    let n = span.len();
    proof {
        lemma_longest_suffix(span@, name_clauses(), 0);
        assert forall|q: int| 0 <= q <= n implies (name_clauses()(
            #[trigger] span@.subrange(q, n as int),
        ) <==> {
            &&& q + 3 <= n
            &&& span@[q] == SPACE
            &&& letters_between(span@, q + 1, n - 1)
            &&& (span@.last() == SEMICOLON || span@.last() == SPACE)
        }) by {
            lemma_name_clause_at(span@, q);
        }
    }
    if n < 3 || (span[n - 1] != SEMICOLON && span[n - 1] != SPACE) {
        return None;
    }
    let mut j: usize = n - 1;
    while j > 0 && letter(span[j - 1])
        invariant
            j <= n - 1,
            n == span.len(),
            letters_between(span@, j as int, n - 1),
        decreases j,
    {
        j -= 1;
    }
    let found = if j < n - 1 && j > 0 && span[j - 1] == SPACE {
        Some(j - 1)
    } else {
        None
    };
    proof {
        assert forall|q: int| 0 <= q <= n && q != j - 1 implies !name_clauses()(
            #[trigger] span@.subrange(q, n as int),
        ) by {
            if q + 3 <= n && span@[q] == SPACE && letters_between(span@, q + 1, n - 1) {
                if q < j - 1 {
                    assert(is_letter(span@[j - 1]));
                } else {
                    assert(is_letter(span@[q]));
                }
            }
        }
        if found is Some {
            assert(name_clauses()(span@.subrange(j - 1, n as int)));
        }
    }
    found
}

/// Looks for the keyword `Gate ` in `span`, and returns where it first stands.
pub fn find_gate_keyword(span: &[u8]) -> (found: Option<usize>)
    ensures
        match first_occurrence(span@, gate_keyword(), 0) {
            Some(at) => found == Some(at as usize) && 0 <= at && at + 5 <= span.len(),
            None => found is None,
        },
{
    let n = span.len();
    let mut q: usize = 0;
    proof {
        lemma_first_occurrence(span@, gate_keyword(), 0);
    }
    while n >= 5 && q <= n - 5
        invariant
            n == span.len(),
            first_occurrence(span@, gate_keyword(), 0) == first_occurrence(
                span@,
                gate_keyword(),
                q as int,
            ),
        decreases n - q,
    {
        proof {
            lemma_gate_keyword_at(span@, q as int);
        }
        if span[q] == 71 && span[q + 1] == 97 && span[q + 2] == 116 && span[q + 3] == 101 && span[q
            + 4] == 32 {
            return Some(q);
        }
        q += 1;
    }
    None
}

} // verus!
