//! The scanner: source text in, tokens out.

use crate::bytes::chars_of;
use crate::header::{find_gate_header, HeaderSpan};
use crate::numeral::parse_count;
use crate::rules::{
    apply_rules, find_gate_keyword, find_name_clause, finish, gate_rule, literal_rule, name_rule,
    passed_keyword, Literal, Scan,
};
use crate::token::{views_of, LexError, TokenView, Tokens};
use vstd::prelude::*;
use vstd::slice::slice_subrange;
use vstd::string::StringSliceAdditionalSpecFns;
use vstd::utf8::encode_utf8;

verus! {

/// The scan after the bytes of `input`: each byte is read into the pending
/// span, and the rules are applied after it.
pub open spec fn scan(input: Seq<u8>) -> Result<Scan, LexError>
    decreases input.len(),
{
    if input.len() == 0 {
        Ok(Scan::start())
    } else {
        match scan(input.drop_last()) {
            Ok(before) => apply_rules(before.read(input.last())),
            Err(error) => Err(error),
        }
    }
}

/// The tokens of `input`, or the first error of its scan.
pub open spec fn lex(input: Seq<u8>) -> Result<Seq<TokenView>, LexError> {
    match scan(input) {
        Ok(end) => finish(end),
        Err(error) => Err(error),
    }
}

/// Whether `result` is what `expected` says it is: the same error, or
/// tokens with those views.
pub open spec fn gives(
    result: Result<Vec<Tokens>, LexError>,
    expected: Result<Seq<TokenView>, LexError>,
) -> bool {
    match (result, expected) {
        (Ok(tokens), Ok(views)) => views_of(tokens@) == views,
        (Err(error), Err(other)) => error == other,
        _ => false,
    }
}

/// `String::push` of the standard library, which this crate takes on trust:
/// it adds `ch` at the end of `text` and changes nothing else.
pub assume_specification[ String::push ](text: &mut String, ch: char)
    ensures
        final(text)@ == old(text)@.push(ch),
;

/// The bytes `from..to` of `bytes` as a string, each byte one character.
fn text_of(bytes: &[u8], from: usize, to: usize) -> (text: String)
    requires
        from <= to <= bytes.len(),
    ensures
        text@ == chars_of(bytes@.subrange(from as int, to as int)),
{
    let mut text = String::new();
    let mut i: usize = from;
    while i < to
        invariant
            from <= i <= to <= bytes.len(),
            text@ == chars_of(bytes@.subrange(from as int, i as int)),
        decreases to - i,
    {
        text.push(bytes[i] as char);
        i += 1;
    }
    text
}

/// A scan in progress over a source text.
struct Scanner {
    /// Where the pending span starts.
    start: usize,
    /// The tokens given so far.
    tokens: Vec<Tokens>,
    /// Where the scopes that are open start, the innermost last.
    open: Vec<usize>,
}

/// The offsets of `open` as numbers without a bound.
spec fn offsets_of(open: Seq<usize>) -> Seq<nat> {
    open.map_values(|offset: usize| offset as nat)
}

impl Scanner {
    /// The scan that this scanner is at, when it has read `bytes` up to `end`.
    spec fn at(&self, bytes: Seq<u8>, end: int) -> Scan {
        Scan {
            offset: self.start as nat,
            span: bytes.subrange(self.start as int, end),
            tokens: views_of(self.tokens@),
            open: offsets_of(self.open@),
        }
    }

    /// Gives `token` and empties the pending span.
    fn give(&mut self, token: Tokens, bytes: &[u8], end: usize)
        requires
            old(self).start <= end <= bytes.len(),
        ensures
            final(self).at(bytes@, end as int) == old(self).at(bytes@, end as int).give(token@),
            final(self).start == end,
    {
        self.tokens.push(token);
        self.start = end;
        proof {
            assert(views_of(self.tokens@) =~= views_of(old(self).tokens@).push(token@));
            assert(self.at(bytes@, end as int) =~= old(self).at(bytes@, end as int).give(token@));
        }
    }

    /// Fails where a rule that fires at `before` in the pending span passes
    /// the keyword `Gate ` over.
    fn check_passed(&self, span: &[u8], before: usize) -> (result: Result<(), LexError>)
        requires
            self.start + span.len() <= usize::MAX,
        ensures
            match passed_keyword(span@, before as int) {
                Some(keyword) => result == Err::<(), LexError>(
                    LexError::MalformedGateHeader((self.start + keyword) as usize),
                ),
                None => result is Ok,
            },
    {
        match find_gate_keyword(span) {
            Some(keyword) => {
                if keyword < before {
                    Err(LexError::MalformedGateHeader(self.start + keyword))
                } else {
                    Ok(())
                }
            },
            None => Ok(()),
        }
    }

    /// Applies the rule of a gate header.
    fn gate_rule(&mut self, bytes: &[u8], end: usize) -> (result: Result<(), LexError>)
        requires
            old(self).start <= end <= bytes.len(),
        ensures
            match gate_rule(old(self).at(bytes@, end as int)) {
                Ok(next) => result is Ok && final(self).at(bytes@, end as int) == next,
                Err(error) => result == Err::<(), LexError>(error),
            },
            final(self).start <= end,
    {
        let span = slice_subrange(bytes, self.start, end);
        match find_gate_header(span) {
            None => Ok(()),
            Some(found) => {
                let HeaderSpan { at, paren, comma } = found;
                let close: usize = span.len() - 1;
                match self.check_passed(span, at) {
                    Err(error) => Err(error),
                    Ok(()) => {
                        let inputs = parse_count(span, paren + 1, comma);
                        let outputs = parse_count(span, comma + 2, close);
                        match (inputs, outputs) {
                            (None, _) => Err(LexError::ArityOutOfRange(self.start + paren + 1)),
                            (Some(_), None) => Err(
                                LexError::ArityOutOfRange(self.start + comma + 2),
                            ),
                            (Some(inputs), Some(outputs)) => {
                                let name = text_of(span, at + 5, paren);
                                self.give(Tokens::Gate(name, inputs, outputs), bytes, end);
                                Ok(())
                            },
                        }
                    },
                }
            },
        }
    }

    /// Applies the name rule.
    fn name_rule(&mut self, bytes: &[u8], end: usize) -> (result: Result<(), LexError>)
        requires
            old(self).start <= end <= bytes.len(),
        ensures
            match name_rule(old(self).at(bytes@, end as int)) {
                Ok(next) => result is Ok && final(self).at(bytes@, end as int) == next,
                Err(error) => result == Err::<(), LexError>(error),
            },
            final(self).start <= end,
    {
        let count = self.tokens.len();
        if count == 0 || !self.tokens[count - 1].opens_name() {
            proof {
                let views = views_of(self.tokens@);
                if count > 0 {
                    assert(views.last() == self.tokens@[count - 1]@);
                }
            }
            return Ok(());
        }
        proof {
            let views = views_of(self.tokens@);
            assert(views.last() == self.tokens@[count - 1]@);
        }
        let span = slice_subrange(bytes, self.start, end);
        match find_name_clause(span) {
            None => Ok(()),
            Some(at) => {
                match self.check_passed(span, at) {
                    Err(error) => Err(error),
                    Ok(()) => {
                        let name = text_of(span, at + 1, span.len() - 1);
                        let ghost before = self.at(bytes@, end as int);
                        self.tokens.push(Tokens::Name(name));
                        self.start = end - 1;
                        proof {
                            assert(views_of(self.tokens@) =~= before.tokens.push(
                                TokenView::Name(name@),
                            ));
                            assert(self.at(bytes@, end as int).span =~= seq![before.span.last()]);
                        }
                        Ok(())
                    },
                }
            },
        }
    }

    /// Applies the rule of `literal`.
    fn literal_rule(&mut self, bytes: &[u8], end: usize, literal: Literal) -> (result: Result<
        (),
        LexError,
    >)
        requires
            old(self).start <= end <= bytes.len(),
        ensures
            match literal_rule(old(self).at(bytes@, end as int), literal) {
                Ok(next) => result is Ok && final(self).at(bytes@, end as int) == next,
                Err(error) => result == Err::<(), LexError>(error),
            },
            final(self).start <= end,
    {
        let span = slice_subrange(bytes, self.start, end);
        if literal.ends(span) {
            match self.check_passed(span, span.len() - literal.width()) {
                Err(error) => Err(error),
                Ok(()) => {
                    let ghost before = self.at(bytes@, end as int);
                    self.give(literal.give(), bytes, end);
                    match literal {
                        Literal::StartScope => {
                            self.open.push(end - 1);
                            proof {
                                assert(offsets_of(self.open@) =~= before.open.push(
                                    before.last_offset(),
                                ));
                            }
                        },
                        Literal::EndScope => {
                            let closed = self.open.pop();
                            proof {
                                if closed is Some {
                                    assert(offsets_of(self.open@) =~= before.open.drop_last());
                                }
                            }
                        },
                        _ => {},
                    }
                    Ok(())
                },
            }
        } else {
            Ok(())
        }
    }

    /// Applies all rules, in order, to the pending span that ends at `end`.
    fn apply_rules(&mut self, bytes: &[u8], end: usize) -> (result: Result<(), LexError>)
        requires
            old(self).start <= end <= bytes.len(),
        ensures
            match apply_rules(old(self).at(bytes@, end as int)) {
                Ok(next) => result is Ok && final(self).at(bytes@, end as int) == next,
                Err(error) => result == Err::<(), LexError>(error),
            },
            final(self).start <= end,
    {
        self.gate_rule(bytes, end)?;
        self.name_rule(bytes, end)?;
        self.literal_rule(bytes, end, Literal::StartScope)?;
        self.literal_rule(bytes, end, Literal::EndScope)?;
        self.literal_rule(bytes, end, Literal::Input)?;
        self.literal_rule(bytes, end, Literal::Output)?;
        self.literal_rule(bytes, end, Literal::DeclareVar)?;
        self.literal_rule(bytes, end, Literal::Assignment)?;
        self.literal_rule(bytes, end, Literal::SemiColon)
    }

    /// Ends the scan: the tokens, where nothing is pending.
    fn finish(self, bytes: &[u8]) -> (result: Result<Vec<Tokens>, LexError>)
        requires
            self.start <= bytes.len(),
        ensures
            gives(result, finish(self.at(bytes@, bytes.len() as int))),
    {
        if self.start < bytes.len() {
            let span = slice_subrange(bytes, self.start, bytes.len());
            match find_gate_keyword(span) {
                Some(keyword) => Err(LexError::MalformedGateHeader(self.start + keyword)),
                None => Err(LexError::UnterminatedSpan(self.start)),
            }
        } else if self.open.len() > 0 {
            Err(LexError::UnterminatedScope(self.open[0]))
        } else {
            Ok(self.tokens)
        }
    }
}

/// Scans `bytes` and returns its tokens.
///
/// The bytes are read one at a time into the pending span, and after each
/// one the rules are applied. The scan gives the tokens in the order of the
/// source text. It fails, with the offset of what is wrong, where a gate
/// header holds a count above 255, where the keyword `Gate ` is passed over
/// without a header, where the text ends within a pending span, and where
/// it ends within a scope.
pub fn tokenize_bytes(bytes: &[u8]) -> (result: Result<Vec<Tokens>, LexError>)
    ensures
        gives(result, lex(bytes@)),
{
    let mut scanner = Scanner { start: 0, tokens: Vec::new(), open: Vec::new() };
    let mut end: usize = 0;
    proof {
        assert(bytes@.take(0) =~= Seq::<u8>::empty());
        assert(scanner.at(bytes@, 0) =~= Scan::start());
    }
    while end < bytes.len()
        invariant
            scanner.start <= end <= bytes.len(),
            scan(bytes@.take(end as int)) == Ok::<Scan, LexError>(scanner.at(bytes@, end as int)),
        decreases bytes.len() - end,
    {
        proof {
            lemma_scan_step(bytes@, end + 1);
            assert(scanner.at(bytes@, end + 1) =~= scanner.at(bytes@, end as int).read(
                bytes@[end as int],
            ));
        }
        end += 1;
        match scanner.apply_rules(bytes, end) {
            Ok(()) => {},
            Err(error) => {
                proof {
                    lemma_scan_error(bytes@, end as int);
                }
                return Err(error);
            },
        }
    }
    proof {
        assert(bytes@.take(end as int) =~= bytes@);
    }
    scanner.finish(bytes)
}

/// The scan of the first `n` bytes is made from the scan of the bytes
/// before the last of them, by reading that byte and applying the rules.
proof fn lemma_scan_step(input: Seq<u8>, n: int)
    requires
        0 < n <= input.len(),
    ensures
        scan(input.take(n)) == match scan(input.take(n - 1)) {
            Ok(before) => apply_rules(before.read(input[n - 1])),
            Err(error) => Err(error),
        },
{
    assert(input.take(n).drop_last() =~= input.take(n - 1));
}

/// Scans `content` and returns its tokens: those of its bytes, as
/// [`tokenize_bytes`] gives them.
pub fn tokenize(content: String) -> (result: Result<Vec<Tokens>, LexError>)
    ensures
        gives(result, lex(encode_utf8(content@))),
{
    tokenize_bytes(content.as_str().as_bytes())
}

/// An error in the scan of the first `n` bytes is the error of the whole.
pub proof fn lemma_scan_error(input: Seq<u8>, n: int)
    requires
        0 <= n <= input.len(),
        scan(input.take(n)) is Err,
    ensures
        scan(input) == scan(input.take(n)),
        lex(input) == Err::<Seq<TokenView>, LexError>(scan(input.take(n))->Err_0),
    decreases input.len() - n,
{
    if n == input.len() {
        assert(input.take(n) =~= input);
    } else {
        assert(input.take(n + 1).drop_last() =~= input.take(n));
        lemma_scan_error(input, n + 1);
    }
}

} // verus!
