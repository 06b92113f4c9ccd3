//! A gate declaration, scanned alone.

use crate::bytes::{
    all_name_bytes, chars_of, declare_keyword, ends_with, gate_keyword, has_letter, input_keyword,
    is_digit, is_letter, is_name_byte, lemma_bytes_of_chars, lemma_ends_with_1,
    lemma_first_occurrence, lemma_gate_keyword_at, lemma_longest_suffix, occurs_at, occurs_in,
    output_keyword, CLOSE_BRACE, CLOSE_PAREN, EQUALS, OPEN_BRACE, SEMICOLON,
};
use crate::header::{
    declaration_text, gate_headers, header_of, is_gate_header, lemma_header_has_layout,
    lemma_header_unique, lemma_text_layout, GateHeader,
};
use crate::lexer::{lex, scan};
use crate::numeral::{decimal, lemma_value_of_decimal, numeral_value};
use crate::rules::{apply_rules, finish, gate_rule, Scan};
use crate::token::{expects_name, LexError, TokenView};
use vstd::prelude::*;

verus! {

/// A byte that ends no pattern of a rule that gives a token without
/// looking at more than that byte.
pub open spec fn ends_no_token(byte: u8) -> bool {
    byte != CLOSE_PAREN && byte != OPEN_BRACE && byte != CLOSE_BRACE && byte != EQUALS && byte
        != SEMICOLON
}

/// No rule fires on a pending span that ends with no pattern, where no name
/// is called for.
pub proof fn lemma_no_rule_fires(scan: Scan)
    requires
        !expects_name(scan.tokens),
        scan.span.len() > 0 ==> ends_no_token(scan.span.last()),
        !ends_with(scan.span, input_keyword()),
        !ends_with(scan.span, output_keyword()),
        !ends_with(scan.span, declare_keyword()),
    ensures
        gate_rule(scan) == Ok::<Scan, LexError>(scan),
        apply_rules(scan) == Ok::<Scan, LexError>(scan),
{
    let span = scan.span;
    let n = span.len() as int;
    assert(gate_rule(scan) == Ok::<Scan, LexError>(scan)) by {
        lemma_longest_suffix(span, gate_headers(), 0);
        assert forall|j: int| 0 <= j <= n implies !gate_headers()(
            #[trigger] span.subrange(j, n),
        ) by {
            if is_gate_header(span.subrange(j, n)) {
                let header = header_of(span.subrange(j, n));
                lemma_text_layout(header);
                assert(span.subrange(j, n).last() == span.last());
            }
        }
    }
    lemma_ends_with_1(span, OPEN_BRACE);
    lemma_ends_with_1(span, CLOSE_BRACE);
    lemma_ends_with_1(span, EQUALS);
    lemma_ends_with_1(span, SEMICOLON);
}

/// What the bytes of a gate header are, and where its letters stand.
pub proof fn lemma_text_bytes(header: GateHeader)
    requires
        header.well_formed(),
    ensures
        forall|i: int|
            0 <= i < header.text().len() ==> {
                let byte = #[trigger] header.text()[i];
                &&& byte == CLOSE_PAREN ==> i == header.text().len() - 1
                &&& byte != OPEN_BRACE && byte != CLOSE_BRACE && byte != EQUALS && byte
                    != SEMICOLON
                &&& i < 5 ==> byte == gate_keyword()[i]
                &&& 5 <= i < 5 + header.name.len() ==> byte == header.name[i - 5]
                &&& 5 <= i && is_letter(byte) ==> i < 5 + header.name.len()
            },
{
    let text = header.text();
    let paren: int = header.name.len() as int + 5;
    let comma: int = paren + 1 + header.inputs.len();
    lemma_text_layout(header);
    assert(text.subrange(0, text.len() as int) =~= text);
    lemma_header_has_layout(text, 0, header);
    lemma_gate_keyword_at(text, 0);
    assert forall|i: int| 0 <= i < text.len() implies {
        let byte = #[trigger] text[i];
        &&& byte == CLOSE_PAREN ==> i == text.len() - 1
        &&& byte != OPEN_BRACE && byte != CLOSE_BRACE && byte != EQUALS && byte != SEMICOLON
        &&& i < 5 ==> byte == gate_keyword()[i]
        &&& 5 <= i < 5 + header.name.len() ==> byte == header.name[i - 5]
        &&& 5 <= i && is_letter(byte) ==> i < 5 + header.name.len()
    } by {
        if i < 5 {
        } else if i < paren {
            assert(text.subrange(5, paren)[i - 5] == text[i]);
            assert(is_name_byte(text[i]));
        } else if i == paren {
        } else if i < comma {
            assert(is_digit(text[i]));
        } else if i <= comma + 1 {
        } else if i < text.len() - 1 {
            assert(is_digit(text[i]));
        } else {
        }
    }
}

/// A name that holds none of the keywords `in`, `out` and `let`.
pub open spec fn holds_no_keyword(name: Seq<u8>) -> bool {
    &&& !occurs_in(name, input_keyword())
    &&& !occurs_in(name, output_keyword())
    &&& !occurs_in(name, declare_keyword())
}

/// A keyword that the rules look for is made of letters, and starts with a
/// letter that the keyword `Gate ` does not hold.
pub open spec fn is_word(keyword: Seq<u8>) -> bool {
    &&& keyword.len() > 0
    &&& forall|i: int| 0 <= i < keyword.len() ==> is_letter(#[trigger] keyword[i])
    &&& keyword[0] != 71 && keyword[0] != 97 && keyword[0] != 116 && keyword[0] != 101
}

/// The keywords `in`, `out` and `let` are words.
proof fn lemma_keywords_are_words()
    ensures
        is_word(input_keyword()),
        is_word(output_keyword()),
        is_word(declare_keyword()),
{
}

/// A keyword of letters that ends a gate header before its end stands in
/// the name of the header.
proof fn lemma_keyword_in_name(header: GateHeader, k: int, keyword: Seq<u8>)
    requires
        header.well_formed(),
        0 <= k <= header.text().len(),
        is_word(keyword),
        ends_with(header.text().take(k), keyword),
    ensures
        occurs_in(header.name, keyword),
{
    let text = header.text();
    let name = header.name;
    let from = k - keyword.len();
    lemma_text_bytes(header);
    let found = text.take(k).subrange(from, k);
    assert forall|i: int| 0 <= i < keyword.len() implies text[from + i] == keyword[i] by {
        assert(found[i] == text[from + i]);
    }
    assert(text[from] == keyword[0]);
    assert(from >= 5);
    assert forall|i: int| 0 <= i < keyword.len() implies from + i < 5 + name.len() && name[from
        - 5 + i] == #[trigger] keyword[i] by {
        assert(is_letter(keyword[i]));
        assert(text[from + i] == keyword[i]);
    }
    assert(from + (keyword.len() - 1) < 5 + name.len()) by {
        assert(is_letter(keyword[keyword.len() - 1]));
    }
    assert(name.subrange(from - 5, from - 5 + keyword.len()) =~= keyword);
    assert(occurs_at(name, keyword, from - 5));
}

/// A gate header whose name holds no keyword, read up to a byte before its
/// last, ends with no pattern of a rule.
proof fn lemma_front_ends_no_pattern(header: GateHeader, k: int)
    requires
        header.well_formed(),
        holds_no_keyword(header.name),
        0 < k < header.text().len(),
    ensures
        ends_no_token(header.text().take(k).last()),
        !ends_with(header.text().take(k), input_keyword()),
        !ends_with(header.text().take(k), output_keyword()),
        !ends_with(header.text().take(k), declare_keyword()),
{
    let text = header.text();
    let span = text.take(k);
    lemma_keywords_are_words();
    assert(ends_no_token(span.last())) by {
        lemma_text_bytes(header);
        assert(span.last() == text[k - 1]);
    }
    if ends_with(span, input_keyword()) {
        lemma_keyword_in_name(header, k, input_keyword());
    }
    if ends_with(span, output_keyword()) {
        lemma_keyword_in_name(header, k, output_keyword());
    }
    if ends_with(span, declare_keyword()) {
        lemma_keyword_in_name(header, k, declare_keyword());
    }
}

/// Before its last byte, a gate header whose name holds no keyword is read
/// into the pending span and no rule fires.
pub proof fn lemma_header_pending(header: GateHeader, k: int)
    requires
        header.well_formed(),
        holds_no_keyword(header.name),
        0 <= k < header.text().len(),
    ensures
        scan(header.text().take(k)) == Ok::<Scan, LexError>(
            Scan {
                offset: 0,
                span: header.text().take(k),
                tokens: Seq::empty(),
                open: Seq::empty(),
            },
        ),
    decreases k,
{
    let text = header.text();
    let span = text.take(k);
    if k == 0 {
        assert(span =~= Seq::<u8>::empty());
    } else {
        lemma_header_pending(header, k - 1);
        let read = Scan { offset: 0, span, tokens: Seq::empty(), open: Seq::empty() };
        assert(scan(span) == apply_rules(read)) by {
            assert(span.drop_last() =~= text.take(k - 1));
            assert(scan(text.take(k - 1))->Ok_0.read(span.last()) =~= read);
        }
        lemma_front_ends_no_pattern(header, k);
        lemma_no_rule_fires(read);
    }
}

/// The rules after the first do to a scan what they do to the scan that
/// the first rule makes of it.
proof fn lemma_after_gate(read: Scan, given: Scan)
    requires
        gate_rule(read) == Ok::<Scan, LexError>(given),
        gate_rule(given) == Ok::<Scan, LexError>(given),
    ensures
        apply_rules(read) == apply_rules(given),
{
}

/// The first rule fires on a gate header that is the whole pending span.
proof fn lemma_header_fires(header: GateHeader, read: Scan)
    requires
        header.well_formed(),
        numeral_value(header.inputs) <= 255,
        numeral_value(header.outputs) <= 255,
        read.span == header.text(),
    ensures
        gate_rule(read) == Ok::<Scan, LexError>(
            read.give(
                TokenView::Gate(
                    chars_of(header.name),
                    numeral_value(header.inputs) as u8,
                    numeral_value(header.outputs) as u8,
                ),
            ),
        ),
{
    let text = header.text();
    let n = text.len() as int;
    assert(text.subrange(0, n) =~= text);
    lemma_header_unique(text, header);
    assert(gate_headers()(text.subrange(0, n)));
    lemma_first_occurrence(text, gate_keyword(), 0);
}

/// The rules are applied to a gate header whose name holds no keyword when
/// all of it is pending.
proof fn lemma_header_read(header: GateHeader)
    requires
        header.well_formed(),
        holds_no_keyword(header.name),
    ensures
        scan(header.text()) == apply_rules(
            Scan { offset: 0, span: header.text(), tokens: Seq::empty(), open: Seq::empty() },
        ),
{
    let text = header.text();
    let n = text.len() as int;
    let read = Scan { offset: 0, span: text, tokens: Seq::empty(), open: Seq::empty() };
    lemma_text_layout(header);
    lemma_header_pending(header, n - 1);
    assert(text.drop_last() =~= text.take(n - 1));
    assert(scan(text.drop_last())->Ok_0.read(text.last()) =~= read);
}

/// A gate declaration alone gives one `Gate` token, with its name and its
/// counts, and nothing is left pending: for every name that holds none of
/// the keywords `in`, `out` and `let`, and all counts up to 255.
pub proof fn lemma_gate_declaration(header: GateHeader)
    requires
        header.well_formed(),
        holds_no_keyword(header.name),
        numeral_value(header.inputs) <= 255,
        numeral_value(header.outputs) <= 255,
    ensures
        lex(header.text()) == Ok::<Seq<TokenView>, LexError>(
            seq![
                TokenView::Gate(
                    chars_of(header.name),
                    numeral_value(header.inputs) as u8,
                    numeral_value(header.outputs) as u8,
                ),
            ],
        ),
{
    let text = header.text();
    let token = TokenView::Gate(
        chars_of(header.name),
        numeral_value(header.inputs) as u8,
        numeral_value(header.outputs) as u8,
    );
    let read = Scan { offset: 0, span: text, tokens: Seq::empty(), open: Seq::empty() };
    lemma_header_read(header);
    let given = read.give(token);
    assert(given.tokens =~= seq![token]);
    assert(!expects_name(given.tokens)) by {
        assert(given.tokens.last() == token);
    }
    lemma_header_fires(header, read);
    lemma_no_rule_fires(given);
    lemma_after_gate(read, given);
    assert(finish(given) == Ok::<Seq<TokenView>, LexError>(given.tokens));
}

/// A gate declaration written from a name and two counts gives the `Gate`
/// token that holds them: for every name of letters and separators that
/// holds a letter and none of the keywords `in`, `out` and `let`, and all
/// counts.
pub proof fn lemma_declaration_scans(name: Seq<u8>, inputs: u8, outputs: u8)
    requires
        all_name_bytes(name),
        has_letter(name),
        holds_no_keyword(name),
    ensures
        lex(declaration_text(chars_of(name), inputs, outputs)) == Ok::<Seq<TokenView>, LexError>(
            seq![TokenView::Gate(chars_of(name), inputs, outputs)],
        ),
{
    let header = GateHeader {
        name,
        inputs: decimal(inputs as nat),
        outputs: decimal(outputs as nat),
    };
    lemma_value_of_decimal(inputs as nat);
    lemma_value_of_decimal(outputs as nat);
    lemma_bytes_of_chars(name);
    lemma_gate_declaration(header);
}

} // verus!
