//! Gate headers: `Gate `, a name, and the two counts in parentheses.

use crate::bytes::{
    all_digits, all_name_bytes, bytes_of, digit, digits_between, gate_keyword, has_letter, is_digit, is_letter,
    is_name_byte, lemma_gate_keyword_at, lemma_longest_suffix, letter, letter_between,
    longest_suffix, name_byte, name_bytes_between, occurs_at, CLOSE_PAREN, COMMA, OPEN_PAREN, SPACE,
};
use crate::numeral::{decimal, is_numeral};
use vstd::prelude::*;

verus! {

/// The parts of a gate header that vary.
#[verifier::ext_equal]
pub ghost struct GateHeader {
    /// The name: letters and separators.
    pub name: Seq<u8>,
    /// The numeral that counts the inputs.
    pub inputs: Seq<u8>,
    /// The numeral that counts the outputs.
    pub outputs: Seq<u8>,
}

impl GateHeader {
    /// The name holds letters and separators only, and one letter at least,
    /// and each count is a numeral.
    pub open spec fn well_formed(self) -> bool {
        &&& all_name_bytes(self.name)
        &&& has_letter(self.name)
        &&& is_numeral(self.inputs)
        &&& is_numeral(self.outputs)
    }

    /// The header as it is written: `Gate name(inputs, outputs)`.
    pub open spec fn text(self) -> Seq<u8> {
        gate_keyword() + self.name + seq![OPEN_PAREN] + self.inputs + seq![COMMA, SPACE]
            + self.outputs + seq![CLOSE_PAREN]
    }

    /// Where in the header the first numeral starts.
    pub open spec fn inputs_at(self) -> nat {
        self.name.len() + 6
    }

    /// Where in the header the second numeral starts.
    pub open spec fn outputs_at(self) -> nat {
        self.inputs_at() + self.inputs.len() + 2
    }
}

/// `text` is a gate header, from its first byte to its last.
pub open spec fn is_gate_header(text: Seq<u8>) -> bool {
    exists|header: GateHeader| header.well_formed() && header.text() == text
}

/// The parts of `text`, where it is a gate header.
pub open spec fn header_of(text: Seq<u8>) -> GateHeader {
    choose|header: GateHeader| header.well_formed() && header.text() == text
}

/// A gate declaration as it is written from a token's name and counts:
/// `Gate name(inputs, outputs)`, the counts in decimal.
pub open spec fn declaration_text(name: Seq<char>, inputs: u8, outputs: u8) -> Seq<u8> {
    GateHeader {
        name: bytes_of(name),
        inputs: decimal(inputs as nat),
        outputs: decimal(outputs as nat),
    }.text()
}

/// A gate header starts at `at` and runs to the end of `text`, with its `(`
/// at `paren` and its `,` at `comma`.
pub open spec fn header_layout(text: Seq<u8>, at: int, paren: int, comma: int) -> bool {
    let close: int = text.len() - 1;
    &&& occurs_at(text, gate_keyword(), at)
    &&& at + 5 <= paren
    &&& paren + 1 < comma
    &&& comma + 2 < close
    &&& name_bytes_between(text, at + 5, paren)
    &&& letter_between(text, at + 5, paren)
    &&& text[paren] == OPEN_PAREN
    &&& digits_between(text, paren + 1, comma)
    &&& text[comma] == COMMA
    &&& text[comma + 1] == SPACE
    &&& digits_between(text, comma + 2, close)
    &&& text[close] == CLOSE_PAREN
}

/// The parts of the header that [`header_layout`] finds.
pub open spec fn header_in(text: Seq<u8>, at: int, paren: int, comma: int) -> GateHeader {
    GateHeader {
        name: text.subrange(at + 5, paren),
        inputs: text.subrange(paren + 1, comma),
        outputs: text.subrange(comma + 2, text.len() - 1),
    }
}

/// Where each part of a header stands in its text.
pub proof fn lemma_text_layout(header: GateHeader)
    ensures
        ({
            let text = header.text();
            let paren: int = header.name.len() as int + 5;
            let comma: int = paren + 1 + header.inputs.len();
            let close: int = comma + 2 + header.outputs.len();
            &&& text.len() == close + 1
            &&& text.subrange(0, 5) == gate_keyword()
            &&& text.subrange(5, paren) == header.name
            &&& text[paren] == OPEN_PAREN
            &&& text.subrange(paren + 1, comma) == header.inputs
            &&& text[comma] == COMMA
            &&& text[comma + 1] == SPACE
            &&& text.subrange(comma + 2, close) == header.outputs
            &&& text[close] == CLOSE_PAREN
        }),
{
    let text = header.text();
    let paren: int = header.name.len() as int + 5;
    let comma: int = paren + 1 + header.inputs.len();
    let close: int = comma + 2 + header.outputs.len();
    assert(gate_keyword().len() == 5);
    assert(text.len() == close + 1);
    assert(text.subrange(0, 5) =~= gate_keyword());
    assert(text.subrange(5, paren) =~= header.name);
    assert(text.subrange(paren + 1, comma) =~= header.inputs);
    assert(text.subrange(comma + 2, close) =~= header.outputs);
}

/// A part of a text holds a letter exactly where the text holds one between
/// the bounds of the part.
pub proof fn lemma_letter_in_part(text: Seq<u8>, lo: int, hi: int)
    requires
        0 <= lo <= hi <= text.len(),
    ensures
        has_letter(text.subrange(lo, hi)) <==> letter_between(text, lo, hi),
{
    let part = text.subrange(lo, hi);
    if has_letter(part) {
        let i = choose|i: int| 0 <= i < part.len() && is_letter(#[trigger] part[i]);
        assert(text[lo + i] == part[i]);
    }
    if letter_between(text, lo, hi) {
        let k = choose|k: int| lo <= k < hi && is_letter(#[trigger] text[k]);
        assert(part[k - lo] == text[k]);
    }
}

/// A layout in `text` is a gate header, written from `at` to the end.
pub proof fn lemma_layout_is_header(text: Seq<u8>, at: int, paren: int, comma: int)
    requires
        header_layout(text, at, paren, comma),
    ensures
        header_in(text, at, paren, comma).well_formed(),
        header_in(text, at, paren, comma).text() == text.subrange(at, text.len() as int),
        is_gate_header(text.subrange(at, text.len() as int)),
{
    let header = header_in(text, at, paren, comma);
    let tail = text.subrange(at, text.len() as int);
    lemma_gate_keyword_at(text, at);
    lemma_text_layout(header);
    lemma_letter_in_part(text, at + 5, paren);
    assert(header.text() =~= tail) by {
        assert(header.text().len() == tail.len());
        assert forall|i: int| 0 <= i < tail.len() implies header.text()[i] == tail[i] by {
            let written = header.text();
            if i < 5 {
                assert(written.subrange(0, 5)[i] == written[i]);
            } else if i < paren - at {
                assert(written.subrange(5, paren - at)[i - 5] == written[i]);
            } else if i == paren - at {
            } else if i < comma - at {
                assert(written.subrange(paren - at + 1, comma - at)[i - (paren - at + 1)]
                    == written[i]);
            } else if i <= comma - at + 1 {
            } else if i < tail.len() - 1 {
                assert(written.subrange(comma - at + 2, tail.len() - 1)[i - (comma - at + 2)]
                    == written[i]);
            } else {
            }
        }
    }
}

/// A gate header written from `at` to the end of `text` has a layout there,
/// and its parts are those that the layout finds.
pub proof fn lemma_header_has_layout(text: Seq<u8>, at: int, header: GateHeader)
    requires
        0 <= at <= text.len(),
        header.well_formed(),
        header.text() == text.subrange(at, text.len() as int),
    ensures
        ({
            let paren: int = at + 5 + header.name.len();
            let comma: int = paren + 1 + header.inputs.len();
            &&& header_layout(text, at, paren, comma)
            &&& header_in(text, at, paren, comma) == header
        }),
{
    let tail = text.subrange(at, text.len() as int);
    let paren: int = at + 5 + header.name.len();
    let comma: int = paren + 1 + header.inputs.len();
    let close: int = text.len() - 1;
    lemma_text_layout(header);
    assert(occurs_at(text, gate_keyword(), at)) by {
        assert(text.subrange(at, at + 5) =~= tail.subrange(0, 5));
    }
    assert(text.subrange(at + 5, paren) == header.name) by {
        assert(text.subrange(at + 5, paren) =~= tail.subrange(5, paren - at));
    }
    assert(text.subrange(paren + 1, comma) == header.inputs) by {
        assert(text.subrange(paren + 1, comma) =~= tail.subrange(paren - at + 1, comma - at));
    }
    assert(text.subrange(comma + 2, close) == header.outputs) by {
        assert(text.subrange(comma + 2, close) =~= tail.subrange(comma - at + 2, close - at));
    }
    assert(text[paren] == tail[paren - at]);
    assert(text[comma] == tail[comma - at]);
    assert(text[comma + 1] == tail[comma - at + 1]);
    assert(text[close] == tail[close - at]);
    lemma_name_bytes_in_part(text, at + 5, paren);
    lemma_letter_in_part(text, at + 5, paren);
    lemma_digits_in_part(text, paren + 1, comma);
    lemma_digits_in_part(text, comma + 2, close);
}

/// Where a part of a text holds name bytes only, the text holds name bytes
/// only between the bounds of the part.
proof fn lemma_name_bytes_in_part(text: Seq<u8>, lo: int, hi: int)
    requires
        0 <= lo <= hi <= text.len(),
        all_name_bytes(text.subrange(lo, hi)),
    ensures
        name_bytes_between(text, lo, hi),
{
    let part = text.subrange(lo, hi);
    assert forall|k: int| lo <= k < hi implies is_name_byte(#[trigger] text[k]) by {
        assert(part[k - lo] == text[k]);
    }
}

/// Where a part of a text holds digits only, the text holds digits only
/// between the bounds of the part.
proof fn lemma_digits_in_part(text: Seq<u8>, lo: int, hi: int)
    requires
        0 <= lo <= hi <= text.len(),
        all_digits(text.subrange(lo, hi)),
    ensures
        digits_between(text, lo, hi),
{
    let part = text.subrange(lo, hi);
    assert forall|k: int| lo <= k < hi implies is_digit(#[trigger] text[k]) by {
        assert(part[k - lo] == text[k]);
    }
}

/// The end of `text` fixes where the `(` and the `,` of a header stand,
/// wherever the header starts.
pub proof fn lemma_layout_determined(
    text: Seq<u8>,
    at1: int,
    paren1: int,
    comma1: int,
    at2: int,
    paren2: int,
    comma2: int,
)
    requires
        header_layout(text, at1, paren1, comma1),
        header_layout(text, at2, paren2, comma2),
    ensures
        paren1 == paren2,
        comma1 == comma2,
{
    if comma1 < comma2 {
        assert(is_digit(text[comma2 + 1]));
    }
    if comma2 < comma1 {
        assert(is_digit(text[comma1 + 1]));
    }
    if paren1 < paren2 {
        assert(is_digit(text[paren2]));
    }
    if paren2 < paren1 {
        assert(is_digit(text[paren1]));
    }
}

/// A text is a gate header in one way only.
pub proof fn lemma_header_unique(text: Seq<u8>, header: GateHeader)
    requires
        header.well_formed(),
        header.text() == text,
    ensures
        is_gate_header(text),
        header_of(text) == header,
{
    let other = header_of(text);
    assert(text.subrange(0, text.len() as int) =~= text);
    lemma_header_has_layout(text, 0, header);
    lemma_header_has_layout(text, 0, other);
    lemma_layout_determined(
        text,
        0,
        5 + header.name.len() as int,
        5 + header.name.len() + 1 + header.inputs.len() as int,
        0,
        5 + other.name.len() as int,
        5 + other.name.len() + 1 + other.inputs.len() as int,
    );
}

/// Where a gate header stands in a span of bytes that it ends.
#[derive(Clone, Copy, Debug, PartialEq, Eq, Structural)]
pub struct HeaderSpan {
    /// The index of the `G` that the header starts with.
    pub at: usize,
    /// The index of its `(`.
    pub paren: usize,
    /// The index of its `,`.
    pub comma: usize,
}

impl HeaderSpan {
    /// The parts of the header that stands there in `span`.
    pub open spec fn header(self, span: Seq<u8>) -> GateHeader {
        header_in(span, self.at as int, self.paren as int, self.comma as int)
    }
}

/// The class of texts that are a gate header.
pub open spec fn gate_headers() -> spec_fn(Seq<u8>) -> bool {
    |text: Seq<u8>| is_gate_header(text)
}

/// The bytes of the keyword `Gate ` may all stand in a name.
proof fn lemma_keyword_is_name(text: Seq<u8>, at: int)
    requires
        occurs_at(text, gate_keyword(), at),
    ensures
        name_bytes_between(text, at, at + 5),
{
    lemma_gate_keyword_at(text, at);
    assert forall|k: int| at <= k < at + 5 implies is_name_byte(#[trigger] text[k]) by {
        if k == at {
        } else if k == at + 1 {
        } else if k == at + 2 {
        } else if k == at + 3 {
        } else {
            assert(k == at + 4);
        }
    }
}

/// A layout whose start is the least gives the longest suffix of `text` that
/// is a gate header, and the parts of that header.
pub proof fn lemma_longest_header(text: Seq<u8>, at: int, paren: int, comma: int)
    requires
        header_layout(text, at, paren, comma),
        forall|q: int, p: int, c: int| q < at ==> !#[trigger] header_layout(text, q, p, c),
    ensures
        longest_suffix(text, gate_headers(), 0) == Some(at),
        header_of(text.subrange(at, text.len() as int)) == header_in(text, at, paren, comma),
        header_in(text, at, paren, comma).well_formed(),
{
    let n = text.len() as int;
    lemma_layout_is_header(text, at, paren, comma);
    lemma_header_unique(text.subrange(at, n), header_in(text, at, paren, comma));
    lemma_longest_suffix(text, gate_headers(), 0);
    assert forall|j: int| 0 <= j < at implies !gate_headers()(#[trigger] text.subrange(j, n)) by {
        if is_gate_header(text.subrange(j, n)) {
            let header = header_of(text.subrange(j, n));
            lemma_header_has_layout(text, j, header);
        }
    }
    assert(gate_headers()(text.subrange(at, n)));
}

/// Where no layout stands in `text`, no suffix of it is a gate header.
pub proof fn lemma_no_header(text: Seq<u8>)
    requires
        forall|q: int, p: int, c: int| !#[trigger] header_layout(text, q, p, c),
    ensures
        longest_suffix(text, gate_headers(), 0) is None,
{
    let n = text.len() as int;
    lemma_longest_suffix(text, gate_headers(), 0);
    assert forall|j: int| 0 <= j <= n implies !gate_headers()(#[trigger] text.subrange(j, n)) by {
        if is_gate_header(text.subrange(j, n)) {
            let header = header_of(text.subrange(j, n));
            lemma_header_has_layout(text, j, header);
        }
    }
}

/// Looks for a gate header at the end of `span`, and returns where the
/// longest stands: the one that starts first.
pub fn find_gate_header(span: &[u8]) -> (found: Option<HeaderSpan>)
    ensures
        match longest_suffix(span@, gate_headers(), 0) {
            Some(at) => found matches Some(m) && {
                &&& m.at == at
                &&& m.at + 5 <= m.paren
                &&& m.paren + 1 < m.comma
                &&& m.comma + 2 < span.len() - 1
                &&& m.header(span@) == header_of(span@.subrange(at, span.len() as int))
                &&& m.header(span@).well_formed()
            },
            None => found is None,
        },
{
    let found = find_layout(span);
    proof {
        match found {
            Some(m) => {
                lemma_longest_header(span@, m.at as int, m.paren as int, m.comma as int);
            },
            None => {
                lemma_no_header(span@);
            },
        }
    }
    found
}

/// Looks for the layout of a gate header at the end of `span`, from the
/// last byte back to the first, and returns the one that starts first.
fn find_layout(span: &[u8]) -> (found: Option<HeaderSpan>)
    ensures
        match found {
            Some(m) => header_layout(span@, m.at as int, m.paren as int, m.comma as int)
                && forall|q: int, p: int, c: int|
                q < m.at ==> !#[trigger] header_layout(span@, q, p, c),
            None => forall|q: int, p: int, c: int| !#[trigger] header_layout(span@, q, p, c),
        },
{
    let n = span.len();
    if n < 12 || span[n - 1] != CLOSE_PAREN {
        return None;
    }
    let close: usize = n - 1;
    let mut o: usize = close;
    while o > 0 && digit(span[o - 1])
        invariant
            o <= close < span.len(),
            digits_between(span@, o as int, close as int),
        decreases o,
    {
        o -= 1;
    }
    if o == close || o < 2 || span[o - 1] != SPACE || span[o - 2] != COMMA {
        proof {
            assert forall|q: int, p: int, c: int| !#[trigger] header_layout(span@, q, p, c) by {
                if header_layout(span@, q, p, c) {
                    lemma_outputs_start(span@, q, p, c, o as int);
                }
            }
        }
        return None;
    }
    let comma: usize = o - 2;
    let mut i: usize = comma;
    while i > 0 && digit(span[i - 1])
        invariant
            i <= comma < span.len(),
            digits_between(span@, i as int, comma as int),
        decreases i,
    {
        i -= 1;
    }
    if i == comma || i == 0 || span[i - 1] != OPEN_PAREN {
        proof {
            assert forall|q: int, p: int, c: int| !#[trigger] header_layout(span@, q, p, c) by {
                if header_layout(span@, q, p, c) {
                    lemma_outputs_start(span@, q, p, c, o as int);
                    lemma_inputs_start(span@, q, p, c, i as int);
                }
            }
        }
        return None;
    }
    let paren: usize = i - 1;
    let mut j: usize = paren;
    let mut at: Option<usize> = None;
    while j > 0 && name_byte(span[j - 1])
        invariant
            j <= paren < span.len(),
            name_bytes_between(span@, j as int, paren as int),
            match at {
                Some(a) => j <= a && a + 5 <= paren && occurs_at(span@, gate_keyword(), a as int)
                    && forall|k: int| j <= k < a ==> !occurs_at(span@, gate_keyword(), k),
                None => forall|k: int|
                    j <= k && k + 5 <= paren ==> !occurs_at(span@, gate_keyword(), k),
            },
        decreases j,
    {
        j -= 1;
        proof {
            lemma_gate_keyword_at(span@, j as int);
        }
        if paren - j >= 5 && span[j] == 71 && span[j + 1] == 97 && span[j + 2] == 116 && span[j
            + 3] == 101 && span[j + 4] == 32 {
            at = Some(j);
        }
    }
    match at {
        Some(a) => {
            if holds_letter(span, a + 5, paren) {
                proof {
                    assert(header_layout(span@, a as int, paren as int, comma as int));
                    assert forall|q: int, p: int, c: int| q < a implies !#[trigger] header_layout(
                        span@,
                        q,
                        p,
                        c,
                    ) by {
                        if header_layout(span@, q, p, c) {
                            lemma_layout_determined(
                                span@,
                                q,
                                p,
                                c,
                                a as int,
                                paren as int,
                                comma as int,
                            );
                            lemma_name_start(span@, q, p, c, j as int);
                        }
                    }
                }
                Some(HeaderSpan { at: a, paren, comma })
            } else {
                proof {
                    assert forall|q: int, p: int, c: int| !#[trigger] header_layout(
                        span@,
                        q,
                        p,
                        c,
                    ) by {
                        if header_layout(span@, q, p, c) {
                            lemma_outputs_start(span@, q, p, c, o as int);
                            lemma_inputs_start(span@, q, p, c, i as int);
                            lemma_name_start(span@, q, p, c, j as int);
                            let k = choose|k: int|
                                q + 5 <= k < p && is_letter(#[trigger] span@[k]);
                            assert(a + 5 <= k < paren);
                        }
                    }
                }
                None
            }
        },
        None => {
            proof {
                assert forall|q: int, p: int, c: int| !#[trigger] header_layout(span@, q, p, c) by {
                    if header_layout(span@, q, p, c) {
                        lemma_outputs_start(span@, q, p, c, o as int);
                        lemma_inputs_start(span@, q, p, c, i as int);
                        lemma_name_start(span@, q, p, c, j as int);
                    }
                }
            }
            None
        },
    }
}

/// Whether some byte of `span` from `lo` up to `hi` is a letter.
fn holds_letter(span: &[u8], lo: usize, hi: usize) -> (yes: bool)
    requires
        lo <= hi <= span.len(),
    ensures
        yes == letter_between(span@, lo as int, hi as int),
{
    let mut k: usize = lo;
    while k < hi
        invariant
            lo <= k <= hi <= span.len(),
            !letter_between(span@, lo as int, k as int),
        decreases hi - k,
    {
        if letter(span[k]) {
            return true;
        }
        k += 1;
    }
    false
}

/// The second numeral of a header is the whole run of digits before `)`.
proof fn lemma_outputs_start(text: Seq<u8>, at: int, paren: int, comma: int, start: int)
    requires
        header_layout(text, at, paren, comma),
        0 <= start <= text.len() - 1,
        digits_between(text, start, text.len() - 1),
        start == 0 || !is_digit(text[start - 1]),
    ensures
        start == comma + 2,
{
    if comma + 2 < start {
        assert(is_digit(text[start - 1]));
    }
    if start < comma + 2 {
        assert(is_digit(text[comma + 1]));
    }
}

/// The first numeral of a header is the whole run of digits before `,`.
proof fn lemma_inputs_start(text: Seq<u8>, at: int, paren: int, comma: int, start: int)
    requires
        header_layout(text, at, paren, comma),
        0 <= start <= comma,
        digits_between(text, start, comma),
        start == 0 || !is_digit(text[start - 1]),
    ensures
        start == paren + 1,
{
    if paren + 1 < start {
        assert(is_digit(text[start - 1]));
    }
    if start < paren + 1 {
        assert(is_digit(text[paren]));
    }
}

/// A header starts within the run of name bytes before `(`.
proof fn lemma_name_start(text: Seq<u8>, at: int, paren: int, comma: int, start: int)
    requires
        header_layout(text, at, paren, comma),
        0 <= start <= paren,
        start == 0 || !is_name_byte(text[start - 1]),
    ensures
        start <= at,
{
    lemma_keyword_is_name(text, at);
    if at < start {
        assert(is_name_byte(text[start - 1]));
    }
}

} // verus!
