//! Tokens, and the errors of a scan.

use vstd::prelude::*;

verus! {

/// One lexical unit of source text.
#[derive(Debug)]
pub enum Tokens {
    /// A gate declaration: its name, of letters and separators, and how many
    /// inputs and outputs it has.
    Gate(String, u8, u8),
    /// A name, where one is declared: a run of letters after `let`, `in` or
    /// `out`.
    Name(String),
    /// The keyword `in`.
    Input,
    /// The keyword `out`.
    Output,
    /// The keyword `let`.
    DeclareVar,
    /// A name, where a variable is used. No rule gives this token yet.
    ReferenceVar(String),
    /// A block of code. No rule gives this token yet.
    Code,
    /// `{`
    StartScope,
    /// `}`
    EndScope,
    /// `=`
    Assignment,
    /// `;`
    SemiColon,
    /// A function declaration: its name, and how many inputs and outputs it
    /// has. No rule gives this token yet.
    Function(String, u8, u8),
    /// `(` on its own. No rule gives this token yet.
    LPeren,
    /// `)` on its own. No rule gives this token yet.
    RPeren,
}

/// What a token is, with each name as a sequence of characters.
pub enum TokenView {
    Gate(Seq<char>, u8, u8),
    Name(Seq<char>),
    Input,
    Output,
    DeclareVar,
    ReferenceVar(Seq<char>),
    Code,
    StartScope,
    EndScope,
    Assignment,
    SemiColon,
    Function(Seq<char>, u8, u8),
    LPeren,
    RPeren,
}

impl View for Tokens {
    type V = TokenView;

    open spec fn view(&self) -> TokenView {
        match self {
            Tokens::Gate(name, inputs, outputs) => TokenView::Gate(name@, *inputs, *outputs),
            Tokens::Name(name) => TokenView::Name(name@),
            Tokens::Input => TokenView::Input,
            Tokens::Output => TokenView::Output,
            Tokens::DeclareVar => TokenView::DeclareVar,
            Tokens::ReferenceVar(name) => TokenView::ReferenceVar(name@),
            Tokens::Code => TokenView::Code,
            Tokens::StartScope => TokenView::StartScope,
            Tokens::EndScope => TokenView::EndScope,
            Tokens::Assignment => TokenView::Assignment,
            Tokens::SemiColon => TokenView::SemiColon,
            Tokens::Function(name, inputs, outputs) => TokenView::Function(
                name@,
                *inputs,
                *outputs,
            ),
            Tokens::LPeren => TokenView::LPeren,
            Tokens::RPeren => TokenView::RPeren,
        }
    }
}

impl Clone for Tokens {
    /// A token of the same kind that holds the same name and counts.
    fn clone(&self) -> (copy: Self)
        ensures
            copy@ == self@,
    {
        match self {
            Tokens::Gate(name, inputs, outputs) => Tokens::Gate(name.clone(), *inputs, *outputs),
            Tokens::Name(name) => Tokens::Name(name.clone()),
            Tokens::Input => Tokens::Input,
            Tokens::Output => Tokens::Output,
            Tokens::DeclareVar => Tokens::DeclareVar,
            Tokens::ReferenceVar(name) => Tokens::ReferenceVar(name.clone()),
            Tokens::Code => Tokens::Code,
            Tokens::StartScope => Tokens::StartScope,
            Tokens::EndScope => Tokens::EndScope,
            Tokens::Assignment => Tokens::Assignment,
            Tokens::SemiColon => Tokens::SemiColon,
            Tokens::Function(name, inputs, outputs) => Tokens::Function(
                name.clone(),
                *inputs,
                *outputs,
            ),
            Tokens::LPeren => Tokens::LPeren,
            Tokens::RPeren => Tokens::RPeren,
        }
    }
}

impl PartialEq for Tokens {
    /// Two tokens are equal where they are of one kind and hold the same
    /// name and counts.
    fn eq(&self, other: &Self) -> (equal: bool) {
        match (self, other) {
            (Tokens::Gate(l0, l1, l2), Tokens::Gate(r0, r1, r2)) => *l0 == *r0 && *l1 == *r1 && *l2
                == *r2,
            (Tokens::Name(l0), Tokens::Name(r0)) => *l0 == *r0,
            (Tokens::ReferenceVar(l0), Tokens::ReferenceVar(r0)) => *l0 == *r0,
            (Tokens::Function(l0, l1, l2), Tokens::Function(r0, r1, r2)) => *l0 == *r0 && *l1 == *r1
                && *l2 == *r2,
            (Tokens::Input, Tokens::Input) => true,
            (Tokens::Output, Tokens::Output) => true,
            (Tokens::DeclareVar, Tokens::DeclareVar) => true,
            (Tokens::Code, Tokens::Code) => true,
            (Tokens::StartScope, Tokens::StartScope) => true,
            (Tokens::EndScope, Tokens::EndScope) => true,
            (Tokens::Assignment, Tokens::Assignment) => true,
            (Tokens::SemiColon, Tokens::SemiColon) => true,
            (Tokens::LPeren, Tokens::LPeren) => true,
            (Tokens::RPeren, Tokens::RPeren) => true,
            _ => false,
        }
    }
}

impl vstd::std_specs::cmp::PartialEqSpecImpl for Tokens {
    open spec fn obeys_eq_spec() -> bool {
        true
    }

    open spec fn eq_spec(&self, other: &Self) -> bool {
        self@ == other@
    }
}

impl Eq for Tokens {

}

/// Why a scan gave no tokens. Each error holds the offset, in bytes from the
/// start of the source text, of what is wrong.
#[derive(Debug, Clone, Copy, PartialEq, Eq, Structural)]
pub enum LexError {
    /// The keyword `Gate ` at this offset was passed over: what follows it
    /// is no gate header.
    MalformedGateHeader(usize),
    /// The count that starts at this offset is above 255.
    ArityOutOfRange(usize),
    /// The text from this offset to the end of the source belongs to no
    /// token.
    UnterminatedSpan(usize),
    /// The `{` at this offset has no `}` that closes it.
    UnterminatedScope(usize),
}

/// The views of `tokens`, in order.
pub open spec fn views_of(tokens: Seq<Tokens>) -> Seq<TokenView> {
    tokens.map_values(|token: Tokens| token@)
}

/// Whether a name may follow `token`: it is `let`, `in` or `out`.
pub open spec fn opens_name(token: TokenView) -> bool {
    token is DeclareVar || token is Input || token is Output
}

/// Whether a name may come next, after `tokens`.
pub open spec fn expects_name(tokens: Seq<TokenView>) -> bool {
    tokens.len() > 0 && opens_name(tokens.last())
}

impl Tokens {
    /// Whether a name may follow this token.
    pub fn opens_name(&self) -> (yes: bool)
        ensures
            yes == opens_name(self@),
    {
        match self {
            Tokens::DeclareVar | Tokens::Input | Tokens::Output => true,
            _ => false,
        }
    }
}

} // verus!
