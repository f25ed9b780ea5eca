use vstd::prelude::*;

verus! {

/// The closed set of token categories.
#[derive(Clone, Copy, Debug, PartialEq, Eq, Structural)]
pub enum TokenKind {
    If,
    Else,
    While,
    RizKeyword,
    IntegerLiteral,
    Delimiter,
    ResultKeyword,
    Identifier,
    Unrecognized,
}

/// One classified lexical unit, with the source text that produced it.
#[derive(Clone, Debug)]
pub struct Token {
    pub kind: TokenKind,
    pub text: Option<String>,
}

/// The mathematical value of a token: its kind and the characters of its text.
pub type TokenView = (TokenKind, Option<Seq<char>>);

impl View for Token {
    type V = TokenView;

    open spec fn view(&self) -> TokenView {
        (
            self.kind,
            match self.text {
                Some(t) => Some(t@),
                None => None,
            },
        )
    }
}

/// The views of a sequence of tokens, in order.
pub open spec fn token_views(ts: Seq<Token>) -> Seq<TokenView> {
    ts.map_values(|t: Token| t@)
}

} // verus!
