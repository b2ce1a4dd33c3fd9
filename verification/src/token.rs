//! The token model: the closed set of token kinds and the
//! line-numbered, text-carrying token the scanner emits.

use vstd::prelude::*;

verus! {

/// The kind of a scanned token.
#[derive(Debug, Clone, Copy, PartialEq, Eq, Structural)]
pub enum TokenType {
    Identifier,
    Title,
    Colon,
    Arrow,
    Unexpected,
    Number,
    Error,
    Endl,
    Value,
}

/// One scanned token: its kind, the 1-based source line on which its
/// text began, and the text consumed for it.
#[derive(Debug, PartialEq, Eq)]
pub struct Token {
    pub token_type: TokenType,
    pub line: usize,
    pub text: String,
}

/// The mathematical shape of a token, used by every scanner contract.
pub ghost struct TokenModel {
    pub kind: TokenType,
    pub line: nat,
    pub text: Seq<char>,
}

/// The token with the given kind, line and text.
pub open spec fn tok(kind: TokenType, line: nat, text: Seq<char>) -> TokenModel {
    TokenModel { kind, line, text }
}

impl View for Token {
    type V = TokenModel;

    open spec fn view(&self) -> TokenModel {
        TokenModel { kind: self.token_type, line: self.line as nat, text: self.text@ }
    }
}

impl DeepView for Token {
    type V = TokenModel;

    open spec fn deep_view(&self) -> TokenModel {
        self@
    }
}

} // verus!
