//! Token vocabulary of the Nord language and the error a tokenizer reports.
//! The tokenizer itself is an external collaborator: it is driven by regular
//! expressions and runs outside this library, handing tokens to the parser.

use vstd::prelude::*;

verus! {

/// The tokens of the language.
#[derive(Debug, Clone, PartialEq)]
pub enum Token {
    KeywordLet,
    KeywordFn,
    KeywordIf,
    KeywordThen,
    KeywordElse,
    KeywordReturn,
    KeywordBlock,
    KeywordEnd,
    KeywordLoop,
    KeywordBreak,
    KeywordContinue,
    DoubleColon,
    Colon,
    Comma,
    Dot,
    DotDot,
    DotDotDot,
    Arrow,
    FatArrow,
    At,
    Hash,
    Dollar,
    Identifier(String),
    Integer(i64),
    Boolean(bool),
    Text(String),
    LParen,
    RParen,
    LBrace,
    RBrace,
    LBracket,
    RBracket,
    Assign,
    Semicolon,
    OperatorAdd,
    OperatorSub,
    OperatorMul,
    OperatorDiv,
    OperatorMod,
    OperatorEqual,
    OperatorNotEqual,
    OperatorLess,
    OperatorLessEqual,
    OperatorGreater,
    OperatorGreaterEqual,
    OperatorNot,
    OperatorAnd,
    OperatorOr,
}

/// Error reported when the tokenizer meets input it cannot tokenize:
/// the byte span of the offending text and the text itself.
#[derive(Debug, Clone, PartialEq)]
pub enum LexicalError {
    InvalidToken(usize, String, usize),
}

} // verus!
