//! Tokens.

use crate::span::Span;
use crate::text::same;
use vstd::prelude::*;

verus! {

/// The kind of a token.
#[derive(Clone, Copy, Debug, PartialEq, Eq, Hash, Structural)]
pub enum Tok {
    Identifier,
    Numeral,
    Str,
    /// `(`
    LParen,
    /// `)`
    RParen,
    /// `[`
    LBrack,
    /// `]`
    RBrack,
    /// `{`
    LBrace,
    /// `}`
    RBrace,
    /// `[#`
    RecTypeS,
    /// `#]`
    RecTypeE,
    /// `(#`
    RecLitS,
    /// `#)`
    RecLitE,
    /// `.`
    Dot,
    /// `,`
    Comma,
    /// `:`
    Colon,
    /// `;`
    Semi,
    /// `!`
    Bang,
    /// `|`
    VBar,
    /// `:=`
    Assign,
    /// `..`
    DotDot,
    /// `=`
    Eq,
    /// `/=`
    Neq,
    /// `=>`
    Implies,
    /// `<=>`
    Iff,
    /// `<`
    Lt,
    /// `<=`
    Le,
    /// `>`
    Gt,
    /// `>=`
    Ge,
    /// `+`
    Plus,
    /// `-`
    Minus,
    /// `*`
    Mult,
    /// `/`
    Div,
    /// `->`
    Arrow,
    /// `-->`
    LongArrow,
    /// `||`
    Sync,
    /// `[]`, without a space
    Async,
    /// `|-`
    Turnstile,
    /// `_`
    Unbounded,
    /// `'`
    Quote,
    And,
    Or,
    Not,
    Xor,
    /// `DIV / div`
    IDiv,
    /// `MOD / mod`
    Mod,
    Type,
    Array,
    Of,
    With,
    Lambda,
    Forall,
    Exists,
    Let,
    In,
    If,
    Then,
    Else,
    Elsif,
    Endif,
    Begin,
    End,
    Rename,
    To,
    Context,
    Module,
    Input,
    Output,
    Global,
    Local,
    Initialization,
    Definition,
    Transition,
    Theorem,
    Lemma,
    Claim,
    Obligation,
    Observe,
    Implements,
    Datatype,
    StateType,
    InitPred,
    TransPred,
    Scalarset,
    Ringset,
    Importing,
    Suffix,
    Prefix,
    Eof,
}

/// The keyword of a text in upper case.
pub open spec fn keyword_of(s: Seq<char>) -> Option<Tok> {
    if s == "TYPE"@ {
        Some(Tok::Type)
    } else if s == "ARRAY"@ {
        Some(Tok::Array)
    } else if s == "OF"@ {
        Some(Tok::Of)
    } else if s == "WITH"@ {
        Some(Tok::With)
    } else if s == "LAMBDA"@ {
        Some(Tok::Lambda)
    } else if s == "FORALL"@ {
        Some(Tok::Forall)
    } else if s == "EXISTS"@ {
        Some(Tok::Exists)
    } else if s == "LET"@ {
        Some(Tok::Let)
    } else if s == "IN"@ {
        Some(Tok::In)
    } else if s == "IF"@ {
        Some(Tok::If)
    } else if s == "THEN"@ {
        Some(Tok::Then)
    } else if s == "ELSE"@ {
        Some(Tok::Else)
    } else if s == "ELSIF"@ {
        Some(Tok::Elsif)
    } else if s == "ENDIF"@ {
        Some(Tok::Endif)
    } else if s == "BEGIN"@ {
        Some(Tok::Begin)
    } else if s == "END"@ {
        Some(Tok::End)
    } else if s == "RENAME"@ {
        Some(Tok::Rename)
    } else if s == "TO"@ {
        Some(Tok::To)
    } else if s == "CONTEXT"@ {
        Some(Tok::Context)
    } else if s == "MODULE"@ {
        Some(Tok::Module)
    } else if s == "INPUT"@ {
        Some(Tok::Input)
    } else if s == "OUTPUT"@ {
        Some(Tok::Output)
    } else if s == "GLOBAL"@ {
        Some(Tok::Global)
    } else if s == "LOCAL"@ {
        Some(Tok::Local)
    } else if s == "INITIALIZATION"@ {
        Some(Tok::Initialization)
    } else if s == "DEFINITION"@ {
        Some(Tok::Definition)
    } else if s == "TRANSITION"@ {
        Some(Tok::Transition)
    } else if s == "THEOREM"@ {
        Some(Tok::Theorem)
    } else if s == "LEMMA"@ {
        Some(Tok::Lemma)
    } else if s == "CLAIM"@ {
        Some(Tok::Claim)
    } else if s == "OBLIGATION"@ {
        Some(Tok::Obligation)
    } else if s == "OBSERVE"@ {
        Some(Tok::Observe)
    } else if s == "IMPLEMENTS"@ {
        Some(Tok::Implements)
    } else if s == "DATATYPE"@ {
        Some(Tok::Datatype)
    } else if s == "STATE_TYPE"@ {
        Some(Tok::StateType)
    } else if s == "INIT_PRED"@ {
        Some(Tok::InitPred)
    } else if s == "TRANS_PRED"@ {
        Some(Tok::TransPred)
    } else if s == "SCALARSET"@ {
        Some(Tok::Scalarset)
    } else if s == "RINGSET"@ {
        Some(Tok::Ringset)
    } else if s == "IMPORTING"@ {
        Some(Tok::Importing)
    } else if s == "SUFFIX"@ {
        Some(Tok::Suffix)
    } else if s == "PREFIX"@ {
        Some(Tok::Prefix)
    } else {
        None
    }
}

/// The keyword of a text in upper case.
pub fn keyword(upper: &str) -> (r: Option<Tok>)
    ensures
        r == keyword_of(upper@),
{
    if same(upper, "TYPE") {
        Some(Tok::Type)
    } else if same(upper, "ARRAY") {
        Some(Tok::Array)
    } else if same(upper, "OF") {
        Some(Tok::Of)
    } else if same(upper, "WITH") {
        Some(Tok::With)
    } else if same(upper, "LAMBDA") {
        Some(Tok::Lambda)
    } else if same(upper, "FORALL") {
        Some(Tok::Forall)
    } else if same(upper, "EXISTS") {
        Some(Tok::Exists)
    } else if same(upper, "LET") {
        Some(Tok::Let)
    } else if same(upper, "IN") {
        Some(Tok::In)
    } else if same(upper, "IF") {
        Some(Tok::If)
    } else if same(upper, "THEN") {
        Some(Tok::Then)
    } else if same(upper, "ELSE") {
        Some(Tok::Else)
    } else if same(upper, "ELSIF") {
        Some(Tok::Elsif)
    } else if same(upper, "ENDIF") {
        Some(Tok::Endif)
    } else if same(upper, "BEGIN") {
        Some(Tok::Begin)
    } else if same(upper, "END") {
        Some(Tok::End)
    } else if same(upper, "RENAME") {
        Some(Tok::Rename)
    } else if same(upper, "TO") {
        Some(Tok::To)
    } else if same(upper, "CONTEXT") {
        Some(Tok::Context)
    } else if same(upper, "MODULE") {
        Some(Tok::Module)
    } else if same(upper, "INPUT") {
        Some(Tok::Input)
    } else if same(upper, "OUTPUT") {
        Some(Tok::Output)
    } else if same(upper, "GLOBAL") {
        Some(Tok::Global)
    } else if same(upper, "LOCAL") {
        Some(Tok::Local)
    } else if same(upper, "INITIALIZATION") {
        Some(Tok::Initialization)
    } else if same(upper, "DEFINITION") {
        Some(Tok::Definition)
    } else if same(upper, "TRANSITION") {
        Some(Tok::Transition)
    } else if same(upper, "THEOREM") {
        Some(Tok::Theorem)
    } else if same(upper, "LEMMA") {
        Some(Tok::Lemma)
    } else if same(upper, "CLAIM") {
        Some(Tok::Claim)
    } else if same(upper, "OBLIGATION") {
        Some(Tok::Obligation)
    } else if same(upper, "OBSERVE") {
        Some(Tok::Observe)
    } else if same(upper, "IMPLEMENTS") {
        Some(Tok::Implements)
    } else if same(upper, "DATATYPE") {
        Some(Tok::Datatype)
    } else if same(upper, "STATE_TYPE") {
        Some(Tok::StateType)
    } else if same(upper, "INIT_PRED") {
        Some(Tok::InitPred)
    } else if same(upper, "TRANS_PRED") {
        Some(Tok::TransPred)
    } else if same(upper, "SCALARSET") {
        Some(Tok::Scalarset)
    } else if same(upper, "RINGSET") {
        Some(Tok::Ringset)
    } else if same(upper, "IMPORTING") {
        Some(Tok::Importing)
    } else if same(upper, "SUFFIX") {
        Some(Tok::Suffix)
    } else if same(upper, "PREFIX") {
        Some(Tok::Prefix)
    } else {
        None
    }
}

/// The operator that a word in lower or in upper case stands for.
pub open spec fn word_operator_of(s: Seq<char>) -> Option<Tok> {
    if s == "and"@ || s == "AND"@ {
        Some(Tok::And)
    } else if s == "or"@ || s == "OR"@ {
        Some(Tok::Or)
    } else if s == "not"@ || s == "NOT"@ {
        Some(Tok::Not)
    } else if s == "xor"@ || s == "XOR"@ {
        Some(Tok::Xor)
    } else if s == "div"@ || s == "DIV"@ {
        Some(Tok::IDiv)
    } else if s == "mod"@ || s == "MOD"@ {
        Some(Tok::Mod)
    } else {
        None
    }
}

/// The operator that a word in lower or in upper case stands for.
pub fn word_operator(text: &str) -> (r: Option<Tok>)
    ensures
        r == word_operator_of(text@),
{
    if same(text, "and") || same(text, "AND") {
        Some(Tok::And)
    } else if same(text, "or") || same(text, "OR") {
        Some(Tok::Or)
    } else if same(text, "not") || same(text, "NOT") {
        Some(Tok::Not)
    } else if same(text, "xor") || same(text, "XOR") {
        Some(Tok::Xor)
    } else if same(text, "div") || same(text, "DIV") {
        Some(Tok::IDiv)
    } else if same(text, "mod") || same(text, "MOD") {
        Some(Tok::Mod)
    } else {
        None
    }
}

/// A token. The text of a numeral is decimal.
#[derive(Debug)]
pub struct Token {
    pub tok: Tok,
    pub text: String,
    pub span: Span,
}

/// The value of [`Token`].
pub ghost struct TokenV {
    pub tok: Tok,
    pub text: Seq<char>,
    pub span: Span,
}

impl Token {
    /// Its value.
    pub open spec fn model(&self) -> TokenV {
        TokenV { tok: self.tok, text: self.text@, span: self.span }
    }
}

/// The values of tokens.
pub open spec fn token_models(v: Seq<Token>) -> Seq<TokenV> {
    Seq::new(v.len(), |i: int| v[i].model())
}

} // verus!
