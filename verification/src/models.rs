//! Data types shared by the lexer, the parser and the interpreter:
//! source positions, tokens, dialogue nodes, errors — each with a
//! mathematical model (`Spec...`) that the contracts speak of.

use vstd::prelude::*;

verus! {

/// Mathematical model of a source position (1-based line and column).
pub ghost struct SpecPos {
    pub line: int,
    pub col: int,
}

/// A 1-based source position, attached to every token and every error.
#[derive(Debug, Clone, Copy, PartialEq, Eq)]
pub struct Position {
    pub line: usize,
    pub column: usize,
}

impl View for Position {
    type V = SpecPos;

    open spec fn view(&self) -> SpecPos {
        SpecPos { line: self.line as int, col: self.column as int }
    }
}

/// Mathematical model of a token's tag and payload.
pub ghost enum SpecTokenKind {
    AskOp,
    TellOp,
    ParOpen,
    ParClose,
    BranchOp,
    LambdaOp,
    BrackOpen,
    BrackClose,
    AssignmentOp,
    IdentifierNumber(nat),
    Identifier(Seq<char>),
    StringLiteral(Seq<char>),
}

/// The tag of a lexed token, with its payload where one applies.
#[derive(Debug, Clone, PartialEq)]
pub enum TokenType {
    /// `?` (only ever part of an identifier-number; kept as its own tag)
    AskOp,
    /// `-`
    TellOp,
    /// `(`
    ParOpen,
    /// `)`
    ParClose,
    /// `#`
    BranchOp,
    /// `=>`
    LambdaOp,
    /// `{`
    BrackOpen,
    /// `}`
    BrackClose,
    /// `:=`
    AssignmentOp,
    /// `?N`: a slot declaration, N an unsigned integer
    IdentifierNumber(usize),
    /// a bare alphanumeric name
    Identifier(String),
    /// raw text between `"` and `"`
    StringLiteral(String),
}

impl View for TokenType {
    type V = SpecTokenKind;

    open spec fn view(&self) -> SpecTokenKind {
        match self {
            TokenType::AskOp => SpecTokenKind::AskOp,
            TokenType::TellOp => SpecTokenKind::TellOp,
            TokenType::ParOpen => SpecTokenKind::ParOpen,
            TokenType::ParClose => SpecTokenKind::ParClose,
            TokenType::BranchOp => SpecTokenKind::BranchOp,
            TokenType::LambdaOp => SpecTokenKind::LambdaOp,
            TokenType::BrackOpen => SpecTokenKind::BrackOpen,
            TokenType::BrackClose => SpecTokenKind::BrackClose,
            TokenType::AssignmentOp => SpecTokenKind::AssignmentOp,
            TokenType::IdentifierNumber(n) => SpecTokenKind::IdentifierNumber(*n as nat),
            TokenType::Identifier(s) => SpecTokenKind::Identifier(s@),
            TokenType::StringLiteral(s) => SpecTokenKind::StringLiteral(s@),
        }
    }
}

/// Mathematical model of a token.
pub ghost struct SpecToken {
    pub pos: SpecPos,
    pub kind: SpecTokenKind,
}

/// One lexed token: its position and its tagged payload.
#[derive(Debug, Clone, PartialEq)]
pub struct Token {
    pub position: Position,
    pub token_type: TokenType,
}

impl View for Token {
    type V = SpecToken;

    open spec fn view(&self) -> SpecToken {
        SpecToken { pos: self.position@, kind: self.token_type@ }
    }
}

/// Mathematical model of a dialogue node.
pub ghost enum SpecNode {
    Info(Seq<char>),
    Question(Seq<char>, nat),
    Branch(Seq<char>, Seq<SpecOption>),
}

/// Mathematical model of one selectable option of a branch.
pub ghost struct SpecOption {
    pub label: Seq<char>,
    pub body: Seq<SpecNode>,
}

/// One unit of dialogue behaviour in the parsed tree.
#[derive(Debug, PartialEq)]
pub enum OpCode {
    /// Display text, wait for acknowledgement, continue.
    Info(String),
    /// Display text, capture a line of input, store it under the slot id.
    Question(String, usize),
    /// Display text, let the player pick one option, run its body.
    Branch(String, Vec<Branch>),
}

/// One selectable option of a branch: a label and a nested node sequence.
#[derive(Debug, PartialEq)]
pub struct Branch {
    pub option: String,
    pub handler: Vec<OpCode>,
}

impl View for OpCode {
    type V = SpecNode;

    open spec fn view(&self) -> SpecNode
        decreases self,
    {
        match self {
            OpCode::Info(s) => SpecNode::Info(s@),
            OpCode::Question(s, n) => SpecNode::Question(s@, *n as nat),
            OpCode::Branch(s, bs) => SpecNode::Branch(s@, spec_options(bs@)),
        }
    }
}

impl View for Branch {
    type V = SpecOption;

    open spec fn view(&self) -> SpecOption
        decreases self,
    {
        SpecOption { label: self.option@, body: spec_nodes(self.handler@) }
    }
}

/// The model of a sequence of options, element by element.
pub open spec fn spec_options(s: Seq<Branch>) -> Seq<SpecOption>
    decreases s,
{
    if s.len() == 0 {
        Seq::empty()
    } else {
        spec_options(s.drop_last()).push(s.last()@)
    }
}

/// The model of a sequence of nodes, element by element.
pub open spec fn spec_nodes(s: Seq<OpCode>) -> Seq<SpecNode>
    decreases s,
{
    if s.len() == 0 {
        Seq::empty()
    } else {
        spec_nodes(s.drop_last()).push(s.last()@)
    }
}

/// `spec_nodes` maps the view over the elements, index by index.
pub proof fn lemma_spec_nodes(s: Seq<OpCode>)
    ensures
        spec_nodes(s).len() == s.len(),
        forall|i: int| 0 <= i < s.len() ==> spec_nodes(s)[i] == #[trigger] s[i]@,
    decreases s.len(),
{
    if s.len() > 0 {
        lemma_spec_nodes(s.drop_last());
        assert(spec_nodes(s) == spec_nodes(s.drop_last()).push(s.last()@));
        assert(spec_nodes(s).len() == s.len());
        assert forall|i: int| 0 <= i < s.len() implies spec_nodes(s)[i] == #[trigger] s[i]@ by {
            if i < s.len() - 1 {
                assert(s.drop_last()[i] == s[i]);
            }
        }
    } else {
        assert(spec_nodes(s).len() == 0);
    }
}

/// `spec_options` maps the view over the elements, index by index.
pub proof fn lemma_spec_options(s: Seq<Branch>)
    ensures
        spec_options(s).len() == s.len(),
        forall|i: int| 0 <= i < s.len() ==> spec_options(s)[i] == #[trigger] s[i]@,
    decreases s.len(),
{
    if s.len() > 0 {
        lemma_spec_options(s.drop_last());
        assert(spec_options(s) == spec_options(s.drop_last()).push(s.last()@));
        assert(spec_options(s).len() == s.len());
        assert forall|i: int| 0 <= i < s.len() implies spec_options(s)[i] == #[trigger] s[i]@ by {
            if i < s.len() - 1 {
                assert(s.drop_last()[i] == s[i]);
            }
        }
    } else {
        assert(spec_options(s).len() == 0);
    }
}

impl Branch {
    /// Pairs a label with the node sequence it selects.
    pub fn new(option: String, handler: Vec<OpCode>) -> (r: Branch)
        ensures
            r@ == (SpecOption { label: option@, body: spec_nodes(handler@) }),
    {
        Branch { option, handler }
    }
}

/// Mathematical model of a failure category.
pub ghost enum SpecErrorKind {
    InvalidSyntax,
    Missing(Seq<char>),
    Expected(Seq<char>),
    InvalidIdentifier(nat),
}

/// The category of a compilation failure.
#[derive(Debug, Clone, PartialEq)]
pub enum ErrorType {
    /// An unrecognized character in the source.
    InvalidSyntax,
    /// The input ended before a required token or character.
    Missing(String),
    /// A wrong token or character stood where another was required.
    Expected(String),
    /// A `$id` reference with no `?id` declaration visible in scope.
    InvalidIdentifier(usize),
}

impl View for ErrorType {
    type V = SpecErrorKind;

    open spec fn view(&self) -> SpecErrorKind {
        match self {
            ErrorType::InvalidSyntax => SpecErrorKind::InvalidSyntax,
            ErrorType::Missing(s) => SpecErrorKind::Missing(s@),
            ErrorType::Expected(s) => SpecErrorKind::Expected(s@),
            ErrorType::InvalidIdentifier(n) => SpecErrorKind::InvalidIdentifier(*n as nat),
        }
    }
}

/// Mathematical model of an error: category and position.
pub ghost struct SpecError {
    pub kind: SpecErrorKind,
    pub line: int,
    pub col: int,
}

/// A compilation failure: a category plus the source position it arose at.
#[derive(Debug, Clone, PartialEq)]
pub struct Error {
    error_type: ErrorType,
    line: usize,
    column: usize,
}

impl View for Error {
    type V = SpecError;

    closed spec fn view(&self) -> SpecError {
        SpecError { kind: self.error_type@, line: self.line as int, col: self.column as int }
    }
}

/// The lexer's in-progress state: the source and the cursor into it.
pub struct Lexer {
    /// The raw source text.
    pub source: String,
    /// Index of the current character within `source`.
    pub index: usize,
    /// 1-based line of the current character.
    pub line: usize,
    /// 1-based column of the current character.
    pub column: usize,
}

/// The parser's in-progress state over a lexed token sequence.
pub struct Parser {
    /// The tokens being parsed.
    pub tokens: Vec<Token>,
    /// Index of the next token to consume.
    pub index: usize,
    /// The parsed top-level node sequence, grown as parsing proceeds.
    pub byte_code: Vec<OpCode>,
    /// Position of the most recently consumed token (errors point here).
    pub curr_pos: Position,
    /// Slot ids declared so far on the current lexical path.
    pub value_identifiers: Vec<usize>,
}

impl Error {
    /// An error positioned at the lexer's current line and column.
    pub fn lex_error(error_type: ErrorType, lexer: &Lexer) -> (r: Error)
        ensures
            r@ == (SpecError {
                kind: error_type@,
                line: lexer.line as int,
                col: lexer.column as int,
            }),
    {
        Error { error_type, line: lexer.line, column: lexer.column }
    }

    /// An error positioned at the parser's most recently consumed token.
    pub fn parse_error(error_type: ErrorType, parser: &Parser) -> (r: Error)
        ensures
            r@ == (SpecError {
                kind: error_type@,
                line: parser.curr_pos.line as int,
                col: parser.curr_pos.column as int,
            }),
    {
        Error { error_type, line: parser.curr_pos.line, column: parser.curr_pos.column }
    }

    /// The failure category.
    pub fn error_type(&self) -> (r: &ErrorType)
        ensures
            r@ == self@.kind,
    {
        &self.error_type
    }

    /// The 1-based line the failure arose at.
    pub fn line(&self) -> (r: usize)
        ensures
            r as int == self@.line,
    {
        self.line
    }

    /// The 1-based column the failure arose at.
    pub fn column(&self) -> (r: usize)
        ensures
            r as int == self@.col,
    {
        self.column
    }

    /// The process exit code that reporting this error calls for: each
    /// category maps to its own fixed code.
    pub fn exit_code(&self) -> (r: i32)
        ensures
            r == (match self@.kind {
                SpecErrorKind::InvalidSyntax => -1,
                SpecErrorKind::Missing(_) => 40,
                SpecErrorKind::Expected(_) => 41,
                SpecErrorKind::InvalidIdentifier(_) => 42,
            }),
    {
        match &self.error_type {
            ErrorType::InvalidSyntax => -1,
            ErrorType::Missing(_) => 40,
            ErrorType::Expected(_) => 41,
            ErrorType::InvalidIdentifier(_) => 42,
        }
    }
}

} // verus!
