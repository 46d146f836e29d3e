use vstd::prelude::*;

verus! {

/// The closed set of lexical categories.
#[derive(Debug, PartialEq, Eq, Structural, Clone, Copy)]
pub enum TokenKind {
    Illegal,
    Eof,
    Ident,
    Int,
    Assign,
    Eq,
    NotEq,
    Plus,
    Minus,
    Bang,
    Asterisk,
    Slash,
    Lt,
    Gt,
    Comma,
    Semicolon,
    Lparen,
    Rparen,
    Lbrace,
    Rbrace,
    Function,
    Let,
    If,
    Else,
    True,
    False,
    Return,
}

/// The name of a kind, as written in its declaration.
pub open spec fn kind_name(k: TokenKind) -> Seq<char> {
    match k {
        TokenKind::Illegal => "Illegal"@,
        TokenKind::Eof => "Eof"@,
        TokenKind::Ident => "Ident"@,
        TokenKind::Int => "Int"@,
        TokenKind::Assign => "Assign"@,
        TokenKind::Eq => "Eq"@,
        TokenKind::NotEq => "NotEq"@,
        TokenKind::Plus => "Plus"@,
        TokenKind::Minus => "Minus"@,
        TokenKind::Bang => "Bang"@,
        TokenKind::Asterisk => "Asterisk"@,
        TokenKind::Slash => "Slash"@,
        TokenKind::Lt => "Lt"@,
        TokenKind::Gt => "Gt"@,
        TokenKind::Comma => "Comma"@,
        TokenKind::Semicolon => "Semicolon"@,
        TokenKind::Lparen => "Lparen"@,
        TokenKind::Rparen => "Rparen"@,
        TokenKind::Lbrace => "Lbrace"@,
        TokenKind::Rbrace => "Rbrace"@,
        TokenKind::Function => "Function"@,
        TokenKind::Let => "Let"@,
        TokenKind::If => "If"@,
        TokenKind::Else => "Else"@,
        TokenKind::True => "True"@,
        TokenKind::False => "False"@,
        TokenKind::Return => "Return"@,
    }
}

impl TokenKind {
    /// The name of the kind, as written in its declaration.
    pub fn name(&self) -> (r: &'static str)
        ensures
            r@ == kind_name(*self),
    {
        match self {
            TokenKind::Illegal => "Illegal",
            TokenKind::Eof => "Eof",
            TokenKind::Ident => "Ident",
            TokenKind::Int => "Int",
            TokenKind::Assign => "Assign",
            TokenKind::Eq => "Eq",
            TokenKind::NotEq => "NotEq",
            TokenKind::Plus => "Plus",
            TokenKind::Minus => "Minus",
            TokenKind::Bang => "Bang",
            TokenKind::Asterisk => "Asterisk",
            TokenKind::Slash => "Slash",
            TokenKind::Lt => "Lt",
            TokenKind::Gt => "Gt",
            TokenKind::Comma => "Comma",
            TokenKind::Semicolon => "Semicolon",
            TokenKind::Lparen => "Lparen",
            TokenKind::Rparen => "Rparen",
            TokenKind::Lbrace => "Lbrace",
            TokenKind::Rbrace => "Rbrace",
            TokenKind::Function => "Function",
            TokenKind::Let => "Let",
            TokenKind::If => "If",
            TokenKind::Else => "Else",
            TokenKind::True => "True",
            TokenKind::False => "False",
            TokenKind::Return => "Return",
        }
    }
}

/// A classified lexeme, borrowed from the source text it was scanned from.
#[derive(Debug, PartialEq, Clone, Copy)]
pub struct Token<'a> {
    pub kind: TokenKind,
    pub literal: &'a str,
}

/// The kind of an identifier-shaped word: a reserved kind for each keyword,
/// `Ident` for every other word.
pub open spec fn keyword_kind(w: Seq<char>) -> TokenKind {
    if w == "fn"@ {
        TokenKind::Function
    } else if w == "let"@ {
        TokenKind::Let
    } else if w == "if"@ {
        TokenKind::If
    } else if w == "true"@ {
        TokenKind::True
    } else if w == "false"@ {
        TokenKind::False
    } else if w == "else"@ {
        TokenKind::Else
    } else if w == "return"@ {
        TokenKind::Return
    } else {
        TokenKind::Ident
    }
}

/// Whether two strings hold the same characters.
fn same_text(a: &str, b: &str) -> (r: bool)
    ensures
        r == (a@ == b@),
{
    let n = a.unicode_len();
    if n != b.unicode_len() {
        return false;
    }
    let mut i: usize = 0;
    while i < n
        invariant
            n == a@.len(),
            n == b@.len(),
            i <= n,
            a@.subrange(0, i as int) == b@.subrange(0, i as int),
        decreases n - i,
    {
        if a.get_char(i) != b.get_char(i) {
            return false;
        }
        assert(a@.subrange(0, i + 1) == a@.subrange(0, i as int).push(a@[i as int]));
        assert(b@.subrange(0, i + 1) == b@.subrange(0, i as int).push(b@[i as int]));
        i = i + 1;
    }
    assert(a@ == a@.subrange(0, n as int));
    assert(b@ == b@.subrange(0, n as int));
    true
}

/// Classifies an identifier-shaped word: keywords get their reserved kind,
/// anything else is `Ident`.
pub fn lookup_kind(str: &str) -> (r: TokenKind)
    ensures
        r == keyword_kind(str@),
{
    if same_text(str, "fn") {
        TokenKind::Function
    } else if same_text(str, "let") {
        TokenKind::Let
    } else if same_text(str, "if") {
        TokenKind::If
    } else if same_text(str, "true") {
        TokenKind::True
    } else if same_text(str, "false") {
        TokenKind::False
    } else if same_text(str, "else") {
        TokenKind::Else
    } else if same_text(str, "return") {
        TokenKind::Return
    } else {
        TokenKind::Ident
    }
}

} // verus!
