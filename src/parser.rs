use vstd::prelude::*;

use crate::lexer::{kind_at, lemma_pos_after, lemma_pos_mono, pos_after, text_at, Lexer};
use crate::token::{kind_name, Token, TokenKind};

verus! {

/// Whether `t` is the `k`-th token of the stream scanned from `s`.
pub open spec fn is_token_at(t: Token, s: Seq<char>, b: nat, k: nat) -> bool {
    t.kind == kind_at(s, b, k) && t.literal@ == text_at(s, b, k)
}

/// Index of the first `Semicolon` or `Eof` token at or after the `k`-th one.
pub open spec fn semicolon_from(s: Seq<char>, b: nat, k: nat) -> nat
    decreases s.len() - pos_after(s, b, k),
    via semicolon_from_decreases
{
    if kind_at(s, b, k) == TokenKind::Semicolon || kind_at(s, b, k) == TokenKind::Eof {
        k
    } else {
        semicolon_from(s, b, k + 1)
    }
}

#[via_fn]
proof fn semicolon_from_decreases(s: Seq<char>, b: nat, k: nat) {
    lemma_pos_after(s, b, k);
    lemma_pos_after(s, b, k + 1);
}

/// `semicolon_from` finds the first `Semicolon` or `Eof` at or after `k`.
pub proof fn lemma_semicolon_from(s: Seq<char>, b: nat, k: nat)
    ensures
        k <= semicolon_from(s, b, k),
        kind_at(s, b, semicolon_from(s, b, k)) == TokenKind::Semicolon || kind_at(s, b,
            semicolon_from(s, b, k),
        ) == TokenKind::Eof,
        forall|m: nat|
            k <= m < semicolon_from(s, b, k) ==> #[trigger] kind_at(s, b, m) != TokenKind::Semicolon
                && kind_at(s, b, m) != TokenKind::Eof,
    decreases s.len() - pos_after(s, b, k),
{
    lemma_pos_after(s, b, k);
    lemma_pos_after(s, b, k + 1);
    if !(kind_at(s, b, k) == TokenKind::Semicolon || kind_at(s, b, k) == TokenKind::Eof) {
        lemma_semicolon_from(s, b, k + 1);
    }
}

/// A required token that was not found: the kind expected, and the kind of
/// the token found in its place.
#[derive(Debug, PartialEq, Eq, Structural, Clone, Copy)]
pub struct ParseErr {
    pub expected: TokenKind,
    pub actual: TokenKind,
}

impl ParseErr {
    pub fn new(expected: &TokenKind, actual: &TokenKind) -> (r: ParseErr)
        ensures
            r.expected == *expected,
            r.actual == *actual,
    {
        ParseErr { expected: *expected, actual: *actual }
    }

    /// `expected next token to be <expected>, but got <actual>`.
    pub fn message(&self) -> (r: String)
        ensures
            r@ == "expected next token to be "@ + kind_name(self.expected) + ", but got "@
                + kind_name(self.actual),
    {
        let mut out = String::from_str("expected next token to be ");
        out.append(self.expected.name());
        out.append(", but got ");
        out.append(self.actual.name());
        out
    }
}

/// Value attached to every `let` statement: the right-hand side is skipped,
/// not parsed.
pub const LET_PLACEHOLDER: i32 = 5;

/// Value attached to every `return` statement: the returned expression is
/// skipped, not parsed.
pub const RETURN_PLACEHOLDER: i32 = 1337;

/// Abstract form of an expression.
pub enum ExprView {
    Literal(int),
    Ident(Seq<char>),
}

/// Abstract form of a statement.
pub enum StmtView {
    Bad,
    Let(Seq<char>, ExprView),
    Return(ExprView),
}

/// The name bound by a `let` statement, borrowed from the source text.
#[derive(Debug, PartialEq)]
pub struct Ident<'a>(pub &'a str);

impl<'a> Ident<'a> {
    pub fn to_string(&self) -> (r: String)
        ensures
            r@ == self@,
    {
        String::from_str(self.0)
    }
}

impl<'a> View for Ident<'a> {
    type V = Seq<char>;

    open spec fn view(&self) -> Seq<char> {
        self.0@
    }
}

#[derive(Debug, PartialEq)]
pub enum ExprKind {
    Literal(i32),
    Ident(String),
}

impl ExprKind {
    pub fn to_string(&self) -> (r: String)
        ensures
            r@ == expr_text(self@),
    {
        match self {
            ExprKind::Literal(n) => {
                let mut out = String::new();
                push_decimal(&mut out, *n);
                assert(out@ =~= expr_text(self@));
                out
            },
            ExprKind::Ident(name) => String::from_str(name.as_str()),
        }
    }
}

impl View for ExprKind {
    type V = ExprView;

    open spec fn view(&self) -> ExprView {
        match self {
            ExprKind::Literal(n) => ExprView::Literal(*n as int),
            ExprKind::Ident(name) => ExprView::Ident(name@),
        }
    }
}

#[derive(Debug, PartialEq)]
pub struct Expr {
    pub node: ExprKind,
}

impl Expr {
    pub fn to_string(&self) -> (r: String)
        ensures
            r@ == expr_text(self@),
    {
        self.node.to_string()
    }
}

impl View for Expr {
    type V = ExprView;

    open spec fn view(&self) -> ExprView {
        self.node@
    }
}

#[derive(Debug, PartialEq)]
pub struct LetStmt<'a> {
    pub name: Ident<'a>,
    pub value: Expr,
}

#[derive(Debug, PartialEq)]
pub struct ReturnStmt {
    pub value: Expr,
}

/// A statement; `Bad` stands for one whose required tokens did not match.
#[derive(Debug, PartialEq)]
pub enum StmtKind<'a> {
    Bad,
    Let(LetStmt<'a>),
    Return(ReturnStmt),
}

impl<'a> StmtKind<'a> {
    pub fn to_string(&self) -> (r: String)
        ensures
            r@ == stmt_text(self@),
    {
        match self {
            StmtKind::Bad => String::from_str("Bad!"),
            StmtKind::Let(l) => {
                let mut out = String::from_str("let ");
                out.append(l.name.0);
                out.append(" = ");
                let value = l.value.to_string();
                out.append(value.as_str());
                out.append(";");
                out
            },
            StmtKind::Return(r) => {
                let mut out = String::from_str("return ");
                let value = r.value.to_string();
                out.append(value.as_str());
                out.append(";");
                out
            },
        }
    }
}

impl<'a> View for StmtKind<'a> {
    type V = StmtView;

    open spec fn view(&self) -> StmtView {
        match self {
            StmtKind::Bad => StmtView::Bad,
            StmtKind::Let(l) => StmtView::Let(l.name@, l.value@),
            StmtKind::Return(r) => StmtView::Return(r.value@),
        }
    }
}

#[derive(Debug, PartialEq)]
pub struct Stmt<'a> {
    pub node: StmtKind<'a>,
}

impl<'a> Stmt<'a> {
    pub fn to_string(&self) -> (r: String)
        ensures
            r@ == stmt_text(self@),
    {
        self.node.to_string()
    }
}

impl<'a> View for Stmt<'a> {
    type V = StmtView;

    open spec fn view(&self) -> StmtView {
        self.node@
    }
}

/// The statements parsed from one source text, in order.
#[derive(Debug, PartialEq)]
pub struct Program<'a> {
    pub stmts: Vec<Stmt<'a>>,
}

impl<'a> Program<'a> {
    /// The statements' texts, one after the other.
    pub fn to_string(&self) -> (r: String)
        ensures
            r@ == program_text(self@),
    {
        let mut out = String::new();
        let mut i: usize = 0;
        while i < self.stmts.len()
            invariant
                i <= self.stmts.len(),
                out@ == program_text(self@.subrange(0, i as int)),
            decreases self.stmts.len() - i,
        {
            let text = self.stmts[i].to_string();
            out.append(text.as_str());
            assert(self@.subrange(0, i + 1).drop_last() =~= self@.subrange(0, i as int));
            i = i + 1;
        }
        assert(self@.subrange(0, i as int) =~= self@);
        out
    }
}

impl<'a> View for Program<'a> {
    type V = Seq<StmtView>;

    open spec fn view(&self) -> Seq<StmtView> {
        self.stmts@.map_values(|st: Stmt<'a>| st@)
    }
}

/// Text of one decimal digit.
pub open spec fn digit_text(d: int) -> Seq<char> {
    if d == 0 {
        "0"@
    } else if d == 1 {
        "1"@
    } else if d == 2 {
        "2"@
    } else if d == 3 {
        "3"@
    } else if d == 4 {
        "4"@
    } else if d == 5 {
        "5"@
    } else if d == 6 {
        "6"@
    } else if d == 7 {
        "7"@
    } else if d == 8 {
        "8"@
    } else {
        "9"@
    }
}

/// Decimal digits of a natural number, most significant first, without
/// leading zeros.
pub open spec fn digits_text(n: nat) -> Seq<char>
    decreases n,
{
    if n < 10 {
        digit_text(n as int)
    } else {
        digits_text(n / 10) + digit_text((n % 10) as int)
    }
}

/// Decimal text of an integer, with a leading `-` when it is negative.
pub open spec fn decimal_text(n: int) -> Seq<char> {
    if n < 0 {
        "-"@ + digits_text((-n) as nat)
    } else {
        digits_text(n as nat)
    }
}

pub open spec fn expr_text(e: ExprView) -> Seq<char> {
    match e {
        ExprView::Literal(n) => decimal_text(n),
        ExprView::Ident(name) => name,
    }
}

/// Normalized text of a statement: `let <name> = <value>;`,
/// `return <value>;`, or `Bad!`.
pub open spec fn stmt_text(st: StmtView) -> Seq<char> {
    match st {
        StmtView::Bad => "Bad!"@,
        StmtView::Let(name, value) => "let "@ + name + " = "@ + expr_text(value) + ";"@,
        StmtView::Return(value) => "return "@ + expr_text(value) + ";"@,
    }
}

/// The texts of the statements, one after the other.
pub open spec fn program_text(stmts: Seq<StmtView>) -> Seq<char>
    decreases stmts.len(),
{
    if stmts.len() == 0 {
        Seq::empty()
    } else {
        program_text(stmts.drop_last()) + stmt_text(stmts.last())
    }
}

fn digit_str(d: u32) -> (r: &'static str)
    requires
        d < 10,
    ensures
        r@ == digit_text(d as int),
{
    if d == 0 {
        "0"
    } else if d == 1 {
        "1"
    } else if d == 2 {
        "2"
    } else if d == 3 {
        "3"
    } else if d == 4 {
        "4"
    } else if d == 5 {
        "5"
    } else if d == 6 {
        "6"
    } else if d == 7 {
        "7"
    } else if d == 8 {
        "8"
    } else {
        "9"
    }
}

fn push_digits(out: &mut String, n: u32)
    ensures
        final(out)@ == old(out)@ + digits_text(n as nat),
    decreases n,
{
    let ghost start = out@;
    if n >= 10 {
        push_digits(out, n / 10);
    }
    out.append(digit_str(n % 10));
    proof {
        if n >= 10 {
            assert(out@ =~= start + digits_text(n as nat));
        }
    }
}

fn push_decimal(out: &mut String, n: i32)
    ensures
        final(out)@ == old(out)@ + decimal_text(n as int),
{
    let ghost start = out@;
    if n < 0 {
        out.append("-");
        let m: i64 = -(n as i64);
        push_digits(out, m as u32);
        assert(out@ =~= start + decimal_text(n as int));
    } else {
        push_digits(out, n as u32);
    }
}

/// A `let` statement whose keyword is the `k`-th token: the statement built,
/// the mismatches found, and the index of the token it ends on (its
/// `Semicolon`, or `Eof`).
pub open spec fn let_model(s: Seq<char>, b: nat, k: nat) -> (StmtView, Seq<ParseErr>, nat) {
    let has_name = kind_at(s, b, k + 1) == TokenKind::Ident;
    let k1 = if has_name {
        k + 1
    } else {
        k
    };
    let has_assign = kind_at(s, b, k1 + 1) == TokenKind::Assign;
    let k2 = if has_assign {
        k1 + 1
    } else {
        k1
    };
    let e1 = if has_name {
        Seq::<ParseErr>::empty()
    } else {
        seq![ParseErr { expected: TokenKind::Ident, actual: kind_at(s, b, k + 1) }]
    };
    let e2 = if has_assign {
        Seq::<ParseErr>::empty()
    } else {
        seq![ParseErr { expected: TokenKind::Assign, actual: kind_at(s, b, k1 + 1) }]
    };
    let stmt = if has_name && has_assign {
        StmtView::Let(text_at(s, b, k + 1), ExprView::Literal(LET_PLACEHOLDER as int))
    } else {
        StmtView::Bad
    };
    (stmt, e1 + e2, semicolon_from(s, b, k2))
}

/// A `return` statement whose keyword is the `k`-th token: the statement
/// built, and the index of the token it ends on.
pub open spec fn return_model(s: Seq<char>, b: nat, k: nat) -> (StmtView, nat) {
    (StmtView::Return(ExprView::Literal(RETURN_PLACEHOLDER as int)), semicolon_from(s, b, k + 1))
}

/// The statements and the mismatches that parsing yields from the `k`-th
/// token on: statements are taken while the current token starts one.
pub open spec fn parse_model(s: Seq<char>, b: nat, k: nat) -> (Seq<StmtView>, Seq<ParseErr>)
    decreases s.len() - pos_after(s, b, k),
    via parse_model_decreases
{
    if kind_at(s, b, k) == TokenKind::Let {
        let (st, es, e) = let_model(s, b, k);
        let rest = parse_model(s, b, e + 1);
        (seq![st] + rest.0, es + rest.1)
    } else if kind_at(s, b, k) == TokenKind::Return {
        let (st, e) = return_model(s, b, k);
        let rest = parse_model(s, b, e + 1);
        (seq![st] + rest.0, rest.1)
    } else {
        (Seq::empty(), Seq::empty())
    }
}

/// Every statement ends at or after the token that starts it.
proof fn lemma_stmt_end(s: Seq<char>, b: nat, k: nat)
    ensures
        k <= let_model(s, b, k).2,
        k < return_model(s, b, k).1,
        kind_at(s, b, k) != TokenKind::Eof ==> pos_after(s, b, k) < pos_after(
            s,
            b,
            let_model(s, b, k).2 + 1,
        ) <= s.len(),
        kind_at(s, b, k) != TokenKind::Eof ==> pos_after(s, b, k) < pos_after(
            s,
            b,
            return_model(s, b, k).1 + 1,
        ) <= s.len(),
{
    let has_name = kind_at(s, b, k + 1) == TokenKind::Ident;
    let k1 = if has_name {
        k + 1
    } else {
        k
    };
    let k2 = if kind_at(s, b, k1 + 1) == TokenKind::Assign {
        k1 + 1
    } else {
        k1
    };
    lemma_semicolon_from(s, b, k2);
    lemma_semicolon_from(s, b, k + 1);
    lemma_pos_after(s, b, k);
    lemma_pos_mono(s, b, k + 1, let_model(s, b, k).2 + 1);
    lemma_pos_mono(s, b, k + 1, return_model(s, b, k).1 + 1);
}

#[via_fn]
proof fn parse_model_decreases(s: Seq<char>, b: nat, k: nat) {
    lemma_stmt_end(s, b, k);
}

/// Recovery keeps the next statement: when a `let` lacks its name or its `=`,
/// and the token after its terminating `Semicolon` is `return`, parsing from
/// the `let` yields a `Bad` statement followed by the `Return` statement, and
/// records a mismatch.
pub proof fn lemma_recovery_keeps_next(s: Seq<char>, b: nat, k: nat)
    requires
        kind_at(s, b, k) == TokenKind::Let,
        !(kind_at(s, b, k + 1) == TokenKind::Ident && kind_at(s, b, k + 2) == TokenKind::Assign),
        kind_at(s, b, semicolon_from(s, b, k + 1)) == TokenKind::Semicolon,
        kind_at(s, b, semicolon_from(s, b, k + 1) + 1) == TokenKind::Return,
    ensures
        parse_model(s, b, k).0.len() >= 2,
        parse_model(s, b, k).0[0] == StmtView::Bad,
        parse_model(s, b, k).0[1] == StmtView::Return(ExprView::Literal(RETURN_PLACEHOLDER as int)),
        parse_model(s, b, k).1.len() >= 1,
{
    let j = semicolon_from(s, b, k + 1);
    assert(semicolon_from(s, b, k) == j);
    if kind_at(s, b, k + 1) == TokenKind::Ident {
        assert(semicolon_from(s, b, k + 1) == semicolon_from(s, b, k + 2));
    }
    assert(let_model(s, b, k).2 == j);
    let ret = StmtView::Return(ExprView::Literal(RETURN_PLACEHOLDER as int));
    let after = parse_model(s, b, return_model(s, b, j + 1).1 + 1);
    assert(parse_model(s, b, j + 1).0 == seq![ret] + after.0);
}

/// A recursive-descent parser over the token stream of one lexer, holding the
/// current token and the one after it.
pub struct Parser<'a> {
    lex: Lexer<'a>,
    cur: Token<'a>,
    peek: Token<'a>,
    errors: Vec<ParseErr>,
    start: Ghost<nat>,
    index: Ghost<nat>,
}

impl<'a> Parser<'a> {
    /// The source text whose token stream is parsed.
    pub closed spec fn text(&self) -> Seq<char> {
        self.lex.text()
    }

    /// Where in the text the parsed token stream starts: the lexer's cursor
    /// when the parser was made.
    pub closed spec fn start(&self) -> nat {
        self.start@
    }

    /// Index in the token stream of the current token.
    pub closed spec fn index(&self) -> nat {
        self.index@
    }

    /// The mismatches recorded so far, oldest first.
    pub closed spec fn error_log(&self) -> Seq<ParseErr> {
        self.errors@
    }

    pub closed spec fn wf(&self) -> bool {
        &&& self.lex.wf()
        &&& self.lex.cursor() == pos_after(self.lex.text(), self.start@, self.index@ + 2)
        &&& is_token_at(self.cur, self.lex.text(), self.start@, self.index@)
        &&& is_token_at(self.peek, self.lex.text(), self.start@, self.index@ + 1)
    }

    /// The mismatches recorded so far, oldest first.
    pub fn errors(&self) -> (r: &Vec<ParseErr>)
        ensures
            r@ == self.error_log(),
    {
        &self.errors
    }

    /// A parser over the tokens that `lex` has still to yield: the first two
    /// are pulled at once.
    pub fn new(lex: Lexer<'a>) -> (r: Parser<'a>)
        requires
            lex.wf(),
        ensures
            r.wf(),
            r.text() == lex.text(),
            r.start() == lex.cursor(),
            r.index() == 0,
            r.error_log() == Seq::<ParseErr>::empty(),
    {
        let mut lex = lex;
        let ghost s = lex.text();
        let ghost b = lex.cursor() as nat;
        proof {
            lex.lemma_cursor_bound();
        }
        assert(pos_after(s, b, 0) == lex.cursor());
        let cur = lex.next_token();
        assert(pos_after(s, b, 1) == lex.cursor());
        let peek = lex.next_token();
        assert(pos_after(s, b, 2) == lex.cursor());
        Parser { lex, cur, peek, errors: Vec::new(), start: Ghost(b), index: Ghost(0) }
    }

    /// Shifts the next token into the current place and pulls a fresh one.
    pub fn next_token(&mut self)
        requires
            old(self).wf(),
        ensures
            final(self).wf(),
            final(self).text() == old(self).text(),
            final(self).start() == old(self).start(),
            final(self).index() == old(self).index() + 1,
            final(self).error_log() == old(self).error_log(),
    {
        let ghost s = self.lex.text();
        let ghost b = self.start@;
        let ghost k = self.index@;
        self.cur = self.peek;
        self.peek = self.lex.next_token();
        self.index = Ghost(k + 1);
        assert(pos_after(s, b, k + 3) == self.lex.cursor());
    }

    /// Takes the next token when it has kind `t`; otherwise records the
    /// mismatch and leaves the stream where it is.
    pub fn expect_peek(&mut self, t: TokenKind) -> (r: bool)
        requires
            old(self).wf(),
        ensures
            final(self).wf(),
            final(self).text() == old(self).text(),
            final(self).start() == old(self).start(),
            r == (kind_at(old(self).text(), old(self).start(), old(self).index() + 1) == t),
            final(self).index() == if r {
                old(self).index() + 1
            } else {
                old(self).index()
            },
            final(self).error_log() == if r {
                old(self).error_log()
            } else {
                old(self).error_log().push(
                    ParseErr {
                        expected: t,
                        actual: kind_at(old(self).text(), old(self).start(), old(self).index() + 1),
                    },
                )
            },
    {
        let peeked = self.peek;
        let is_match = peeked.kind == t;
        if is_match {
            self.next_token();
        } else {
            self.errors.push(ParseErr::new(&t, &peeked.kind));
        }
        is_match
    }

    /// Takes tokens until the current one is a `Semicolon` or `Eof`.
    fn skip_to_semicolon(&mut self)
        requires
            old(self).wf(),
        ensures
            final(self).wf(),
            final(self).text() == old(self).text(),
            final(self).start() == old(self).start(),
            final(self).index() == semicolon_from(
                old(self).text(),
                old(self).start(),
                old(self).index(),
            ),
            final(self).error_log() == old(self).error_log(),
    {
        let ghost s = self.text();
        let ghost b = self.start();
        while self.cur.kind != TokenKind::Semicolon && self.cur.kind != TokenKind::Eof
            invariant
                self.wf(),
                self.text() == s,
                self.start() == b,
                self.error_log() == old(self).error_log(),
                semicolon_from(s, b, self.index()) == semicolon_from(s, b, old(self).index()),
            decreases s.len() - pos_after(s, b, self.index()),
        {
            proof {
                lemma_pos_after(s, b, self.index());
                lemma_pos_after(s, b, self.index() + 1);
            }
            self.next_token();
        }
    }

    /// Parses a `let` statement whose keyword is the current token. A missing
    /// name or `=` is recorded and yields `Bad`; either way the statement ends
    /// on the next `Semicolon` (or `Eof`).
    fn parse_let_stmt(&mut self) -> (st: Stmt<'a>)
        requires
            old(self).wf(),
        ensures
            final(self).wf(),
            final(self).text() == old(self).text(),
            final(self).start() == old(self).start(),
            st@ == let_model(old(self).text(), old(self).start(), old(self).index()).0,
            final(self).error_log() == old(self).error_log() + let_model(
                old(self).text(),
                old(self).start(),
                old(self).index(),
            ).1,
            final(self).index() == let_model(
                old(self).text(),
                old(self).start(),
                old(self).index(),
            ).2,
    {
        let ghost s = self.text();
        let ghost b = self.start();
        let ghost k = self.index();
        let mut is_bad = false;
        if !self.expect_peek(TokenKind::Ident) {
            is_bad = true;
        }
        let name = self.cur.literal;
        if !self.expect_peek(TokenKind::Assign) {
            is_bad = true;
        }
        self.skip_to_semicolon();
        assert(self.error_log() =~= old(self).error_log() + let_model(s, b, k).1);
        if is_bad {
            Stmt { node: StmtKind::Bad }
        } else {
            Stmt {
                node: StmtKind::Let(
                    LetStmt {
                        name: Ident(name),
                        value: Expr { node: ExprKind::Literal(LET_PLACEHOLDER) },
                    },
                ),
            }
        }
    }

    /// Parses a `return` statement whose keyword is the current token; it
    /// ends on the next `Semicolon` (or `Eof`).
    fn parse_return_stmt(&mut self) -> (st: Stmt<'a>)
        requires
            old(self).wf(),
        ensures
            final(self).wf(),
            final(self).text() == old(self).text(),
            final(self).start() == old(self).start(),
            st@ == return_model(old(self).text(), old(self).start(), old(self).index()).0,
            final(self).error_log() == old(self).error_log(),
            final(self).index() == return_model(
                old(self).text(),
                old(self).start(),
                old(self).index(),
            ).1,
    {
        self.next_token();
        self.skip_to_semicolon();
        Stmt {
            node: StmtKind::Return(
                ReturnStmt { value: Expr { node: ExprKind::Literal(RETURN_PLACEHOLDER) } },
            ),
        }
    }

    /// Parses statements while the current token starts one, taking one token
    /// past the end of each. Mismatches are appended to the error list;
    /// parsing never stops on them.
    pub fn parse(&mut self) -> (p: Program<'a>)
        requires
            old(self).wf(),
        ensures
            final(self).wf(),
            final(self).text() == old(self).text(),
            final(self).start() == old(self).start(),
            p@ == parse_model(old(self).text(), old(self).start(), old(self).index()).0,
            final(self).error_log() == old(self).error_log() + parse_model(
                old(self).text(),
                old(self).start(),
                old(self).index(),
            ).1,
    {
        let ghost s = self.text();
        let ghost b = self.start();
        let ghost k0 = self.index();
        let mut p = Program { stmts: Vec::new() };
        assert(p@ =~= Seq::<StmtView>::empty());
        assert(self.error_log() =~= old(self).error_log() + Seq::<ParseErr>::empty());
        while self.cur.kind == TokenKind::Let || self.cur.kind == TokenKind::Return
            invariant
                self.wf(),
                self.text() == s,
                self.start() == b,
                parse_model(s, b, k0).0 == p@ + parse_model(s, b, self.index()).0,
                old(self).error_log() + parse_model(s, b, k0).1 == self.error_log() + parse_model(s, b,
                    self.index(),
                ).1,
            decreases s.len() - pos_after(s, b, self.index()),
        {
            let ghost k = self.index();
            let ghost errs = self.error_log();
            let ghost stmts = p@;
            proof {
                lemma_stmt_end(s, b, k);
            }
            let st = if self.cur.kind == TokenKind::Let {
                self.parse_let_stmt()
            } else {
                self.parse_return_stmt()
            };
            let ghost v = st@;
            p.stmts.push(st);
            assert(p@ =~= stmts.push(v));
            self.next_token();
            let ghost rest = parse_model(s, b, self.index());
            assert(seq![v] + rest.0 =~= parse_model(s, b, k).0);
            assert(stmts + parse_model(s, b, k).0 =~= p@ + rest.0);
            assert(errs + parse_model(s, b, k).1 =~= self.error_log() + rest.1);
        }
        assert(parse_model(s, b, self.index()).0 =~= Seq::<StmtView>::empty());
        assert(p@ + parse_model(s, b, self.index()).0 =~= p@);
        assert(self.error_log() + parse_model(s, b, self.index()).1 =~= self.error_log());
        p
    }

}

} // verus!
