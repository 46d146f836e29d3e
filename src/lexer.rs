use vstd::prelude::*;

use crate::token::{keyword_kind, lookup_kind, Token, TokenKind};

verus! {

/// Whether `char::is_alphabetic` holds of a character (Unicode's Alphabetic property).
pub uninterp spec fn alphabetic(c: char) -> bool;


/// Relies on char::is_alphabetic: the answer depends on the character alone.
#[verifier::external_body]
fn char_is_alphabetic(c: char) -> (r: bool)
    ensures
        r == alphabetic(c),
{
    c.is_alphabetic()
}

/// The decimal digits `0` to `9`.
pub open spec fn is_digit(c: char) -> bool {
    '0' <= c && c <= '9'
}

/// Whether `c` is a decimal digit.
pub fn is_decimal_digit(c: char) -> (r: bool)
    ensures
        r == is_digit(c),
{
    '0' <= c && c <= '9'
}

/// The blank characters skipped between tokens.
pub open spec fn is_space(c: char) -> bool {
    c == ' ' || c == '\t' || c == '\n' || c == '\r'
}

/// Characters that may make up an identifier.
pub open spec fn is_letter(c: char) -> bool {
    alphabetic(c) || c == '_'
}

/// First index at or after `i` that does not hold a blank.
pub open spec fn skip_spaces(s: Seq<char>, i: int) -> int
    decreases s.len() - i,
{
    if 0 <= i < s.len() && is_space(s[i]) {
        skip_spaces(s, i + 1)
    } else {
        i
    }
}

/// End of the maximal run of identifier characters starting at `i`.
pub open spec fn letters_end(s: Seq<char>, i: int) -> int
    decreases s.len() - i,
{
    if 0 <= i < s.len() && is_letter(s[i]) {
        letters_end(s, i + 1)
    } else {
        i
    }
}

/// End of the maximal run of decimal digits starting at `i`.
pub open spec fn digits_end(s: Seq<char>, i: int) -> int
    decreases s.len() - i,
{
    if 0 <= i < s.len() && is_digit(s[i]) {
        digits_end(s, i + 1)
    } else {
        i
    }
}

/// The kind of each operator or delimiter that is always one character long.
pub open spec fn single_kind(c: char) -> Option<TokenKind> {
    if c == '+' {
        Some(TokenKind::Plus)
    } else if c == '-' {
        Some(TokenKind::Minus)
    } else if c == '*' {
        Some(TokenKind::Asterisk)
    } else if c == '/' {
        Some(TokenKind::Slash)
    } else if c == '<' {
        Some(TokenKind::Lt)
    } else if c == '>' {
        Some(TokenKind::Gt)
    } else if c == ',' {
        Some(TokenKind::Comma)
    } else if c == ';' {
        Some(TokenKind::Semicolon)
    } else if c == '(' {
        Some(TokenKind::Lparen)
    } else if c == ')' {
        Some(TokenKind::Rparen)
    } else if c == '{' {
        Some(TokenKind::Lbrace)
    } else if c == '}' {
        Some(TokenKind::Rbrace)
    } else {
        None
    }
}

/// The token that scanning `s` from index `i` yields: its kind, and the start
/// and end of its lexeme, where the end is also where scanning resumes.
pub open spec fn scan(s: Seq<char>, i: int) -> (TokenKind, int, int) {
    let j = skip_spaces(s, i);
    if j >= s.len() {
        (TokenKind::Eof, j, j)
    } else {
        let c = s[j];
        if c == '=' {
            if j + 1 < s.len() && s[j + 1] == '=' {
                (TokenKind::Eq, j, j + 2)
            } else {
                (TokenKind::Assign, j, j + 1)
            }
        } else if c == '!' {
            if j + 1 < s.len() && s[j + 1] == '=' {
                (TokenKind::NotEq, j, j + 2)
            } else {
                (TokenKind::Bang, j, j + 1)
            }
        } else if single_kind(c) is Some {
            (single_kind(c)->0, j, j + 1)
        } else if is_letter(c) {
            let e = letters_end(s, j);
            (keyword_kind(s.subrange(j, e)), j, e)
        } else if is_digit(c) {
            (TokenKind::Int, j, digits_end(s, j))
        } else {
            (TokenKind::Illegal, j, j + 1)
        }
    }
}

/// The blank run skipped from `i` stays within the text and is maximal.
pub proof fn lemma_skip_spaces(s: Seq<char>, i: int)
    requires
        0 <= i <= s.len(),
    ensures
        i <= skip_spaces(s, i) <= s.len(),
        skip_spaces(s, i) < s.len() ==> !is_space(s[skip_spaces(s, i)]),
        forall|k: int| i <= k < skip_spaces(s, i) ==> is_space(#[trigger] s[k]),
    decreases s.len() - i,
{
    if i < s.len() && is_space(s[i]) {
        lemma_skip_spaces(s, i + 1);
    }
}

/// An identifier run stays within the text and is maximal.
pub proof fn lemma_letters_end(s: Seq<char>, i: int)
    requires
        0 <= i <= s.len(),
    ensures
        i <= letters_end(s, i) <= s.len(),
        letters_end(s, i) < s.len() ==> !is_letter(s[letters_end(s, i)]),
        forall|k: int| i <= k < letters_end(s, i) ==> is_letter(#[trigger] s[k]),
    decreases s.len() - i,
{
    if i < s.len() && is_letter(s[i]) {
        lemma_letters_end(s, i + 1);
    }
}

/// A run of decimal digits stays within the text and is maximal.
pub proof fn lemma_digits_end(s: Seq<char>, i: int)
    requires
        0 <= i <= s.len(),
    ensures
        i <= digits_end(s, i) <= s.len(),
        digits_end(s, i) < s.len() ==> !is_digit(s[digits_end(s, i)]),
        forall|k: int| i <= k < digits_end(s, i) ==> is_digit(#[trigger] s[k]),
    decreases s.len() - i,
{
    if i < s.len() && is_digit(s[i]) {
        lemma_digits_end(s, i + 1);
    }
}

/// A scan never goes back, and every token but `Eof` has a non-empty lexeme
/// within the text. `Eof` comes only where no character is left; from a start
/// within the text it lies at the end.
pub proof fn lemma_scan_bounds(s: Seq<char>, i: int)
    requires
        0 <= i,
    ensures
        i <= scan(s, i).1 <= scan(s, i).2,
        scan(s, i).0 == TokenKind::Eof <==> scan(s, i).1 >= s.len(),
        scan(s, i).0 == TokenKind::Eof ==> scan(s, i).2 == scan(s, i).1,
        scan(s, i).0 != TokenKind::Eof ==> scan(s, i).1 < scan(s, i).2 <= s.len(),
        i <= s.len() ==> scan(s, i).2 <= s.len(),
        i <= s.len() && scan(s, i).0 == TokenKind::Eof ==> scan(s, i).1 == s.len(),
{
    if i <= s.len() {
        lemma_skip_spaces(s, i);
        let j = skip_spaces(s, i);
        if j < s.len() {
            lemma_letters_end(s, j);
            lemma_digits_end(s, j);
        }
    }
}

/// Blanks skipped from `i` depend only on the text from `d` on.
pub proof fn lemma_skip_spaces_suffix(s: Seq<char>, d: int, i: int)
    requires
        0 <= d <= i <= s.len(),
    ensures
        skip_spaces(s, i) == skip_spaces(s.subrange(d, s.len() as int), i - d) + d,
    decreases s.len() - i,
{
    let r = s.subrange(d, s.len() as int);
    if i < s.len() {
        assert(r[i - d] == s[i]);
        if is_space(s[i]) {
            lemma_skip_spaces_suffix(s, d, i + 1);
        }
    }
}

/// An identifier run from `i` depends only on the text from `d` on.
pub proof fn lemma_letters_end_suffix(s: Seq<char>, d: int, i: int)
    requires
        0 <= d <= i <= s.len(),
    ensures
        letters_end(s, i) == letters_end(s.subrange(d, s.len() as int), i - d) + d,
    decreases s.len() - i,
{
    let r = s.subrange(d, s.len() as int);
    if i < s.len() {
        assert(r[i - d] == s[i]);
        if is_letter(s[i]) {
            lemma_letters_end_suffix(s, d, i + 1);
        }
    }
}

/// A digit run from `i` depends only on the text from `d` on.
pub proof fn lemma_digits_end_suffix(s: Seq<char>, d: int, i: int)
    requires
        0 <= d <= i <= s.len(),
    ensures
        digits_end(s, i) == digits_end(s.subrange(d, s.len() as int), i - d) + d,
    decreases s.len() - i,
{
    let r = s.subrange(d, s.len() as int);
    if i < s.len() {
        assert(r[i - d] == s[i]);
        if is_digit(s[i]) {
            lemma_digits_end_suffix(s, d, i + 1);
        }
    }
}

/// A scan from `i` depends only on the text from `d` on: scanning `s` from
/// `i` gives the token that scanning the suffix from `i - d` gives, moved by `d`.
pub proof fn lemma_scan_suffix(s: Seq<char>, d: int, i: int)
    requires
        0 <= d <= i <= s.len(),
    ensures
        ({
            let t = scan(s.subrange(d, s.len() as int), i - d);
            scan(s, i) == (t.0, t.1 + d, t.2 + d)
        }),
{
    let r = s.subrange(d, s.len() as int);
    lemma_skip_spaces_suffix(s, d, i);
    lemma_skip_spaces(s, i);
    let j = skip_spaces(s, i);
    if j < s.len() {
        assert(r[j - d] == s[j]);
        if j + 1 < s.len() {
            assert(r[j + 1 - d] == s[j + 1]);
        }
        lemma_letters_end_suffix(s, d, j);
        lemma_digits_end_suffix(s, d, j);
        lemma_letters_end(s, j);
        assert(s.subrange(j, letters_end(s, j)) =~= r.subrange(j - d, letters_end(s, j) - d));
    }
}

/// A one-character operator or delimiter under the cursor is scanned as its
/// own kind, with a lexeme of that one character, and scanning resumes right
/// after it.
pub proof fn lemma_single_char_token(s: Seq<char>, i: int)
    requires
        0 <= i < s.len(),
        single_kind(s[i]) is Some,
    ensures
        scan(s, i) == (single_kind(s[i])->0, i, i + 1),
{
    assert(skip_spaces(s, i) == i);
}

/// `==` and `!=` are scanned as one two-character token; `=` and `!` not
/// followed by `=` are scanned as `Assign` and `Bang`, one character long.
pub proof fn lemma_two_char_token(s: Seq<char>, i: int)
    requires
        0 <= i < s.len(),
        s[i] == '=' || s[i] == '!',
    ensures
        i + 1 < s.len() && s[i + 1] == '=' ==> scan(s, i) == (
            if s[i] == '=' {
                TokenKind::Eq
            } else {
                TokenKind::NotEq
            },
            i,
            i + 2,
        ),
        !(i + 1 < s.len() && s[i + 1] == '=') ==> scan(s, i) == (
            if s[i] == '=' {
                TokenKind::Assign
            } else {
                TokenKind::Bang
            },
            i,
            i + 1,
        ),
{
    assert(skip_spaces(s, i) == i);
}

/// Exhausted input is a terminal state: once a scan yields `Eof`, scanning
/// again from where it stopped yields `Eof` at the same place, with an empty
/// lexeme.
pub proof fn lemma_eof_repeats(s: Seq<char>, i: int)
    requires
        0 <= i <= s.len(),
        scan(s, i).0 == TokenKind::Eof,
    ensures
        scan(s, i) == (TokenKind::Eof, s.len() as int, s.len() as int),
        scan(s, scan(s, i).2) == scan(s, i),
{
    lemma_scan_bounds(s, i);
}

/// Where scanning stands in `s` after `k` tokens have been taken from `b` on.
pub open spec fn pos_after(s: Seq<char>, b: nat, k: nat) -> int
    decreases k,
{
    if k == 0 {
        b as int
    } else {
        scan(s, pos_after(s, b, (k - 1) as nat)).2
    }
}

/// Kind of the `k`-th token (from zero) of the stream scanned from `b` on.
pub open spec fn kind_at(s: Seq<char>, b: nat, k: nat) -> TokenKind {
    scan(s, pos_after(s, b, k)).0
}

/// Lexeme of the `k`-th token (from zero) of the stream scanned from `b` on.
pub open spec fn text_at(s: Seq<char>, b: nat, k: nat) -> Seq<char> {
    let t = scan(s, pos_after(s, b, k));
    s.subrange(t.1, t.2)
}

/// Positions in the stream never go back, and grow with each token but
/// `Eof`; from a start within the text they stay within it. After `Eof` the
/// stream yields `Eof` again.
pub proof fn lemma_pos_after(s: Seq<char>, b: nat, k: nat)
    ensures
        b <= pos_after(s, b, k) <= pos_after(s, b, k + 1),
        b <= s.len() ==> pos_after(s, b, k + 1) <= s.len(),
        kind_at(s, b, k) != TokenKind::Eof ==> pos_after(s, b, k) < pos_after(s, b, k + 1)
            <= s.len(),
        kind_at(s, b, k) == TokenKind::Eof ==> kind_at(s, b, k + 1) == TokenKind::Eof,
    decreases k,
{
    if k > 0 {
        lemma_pos_after(s, b, (k - 1) as nat);
    }
    let i = pos_after(s, b, k);
    lemma_scan_bounds(s, i);
    assert(pos_after(s, b, k + 1) == scan(s, i).2);
    if kind_at(s, b, k) == TokenKind::Eof {
        lemma_scan_bounds(s, scan(s, i).2);
        if i <= s.len() {
            lemma_eof_repeats(s, i);
        }
    }
}

/// Positions in the stream grow with the number of tokens taken.
pub proof fn lemma_pos_mono(s: Seq<char>, b: nat, k: nat, m: nat)
    requires
        k <= m,
    ensures
        b <= pos_after(s, b, k) <= pos_after(s, b, m),
        b <= s.len() ==> pos_after(s, b, m) <= s.len(),
    decreases m - k,
{
    lemma_pos_after(s, b, k);
    if k < m {
        lemma_pos_mono(s, b, k + 1, m);
    } else if k > 0 {
        lemma_pos_after(s, b, (k - 1) as nat);
    }
}

/// After the first token, the stream goes on as the stream that starts where
/// that token ends.
pub proof fn lemma_pos_after_first(s: Seq<char>, b: nat, k: nat)
    ensures
        scan(s, b as int).2 >= 0,
        pos_after(s, b, k + 1) == pos_after(s, scan(s, b as int).2 as nat, k),
    decreases k,
{
    lemma_scan_bounds(s, b as int);
    let e = scan(s, b as int).2 as nat;
    assert(pos_after(s, b, 0) == b as int);
    assert(pos_after(s, b, 1) == scan(s, pos_after(s, b, 0)).2);
    assert(pos_after(s, b, 1) == pos_after(s, e, 0));
    if k > 0 {
        lemma_pos_after_first(s, b, (k - 1) as nat);
        assert(pos_after(s, b, k + 1) == scan(s, pos_after(s, b, k)).2);
        assert(pos_after(s, e, k) == scan(s, pos_after(s, e, (k - 1) as nat)).2);
    }
}

/// The stream scanned from `d` on is the stream of the suffix from `d`, with
/// every position moved by `d`.
pub proof fn lemma_stream_suffix(s: Seq<char>, d: nat, k: nat)
    requires
        d <= s.len(),
    ensures
        pos_after(s, d, k) == pos_after(s.subrange(d as int, s.len() as int), 0, k) + d,
        kind_at(s, d, k) == kind_at(s.subrange(d as int, s.len() as int), 0, k),
        text_at(s, d, k) == text_at(s.subrange(d as int, s.len() as int), 0, k),
    decreases k,
{
    let r = s.subrange(d as int, s.len() as int);
    if k > 0 {
        lemma_stream_suffix(s, d, (k - 1) as nat);
        lemma_pos_mono(s, d, 0, (k - 1) as nat);
        lemma_scan_suffix(s, d as int, pos_after(s, d, (k - 1) as nat));
    }
    lemma_pos_mono(s, d, 0, k);
    lemma_scan_suffix(s, d as int, pos_after(s, d, k));
    lemma_scan_bounds(r, pos_after(r, 0, k));
    let t = scan(r, pos_after(r, 0, k));
    assert(s.subrange(t.1 + d, t.2 + d) =~= r.subrange(t.1, t.2));
}

/// An operator or delimiter of one character takes exactly that character:
/// the stream of `c` followed by `rest` is that token, then the stream of `rest`.
pub proof fn lemma_single_char_stream(c: char, rest: Seq<char>, k: nat)
    requires
        single_kind(c) is Some,
    ensures
        kind_at(seq![c] + rest, 0, 0) == single_kind(c)->0,
        text_at(seq![c] + rest, 0, 0) == seq![c],
        kind_at(seq![c] + rest, 0, k + 1) == kind_at(rest, 0, k),
        text_at(seq![c] + rest, 0, k + 1) == text_at(rest, 0, k),
{
    let s = seq![c] + rest;
    lemma_single_char_token(s, 0);
    assert(s.subrange(0, 1) =~= seq![c]);
    lemma_pos_after_first(s, 0, k);
    lemma_stream_suffix(s, 1, k);
    assert(s.subrange(1, s.len() as int) =~= rest);
}

/// `==` and `!=` take exactly their two characters: the stream of `x`, `=`
/// and `rest` is one `Eq` or `NotEq` token, then the stream of `rest`.
pub proof fn lemma_two_char_stream(x: char, rest: Seq<char>, k: nat)
    requires
        x == '=' || x == '!',
    ensures
        kind_at(seq![x, '='] + rest, 0, 0) == if x == '=' {
            TokenKind::Eq
        } else {
            TokenKind::NotEq
        },
        text_at(seq![x, '='] + rest, 0, 0) == seq![x, '='],
        kind_at(seq![x, '='] + rest, 0, k + 1) == kind_at(rest, 0, k),
        text_at(seq![x, '='] + rest, 0, k + 1) == text_at(rest, 0, k),
{
    let s = seq![x, '='] + rest;
    lemma_two_char_token(s, 0);
    assert(s.subrange(0, 2) =~= seq![x, '=']);
    lemma_pos_after_first(s, 0, k);
    lemma_stream_suffix(s, 2, k);
    assert(s.subrange(2, s.len() as int) =~= rest);
}

/// `=` or `!` not followed by `=` takes one character: the stream of `x`, `d`
/// and `rest` is one `Assign` or `Bang` token, then the stream of `d` and
/// `rest`, so `d` is not swallowed.
pub proof fn lemma_lone_char_stream(x: char, d: char, rest: Seq<char>, k: nat)
    requires
        x == '=' || x == '!',
        d != '=',
    ensures
        kind_at(seq![x, d] + rest, 0, 0) == if x == '=' {
            TokenKind::Assign
        } else {
            TokenKind::Bang
        },
        text_at(seq![x, d] + rest, 0, 0) == seq![x],
        kind_at(seq![x, d] + rest, 0, k + 1) == kind_at(seq![d] + rest, 0, k),
        text_at(seq![x, d] + rest, 0, k + 1) == text_at(seq![d] + rest, 0, k),
{
    let s = seq![x, d] + rest;
    assert(s[1] == d);
    lemma_two_char_token(s, 0);
    assert(s.subrange(0, 1) =~= seq![x]);
    lemma_pos_after_first(s, 0, k);
    lemma_stream_suffix(s, 1, k);
    assert(s.subrange(1, s.len() as int) =~= seq![d] + rest);
}

/// Whether `c` is a character that may make up an identifier.
pub(crate) fn is_valid_letter(c: char) -> (r: bool)
    ensures
        r == is_letter(c),
{
    char_is_alphabetic(c) || c == '_'
}

/// Whether `c` is a blank skipped between tokens.
fn is_blank(c: char) -> (r: bool)
    ensures
        r == is_space(c),
{
    c == ' ' || c == '\t' || c == '\n' || c == '\r'
}

/// A single-pass scanner over a source text.
#[derive(Debug)]
pub struct Lexer<'a> {
    input: &'a str,
    chars: Vec<char>,
    pos: usize,
}

impl<'a> Lexer<'a> {
    /// The characters of the source text.
    pub closed spec fn text(&self) -> Seq<char> {
        self.chars@
    }

    /// Index of the character under the cursor; the length of the text once
    /// the input is exhausted.
    pub closed spec fn cursor(&self) -> int {
        self.pos as int
    }

    pub closed spec fn wf(&self) -> bool {
        &&& self.chars@ == self.input@
        &&& self.pos <= self.chars.len()
    }

    /// The cursor of a well-formed lexer lies within its text.
    pub proof fn lemma_cursor_bound(&self)
        requires
            self.wf(),
        ensures
            0 <= self.cursor() <= self.text().len(),
    {
    }

    /// A scanner positioned at the first character of `inp`. Empty input is
    /// accepted and yields `Eof` at once.
    pub fn new(inp: &'a str) -> (r: Lexer<'a>)
        ensures
            r.wf(),
            r.text() == inp@,
            r.cursor() == 0,
    {
        let n = inp.unicode_len();
        let mut chars: Vec<char> = Vec::new();
        let mut i: usize = 0;
        while i < n
            invariant
                n == inp@.len(),
                i <= n,
                chars@ == inp@.subrange(0, i as int),
            decreases n - i,
        {
            chars.push(inp.get_char(i));
            i = i + 1;
        }
        assert(chars@ == inp@);
        Lexer { input: inp, chars, pos: 0 }
    }

    /// The character under the cursor, or `'\0'` once the input is exhausted.
    pub fn ch(&self) -> (c: char)
        requires
            self.wf(),
        ensures
            c == if self.cursor() < self.text().len() {
                self.text()[self.cursor()]
            } else {
                '\0'
            },
    {
        if self.pos < self.chars.len() {
            self.chars[self.pos]
        } else {
            '\0'
        }
    }

    /// Moves the cursor one character forward; at the end of the input it stays.
    pub fn read_char(&mut self)
        requires
            old(self).wf(),
        ensures
            final(self).wf(),
            final(self).text() == old(self).text(),
            final(self).cursor() == if old(self).cursor() < old(self).text().len() {
                old(self).cursor() + 1
            } else {
                old(self).cursor()
            },
    {
        if self.pos < self.chars.len() {
            self.pos = self.pos + 1;
        }
    }

    /// The character right after the one under the cursor, or `'\0'` where
    /// there is none. The cursor does not move.
    pub fn peek_char(&self) -> (c: char)
        requires
            self.wf(),
        ensures
            c == if self.cursor() + 1 < self.text().len() {
                self.text()[self.cursor() + 1]
            } else {
                '\0'
            },
    {
        if self.chars.len() - self.pos > 1 {
            self.chars[self.pos + 1]
        } else {
            '\0'
        }
    }

    /// Scans the next token and moves the cursor past it. Once the input is
    /// exhausted every call yields `Eof` with an empty lexeme.
    pub fn next_token(&mut self) -> (t: Token<'a>)
        requires
            old(self).wf(),
        ensures
            final(self).wf(),
            final(self).text() == old(self).text(),
            ({
                let (k, b, e) = scan(old(self).text(), old(self).cursor());
                &&& t.kind == k
                &&& t.literal@ == old(self).text().subrange(b, e)
                &&& final(self).cursor() == e
            }),
    {
        self.skip_whitespace();
        let start = self.pos;
        proof {
            lemma_skip_spaces(self.chars@, old(self).pos as int);
        }
        if start >= self.chars.len() {
            return Token { kind: TokenKind::Eof, literal: self.input.substring_char(start, start) };
        }
        let c = self.chars[start];
        let kind = if c == '=' {
            if self.peek_char() == '=' {
                self.read_char();
                TokenKind::Eq
            } else {
                TokenKind::Assign
            }
        } else if c == '!' {
            if self.peek_char() == '=' {
                self.read_char();
                TokenKind::NotEq
            } else {
                TokenKind::Bang
            }
        } else if c == '+' {
            TokenKind::Plus
        } else if c == '-' {
            TokenKind::Minus
        } else if c == '*' {
            TokenKind::Asterisk
        } else if c == '/' {
            TokenKind::Slash
        } else if c == '<' {
            TokenKind::Lt
        } else if c == '>' {
            TokenKind::Gt
        } else if c == ',' {
            TokenKind::Comma
        } else if c == ';' {
            TokenKind::Semicolon
        } else if c == '(' {
            TokenKind::Lparen
        } else if c == ')' {
            TokenKind::Rparen
        } else if c == '{' {
            TokenKind::Lbrace
        } else if c == '}' {
            TokenKind::Rbrace
        } else if is_valid_letter(c) {
            let literal = self.read_identifier();
            return Token { kind: lookup_kind(literal), literal };
        } else if is_decimal_digit(c) {
            let literal = self.read_number();
            return Token { kind: TokenKind::Int, literal };
        } else {
            TokenKind::Illegal
        };
        self.read_char();
        Token { kind, literal: self.input.substring_char(start, self.pos) }
    }

    /// Consumes the maximal run of decimal digits under the cursor.
    fn read_number(&mut self) -> (r: &'a str)
        requires
            old(self).wf(),
        ensures
            final(self).wf(),
            final(self).text() == old(self).text(),
            final(self).cursor() == digits_end(old(self).text(), old(self).cursor()),
            r@ == old(self).text().subrange(old(self).cursor(), final(self).cursor()),
    {
        let lo = self.pos;
        while self.pos < self.chars.len() && is_decimal_digit(self.chars[self.pos])
            invariant
                self.wf(),
                self.input == old(self).input,
                self.chars@ == old(self).chars@,
                lo <= self.pos,
                digits_end(self.chars@, self.pos as int) == digits_end(self.chars@, lo as int),
            decreases self.chars.len() - self.pos,
        {
            self.pos = self.pos + 1;
        }
        self.input.substring_char(lo, self.pos)
    }

    /// Consumes the maximal run of identifier characters under the cursor.
    fn read_identifier(&mut self) -> (r: &'a str)
        requires
            old(self).wf(),
        ensures
            final(self).wf(),
            final(self).text() == old(self).text(),
            final(self).cursor() == letters_end(old(self).text(), old(self).cursor()),
            r@ == old(self).text().subrange(old(self).cursor(), final(self).cursor()),
    {
        let lo = self.pos;
        while self.pos < self.chars.len() && is_valid_letter(self.chars[self.pos])
            invariant
                self.wf(),
                self.input == old(self).input,
                self.chars@ == old(self).chars@,
                lo <= self.pos,
                letters_end(self.chars@, self.pos as int) == letters_end(self.chars@, lo as int),
            decreases self.chars.len() - self.pos,
        {
            self.pos = self.pos + 1;
        }
        self.input.substring_char(lo, self.pos)
    }

    /// Moves the cursor past a run of blanks.
    fn skip_whitespace(&mut self)
        requires
            old(self).wf(),
        ensures
            final(self).wf(),
            final(self).input == old(self).input,
            final(self).chars@ == old(self).chars@,
            final(self).pos == skip_spaces(old(self).chars@, old(self).pos as int),
    {
        while self.pos < self.chars.len() && is_blank(self.chars[self.pos])
            invariant
                self.wf(),
                self.input == old(self).input,
                self.chars@ == old(self).chars@,
                skip_spaces(self.chars@, self.pos as int) == skip_spaces(
                    old(self).chars@,
                    old(self).pos as int,
                ),
            decreases self.chars.len() - self.pos,
        {
            self.pos = self.pos + 1;
        }
    }
}

} // verus!
