use monkey::lexer::{is_decimal_digit, Lexer};
use monkey::token::{lookup_kind, TokenKind};

fn kinds_of(src: &str) -> Vec<TokenKind> {
    let mut lexer = Lexer::new(src);
    let mut out = Vec::new();
    loop {
        let tok = lexer.next_token();
        out.push(tok.kind);
        if tok.kind == TokenKind::Eof {
            return out;
        }
    }
}

#[test]
fn check_lex() {
    let test = String::from("afoo");
    let lexer = Lexer::new(&test);
    assert_eq!(lexer.ch(), 'a');
}

#[test]
fn check_lex_next_token() {
    let test = String::from("+=+=;");
    let mut lexer = Lexer::new(&test);
    let mut t = lexer.next_token();

    println!("{:?}", t);
    assert_eq!(t.kind, TokenKind::Plus);

    t = lexer.next_token();
    println!("{:?}", t);

    assert_eq!(t.kind, TokenKind::Assign);
}

#[test]
fn check_skip_whitespace() {
    let test = "            fn";
    let mut lexer = Lexer::new(test);
    let tok = lexer.next_token();
    assert_eq!(tok.kind, TokenKind::Function);
}

#[test]
fn check_read_number() {
    let mut lexer = Lexer::new("12345");
    let tok = lexer.next_token();
    assert_eq!(tok.kind, TokenKind::Int);
    assert_eq!(tok.literal, "12345");
}

#[test]
fn check_lexer_robustness() {
    let input = "let if true (9 > 16) + a =b
    10000
    5 == !x;
    6 != z;
    false fn = alphabet,<; { }
    ";

    let expect = [
        TokenKind::Let,
        TokenKind::If,
        TokenKind::True,
        TokenKind::Lparen,
        TokenKind::Int,
        TokenKind::Gt,
        TokenKind::Int,
        TokenKind::Rparen,
        TokenKind::Plus,
        TokenKind::Ident,
        TokenKind::Assign,
        TokenKind::Ident,
        TokenKind::Int,
        TokenKind::Int,
        TokenKind::Eq,
        TokenKind::Bang,
        TokenKind::Ident,
        TokenKind::Semicolon,
        TokenKind::Int,
        TokenKind::NotEq,
        TokenKind::Ident,
        TokenKind::Semicolon,
        TokenKind::False,
        TokenKind::Function,
        TokenKind::Assign,
        TokenKind::Ident,
        TokenKind::Comma,
        TokenKind::Lt,
        TokenKind::Semicolon,
        TokenKind::Lbrace,
        TokenKind::Rbrace,
        TokenKind::Eof,
    ];

    let mut lexer = Lexer::new(input);

    for expected_token in expect.iter() {
        let tok = lexer.next_token();
        assert_eq!(*expected_token, tok.kind);
    }
}

#[test]
fn single_char_operators_take_one_char() {
    let cases = [
        ("+", TokenKind::Plus),
        ("-", TokenKind::Minus),
        ("*", TokenKind::Asterisk),
        ("/", TokenKind::Slash),
        ("<", TokenKind::Lt),
        (">", TokenKind::Gt),
        (",", TokenKind::Comma),
        (";", TokenKind::Semicolon),
        ("(", TokenKind::Lparen),
        (")", TokenKind::Rparen),
        ("{", TokenKind::Lbrace),
        ("}", TokenKind::Rbrace),
    ];
    for (op, kind) in cases.iter() {
        let src = format!("{}{}x", op, op);
        let mut lexer = Lexer::new(&src);
        let first = lexer.next_token();
        assert_eq!(first.kind, *kind);
        assert_eq!(first.literal, *op);
        let second = lexer.next_token();
        assert_eq!(second.kind, *kind);
        assert_eq!(second.literal, *op);
        let third = lexer.next_token();
        assert_eq!(third.kind, TokenKind::Ident);
        assert_eq!(third.literal, "x");
    }
}

#[test]
fn two_char_operators() {
    let mut lexer = Lexer::new("==!=");
    let t = lexer.next_token();
    assert_eq!(t.kind, TokenKind::Eq);
    assert_eq!(t.literal, "==");
    let t = lexer.next_token();
    assert_eq!(t.kind, TokenKind::NotEq);
    assert_eq!(t.literal, "!=");
    assert_eq!(lexer.next_token().kind, TokenKind::Eof);
}

#[test]
fn lone_assign_and_bang() {
    let mut lexer = Lexer::new("= !x !");
    let t = lexer.next_token();
    assert_eq!(t.kind, TokenKind::Assign);
    assert_eq!(t.literal, "=");
    let t = lexer.next_token();
    assert_eq!(t.kind, TokenKind::Bang);
    assert_eq!(t.literal, "!");
    let t = lexer.next_token();
    assert_eq!(t.kind, TokenKind::Ident);
    assert_eq!(t.literal, "x");
    let t = lexer.next_token();
    assert_eq!(t.kind, TokenKind::Bang);
    assert_eq!(lexer.next_token().kind, TokenKind::Eof);
    assert_eq!(kinds_of("= ="), vec![TokenKind::Assign, TokenKind::Assign, TokenKind::Eof]);
    assert_eq!(kinds_of("=="), vec![TokenKind::Eq, TokenKind::Eof]);
    assert_eq!(kinds_of("!"), vec![TokenKind::Bang, TokenKind::Eof]);
}

#[test]
fn keywords_are_reserved() {
    assert_eq!(lookup_kind("fn"), TokenKind::Function);
    assert_eq!(lookup_kind("let"), TokenKind::Let);
    assert_eq!(lookup_kind("if"), TokenKind::If);
    assert_eq!(lookup_kind("else"), TokenKind::Else);
    assert_eq!(lookup_kind("true"), TokenKind::True);
    assert_eq!(lookup_kind("false"), TokenKind::False);
    assert_eq!(lookup_kind("return"), TokenKind::Return);
}

#[test]
fn other_words_are_identifiers() {
    assert_eq!(lookup_kind("foo"), TokenKind::Ident);
    assert_eq!(lookup_kind("_x"), TokenKind::Ident);
    assert_eq!(lookup_kind("lets"), TokenKind::Ident);
    assert_eq!(lookup_kind("Fn"), TokenKind::Ident);
    assert_eq!(lookup_kind("retur"), TokenKind::Ident);
    assert_eq!(lookup_kind(""), TokenKind::Ident);
}

#[test]
fn identifier_is_maximal_run() {
    let mut lexer = Lexer::new("let_it_be+if");
    let t = lexer.next_token();
    assert_eq!(t.kind, TokenKind::Ident);
    assert_eq!(t.literal, "let_it_be");
    assert_eq!(lexer.next_token().kind, TokenKind::Plus);
    let t = lexer.next_token();
    assert_eq!(t.kind, TokenKind::If);
    assert_eq!(t.literal, "if");
}

#[test]
fn number_then_word() {
    let mut lexer = Lexer::new("12345abc");
    let t = lexer.next_token();
    assert_eq!(t.kind, TokenKind::Int);
    assert_eq!(t.literal, "12345");
    let t = lexer.next_token();
    assert_eq!(t.kind, TokenKind::Ident);
    assert_eq!(t.literal, "abc");
}

#[test]
fn eof_repeats() {
    let mut lexer = Lexer::new("x  ");
    assert_eq!(lexer.next_token().kind, TokenKind::Ident);
    for _ in 0..5 {
        let t = lexer.next_token();
        assert_eq!(t.kind, TokenKind::Eof);
        assert_eq!(t.literal, "");
    }
}

#[test]
fn empty_input_yields_eof() {
    let mut lexer = Lexer::new("");
    assert_eq!(lexer.ch(), '\0');
    assert_eq!(lexer.next_token().kind, TokenKind::Eof);
    assert_eq!(lexer.next_token().kind, TokenKind::Eof);
    assert_eq!(kinds_of(" \t\r\n "), vec![TokenKind::Eof]);
}

#[test]
fn illegal_characters_do_not_stop_scanning() {
    assert_eq!(
        kinds_of("a.b@1"),
        vec![
            TokenKind::Ident,
            TokenKind::Illegal,
            TokenKind::Ident,
            TokenKind::Illegal,
            TokenKind::Int,
            TokenKind::Eof
        ]
    );
    let mut lexer = Lexer::new("€x");
    let t = lexer.next_token();
    assert_eq!(t.kind, TokenKind::Illegal);
    assert_eq!(t.literal, "€");
    assert_eq!(lexer.next_token().literal, "x");
}

#[test]
fn unicode_letters_ascii_digits() {
    let mut lexer = Lexer::new("héllo λ ٣");
    let t = lexer.next_token();
    assert_eq!(t.kind, TokenKind::Ident);
    assert_eq!(t.literal, "héllo");
    let t = lexer.next_token();
    assert_eq!(t.kind, TokenKind::Ident);
    assert_eq!(t.literal, "λ");
    let t = lexer.next_token();
    assert_eq!(t.kind, TokenKind::Illegal);
    assert_eq!(t.literal, "٣");
    assert_eq!(lexer.next_token().kind, TokenKind::Eof);
}

#[test]
fn integer_is_run_of_decimal_digits() {
    let mut lexer = Lexer::new("1¾ ¾ 2²0");
    let t = lexer.next_token();
    assert_eq!(t.kind, TokenKind::Int);
    assert_eq!(t.literal, "1");
    let t = lexer.next_token();
    assert_eq!(t.kind, TokenKind::Illegal);
    assert_eq!(t.literal, "¾");
    let t = lexer.next_token();
    assert_eq!(t.kind, TokenKind::Illegal);
    assert_eq!(t.literal, "¾");
    let t = lexer.next_token();
    assert_eq!(t.kind, TokenKind::Int);
    assert_eq!(t.literal, "2");
    assert_eq!(lexer.next_token().literal, "²");
    assert_eq!(lexer.next_token().literal, "0");
    assert_eq!(lexer.next_token().kind, TokenKind::Eof);
}

#[test]
fn decimal_digit_class() {
    assert!(is_decimal_digit('0'));
    assert!(is_decimal_digit('9'));
    assert!(!is_decimal_digit('a'));
    assert!(!is_decimal_digit('¾'));
    assert!(!is_decimal_digit('٣'));
}

#[test]
fn operator_does_not_swallow_what_follows() {
    let mut whole = Lexer::new("+let x;");
    assert_eq!(whole.next_token().kind, TokenKind::Plus);
    let mut rest = Lexer::new("let x;");
    for _ in 0..4 {
        let a = whole.next_token();
        let b = rest.next_token();
        assert_eq!(a.kind, b.kind);
        assert_eq!(a.literal, b.literal);
    }
    let mut whole = Lexer::new("=x==y");
    let t = whole.next_token();
    assert_eq!(t.kind, TokenKind::Assign);
    assert_eq!(t.literal, "=");
    let t = whole.next_token();
    assert_eq!(t.literal, "x");
    let t = whole.next_token();
    assert_eq!(t.kind, TokenKind::Eq);
    assert_eq!(whole.next_token().literal, "y");
}

#[test]
fn cursor_moves() {
    let mut lexer = Lexer::new("ab");
    assert_eq!(lexer.ch(), 'a');
    assert_eq!(lexer.peek_char(), 'b');
    lexer.read_char();
    assert_eq!(lexer.ch(), 'b');
    assert_eq!(lexer.peek_char(), '\0');
    lexer.read_char();
    assert_eq!(lexer.ch(), '\0');
    lexer.read_char();
    assert_eq!(lexer.ch(), '\0');
}

#[test]
fn kind_names() {
    assert_eq!(TokenKind::NotEq.name(), "NotEq");
    assert_eq!(TokenKind::Function.name(), "Function");
}
