use monkey::lexer::Lexer;
use monkey::parser::{
    Expr, ExprKind, Ident, LetStmt, ParseErr, Parser, Program, ReturnStmt, Stmt, StmtKind,
};
use monkey::token::TokenKind;

fn let_stmt(name: &str) -> Stmt<'_> {
    Stmt {
        node: StmtKind::Let(LetStmt {
            name: Ident(name),
            value: Expr {
                node: ExprKind::Literal(5),
            },
        }),
    }
}

fn return_stmt() -> Stmt<'static> {
    Stmt {
        node: StmtKind::Return(ReturnStmt {
            value: Expr {
                node: ExprKind::Literal(1337),
            },
        }),
    }
}

fn bad_stmt() -> Stmt<'static> {
    Stmt {
        node: StmtKind::Bad,
    }
}

#[test]
fn test_simple_return_statement() {
    let lexer = Lexer::new("return = 1. 89- {}{!!!}!@#$%^&* 5;");
    let mut parser = Parser::new(lexer);
    let s = parser.parse();

    assert_eq!(
        s,
        Program {
            stmts: vec![Stmt {
                node: StmtKind::Return(ReturnStmt {
                    value: Expr {
                        node: ExprKind::Literal(1337)
                    }
                })
            }]
        }
    );
}

#[test]
fn test_simple_let_statement() {
    let lexer = Lexer::new("let x = 5;");
    let mut parser = Parser::new(lexer);
    let s = parser.parse();
    assert_eq!(
        s,
        Program {
            stmts: vec![Stmt {
                node: StmtKind::Let(LetStmt {
                    name: Ident("x"),
                    value: Expr {
                        node: ExprKind::Literal(5)
                    }
                })
            }]
        }
    );
}

#[test]
fn let_statement_has_no_errors() {
    let mut parser = Parser::new(Lexer::new("let x = 5;"));
    let p = parser.parse();
    assert_eq!(p.stmts, vec![let_stmt("x")]);
    assert!(parser.errors().is_empty());
}

#[test]
fn let_without_name_is_bad() {
    let mut parser = Parser::new(Lexer::new("let = 5;"));
    let p = parser.parse();
    assert_eq!(p.stmts, vec![bad_stmt()]);
    assert_eq!(
        *parser.errors(),
        vec![ParseErr {
            expected: TokenKind::Ident,
            actual: TokenKind::Assign
        }]
    );
}

#[test]
fn let_without_assign_is_bad() {
    let mut parser = Parser::new(Lexer::new("let x 5;"));
    let p = parser.parse();
    assert_eq!(p.stmts, vec![bad_stmt()]);
    assert_eq!(
        *parser.errors(),
        vec![ParseErr::new(&TokenKind::Assign, &TokenKind::Int)]
    );
}

#[test]
fn let_with_nothing_records_both_mismatches() {
    let mut parser = Parser::new(Lexer::new("let;"));
    let p = parser.parse();
    assert_eq!(p.stmts, vec![bad_stmt()]);
    assert_eq!(
        *parser.errors(),
        vec![
            ParseErr::new(&TokenKind::Ident, &TokenKind::Semicolon),
            ParseErr::new(&TokenKind::Assign, &TokenKind::Semicolon)
        ]
    );
}

#[test]
fn return_statement_has_no_errors() {
    let mut parser = Parser::new(Lexer::new("return 1337;"));
    let p = parser.parse();
    assert_eq!(p.stmts, vec![return_stmt()]);
    assert!(parser.errors().is_empty());
}

#[test]
fn malformed_let_does_not_drop_next_return() {
    let mut parser = Parser::new(Lexer::new("let = 5; return 1;"));
    let p = parser.parse();
    assert_eq!(p.stmts, vec![bad_stmt(), return_stmt()]);
    assert_eq!(parser.errors().len(), 1);
    assert_eq!(parser.errors()[0].expected, TokenKind::Ident);

    let mut parser = Parser::new(Lexer::new("let x 5; return y; let z = 2;"));
    let p = parser.parse();
    assert_eq!(p.stmts, vec![bad_stmt(), return_stmt(), let_stmt("z")]);
    assert_eq!(parser.errors().len(), 1);
}

#[test]
fn several_statements_in_order() {
    let mut parser = Parser::new(Lexer::new("let a = 1;\nlet bc = a + 2;\treturn a;"));
    let p = parser.parse();
    assert_eq!(p.stmts, vec![let_stmt("a"), let_stmt("bc"), return_stmt()]);
    assert!(parser.errors().is_empty());
}

#[test]
fn missing_semicolon_ends_at_eof() {
    let mut parser = Parser::new(Lexer::new("let x = 5"));
    let p = parser.parse();
    assert_eq!(p.stmts, vec![let_stmt("x")]);
    assert!(parser.errors().is_empty());

    let mut parser = Parser::new(Lexer::new("return"));
    let p = parser.parse();
    assert_eq!(p.stmts, vec![return_stmt()]);
}

#[test]
fn unknown_statement_starter_stops_parsing() {
    let mut parser = Parser::new(Lexer::new("x = 5; let y = 1;"));
    let p = parser.parse();
    assert!(p.stmts.is_empty());
    assert!(parser.errors().is_empty());

    let mut parser = Parser::new(Lexer::new("let y = 1; 7; return 2;"));
    let p = parser.parse();
    assert_eq!(p.stmts, vec![let_stmt("y")]);
}

#[test]
fn empty_source_parses_to_nothing() {
    let mut parser = Parser::new(Lexer::new(""));
    let p = parser.parse();
    assert!(p.stmts.is_empty());
    assert!(parser.errors().is_empty());
}

#[test]
fn advancing_and_expecting() {
    let mut parser = Parser::new(Lexer::new("let x = 5;"));
    assert!(!parser.expect_peek(TokenKind::Assign));
    assert_eq!(
        *parser.errors(),
        vec![ParseErr::new(&TokenKind::Assign, &TokenKind::Ident)]
    );
    assert!(parser.expect_peek(TokenKind::Ident));
    parser.next_token();
    assert!(parser.expect_peek(TokenKind::Int));
    assert_eq!(parser.errors().len(), 1);
}

#[test]
fn program_renders_statements() {
    let mut parser = Parser::new(Lexer::new("let x = 5; let = 3; return 9;"));
    let p = parser.parse();
    assert_eq!(p.to_string(), "let x = 5;Bad!return 1337;");
    assert_eq!(p.stmts[0].to_string(), "let x = 5;");
    assert_eq!(p.stmts[0].node.to_string(), "let x = 5;");
}

#[test]
fn expressions_render_in_decimal() {
    let e = |n: i32| Expr {
        node: ExprKind::Literal(n),
    };
    assert_eq!(e(0).to_string(), "0");
    assert_eq!(e(7).to_string(), "7");
    assert_eq!(e(1337).to_string(), "1337");
    assert_eq!(e(-42).to_string(), "-42");
    assert_eq!(e(i32::MAX).to_string(), "2147483647");
    assert_eq!(e(i32::MIN).to_string(), "-2147483648");
    assert_eq!(ExprKind::Ident(String::from("foo")).to_string(), "foo");
    assert_eq!(Ident("bar").to_string(), "bar");
    let ret = Stmt {
        node: StmtKind::Return(ReturnStmt {
            value: Expr {
                node: ExprKind::Ident(String::from("y")),
            },
        }),
    };
    assert_eq!(ret.to_string(), "return y;");
}

#[test]
fn parse_error_message() {
    let err = ParseErr::new(&TokenKind::Ident, &TokenKind::Assign);
    assert_eq!(
        err.message(),
        "expected next token to be Ident, but got Assign"
    );
}

#[test]
fn parser_over_lexer_in_midstream() {
    let mut lexer = Lexer::new("x y let z = 1; return 2;");
    assert_eq!(lexer.next_token().literal, "x");
    assert_eq!(lexer.next_token().literal, "y");
    let mut parser = Parser::new(lexer);
    let p = parser.parse();
    assert_eq!(p.stmts, vec![let_stmt("z"), return_stmt()]);
    assert!(parser.errors().is_empty());
}
