use parsing_basics::lexer::{Span, Token, TokenKind};
use parsing_basics::parser::ast::{Expr, Item, Lit, Stmt, Type};
use parsing_basics::parser::expressions::parse_int;
use parsing_basics::parser::{Expected, ParseError, Parser, Production};

fn show(input: &str) -> String {
    Parser::new(input).expression().unwrap().to_string()
}

fn expression_error(input: &str) -> ParseError {
    Parser::new(input).expression().unwrap_err()
}

fn statement_error(input: &str) -> ParseError {
    Parser::new(input).statement().unwrap_err()
}

fn item_error(input: &str) -> ParseError {
    Parser::new(input).item().unwrap_err()
}

fn token(kind: TokenKind, start: u32, end: u32) -> Token {
    Token { kind, span: Span { start, end } }
}

fn ident(name: &str) -> Expr {
    Expr::Ident(name.to_string())
}

fn simple(name: &str) -> Type {
    Type { name: name.to_string(), generics: vec![] }
}

#[test]
fn binding_powers() {
    assert_eq!(TokenKind::Or.infix_binding_power(), Some((1, 2)));
    assert_eq!(TokenKind::And.infix_binding_power(), Some((3, 4)));
    assert_eq!(TokenKind::Eqq.infix_binding_power(), Some((5, 6)));
    assert_eq!(TokenKind::Neq.infix_binding_power(), Some((5, 6)));
    assert_eq!(TokenKind::LAngle.infix_binding_power(), Some((7, 8)));
    assert_eq!(TokenKind::RAngle.infix_binding_power(), Some((7, 8)));
    assert_eq!(TokenKind::Leq.infix_binding_power(), Some((7, 8)));
    assert_eq!(TokenKind::Geq.infix_binding_power(), Some((7, 8)));
    assert_eq!(TokenKind::Plus.infix_binding_power(), Some((9, 10)));
    assert_eq!(TokenKind::Minus.infix_binding_power(), Some((9, 10)));
    assert_eq!(TokenKind::Times.infix_binding_power(), Some((11, 12)));
    assert_eq!(TokenKind::Slash.infix_binding_power(), Some((11, 12)));
    assert_eq!(TokenKind::Pow.infix_binding_power(), Some((22, 21)));
    assert_eq!(TokenKind::Bang.infix_binding_power(), None);
    assert_eq!(TokenKind::Eq.infix_binding_power(), None);
    assert_eq!(TokenKind::Bang.postfix_binding_power(), Some(101));
    assert_eq!(TokenKind::Plus.postfix_binding_power(), None);
    assert_eq!(TokenKind::Plus.prefix_binding_power(), 51);
    assert_eq!(TokenKind::Minus.prefix_binding_power(), 51);
    assert_eq!(TokenKind::Bang.prefix_binding_power(), 51);
}

#[test]
fn precedence_and_associativity() {
    assert_eq!(show("4 + 2 * 3"), "(4 + (2 * 3))");
    assert_eq!(show("4 ^ 2 ^ 3"), "(4 ^ (2 ^ 3))");
    assert_eq!(show("4 - 2 - 3"), "((4 - 2) - 3)");
    assert_eq!(show("a / b / c"), "((a / b) / c)");
    assert_eq!(show("a < b < c"), "((a < b) < c)");
    assert_eq!(
        show("a || b && c == d < e + f * g ^ h"),
        "(a || (b && (c == (d < (e + (f * (g ^ h)))))))"
    );
    assert_eq!(
        show("a ^ b * c + d < e == f && g || h"),
        "(((((((a ^ b) * c) + d) < e) == f) && g) || h)"
    );
    assert_eq!(show("a >= b != c <= d"), "((a >= b) != (c <= d))");
}

#[test]
fn prefix_and_postfix_operators() {
    assert_eq!(show("4 + -2! * 3"), "(4 + ((- (2 !)) * 3))");
    assert_eq!(show("-a * b"), "((- a) * b)");
    assert_eq!(show("a ^ -b"), "(a ^ (- b))");
    assert_eq!(show("-a ^ b"), "((- a) ^ b)");
    assert_eq!(show("!+-a"), "(! (+ (- a)))");
    assert_eq!(show("a!!"), "((a !) !)");
    assert_eq!(show("a! + b!"), "((a !) + (b !))");
    assert_eq!(show("f(x)!"), "(f(x,) !)");
}

#[test]
fn parentheses_only_shape_the_tree() {
    assert_eq!(show("(4 + 2) * 3"), "((4 + 2) * 3)");
    assert_eq!(show("((((a))))"), "a");
    assert_eq!(
        Parser::new("(a)").expression().unwrap(),
        Parser::new("a").expression().unwrap()
    );
    assert_eq!(show("(4 ^ 2) ^ 3"), "((4 ^ 2) ^ 3)");
}

#[test]
fn calls() {
    assert_eq!(show("f()"), "f()");
    assert_eq!(show("f(a,)"), "f(a,)");
    assert_eq!(show("f(a, b,)"), "f(a,b,)");
    assert_eq!(show("f(g(h()))"), "f(g(h(),),)");
    assert_eq!(
        Parser::new("f(1, x)").expression().unwrap(),
        Expr::FnCall {
            fn_name: "f".to_string(),
            args: vec![Expr::Literal(Lit::Int(1)), ident("x")],
        }
    );
    // an identifier that no parenthesis follows is no call
    assert_eq!(Parser::new("f").expression().unwrap(), ident("f"));
}

#[test]
fn expression_ends_before_a_closing_token() {
    for (input, rest) in [
        ("a + b ; c", TokenKind::SemiColon),
        ("a + b , c", TokenKind::Comma),
        ("a + b ) c", TokenKind::RParen),
        ("a + b } c", TokenKind::RBrace),
        ("a + b", TokenKind::Eof),
    ] {
        let mut parser = Parser::new(input);
        assert_eq!(parser.expression().unwrap().to_string(), "(a + b)");
        assert_eq!(parser.peek(), rest);
        assert!(parser.at(rest));
    }
}

#[test]
fn literals() {
    assert_eq!(Parser::new("0").expression().unwrap(), Expr::Literal(Lit::Int(0)));
    assert_eq!(Parser::new("007").expression().unwrap(), Expr::Literal(Lit::Int(7)));
    assert_eq!(
        Parser::new("18446744073709551615").expression().unwrap(),
        Expr::Literal(Lit::Int(u64::MAX))
    );
    assert_eq!(
        Parser::new("27.3e-2").expression().unwrap(),
        Expr::Literal(Lit::Float("27.3e-2".to_string()))
    );
    assert_eq!(
        Parser::new(".5").expression().unwrap(),
        Expr::Literal(Lit::Float(".5".to_string()))
    );
    assert_eq!(
        Parser::new("\"\"").expression().unwrap(),
        Expr::Literal(Lit::Str(String::new()))
    );
    // escapes stay as they are written
    assert_eq!(
        Parser::new("\"a\\\"b\\\\\"").expression().unwrap(),
        Expr::Literal(Lit::Str("a\\\"b\\\\".to_string()))
    );
    assert_eq!(
        Parser::new("\"\u{e9}\u{4e2d}\"").expression().unwrap(),
        Expr::Literal(Lit::Str("\u{e9}\u{4e2d}".to_string()))
    );
}

#[test]
fn integer_values() {
    assert_eq!(parse_int(b"0"), Some(0));
    assert_eq!(parse_int(b"42"), Some(42));
    assert_eq!(parse_int(b"0000000000000000000000042"), Some(42));
    assert_eq!(parse_int(b"18446744073709551615"), Some(u64::MAX));
    assert_eq!(parse_int(b"18446744073709551616"), None);
    assert_eq!(parse_int(b"99999999999999999999999"), None);
    assert_eq!(parse_int(b""), None);
    assert_eq!(parse_int(b"12a"), None);
    assert_eq!(parse_int(b"+1"), None);
}

#[test]
fn display_of_literals() {
    assert_eq!(Lit::Int(0).to_string(), "0");
    assert_eq!(Lit::Int(9).to_string(), "9");
    assert_eq!(Lit::Int(10).to_string(), "10");
    assert_eq!(Lit::Int(1234567890).to_string(), "1234567890");
    assert_eq!(Lit::Int(u64::MAX).to_string(), "18446744073709551615");
    assert_eq!(Lit::Str("a b".to_string()).to_string(), "\"a b\"");
    assert_eq!(Lit::Str(String::new()).to_string(), "\"\"");
    for (text, shown) in [
        ("2.0", "2"),
        ("45.7", "45.7"),
        ("2.7768", "2.7768"),
        ("7.50", "7.5"),
        ("007.50", "7.5"),
        ("0.0", "0"),
        ("000", "0"),
        ("10", "10"),
        ("100.001", "100.001"),
        (".5", "0.5"),
        (".50", "0.5"),
        ("1.50e3", "1.5e3"),
        ("1.0E-7", "1E-7"),
        ("1e10", "1e10"),
        ("27.3e-2", "27.3e-2"),
    ] {
        assert_eq!(Lit::Float(text.to_string()).to_string(), shown, "{}", text);
    }
}

#[test]
fn short_floats_display_as_the_standard_library_shows_them() {
    for text in ["2.0", "45.7", "2.7768", "7.50", "0.0", ".5", "100.001", "3.0", "10.25", "0.125"] {
        let value: f64 = text.parse().unwrap();
        assert_eq!(Lit::Float(text.to_string()).to_string(), format!("{}", value));
    }
}

#[test]
fn display_of_expressions() {
    let call = Expr::FnCall {
        fn_name: "min".to_string(),
        args: vec![
            Expr::InfixOp {
                op: TokenKind::Plus,
                lhs: Box::new(ident("test")),
                rhs: Box::new(Expr::Literal(Lit::Int(4))),
            },
            Expr::PostfixOp { op: TokenKind::Bang, expr: Box::new(ident("n")) },
            Expr::PrefixOp {
                op: TokenKind::Minus,
                expr: Box::new(Expr::Literal(Lit::Float("1.0".to_string()))),
            },
            Expr::Literal(Lit::Str("s".to_string())),
        ],
    };
    assert_eq!(call.to_string(), "min((test + 4),(n !),(- 1),\"s\",)");
    assert_eq!(ident("x").to_string(), "x");
}

#[test]
fn expression_errors() {
    assert_eq!(
        expression_error(""),
        ParseError {
            production: Production::Expression,
            expected: Expected::Start,
            found: token(TokenKind::Eof, 0, 0),
        }
    );
    assert_eq!(
        expression_error("  * 2"),
        ParseError {
            production: Production::Expression,
            expected: Expected::Start,
            found: token(TokenKind::Times, 2, 3),
        }
    );
    assert_eq!(
        expression_error("1 2"),
        ParseError {
            production: Production::Expression,
            expected: Expected::Operator,
            found: token(TokenKind::Int, 2, 3),
        }
    );
    assert_eq!(
        expression_error("a = b"),
        ParseError {
            production: Production::Expression,
            expected: Expected::Operator,
            found: token(TokenKind::Eq, 2, 3),
        }
    );
    assert_eq!(
        expression_error("a $ b"),
        ParseError {
            production: Production::Expression,
            expected: Expected::Operator,
            found: token(TokenKind::Error, 2, 3),
        }
    );
    assert_eq!(
        expression_error("(1 + 2"),
        ParseError {
            production: Production::Expression,
            expected: Expected::Kind(TokenKind::RParen),
            found: token(TokenKind::Eof, 6, 6),
        }
    );
    assert_eq!(
        expression_error("(1 + 2 ;"),
        ParseError {
            production: Production::Expression,
            expected: Expected::Kind(TokenKind::RParen),
            found: token(TokenKind::SemiColon, 7, 8),
        }
    );
    assert_eq!(
        expression_error("1 + 99999999999999999999999"),
        ParseError {
            production: Production::Expression,
            expected: Expected::Literal,
            found: token(TokenKind::Int, 4, 27),
        }
    );
    assert_eq!(
        expression_error("f(a b)"),
        ParseError {
            production: Production::Expression,
            expected: Expected::Operator,
            found: token(TokenKind::Identifier, 4, 5),
        }
    );
    assert_eq!(
        expression_error("f(a, "),
        ParseError {
            production: Production::Expression,
            expected: Expected::Start,
            found: token(TokenKind::Eof, 5, 5),
        }
    );
    assert_eq!(
        expression_error("1 + "),
        ParseError {
            production: Production::Expression,
            expected: Expected::Start,
            found: token(TokenKind::Eof, 4, 4),
        }
    );
}

#[test]
fn parser_stops_on_the_token_that_does_not_fit() {
    let mut parser = Parser::new("1 + let");
    let error = parser.expression().unwrap_err();
    assert_eq!(error.found.kind, TokenKind::KeywordLet);
    assert_eq!(parser.peek(), TokenKind::KeywordLet);
    assert_eq!(parser.current(), error.found);
    assert_eq!(parser.text(error.found), "let");
}

#[test]
fn cursor_never_leaves_the_end_of_file() {
    let mut parser = Parser::new("x");
    assert_eq!(parser.next(), token(TokenKind::Identifier, 0, 1));
    assert_eq!(parser.next(), token(TokenKind::Eof, 1, 1));
    assert_eq!(parser.next(), token(TokenKind::Eof, 1, 1));
    assert_eq!(parser.peek(), TokenKind::Eof);
}

#[test]
fn consume_checks_the_kind() {
    let mut parser = Parser::new("( x");
    assert_eq!(
        parser.consume(TokenKind::LParen, Production::Expression),
        Ok(token(TokenKind::LParen, 0, 1))
    );
    assert_eq!(
        parser.consume(TokenKind::RParen, Production::Item),
        Err(ParseError {
            production: Production::Item,
            expected: Expected::Kind(TokenKind::RParen),
            found: token(TokenKind::Identifier, 2, 3),
        })
    );
    // what did not fit is still there
    assert_eq!(parser.peek(), TokenKind::Identifier);
    assert_eq!(
        parser.consume(TokenKind::Eof, Production::Item).unwrap_err().found,
        token(TokenKind::Identifier, 2, 3)
    );
    assert_eq!(
        parser.consume(TokenKind::Identifier, Production::Item),
        Ok(token(TokenKind::Identifier, 2, 3))
    );
    // the end of the file can be required any number of times
    assert_eq!(parser.consume(TokenKind::Eof, Production::Item), Ok(token(TokenKind::Eof, 3, 3)));
    assert_eq!(parser.consume(TokenKind::Eof, Production::Item), Ok(token(TokenKind::Eof, 3, 3)));
}

#[test]
fn statements() {
    assert_eq!(
        Parser::new("let x = 1;").statement().unwrap(),
        Stmt::Let { var_name: "x".to_string(), value: Box::new(Expr::Literal(Lit::Int(1))) }
    );
    assert_eq!(
        Parser::new("x = y;").statement().unwrap(),
        Stmt::Assignment { var_name: "x".to_string(), value: Box::new(ident("y")) }
    );
    assert_eq!(Parser::new("{}").statement().unwrap(), Stmt::Block { stmts: vec![] });
    assert_eq!(
        Parser::new("if (a) {}").statement().unwrap(),
        Stmt::IfStmt { condition: Box::new(ident("a")), body: vec![], else_stmt: None }
    );
    assert_eq!(
        Parser::new("if (a) { x = 1; } else { }").statement().unwrap(),
        Stmt::IfStmt {
            condition: Box::new(ident("a")),
            body: vec![Stmt::Assignment {
                var_name: "x".to_string(),
                value: Box::new(Expr::Literal(Lit::Int(1))),
            }],
            else_stmt: Some(Box::new(Stmt::Block { stmts: vec![] })),
        }
    );
    assert_eq!(
        Parser::new("if (a) {} else if (b) {}").statement().unwrap(),
        Stmt::IfStmt {
            condition: Box::new(ident("a")),
            body: vec![],
            else_stmt: Some(Box::new(Stmt::IfStmt {
                condition: Box::new(ident("b")),
                body: vec![],
                else_stmt: None,
            })),
        }
    );
    assert_eq!(
        Parser::new("{ { } { { } } }").statement().unwrap(),
        Stmt::Block {
            stmts: vec![
                Stmt::Block { stmts: vec![] },
                Stmt::Block { stmts: vec![Stmt::Block { stmts: vec![] }] },
            ]
        }
    );
}

#[test]
fn statement_errors() {
    assert_eq!(
        statement_error("1;"),
        ParseError {
            production: Production::Statement,
            expected: Expected::Start,
            found: token(TokenKind::Int, 0, 1),
        }
    );
    assert_eq!(
        statement_error("let 1 = 2;"),
        ParseError {
            production: Production::Statement,
            expected: Expected::Kind(TokenKind::Identifier),
            found: token(TokenKind::Int, 4, 5),
        }
    );
    assert_eq!(
        statement_error("let x 2;"),
        ParseError {
            production: Production::Statement,
            expected: Expected::Kind(TokenKind::Eq),
            found: token(TokenKind::Int, 6, 7),
        }
    );
    assert_eq!(
        statement_error("x = 2"),
        ParseError {
            production: Production::Statement,
            expected: Expected::Kind(TokenKind::SemiColon),
            found: token(TokenKind::Eof, 5, 5),
        }
    );
    assert_eq!(
        statement_error("x = ;"),
        ParseError {
            production: Production::Expression,
            expected: Expected::Start,
            found: token(TokenKind::SemiColon, 4, 5),
        }
    );
    assert_eq!(
        statement_error("if a {}"),
        ParseError {
            production: Production::Statement,
            expected: Expected::Kind(TokenKind::LParen),
            found: token(TokenKind::Identifier, 3, 4),
        }
    );
    assert_eq!(
        statement_error("if (a {}"),
        ParseError {
            production: Production::Expression,
            expected: Expected::Operator,
            found: token(TokenKind::LBrace, 6, 7),
        }
    );
    assert_eq!(
        statement_error("if (a, {}"),
        ParseError {
            production: Production::Statement,
            expected: Expected::Kind(TokenKind::RParen),
            found: token(TokenKind::Comma, 5, 6),
        }
    );
    assert_eq!(
        statement_error("if (a) x = 1;"),
        ParseError {
            production: Production::Statement,
            expected: Expected::Kind(TokenKind::LBrace),
            found: token(TokenKind::Identifier, 7, 8),
        }
    );
    assert_eq!(
        statement_error("if (a) {} else x = 1;"),
        ParseError {
            production: Production::Statement,
            expected: Expected::Kind(TokenKind::LBrace),
            found: token(TokenKind::Identifier, 15, 16),
        }
    );
    assert_eq!(
        statement_error("{ x = 1;"),
        ParseError {
            production: Production::Statement,
            expected: Expected::Start,
            found: token(TokenKind::Eof, 8, 8),
        }
    );
}

#[test]
fn types() {
    assert_eq!(Parser::new("T").type_().unwrap(), simple("T"));
    assert_eq!(
        Parser::new("Foo<>").type_().unwrap(),
        Type { name: "Foo".to_string(), generics: vec![] }
    );
    assert_eq!(
        Parser::new("Foo<T, U,>").type_().unwrap(),
        Type { name: "Foo".to_string(), generics: vec![simple("T"), simple("U")] }
    );
    assert_eq!(
        Parser::new("Bar<Baz<T>, U>").type_().unwrap(),
        Type {
            name: "Bar".to_string(),
            generics: vec![
                Type { name: "Baz".to_string(), generics: vec![simple("T")] },
                simple("U"),
            ],
        }
    );
    assert_eq!(
        Parser::new("<T>").type_().unwrap_err(),
        ParseError {
            production: Production::Type,
            expected: Expected::Kind(TokenKind::Identifier),
            found: token(TokenKind::LAngle, 0, 1),
        }
    );
    assert_eq!(
        Parser::new("Foo<").type_().unwrap_err(),
        ParseError {
            production: Production::Type,
            expected: Expected::Kind(TokenKind::Identifier),
            found: token(TokenKind::Eof, 4, 4),
        }
    );
    assert_eq!(
        Parser::new("Foo<T").type_().unwrap_err(),
        ParseError {
            production: Production::Type,
            expected: Expected::Kind(TokenKind::Comma),
            found: token(TokenKind::Eof, 5, 5),
        }
    );
}

#[test]
fn elements_of_a_list_need_a_comma_between_them() {
    assert_eq!(
        Parser::new("Foo<T U>").type_().unwrap_err(),
        ParseError {
            production: Production::Type,
            expected: Expected::Kind(TokenKind::Comma),
            found: token(TokenKind::Identifier, 6, 7),
        }
    );
    assert_eq!(
        Parser::new("Foo<A<B> C>").type_().unwrap_err(),
        ParseError {
            production: Production::Type,
            expected: Expected::Kind(TokenKind::Comma),
            found: token(TokenKind::Identifier, 9, 10),
        }
    );
    assert_eq!(
        item_error("fn f(a: A b: B) {}"),
        ParseError {
            production: Production::Item,
            expected: Expected::Kind(TokenKind::Comma),
            found: token(TokenKind::Identifier, 10, 11),
        }
    );
    assert_eq!(
        item_error("struct S { a: A b: B }"),
        ParseError {
            production: Production::Item,
            expected: Expected::Kind(TokenKind::Comma),
            found: token(TokenKind::Identifier, 16, 17),
        }
    );
    assert_eq!(
        expression_error("f(a; b)"),
        ParseError {
            production: Production::Expression,
            expected: Expected::Kind(TokenKind::Comma),
            found: token(TokenKind::SemiColon, 3, 4),
        }
    );
    assert_eq!(
        expression_error("f(a"),
        ParseError {
            production: Production::Expression,
            expected: Expected::Kind(TokenKind::Comma),
            found: token(TokenKind::Eof, 3, 3),
        }
    );
    // a comma behind the last element is accepted, two in a row are not
    assert_eq!(show("f(a, b,)"), "f(a,b,)");
    assert_eq!(
        expression_error("f(a,, b)"),
        ParseError {
            production: Production::Expression,
            expected: Expected::Start,
            found: token(TokenKind::Comma, 4, 5),
        }
    );
}

#[test]
fn separator_is_a_comma_or_nothing_before_the_closer() {
    let mut parser = Parser::new(", ) x");
    assert_eq!(parser.parse_separator(TokenKind::RParen, Production::Item), Ok(()));
    assert_eq!(parser.peek(), TokenKind::RParen);
    assert_eq!(parser.parse_separator(TokenKind::RParen, Production::Item), Ok(()));
    assert_eq!(parser.peek(), TokenKind::RParen);
    assert_eq!(
        parser.parse_separator(TokenKind::RBrace, Production::Type),
        Err(ParseError {
            production: Production::Type,
            expected: Expected::Kind(TokenKind::Comma),
            found: token(TokenKind::RParen, 2, 3),
        })
    );
}

#[test]
fn nested_generics_close_one_bracket_at_a_time() {
    assert_eq!(
        Parser::new("A<B<C> >").type_().unwrap(),
        Type {
            name: "A".to_string(),
            generics: vec![Type { name: "B".to_string(), generics: vec![simple("C")] }],
        }
    );
}

#[test]
fn items() {
    assert_eq!(
        Parser::new("fn f() {}").item().unwrap(),
        Item::Function { name: "f".to_string(), parameters: vec![], body: vec![] }
    );
    assert_eq!(
        Parser::new("fn f(a: A, b: B<C>,) { x = 1; }").item().unwrap(),
        Item::Function {
            name: "f".to_string(),
            parameters: vec![
                ("a".to_string(), simple("A")),
                ("b".to_string(), Type { name: "B".to_string(), generics: vec![simple("C")] }),
            ],
            body: vec![Stmt::Assignment {
                var_name: "x".to_string(),
                value: Box::new(Expr::Literal(Lit::Int(1))),
            }],
        }
    );
    assert_eq!(
        Parser::new("struct S {}").item().unwrap(),
        Item::Struct { name: simple("S"), members: vec![] }
    );
    assert_eq!(
        Parser::new("struct Foo<T, U> { x: String, bar: Bar<Baz<T>, U> }").item().unwrap(),
        Item::Struct {
            name: Type { name: "Foo".to_string(), generics: vec![simple("T"), simple("U")] },
            members: vec![
                ("x".to_string(), simple("String")),
                (
                    "bar".to_string(),
                    Type {
                        name: "Bar".to_string(),
                        generics: vec![
                            Type { name: "Baz".to_string(), generics: vec![simple("T")] },
                            simple("U"),
                        ],
                    }
                ),
            ],
        }
    );
}

#[test]
fn item_errors() {
    assert_eq!(
        item_error("let x = 1;"),
        ParseError {
            production: Production::Item,
            expected: Expected::Start,
            found: token(TokenKind::KeywordLet, 0, 3),
        }
    );
    assert_eq!(
        item_error("fn (a: A) {}"),
        ParseError {
            production: Production::Item,
            expected: Expected::Kind(TokenKind::Identifier),
            found: token(TokenKind::LParen, 3, 4),
        }
    );
    assert_eq!(
        item_error("fn f {}"),
        ParseError {
            production: Production::Item,
            expected: Expected::Kind(TokenKind::LParen),
            found: token(TokenKind::LBrace, 5, 6),
        }
    );
    assert_eq!(
        item_error("fn f(a A) {}"),
        ParseError {
            production: Production::Item,
            expected: Expected::Kind(TokenKind::Colon),
            found: token(TokenKind::Identifier, 7, 8),
        }
    );
    assert_eq!(
        item_error("fn f(a: 1) {}"),
        ParseError {
            production: Production::Type,
            expected: Expected::Kind(TokenKind::Identifier),
            found: token(TokenKind::Int, 8, 9),
        }
    );
    assert_eq!(
        item_error("fn f() x = 1;"),
        ParseError {
            production: Production::Item,
            expected: Expected::Kind(TokenKind::LBrace),
            found: token(TokenKind::Identifier, 7, 8),
        }
    );
    assert_eq!(
        item_error("fn f() { 1 }"),
        ParseError {
            production: Production::Statement,
            expected: Expected::Start,
            found: token(TokenKind::Int, 9, 10),
        }
    );
    assert_eq!(
        item_error("struct { }"),
        ParseError {
            production: Production::Type,
            expected: Expected::Kind(TokenKind::Identifier),
            found: token(TokenKind::LBrace, 7, 8),
        }
    );
    assert_eq!(
        item_error("struct S ( )"),
        ParseError {
            production: Production::Item,
            expected: Expected::Kind(TokenKind::LBrace),
            found: token(TokenKind::LParen, 9, 10),
        }
    );
    assert_eq!(
        item_error("struct S { a: A "),
        ParseError {
            production: Production::Item,
            expected: Expected::Kind(TokenKind::Comma),
            found: token(TokenKind::Eof, 16, 16),
        }
    );
    assert_eq!(
        item_error("struct S { a: A, "),
        ParseError {
            production: Production::Item,
            expected: Expected::Kind(TokenKind::Identifier),
            found: token(TokenKind::Eof, 17, 17),
        }
    );
}

#[test]
fn files() {
    assert_eq!(Parser::new("").file().unwrap(), vec![]);
    assert_eq!(Parser::new("  // nothing\n").file().unwrap(), vec![]);
    let items = Parser::new("fn f() {} struct S {} fn g(a: A) { }").file().unwrap();
    assert_eq!(items.len(), 3);
    assert_eq!(
        items[0],
        Item::Function { name: "f".to_string(), parameters: vec![], body: vec![] }
    );
    assert_eq!(items[1], Item::Struct { name: simple("S"), members: vec![] });
    assert_eq!(
        items[2],
        Item::Function {
            name: "g".to_string(),
            parameters: vec![("a".to_string(), simple("A"))],
            body: vec![],
        }
    );
    assert_eq!(
        Parser::new("fn f() {} x").file().unwrap_err(),
        ParseError {
            production: Production::Item,
            expected: Expected::Start,
            found: token(TokenKind::Identifier, 10, 11),
        }
    );
}

#[test]
fn comments_and_whitespace_do_not_reach_the_parser() {
    assert_eq!(show("a // one\n + // two\n b"), "(a + b)");
    assert_eq!(show("\u{2003}a\u{a0}*\u{3000}b"), "(a * b)");
}

#[test]
fn parser_text_of_a_token() {
    let parser = Parser::new("let name = 1;");
    assert_eq!(parser.text(token(TokenKind::Identifier, 4, 8)), "name");
    assert_eq!(parser.text(parser.current()), "let");
}

#[test]
fn try_new_accepts_what_spans_can_count() {
    let mut parser = Parser::try_new("1 + 2").unwrap();
    assert_eq!(parser.expression().unwrap().to_string(), "(1 + 2)");
}

/// The text of a type: its name and, in angle brackets and with commas
/// between them, its generic arguments.
fn write_type(ty: &Type) -> String {
    if ty.generics.is_empty() {
        ty.name.clone()
    } else {
        let arguments: Vec<String> = ty.generics.iter().map(write_type).collect();
        format!("{}<{}>", ty.name, arguments.join(", "))
    }
}

#[test]
fn written_types_parse_to_themselves() {
    let nested = Type {
        name: "Bar".to_string(),
        generics: vec![
            Type {
                name: "Baz".to_string(),
                generics: vec![
                    simple("T"),
                    Type { name: "V".to_string(), generics: vec![simple("W")] },
                ],
            },
            simple("U"),
        ],
    };
    let single = Type { name: "F".to_string(), generics: vec![simple("G")] };
    for ty in [simple("T"), simple("a_1"), single, nested] {
        let text = write_type(&ty);
        let mut parser = Parser::new(&text);
        assert_eq!(parser.type_().unwrap(), ty, "{}", text);
        assert_eq!(parser.peek(), TokenKind::Eof);
    }
    assert_eq!(write_type(&Parser::new("Foo < A , B<C> >").type_().unwrap()), "Foo<A, B<C>>");
}
