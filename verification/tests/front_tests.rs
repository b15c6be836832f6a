use monkey_front::ast::Ast;
use monkey_front::ast::Expression;
use monkey_front::ast::Statement;
use monkey_front::lexer::tokenize;
use monkey_front::lexer::Lexer;
use monkey_front::parser::get_token_precedence;
use monkey_front::parser::parse;
use monkey_front::parser::ParseError;
use monkey_front::parser::Parser;
use monkey_front::parser::Precedence;
use monkey_front::token::lookup_ident;
use monkey_front::token::Token;

#[test]
fn test_ast_display() {
    let ast = Ast::from(vec![Statement::Let {
        name: "x".to_string(),
        expr: Expression::Int("5".to_string()),
    }]);
    assert_eq!(ast.render(), "let x = 5;");
}

#[test]
fn test_token_display() {
    assert_eq!(Token::Assign.text(), "=");
    assert_eq!(Token::Ident("foo".to_string()).text(), "foo");
    assert_eq!(Token::Int("42".to_string()).text(), "42");
    assert_eq!(Token::Illegal('?').text(), "Illegal(?)");
}

#[test]
fn test_lookup_ident() {
    assert_eq!(lookup_ident("fn"), Token::Function);
    assert_eq!(lookup_ident("foo"), Token::Ident("foo".to_string()));
}

#[test]
fn test_parse_let() {
    let s = "let x = 5;";
    Parser::new(s.to_string()).parse_program();
}

#[test]
fn test_lookup_all_keywords() {
    assert_eq!(lookup_ident("let"), Token::Let);
    assert_eq!(lookup_ident("true"), Token::True);
    assert_eq!(lookup_ident("false"), Token::False);
    assert_eq!(lookup_ident("if"), Token::If);
    assert_eq!(lookup_ident("else"), Token::Else);
    assert_eq!(lookup_ident("return"), Token::Return);
    assert_eq!(lookup_ident("Fn"), Token::Ident("Fn".to_string()));
    assert_eq!(lookup_ident("lets"), Token::Ident("lets".to_string()));
}

#[test]
fn test_tokenize_operator_run() {
    let toks = tokenize("=+(){},;".to_string());
    assert_eq!(
        toks,
        vec![
            Token::Assign,
            Token::Plus,
            Token::LParen,
            Token::RParen,
            Token::LBrace,
            Token::RBrace,
            Token::Comma,
            Token::Semicolon,
            Token::Eof,
        ]
    );
}

#[test]
fn test_tokenize_two_char_operators() {
    assert_eq!(tokenize("==".to_string()), vec![Token::Eq, Token::Eof]);
    assert_eq!(tokenize("!=".to_string()), vec![Token::NotEq, Token::Eof]);
    assert_eq!(
        tokenize("- / * < > !".to_string()),
        vec![
            Token::Minus,
            Token::Slash,
            Token::Asterisk,
            Token::Lt,
            Token::Gt,
            Token::Bang,
            Token::Eof,
        ]
    );
}

#[test]
fn test_tokenize_keywords_and_idents() {
    let toks = tokenize("let five = 5; fn true false if else return foo_bar".to_string());
    assert_eq!(
        toks,
        vec![
            Token::Let,
            Token::Ident("five".to_string()),
            Token::Assign,
            Token::Int("5".to_string()),
            Token::Semicolon,
            Token::Function,
            Token::True,
            Token::False,
            Token::If,
            Token::Else,
            Token::Return,
            Token::Ident("foo_bar".to_string()),
            Token::Eof,
        ]
    );
}

#[test]
fn test_tokenize_empty_and_illegal() {
    assert_eq!(tokenize(String::new()), vec![Token::Eof]);
    assert_eq!(
        tokenize("@".to_string()),
        vec![Token::Illegal('@'), Token::Eof]
    );
    let mut lx = Lexer::new(String::new());
    assert_eq!(lx.next_token(), Token::Eof);
    assert_eq!(lx.next_token(), Token::Eof);
}

#[test]
fn test_tokenize_multi_digit() {
    assert_eq!(
        tokenize("42 703".to_string()),
        vec![
            Token::Int("42".to_string()),
            Token::Int("703".to_string()),
            Token::Eof,
        ]
    );
}

#[test]
fn test_tokenize_whitespace() {
    assert_eq!(
        tokenize("  let\tx\n= 5 ;\r".to_string()),
        vec![
            Token::Let,
            Token::Ident("x".to_string()),
            Token::Assign,
            Token::Int("5".to_string()),
            Token::Semicolon,
            Token::Eof,
        ]
    );
}

#[test]
fn test_lexer_peek_consistency() {
    let mut lx = Lexer::new("1 + 2".to_string());
    let p1 = lx.peek();
    let p2 = lx.peek();
    assert_eq!(p1, p2);
    assert_eq!(lx.next_token(), p1);
    assert_eq!(lx.peek(), Token::Plus);
    assert_eq!(lx.next_token(), Token::Plus);
    assert_eq!(lx.next_token(), Token::Int("2".to_string()));
    assert_eq!(lx.peek(), Token::Eof);
    assert_eq!(lx.next_token(), Token::Eof);
}

#[test]
fn test_parse_let_round_trip() {
    let (prog, errs) = parse("let x = 5;".to_string());
    assert!(errs.is_empty());
    assert_eq!(prog.statements.len(), 1);
    assert!(matches!(
        prog.statements[0],
        Statement::Let { .. }
    ));
    assert_eq!(prog.render(), "let x = 5;");
}

#[test]
fn test_parse_precedence_product_over_sum() {
    let (prog, errs) = parse("1 + 2 * 3;".to_string());
    assert!(errs.is_empty());
    assert_eq!(prog.render(), "(1 + (2 * 3));");
}

#[test]
fn test_parse_prefix_binds_tighter_than_product() {
    let (prog, errs) = parse("-a * b;".to_string());
    assert!(errs.is_empty());
    assert_eq!(prog.render(), "((-a) * b);");
}

#[test]
fn test_parse_left_associativity() {
    let (prog, errs) = parse("1 + 2 + 3;".to_string());
    assert!(errs.is_empty());
    assert_eq!(prog.render(), "((1 + 2) + 3);");
    let (prog2, errs2) = parse("1 + 2 == 4 - 1;".to_string());
    assert!(errs2.is_empty());
    assert_eq!(prog2.render(), "((1 + 2) == (4 - 1));");
    let (prog3, errs3) = parse("a < b != c > d;".to_string());
    assert!(errs3.is_empty());
    assert_eq!(prog3.render(), "((a < b) != (c > d));");
}

#[test]
fn test_parse_bang_prefix() {
    let (prog, errs) = parse("!true;".to_string());
    assert!(errs.is_empty());
    assert_eq!(prog.render(), "(!true);");
}

#[test]
fn test_parse_booleans_and_grouping() {
    let (prog, errs) = parse("true;".to_string());
    assert!(errs.is_empty());
    assert_eq!(prog.render(), "true;");
    let (prog2, errs2) = parse("(1 + 2) * 3;".to_string());
    assert!(errs2.is_empty());
    assert_eq!(prog2.render(), "((1 + 2) * 3);");
}

#[test]
fn test_parse_if_with_alternative() {
    let (prog, errs) = parse("if (x) { y } else { z }".to_string());
    assert!(errs.is_empty());
    assert_eq!(prog.statements.len(), 1);
    assert!(matches!(
        prog.statements[0],
        Statement::Expression {
            expr: Expression::If {
                alternative: Some(_),
                ..
            }
        }
    ));
    assert_eq!(prog.render(), "if (x) { y; } else { z; };");
}

#[test]
fn test_parse_if_without_alternative() {
    let (prog, errs) = parse("if (x) { y }".to_string());
    assert!(errs.is_empty());
    assert_eq!(prog.statements.len(), 1);
    assert!(matches!(
        prog.statements[0],
        Statement::Expression {
            expr: Expression::If {
                alternative: None,
                ..
            }
        }
    ));
    assert_eq!(prog.render(), "if (x) { y; };");
}

#[test]
fn test_parse_let_missing_identifier() {
    let (prog, errs) = parse("let = 5;".to_string());
    assert_eq!(errs.len(), 1);
    assert!(matches!(
        errs[0],
        ParseError::ExpectedIdent {
            found: Token::Assign
        }
    ));
    assert!(prog.statements.is_empty());
}

#[test]
fn test_parse_let_missing_assign() {
    let (prog, errs) = parse("let x 5;".to_string());
    assert_eq!(errs.len(), 1);
    assert_eq!(
        errs[0],
        ParseError::ExpectedToken {
            expected: Token::Assign,
            found: Token::Int("5".to_string()),
        }
    );
    assert!(prog.statements.is_empty());
}

#[test]
fn test_parse_no_prefix_rule() {
    let (prog, errs) = parse(";".to_string());
    assert_eq!(errs.len(), 1);
    assert!(matches!(
        errs[0],
        ParseError::NoPrefix {
            found: Token::Semicolon
        }
    ));
    assert!(prog.statements.is_empty());
}

#[test]
fn test_parse_illegal_character_is_reported() {
    let (prog, errs) = parse("let x = @;".to_string());
    assert_eq!(errs.len(), 1);
    assert!(matches!(
        errs[0],
        ParseError::NoPrefix {
            found: Token::Illegal('@')
        }
    ));
    assert!(prog.statements.is_empty());
}

#[test]
fn test_parse_error_recovery_continues() {
    let (prog, errs) = parse("let = 1; let y = 2;".to_string());
    assert_eq!(errs.len(), 1);
    assert_eq!(prog.statements.len(), 1);
    assert_eq!(prog.render(), "let y = 2;");
}

#[test]
fn test_parse_unterminated_block() {
    let (prog, errs) = parse("if (x) { y".to_string());
    assert_eq!(errs.len(), 1);
    assert_eq!(
        errs[0],
        ParseError::ExpectedToken {
            expected: Token::RBrace,
            found: Token::Eof,
        }
    );
    assert!(prog.statements.is_empty());
}

#[test]
fn test_parse_return_statement() {
    let (prog, errs) = parse("return 5;".to_string());
    assert!(errs.is_empty());
    assert_eq!(prog.statements.len(), 1);
    assert!(matches!(prog.statements[0], Statement::Return { .. }));
    assert_eq!(prog.render(), "return 5;");
}

#[test]
fn test_parse_function_literal() {
    let (prog, errs) = parse("fn(x, y) { x + y; }".to_string());
    assert!(errs.is_empty());
    assert_eq!(prog.render(), "fn(x, y) { (x + y); };");
}

#[test]
fn test_parse_function_literal_no_params() {
    let (prog, errs) = parse("fn() { 1; }".to_string());
    assert!(errs.is_empty());
    assert_eq!(prog.render(), "fn() { 1; };");
}

#[test]
fn test_parse_call_expression() {
    let (prog, errs) = parse("add(1, 2 * 3);".to_string());
    assert!(errs.is_empty());
    assert_eq!(prog.render(), "add(1, (2 * 3));");
}

#[test]
fn test_parse_call_no_args() {
    let (prog, errs) = parse("f();".to_string());
    assert!(errs.is_empty());
    assert_eq!(prog.render(), "f();");
}

#[test]
fn test_parse_trailing_comma_rejected() {
    let (_, errs) = parse("f(1,);".to_string());
    assert_eq!(errs.len(), 1);
    assert!(matches!(
        errs[0],
        ParseError::NoPrefix {
            found: Token::RParen
        }
    ));
    let (_, errs2) = parse("fn(x,) { x; }".to_string());
    assert!(matches!(
        errs2[0],
        ParseError::ExpectedIdent {
            found: Token::RParen
        }
    ));
}

#[test]
fn test_parse_call_binds_tightest() {
    let (prog, errs) = parse("a + f(b);".to_string());
    assert!(errs.is_empty());
    assert_eq!(prog.render(), "(a + f(b));");
}

#[test]
fn test_precedence_table() {
    assert_eq!(get_token_precedence(&Token::Eq), Precedence::Equals);
    assert_eq!(get_token_precedence(&Token::NotEq), Precedence::Equals);
    assert_eq!(get_token_precedence(&Token::Lt), Precedence::LessGreater);
    assert_eq!(get_token_precedence(&Token::Gt), Precedence::LessGreater);
    assert_eq!(get_token_precedence(&Token::Plus), Precedence::Sum);
    assert_eq!(get_token_precedence(&Token::Minus), Precedence::Sum);
    assert_eq!(get_token_precedence(&Token::Slash), Precedence::Product);
    assert_eq!(get_token_precedence(&Token::Asterisk), Precedence::Product);
    assert_eq!(get_token_precedence(&Token::LParen), Precedence::Call);
    assert_eq!(get_token_precedence(&Token::Semicolon), Precedence::Lowest);
}

#[test]
fn test_parse_empty_input() {
    let (prog, errs) = parse(String::new());
    assert!(errs.is_empty());
    assert!(prog.statements.is_empty());
    assert_eq!(prog.render(), "");
    let empty = Ast::new();
    assert!(empty.statements.is_empty());
    assert_eq!(empty.render(), "");
}

#[test]
fn test_parser_errors_accessor() {
    let mut p = Parser::new("let = 5;".to_string());
    let prog = p.parse_program();
    assert!(prog.statements.is_empty());
    assert_eq!(p.errors().len(), 1);
}

#[test]
fn test_block_render_empty() {
    let block = Statement::Block { body: vec![] };
    assert_eq!(block.render(), "{ }");
}

#[test]
fn test_tokenize_multibyte_identifier() {
    let toks = tokenize("h\u{e9}llo".to_string());
    assert_eq!(
        toks,
        vec![Token::Ident("h\u{e9}llo".to_string()), Token::Eof]
    );
}

#[test]
fn test_parse_nested_calls() {
    let (prog, errs) = parse("f(g(x), h(1 + 2));".to_string());
    assert!(errs.is_empty());
    assert_eq!(prog.render(), "f(g(x), h((1 + 2)));");
}

#[test]
fn test_parse_if_with_several_statements() {
    let (prog, errs) = parse("if (x < y) { let a = 1; return a; }".to_string());
    assert!(errs.is_empty());
    assert_eq!(prog.render(), "if ((x < y)) { let a = 1; return a; };");
}
