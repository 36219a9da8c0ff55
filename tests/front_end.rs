use rlox::parser::Parser;
use rlox::scanner::Scanner;
use rlox::token::{lookup_keyword, Literal, TokenType};

fn scan(source: &str) -> (Vec<rlox::token::Token>, usize) {
    let mut scanner = Scanner::new(source.to_string());
    let tokens = scanner.scan_tokens();
    let errors = scanner.errors().len();
    (tokens, errors)
}

#[test]
fn scan_ends_with_one_eof() {
    let (tokens, errors) = scan("var a = 1;\nprint a;\n");
    assert_eq!(errors, 0);
    assert_eq!(tokens.last().unwrap().token_type, TokenType::Eof);
    assert_eq!(tokens.iter().filter(|t| t.token_type == TokenType::Eof).count(), 1);
    assert_eq!(tokens.last().unwrap().line, 3);
    for w in tokens.windows(2) {
        assert!(w[0].line <= w[1].line);
    }
}

#[test]
fn scan_empty_source() {
    let (tokens, errors) = scan("");
    assert_eq!(errors, 0);
    assert_eq!(tokens.len(), 1);
    assert_eq!(tokens[0].token_type, TokenType::Eof);
    assert_eq!(tokens[0].line, 1);
}

#[test]
fn scan_operators() {
    let (tokens, _) = scan("! != = == < <= > >= / // comment\n( ) { } , . - + ; *");
    let kinds: Vec<TokenType> = tokens.iter().map(|t| t.token_type).collect();
    assert_eq!(
        kinds,
        vec![
            TokenType::Bang,
            TokenType::BangEqual,
            TokenType::Equal,
            TokenType::EqualEqual,
            TokenType::Less,
            TokenType::LessEqual,
            TokenType::Greater,
            TokenType::GreaterEqual,
            TokenType::Slash,
            TokenType::LeftParen,
            TokenType::RightParen,
            TokenType::LeftBrace,
            TokenType::RightBrace,
            TokenType::Comma,
            TokenType::Dot,
            TokenType::Minus,
            TokenType::Plus,
            TokenType::Semicolon,
            TokenType::Star,
            TokenType::Eof,
        ]
    );
    assert_eq!(tokens[9].line, 2);
}

#[test]
fn scan_number_trailing_dot() {
    let (tokens, _) = scan("12.5 7.");
    assert_eq!(tokens[0].token_type, TokenType::Number);
    assert_eq!(tokens[0].lexeme, "12.5");
    assert_eq!(tokens[0].literal, Some(Literal::Number("12.5".to_string())));
    assert_eq!(tokens[1].lexeme, "7");
    assert_eq!(tokens[2].token_type, TokenType::Dot);
}

#[test]
fn scan_string_spanning_lines() {
    let (tokens, errors) = scan("\"a\nb\" x");
    assert_eq!(errors, 0);
    assert_eq!(tokens[0].token_type, TokenType::String);
    assert_eq!(tokens[0].literal, Some(Literal::String("a\nb".to_string())));
    assert_eq!(tokens[0].line, 2);
    assert_eq!(tokens[1].token_type, TokenType::Identifier);
}

#[test]
fn scan_unterminated_string() {
    let (tokens, errors) = scan("\"abc\n");
    assert_eq!(errors, 1);
    assert_eq!(tokens.len(), 1);
    assert_eq!(tokens[0].line, 2);
}

#[test]
fn scan_keywords_and_identifiers() {
    let (tokens, _) = scan("and class else false for fun if nil or print return super this true var while _x1 orchid");
    let kinds: Vec<TokenType> = tokens.iter().map(|t| t.token_type).collect();
    assert_eq!(
        kinds,
        vec![
            TokenType::And,
            TokenType::Class,
            TokenType::Else,
            TokenType::False,
            TokenType::For,
            TokenType::Fun,
            TokenType::If,
            TokenType::Nil,
            TokenType::Or,
            TokenType::Print,
            TokenType::Return,
            TokenType::Super,
            TokenType::This,
            TokenType::True,
            TokenType::Var,
            TokenType::While,
            TokenType::Identifier,
            TokenType::Identifier,
            TokenType::Eof,
        ]
    );
    assert_eq!(tokens[16].lexeme, "_x1");
}

#[test]
fn keyword_lookup() {
    assert_eq!(lookup_keyword("while"), TokenType::While);
    assert_eq!(lookup_keyword("whilex"), TokenType::Identifier);
    assert_eq!(lookup_keyword(""), TokenType::Identifier);
}

#[test]
fn scan_unexpected_characters() {
    let (tokens, errors) = scan("a @ b");
    assert_eq!(errors, 1);
    assert_eq!(tokens.len(), 3);
}

#[test]
fn parse_recovers_after_one_bad_statement() {
    let (tokens, _) = scan("1 +; print 1; print 2; var x = 3;");
    let mut parser = Parser::new(tokens);
    let statements = parser.parse();
    assert_eq!(parser.errors().len(), 1);
    assert_eq!(parser.errors()[0].token.lexeme, ";");
    assert_eq!(statements.len(), 3);
}

#[test]
fn parse_block_and_control_flow() {
    let (tokens, _) = scan("{ var a = 1; if (a) print a; else print 2; while (false) a = a + 1; }");
    let mut parser = Parser::new(tokens);
    let statements = parser.parse();
    assert_eq!(parser.errors().len(), 0);
    assert_eq!(statements.len(), 1);
}

#[test]
fn parse_unclosed_block() {
    let (tokens, _) = scan("{ print 1;");
    let mut parser = Parser::new(tokens);
    let statements = parser.parse();
    assert_eq!(parser.errors().len(), 1);
    assert_eq!(parser.errors()[0].message, "Expect '}' after block.");
    assert!(statements.is_empty());
}

#[test]
fn parse_right_associative_assignment() {
    let (tokens, _) = scan("a = b = 1;");
    let mut parser = Parser::new(tokens);
    let statements = parser.parse();
    assert_eq!(parser.errors().len(), 0);
    assert_eq!(statements.len(), 1);
    match &*statements[0] {
        rlox::ast::Stmt::Expr(e) => match &**e {
            rlox::ast::Expr::Assignment(a, v) => {
                assert_eq!(a.lexeme, "a");
                assert!(matches!(&**v, rlox::ast::Expr::Assignment(b, _) if b.lexeme == "b"));
            }
            _ => panic!("expected an assignment"),
        },
        _ => panic!("expected an expression statement"),
    }
}

#[test]
fn parse_empty_block() {
    let (tokens, _) = scan("{}");
    let mut parser = Parser::new(tokens);
    let statements = parser.parse();
    assert_eq!(parser.errors().len(), 0);
    assert!(matches!(&*statements[0], rlox::ast::Stmt::Block(v) if v.is_empty()));
}

#[test]
fn scan_unicode_identifier() {
    let (tokens, errors) = scan("é1_");
    assert_eq!(errors, 0);
    assert_eq!(tokens[0].token_type, TokenType::Identifier);
    assert_eq!(tokens[0].lexeme, "é1_");
}
