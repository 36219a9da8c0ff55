use rlox::environment::Environment;
use rlox::token::{Literal, Token, TokenType};

fn name(s: &str) -> Token {
    Token::new(TokenType::Identifier, s.to_string(), None, 4)
}

#[test]
fn define_then_get() {
    let mut env = Environment::new();
    env.define(&"a".to_string(), Literal::Bool(true));
    assert_eq!(env.get(name("a")).ok(), Some(Literal::Bool(true)));
}

#[test]
fn get_undefined_names_token_and_line() {
    let env = Environment::new();
    let err = env.get(name("zz")).err().unwrap();
    assert_eq!(err.message, "Undefined variable 'zz'.");
    assert_eq!(err.token.line, 4);
}

#[test]
fn inner_declaration_vanishes_with_scope() {
    let mut env = Environment::new();
    env.enter_scope();
    env.define(&"x".to_string(), Literal::Nil);
    assert!(env.get(name("x")).is_ok());
    env.leave_scope();
    assert!(env.get(name("x")).is_err());
    assert_eq!(env.depth(), 1);
}

#[test]
fn assign_in_inner_scope_changes_outer_binding_only() {
    let mut env = Environment::new();
    env.define(&"a".to_string(), Literal::Number("1".to_string()));
    let mut inner = Environment::from(env);
    assert!(inner.assign(name("a"), Literal::Number("2".to_string())).is_ok());
    assert_eq!(inner.depth(), 2);
    inner.leave_scope();
    assert_eq!(inner.get(name("a")).ok(), Some(Literal::Number("2".to_string())));
}

#[test]
fn assign_never_creates_binding() {
    let mut env = Environment::new();
    env.enter_scope();
    assert!(env.assign(name("b"), Literal::Nil).is_err());
    env.leave_scope();
    assert!(env.get(name("b")).is_err());
}

#[test]
fn shadowing_inner_scope() {
    let mut env = Environment::new();
    env.define(&"a".to_string(), Literal::String("outer".to_string()));
    env.enter_scope();
    env.define(&"a".to_string(), Literal::String("inner".to_string()));
    assert!(env.assign(name("a"), Literal::String("changed".to_string())).is_ok());
    env.leave_scope();
    assert_eq!(env.get(name("a")).ok(), Some(Literal::String("outer".to_string())));
}
