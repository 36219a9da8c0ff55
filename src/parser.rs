use vstd::prelude::*;
use crate::ast::{Expr, Stmt};
use crate::token::{Literal, Token, TokenType};

verus! {

/// A syntax error: the token at which it was found and what was expected.
pub struct ParseError {
    pub token: Token,
    pub message: String,
}

impl ParseError {
    pub fn new(token: Token, message: String) -> (r: ParseError)
        ensures
            r.token == token,
            r.message == message,
    {
        ParseError { token, message }
    }
}

/// A token sequence that a parser can walk: it is not empty and it ends with
/// the end-of-input token.
pub open spec fn well_terminated(tokens: Seq<Token>) -> bool {
    tokens.len() > 0 && tokens.last().token_type == TokenType::Eof
}

pub open spec fn kind(t: Seq<Token>, i: int) -> TokenType {
    t[i].token_type
}

/// The expression that a single-token primary stands for.
pub open spec fn atom(tok: Token) -> Option<Expr> {
    match tok.token_type {
        TokenType::False => Some(Expr::Literal(Literal::Bool(false))),
        TokenType::True => Some(Expr::Literal(Literal::Bool(true))),
        TokenType::Nil => Some(Expr::Literal(Literal::Nil)),
        TokenType::Number | TokenType::String => Some(
            Expr::Literal(
                match tok.literal {
                    Some(l) => l,
                    None => Literal::Nil,
                },
            ),
        ),
        TokenType::Identifier => Some(Expr::Variable(tok)),
        _ => None,
    }
}

/// Tokens `i..j` of `t` derive `e` as a primary expression.
pub open spec fn primary_form(t: Seq<Token>, i: int, j: int, e: Expr) -> bool
    decreases j - i, 0nat,
{
    if 0 <= i < j <= t.len() {
        (j == i + 1 && atom(t[i]) == Some(e)) || (kind(t, i) == TokenType::LeftParen && kind(t, j - 1)
            == TokenType::RightParen && i + 1 < j - 1 && e is Grouping && expression_form(
            t,
            i + 1,
            j - 1,
            *e->Grouping_0,
        ))
    } else {
        false
    }
}

/// Tokens `i..j` derive `e` as a unary expression.
pub open spec fn unary_form(t: Seq<Token>, i: int, j: int, e: Expr) -> bool
    decreases j - i, 1nat,
{
    if 0 <= i < j <= t.len() {
        primary_form(t, i, j, e) || (e matches Expr::Unary(op, r) && (kind(t, i) == TokenType::Bang
            || kind(t, i) == TokenType::Minus) && op == t[i] && unary_form(t, i + 1, j, *r))
    } else {
        false
    }
}

/// The operator kinds of each binary precedence level, from `factor` (2)
/// up to `or` (7).
pub open spec fn level_op(level: nat, k: TokenType) -> bool {
    if level == 2 {
        k == TokenType::Slash || k == TokenType::Star
    } else if level == 3 {
        k == TokenType::Minus || k == TokenType::Plus
    } else if level == 4 {
        k == TokenType::Greater || k == TokenType::GreaterEqual || k == TokenType::Less || k
            == TokenType::LessEqual
    } else if level == 5 {
        k == TokenType::BangEqual || k == TokenType::EqualEqual
    } else if level == 6 {
        k == TokenType::And
    } else {
        k == TokenType::Or
    }
}

/// Tokens `i..j` derive `e` at binary precedence level `level` (2 to 7):
/// an operand of the next tighter level, or a left-associated chain of
/// such operands joined by the level's operators.
pub open spec fn binary_form(t: Seq<Token>, i: int, j: int, e: Expr, level: nat) -> bool
    decreases j - i, level,
{
    if 0 <= i < j <= t.len() && 2 <= level <= 7 {
        operand_form(t, i, j, e, level) || (exists|k: int|
            #![trigger t[k]]
            i < k < j - 1 && level_op(level, t[k].token_type) && chain_step(t, i, k, j, e, level))
    } else {
        false
    }
}

/// `e` joins tokens `i..k`, at `level`, and tokens `k+1..j`, at the next
/// tighter level, with the operator at `k`.
pub open spec fn chain_step(t: Seq<Token>, i: int, k: int, j: int, e: Expr, level: nat) -> bool
    decreases j - i, level, 0nat,
{
    if 0 <= i < k && k + 1 < j <= t.len() && 2 <= level <= 7 {
        match e {
            Expr::Binary(l, op, r) => level <= 5 && op == t[k] && binary_form(t, i, k, *l, level)
                && operand_form(t, k + 1, j, *r, level),
            Expr::Logical(l, op, r) => level >= 6 && op == t[k] && binary_form(t, i, k, *l, level)
                && operand_form(t, k + 1, j, *r, level),
            _ => false,
        }
    } else {
        false
    }
}

/// Tokens `i..j` derive `e` at the level just tighter than `level`.
pub open spec fn operand_form(t: Seq<Token>, i: int, j: int, e: Expr, level: nat) -> bool
    decreases j - i, level, 1nat,
{
    if 2 <= level <= 7 {
        if level == 2 {
            unary_form(t, i, j, e)
        } else {
            binary_form(t, i, j, e, (level - 1) as nat)
        }
    } else {
        false
    }
}

/// Tokens `i..j` derive `e` as an expression: an `or` chain, or an
/// assignment to a variable.
pub open spec fn expression_form(t: Seq<Token>, i: int, j: int, e: Expr) -> bool
    decreases j - i, 8nat,
{
    if 0 <= i < j <= t.len() {
        binary_form(t, i, j, e, 7) || (e matches Expr::Assignment(name, v) && exists|k: int|
            #![trigger t[k]]
            i < k < j - 1 && kind(t, k) == TokenType::Equal && binary_form(
                t,
                i,
                k,
                Expr::Variable(name),
                7,
            ) && expression_form(t, k + 1, j, *v))
    } else {
        false
    }
}

/// A statement in mathematical form: a block holds a sequence.
pub enum SStmt {
    Block(Seq<SStmt>),
    Expr(Expr),
    Print(Expr),
    Var(Token, Option<Expr>),
    If(Expr, Box<SStmt>, Option<Box<SStmt>>),
    While(Expr, Box<SStmt>),
}

/// The mathematical form of a statement.
pub open spec fn model(s: Stmt) -> SStmt
    decreases s,
{
    match s {
        Stmt::Block(v) => SStmt::Block(
            Seq::new(
                v@.len(),
                |i: int|
                    if 0 <= i < v@.len() {
                        model(v@[i])
                    } else {
                        SStmt::Block(Seq::empty())
                    },
            ),
        ),
        Stmt::Expr(e) => SStmt::Expr(*e),
        Stmt::Print(e) => SStmt::Print(*e),
        Stmt::Var(name, init) => SStmt::Var(name, *init),
        Stmt::If(c, a, b) => SStmt::If(
            *c,
            Box::new(model(*a)),
            match b {
                Some(x) => Some(Box::new(model(*x))),
                None => None,
            },
        ),
        Stmt::While(c, body) => SStmt::While(*c, Box::new(model(*body))),
    }
}

pub open spec fn models(v: Seq<Stmt>) -> Seq<SStmt> {
    Seq::new(v.len(), |i: int| model(v[i]))
}

/// Syntax errors as (token, message).
pub open spec fn error_views(v: Seq<ParseError>) -> Seq<(Token, Seq<char>)> {
    v.map_values(|e: ParseError| (e.token, e.message@))
}

/// What parsing a statement from a position comes to: the statement, the
/// position after it and the errors recorded by then; or an error at a
/// token with its message, where parsing stopped, and the errors recorded
/// before it.
pub enum SParsed {
    Done(SStmt, int, Seq<(Token, Seq<char>)>),
    Fail(Token, Seq<char>, int, Seq<(Token, Seq<char>)>),
}

/// Position `p` holds a token of kind `k`.
pub open spec fn at_kind(t: Seq<Token>, p: int, k: TokenType) -> bool {
    0 <= p < t.len() && kind(t, p) == k
}

/// `r` with the errors recorded so far replaced by `es`.
pub open spec fn with_errors(r: SParsed, es: Seq<(Token, Seq<char>)>) -> SParsed {
    match r {
        SParsed::Done(s, q, _) => SParsed::Done(s, q, es),
        SParsed::Fail(tok, msg, q, _) => SParsed::Fail(tok, msg, q, es),
    }
}

/// An expression followed by `;`, at `p`: a print statement when `print`
/// holds, else an expression statement.
pub open spec fn parse_terminated(t: Seq<Token>, p: int, print: bool, message: Seq<char>) -> SParsed {
    let es = Seq::<(Token, Seq<char>)>::empty();
    match parse_expression(t, p) {
        Parsed::Done(e, q) => if at_kind(t, q, TokenType::Semicolon) {
            SParsed::Done(
                if print {
                    SStmt::Print(e)
                } else {
                    SStmt::Expr(e)
                },
                q + 1,
                es,
            )
        } else {
            SParsed::Fail(t[q], message, q, es)
        },
        Parsed::Fail(tok, msg, q) => SParsed::Fail(tok, msg, q, es),
    }
}

/// The rule `exprStmt` at `p`.
pub open spec fn parse_expression_statement(t: Seq<Token>, p: int) -> SParsed {
    parse_terminated(t, p, false, "Expect ';' after expression."@)
}

/// The rule `printStmt` after `print`, at `p`.
pub open spec fn parse_print(t: Seq<Token>, p: int) -> SParsed {
    parse_terminated(t, p, true, "Expect ';' after value."@)
}

/// A variable declaration after `var`, at `p`.
pub open spec fn parse_var(t: Seq<Token>, p: int) -> SParsed {
    let es = Seq::<(Token, Seq<char>)>::empty();
    if !at_kind(t, p, TokenType::Identifier) {
        SParsed::Fail(t[p], "Expect variable name."@, p, es)
    } else if at_kind(t, p + 1, TokenType::Equal) {
        match parse_expression(t, p + 2) {
            Parsed::Done(e, q) => if at_kind(t, q, TokenType::Semicolon) {
                SParsed::Done(SStmt::Var(t[p], Some(e)), q + 1, es)
            } else {
                SParsed::Fail(t[q], "Expect ';' after variable declaration."@, q, es)
            },
            Parsed::Fail(tok, msg, q) => SParsed::Fail(tok, msg, q, es),
        }
    } else if at_kind(t, p + 1, TokenType::Semicolon) {
        SParsed::Done(SStmt::Var(t[p], None), p + 2, es)
    } else {
        SParsed::Fail(t[p + 1], "Expect ';' after variable declaration."@, p + 1, es)
    }
}

/// The initializer clause of a `for` loop, after `(`, at `p`: the
/// statement, if any, and the position after it.
pub enum ForInit {
    Init(Option<SStmt>, int),
    Fail(Token, Seq<char>, int),
}

pub open spec fn for_init(t: Seq<Token>, p: int) -> ForInit {
    if at_kind(t, p, TokenType::Semicolon) {
        ForInit::Init(None, p + 1)
    } else {
        let init = if at_kind(t, p, TokenType::Var) {
            parse_var(t, p + 1)
        } else {
            parse_expression_statement(t, p)
        };
        match init {
            SParsed::Done(i, q, _) => ForInit::Init(Some(i), q),
            SParsed::Fail(tok, msg, q, _) => ForInit::Fail(tok, msg, q),
        }
    }
}

/// The condition and increment clauses of a `for` loop, at `q`: the
/// condition and the increment, if any, and the position of `)`.
pub enum ForTail {
    Tail(Option<Expr>, Option<Expr>, int),
    Fail(Token, Seq<char>, int),
}

pub open spec fn for_tail(t: Seq<Token>, q: int) -> ForTail {
    let cond = if at_kind(t, q, TokenType::Semicolon) {
        Parsed::Done(Expr::Literal(Literal::Nil), q)
    } else {
        parse_expression(t, q)
    };
    match cond {
        Parsed::Fail(tok, msg, r) => ForTail::Fail(tok, msg, r),
        Parsed::Done(c, r) => if !at_kind(t, r, TokenType::Semicolon) {
            ForTail::Fail(t[r], "Expect ';' after loop condition."@, r)
        } else {
            let c = if at_kind(t, q, TokenType::Semicolon) {
                None
            } else {
                Some(c)
            };
            if at_kind(t, r + 1, TokenType::RightParen) {
                ForTail::Tail(c, None, r + 1)
            } else {
                match parse_expression(t, r + 1) {
                    Parsed::Fail(tok, msg, r2) => ForTail::Fail(tok, msg, r2),
                    Parsed::Done(inc, r2) => if at_kind(t, r2, TokenType::RightParen) {
                        ForTail::Tail(c, Some(inc), r2)
                    } else {
                        ForTail::Fail(t[r2], "Expect ')' after for clauses."@, r2)
                    },
                }
            }
        },
    }
}

/// The head of a `for` loop after `for`, at `p`: the initializer, the
/// condition, the increment, and the position of `)`.
pub enum ForHead {
    Head(Option<SStmt>, Option<Expr>, Option<Expr>, int),
    Fail(Token, Seq<char>, int),
}

pub open spec fn for_head(t: Seq<Token>, p: int) -> ForHead {
    if !at_kind(t, p, TokenType::LeftParen) {
        ForHead::Fail(t[p], "Expect '(' after 'for'."@, p)
    } else {
        match for_init(t, p + 1) {
            ForInit::Fail(tok, msg, q) => ForHead::Fail(tok, msg, q),
            ForInit::Init(i, q) => match for_tail(t, q) {
                ForTail::Fail(tok, msg, r) => ForHead::Fail(tok, msg, r),
                ForTail::Tail(c, inc, r) => ForHead::Head(i, c, inc, r),
            },
        }
    }
}

/// The desugaring of `for`: a block of the initializer and a `while`
/// loop, whose body runs the increment after the body as written; a
/// missing condition is `true`.
pub open spec fn desugar_for(init: Option<SStmt>, cond: Option<Expr>, inc: Option<Expr>, body: SStmt) -> SStmt {
    let looped = match inc {
        Some(x) => SStmt::Block(seq![body, SStmt::Expr(x)]),
        None => body,
    };
    let w = SStmt::While(
        match cond {
            Some(c) => c,
            None => Expr::Literal(Literal::Bool(true)),
        },
        Box::new(looped),
    );
    match init {
        Some(i) => SStmt::Block(seq![i, w]),
        None => w,
    }
}

/// A parenthesized condition after a keyword, at `p`: the expression and
/// the position after `)`.
pub open spec fn parse_condition(t: Seq<Token>, p: int, open_message: Seq<char>) -> Parsed {
    if !at_kind(t, p, TokenType::LeftParen) {
        Parsed::Fail(t[p], open_message, p)
    } else {
        match parse_expression(t, p + 1) {
            Parsed::Done(c, q) => if at_kind(t, q, TokenType::RightParen) {
                Parsed::Done(c, q + 1)
            } else {
                Parsed::Fail(t[q], "Expect ')' after condition."@, q)
            },
            other => other,
        }
    }
}

/// The rule `forStmt` after `for`, at `p`.
pub open spec fn parse_for(t: Seq<Token>, p: int, es: Seq<(Token, Seq<char>)>) -> SParsed
    decreases t.len() - p + 1, 0nat,
{
    match for_head(t, p) {
        ForHead::Fail(tok, msg, q) => SParsed::Fail(tok, msg, q, es),
        ForHead::Head(init, c, inc, q) => if p <= q < t.len() {
            match parse_statement(t, q + 1, es) {
                SParsed::Done(b, q2, es2) => SParsed::Done(desugar_for(init, c, inc, b), q2, es2),
                other => other,
            }
        } else {
            SParsed::Fail(t[q], "Expect ')' after for clauses."@, q, es)
        },
    }
}

/// The rule `whileStmt` after `while`, at `p`.
pub open spec fn parse_while(t: Seq<Token>, p: int, es: Seq<(Token, Seq<char>)>) -> SParsed
    decreases t.len() - p + 1, 0nat,
{
    match parse_condition(t, p, "Expect '(' after 'while'."@) {
        Parsed::Fail(tok, msg, q) => SParsed::Fail(tok, msg, q, es),
        Parsed::Done(c, q) => if p < q <= t.len() {
            match parse_statement(t, q, es) {
                SParsed::Done(b, q2, es2) => SParsed::Done(SStmt::While(c, Box::new(b)), q2, es2),
                other => other,
            }
        } else {
            SParsed::Fail(t[p], "Expect '(' after 'while'."@, p, es)
        },
    }
}

/// The rule `ifStmt` after `if`, at `p`; an `else` belongs to the nearest
/// `if`.
pub open spec fn parse_if(t: Seq<Token>, p: int, es: Seq<(Token, Seq<char>)>) -> SParsed
    decreases t.len() - p + 1, 0nat,
{
    match parse_condition(t, p, "Expect '(' after 'if'."@) {
        Parsed::Fail(tok, msg, q) => SParsed::Fail(tok, msg, q, es),
        Parsed::Done(c, q) => if p < q <= t.len() {
            match parse_statement(t, q, es) {
                SParsed::Done(a, q2, es2) => if p < q2 < t.len() && at_kind(t, q2, TokenType::Else) {
                    match parse_statement(t, q2 + 1, es2) {
                        SParsed::Done(b, q3, es3) => SParsed::Done(
                            SStmt::If(c, Box::new(a), Some(Box::new(b))),
                            q3,
                            es3,
                        ),
                        other => other,
                    }
                } else {
                    SParsed::Done(SStmt::If(c, Box::new(a), None), q2, es2)
                },
                other => other,
            }
        } else {
            SParsed::Fail(t[p], "Expect '(' after 'if'."@, p, es)
        },
    }
}

/// The declarations of a block from `p` on, with `acc` those parsed so far,
/// up to its `}`.
pub open spec fn parse_block_items(
    t: Seq<Token>,
    p: int,
    es: Seq<(Token, Seq<char>)>,
    acc: Seq<SStmt>,
) -> SParsed
    decreases t.len() - p, 31nat,
{
    if 0 <= p < t.len() {
        if kind(t, p) == TokenType::RightBrace {
            SParsed::Done(SStmt::Block(acc), p + 1, es)
        } else if kind(t, p) == TokenType::Eof {
            SParsed::Fail(t[p], "Expect '}' after block."@, p, es)
        } else {
            let (o, q, es2) = parse_declaration(t, p, es);
            if p < q <= t.len() {
                parse_block_items(
                    t,
                    q,
                    es2,
                    match o {
                        Some(s) => acc.push(s),
                        None => acc,
                    },
                )
            } else {
                SParsed::Fail(t[p], "Expect '}' after block."@, p, es2)
            }
        }
    } else {
        SParsed::Fail(t[p], "Expect '}' after block."@, p, es)
    }
}

/// The rule `block` after `{`, at `p`.
pub open spec fn parse_block(t: Seq<Token>, p: int, es: Seq<(Token, Seq<char>)>) -> SParsed
    decreases t.len() - p + 1, 0nat,
{
    if p <= t.len() {
        parse_block_items(t, p, es, Seq::empty())
    } else {
        SParsed::Fail(t[p], "Expect '}' after block."@, p, es)
    }
}

/// The rule `statement` at `p`: the first token decides.
pub open spec fn parse_statement(t: Seq<Token>, p: int, es: Seq<(Token, Seq<char>)>) -> SParsed
    decreases t.len() - p, 29nat,
{
    if at_kind(t, p, TokenType::If) {
        parse_if(t, p + 1, es)
    } else if at_kind(t, p, TokenType::For) {
        parse_for(t, p + 1, es)
    } else if at_kind(t, p, TokenType::Print) {
        with_errors(parse_print(t, p + 1), es)
    } else if at_kind(t, p, TokenType::While) {
        parse_while(t, p + 1, es)
    } else if at_kind(t, p, TokenType::LeftBrace) {
        parse_block(t, p + 1, es)
    } else {
        with_errors(parse_expression_statement(t, p), es)
    }
}

/// Where recovery after an error at `q` resumes: past the token at `q`,
/// then on to the next statement boundary or the end of input.
pub open spec fn sync_from(t: Seq<Token>, q: int) -> int
    decreases t.len() - q,
{
    if 0 < q < t.len() && kind(t, q) != TokenType::Eof && !boundary(t, q) {
        sync_from(t, q + 1)
    } else {
        q
    }
}

pub open spec fn sync(t: Seq<Token>, q: int) -> int {
    if 0 <= q < t.len() && kind(t, q) != TokenType::Eof {
        sync_from(t, q + 1)
    } else {
        q
    }
}

/// The rule `declaration` at `p`: the statement, if it parsed, the
/// position after it, and the errors. A malformed declaration records its
/// error and is skipped up to the next statement boundary.
pub open spec fn parse_declaration(t: Seq<Token>, p: int, es: Seq<(Token, Seq<char>)>) -> (
    Option<SStmt>,
    int,
    Seq<(Token, Seq<char>)>,
)
    decreases t.len() - p, 30nat,
{
    let r = if at_kind(t, p, TokenType::Var) {
        with_errors(parse_var(t, p + 1), es)
    } else {
        parse_statement(t, p, es)
    };
    match r {
        SParsed::Done(s, q, es2) => (Some(s), q, es2),
        SParsed::Fail(tok, msg, q, es2) => (None, sync(t, q), es2.push((tok, msg))),
    }
}

/// The rule `program` from `p`: the declarations that parsed, after
/// `acc`, and the errors recorded.
pub open spec fn parse_program(
    t: Seq<Token>,
    p: int,
    es: Seq<(Token, Seq<char>)>,
    acc: Seq<SStmt>,
) -> (Seq<SStmt>, Seq<(Token, Seq<char>)>)
    decreases t.len() - p,
{
    if 0 <= p < t.len() && kind(t, p) != TokenType::Eof {
        let (o, q, es2) = parse_declaration(t, p, es);
        if p < q <= t.len() {
            parse_program(
                t,
                q,
                es2,
                match o {
                    Some(s) => acc.push(s),
                    None => acc,
                },
            )
        } else {
            (acc, es2)
        }
    } else {
        (acc, es)
    }
}

/// `r`, with the cursor at `cur` and the errors `es`, is the outcome `m`.
pub open spec fn stmt_as(r: Result<Stmt, ParseError>, cur: int, es: Seq<(Token, Seq<char>)>, m: SParsed) -> bool {
    match (r, m) {
        (Ok(s), SParsed::Done(x, q, es2)) => model(s) == x && cur == q && es == es2,
        (Err(err), SParsed::Fail(tok, msg, q, es2)) => err.token == tok && err.message@ == msg && cur == q
            && es == es2,
        _ => false,
    }
}

/// What parsing an expression from a position comes to: the expression
/// and the position after it, or an error at a token with its message and
/// the position where parsing stopped.
pub enum Parsed {
    Done(Expr, int),
    Fail(Token, Seq<char>, int),
}

/// The node of a binary level: `Binary` up to equality, `Logical` above.
pub open spec fn join(level: nat, l: Expr, op: Token, r: Expr) -> Expr {
    if level <= 5 {
        Expr::Binary(Box::new(l), op, Box::new(r))
    } else {
        Expr::Logical(Box::new(l), op, Box::new(r))
    }
}

/// The rule `primary` at position `p`.
pub open spec fn parse_primary(t: Seq<Token>, p: int) -> Parsed
    decreases t.len() - p, 0nat, 0nat,
{
    if 0 <= p < t.len() {
        match atom(t[p]) {
            Some(e) => Parsed::Done(e, p + 1),
            None => if kind(t, p) == TokenType::LeftParen {
                match parse_expression(t, p + 1) {
                    Parsed::Done(e, q) => if 0 <= q < t.len() && kind(t, q) == TokenType::RightParen {
                        Parsed::Done(Expr::Grouping(Box::new(e)), q + 1)
                    } else {
                        Parsed::Fail(t[q], "Expect ')' after expression."@, q)
                    },
                    other => other,
                }
            } else {
                Parsed::Fail(t[p], "Expect expression."@, p)
            },
        }
    } else {
        Parsed::Fail(t[p], "Expect expression."@, p)
    }
}

/// The rule `unary` at position `p`.
pub open spec fn parse_unary(t: Seq<Token>, p: int) -> Parsed
    decreases t.len() - p, 1nat, 0nat,
{
    if 0 <= p < t.len() && (kind(t, p) == TokenType::Bang || kind(t, p) == TokenType::Minus) {
        match parse_unary(t, p + 1) {
            Parsed::Done(r, q) => Parsed::Done(Expr::Unary(t[p], Box::new(r)), q),
            other => other,
        }
    } else {
        parse_primary(t, p)
    }
}

/// The operand rule of binary level `level`, at position `p`.
pub open spec fn parse_operand(t: Seq<Token>, p: int, level: nat) -> Parsed
    decreases t.len() - p, level, 0nat,
{
    if 3 <= level <= 7 {
        parse_binary(t, p, (level - 1) as nat)
    } else if level == 2 {
        parse_unary(t, p)
    } else {
        Parsed::Fail(t[p], "Expect expression."@, p)
    }
}

/// Binary level `level` (2 to 7) at position `p`: an operand, then the
/// left-associated chain of the level's operators.
pub open spec fn parse_binary(t: Seq<Token>, p: int, level: nat) -> Parsed
    decreases t.len() - p, level, 2nat,
{
    match parse_operand(t, p, level) {
        Parsed::Done(e, q) => if p < q <= t.len() {
            parse_chain(t, q, e, level)
        } else {
            Parsed::Done(e, q)
        },
        other => other,
    }
}

/// The rest of a chain at binary level `level`, with `left` parsed so far
/// and `q` the next position.
pub open spec fn parse_chain(t: Seq<Token>, q: int, left: Expr, level: nat) -> Parsed
    decreases t.len() - q, level, 1nat,
{
    if 0 <= q < t.len() && level_op(level, kind(t, q)) && kind(t, q) != TokenType::Eof {
        match parse_operand(t, q + 1, level) {
            Parsed::Done(r, q2) => if q < q2 <= t.len() {
                parse_chain(t, q2, join(level, left, t[q], r), level)
            } else {
                Parsed::Done(join(level, left, t[q], r), q2)
            },
            other => other,
        }
    } else {
        Parsed::Done(left, q)
    }
}

/// The rule `assignment` at position `p`: a right-associated assignment
/// to a variable, or an `or` chain.
pub open spec fn parse_assignment(t: Seq<Token>, p: int) -> Parsed
    decreases t.len() - p, 8nat, 0nat,
{
    match parse_binary(t, p, 7) {
        Parsed::Done(e, q) => if 0 <= p <= q < t.len() && kind(t, q) == TokenType::Equal {
            match parse_assignment(t, q + 1) {
                Parsed::Done(v, q2) => match e {
                    Expr::Variable(name) => Parsed::Done(Expr::Assignment(name, Box::new(v)), q2),
                    _ => Parsed::Fail(t[q], "Invalid assignment target."@, q2),
                },
                other => other,
            }
        } else {
            Parsed::Done(e, q)
        },
        other => other,
    }
}

/// The rule `expression` at position `p`.
pub open spec fn parse_expression(t: Seq<Token>, p: int) -> Parsed
    decreases t.len() - p, 9nat, 0nat,
{
    parse_assignment(t, p)
}

/// `r`, with the cursor left at `cur`, is the outcome `m`.
pub open spec fn parsed_as(r: Result<Expr, ParseError>, cur: int, m: Parsed) -> bool {
    match (r, m) {
        (Ok(e), Parsed::Done(f, q)) => e == f && cur == q,
        (Err(err), Parsed::Fail(tok, msg, q)) => err.token == tok && err.message@ == msg && cur == q,
        _ => false,
    }
}

proof fn lemma_operand_lifts(t: Seq<Token>, i: int, j: int, e: Expr, level: nat)
    requires
        0 <= i < j <= t.len(),
        2 <= level <= 7,
        operand_form(t, i, j, e, level),
    ensures
        binary_form(t, i, j, e, level),
{
}

proof fn lemma_chain(t: Seq<Token>, i: int, k: int, j: int, e: Expr, level: nat)
    requires
        0 <= i < k,
        k + 1 < j <= t.len(),
        2 <= level <= 7,
        level_op(level, t[k].token_type),
        chain_step(t, i, k, j, e, level),
    ensures
        binary_form(t, i, j, e, level),
{
    assert(i < k < j - 1 && level_op(level, t[k].token_type) && chain_step(t, i, k, j, e, level));
}

/// The keywords that start a declaration or statement: where recovery
/// after a syntax error resumes.
pub open spec fn starts_statement(k: TokenType) -> bool {
    k == TokenType::Class || k == TokenType::Fun || k == TokenType::Var || k == TokenType::For || k
        == TokenType::If || k == TokenType::While || k == TokenType::Print || k == TokenType::Return
}

/// Position `p` is where recovery stops: just after a `;`, or before a
/// keyword that starts a statement.
pub open spec fn boundary(t: Seq<Token>, p: int) -> bool {
    kind(t, p - 1) == TokenType::Semicolon || starts_statement(kind(t, p))
}

pub open spec fn unboxed(v: Seq<Box<Stmt>>) -> Seq<Stmt> {
    v.map_values(|b: Box<Stmt>| *b)
}

proof fn lemma_operand_is(t: Seq<Token>, p: int, level: nat)
    requires
        2 <= level <= 7,
    ensures
        level == 2 ==> parse_operand(t, p, level) == parse_unary(t, p),
        level > 2 ==> parse_operand(t, p, level) == parse_binary(t, p, (level - 1) as nat),
{
}

proof fn lemma_binary_start(t: Seq<Token>, p: int, level: nat, e: Expr, q: int)
    requires
        2 <= level <= 7,
        parse_operand(t, p, level) == Parsed::Done(e, q),
        p < q <= t.len(),
    ensures
        parse_binary(t, p, level) == parse_chain(t, q, e, level),
{
}

proof fn lemma_binary_fail(t: Seq<Token>, p: int, level: nat)
    requires
        2 <= level <= 7,
        parse_operand(t, p, level) is Fail,
    ensures
        parse_binary(t, p, level) == parse_operand(t, p, level),
{
}

proof fn lemma_chain_next(t: Seq<Token>, q: int, left: Expr, level: nat, r: Expr, q2: int)
    requires
        0 <= q < t.len(),
        2 <= level <= 7,
        level_op(level, kind(t, q)),
        kind(t, q) != TokenType::Eof,
        parse_operand(t, q + 1, level) == Parsed::Done(r, q2),
        q < q2 <= t.len(),
    ensures
        parse_chain(t, q, left, level) == parse_chain(t, q2, join(level, left, t[q], r), level),
{
}

proof fn lemma_chain_fail(t: Seq<Token>, q: int, left: Expr, level: nat)
    requires
        0 <= q < t.len(),
        2 <= level <= 7,
        level_op(level, kind(t, q)),
        kind(t, q) != TokenType::Eof,
        parse_operand(t, q + 1, level) is Fail,
    ensures
        parse_chain(t, q, left, level) == parse_operand(t, q + 1, level),
{
}

proof fn lemma_chain_stop(t: Seq<Token>, q: int, left: Expr, level: nat)
    requires
        0 <= q < t.len(),
        !(level_op(level, kind(t, q)) && kind(t, q) != TokenType::Eof),
    ensures
        parse_chain(t, q, left, level) == Parsed::Done(left, q),
{
}

fn is_level_op(level: u8, k: TokenType) -> (r: bool)
    requires
        2 <= level <= 7,
    ensures
        r == level_op(level as nat, k),
{
    if level == 2 {
        k == TokenType::Slash || k == TokenType::Star
    } else if level == 3 {
        k == TokenType::Minus || k == TokenType::Plus
    } else if level == 4 {
        k == TokenType::Greater || k == TokenType::GreaterEqual || k == TokenType::Less || k
            == TokenType::LessEqual
    } else if level == 5 {
        k == TokenType::BangEqual || k == TokenType::EqualEqual
    } else if level == 6 {
        k == TokenType::And
    } else {
        k == TokenType::Or
    }
}

proof fn lemma_pair_model(v: Vec<Stmt>, a: Stmt, b: Stmt)
    requires
        v@ == seq![a, b],
    ensures
        model(Stmt::Block(v)) == SStmt::Block(seq![model(a), model(b)]),
{
    assert(model(Stmt::Block(v))->Block_0 =~= seq![model(a), model(b)]);
}

/// The statement that a `for` loop stands for.
fn desugar(initializer: Option<Stmt>, condition: Option<Expr>, increment: Option<Expr>, body: Stmt) -> (r:
    Stmt)
    ensures
        model(r) == desugar_for(
            match initializer {
                Some(x) => Some(model(x)),
                None => None,
            },
            condition,
            increment,
            model(body),
        ),
{
    let ghost mb = model(body);
    let looped = match increment {
        Some(inc) => {
            let step = Stmt::Expr(Box::new(inc));
            let ghost gs = step;
            let ghost gb = body;
            let mut parts: Vec<Stmt> = Vec::new();
            parts.push(body);
            parts.push(step);
            proof {
                assert(parts@ =~= seq![gb, gs]);
                lemma_pair_model(parts, gb, gs);
            }
            Stmt::Block(parts)
        },
        None => body,
    };
    let condition = match condition {
        Some(c) => c,
        None => Expr::Literal(Literal::Bool(true)),
    };
    let w = Stmt::While(Box::new(condition), Box::new(looped));
    match initializer {
        Some(init) => {
            let ghost gi = init;
            let ghost gw = w;
            let mut parts: Vec<Stmt> = Vec::new();
            parts.push(init);
            parts.push(w);
            proof {
                assert(parts@ =~= seq![gi, gw]);
                lemma_pair_model(parts, gi, gw);
            }
            Stmt::Block(parts)
        },
        None => w,
    }
}

/// Recursive-descent parser over a token sequence.
pub struct Parser {
    current: usize,
    tokens: Vec<Token>,
    errors: Vec<ParseError>,
}

fn text(s: &str) -> (r: String)
    ensures
        r@ == s@,
{
    String::from_str(s)
}

impl Parser {
    /// The cursor stands on a token, and the tokens end with end-of-input.
    pub closed spec fn wf(&self) -> bool {
        &&& well_terminated(self.tokens@)
        &&& self.current < self.tokens@.len()
    }

    /// The tokens being parsed.
    pub closed spec fn input(&self) -> Seq<Token> {
        self.tokens@
    }

    /// Index of the next token to be read.
    pub closed spec fn position(&self) -> int {
        self.current as int
    }

    /// Number of syntax errors met so far.
    pub closed spec fn error_count(&self) -> nat {
        self.errors@.len()
    }

    /// The syntax errors met so far, as (token, message), in order.
    pub closed spec fn error_list(&self) -> Seq<(Token, Seq<char>)> {
        error_views(self.errors@)
    }

    /// The syntax errors met so far, in order.
    pub fn errors(&self) -> (r: &Vec<ParseError>)
        ensures
            r@.len() == self.error_count(),
            error_views(r@) == self.error_list(),
    {
        &self.errors
    }

    /// Number of tokens left, end-of-input included.
    spec fn left(&self) -> int {
        self.tokens@.len() - self.current
    }

    spec fn spec_at_end(&self) -> bool {
        self.tokens@[self.current as int].token_type == TokenType::Eof
    }

    /// `after` is `before` with the cursor moved forward, and errors only
    /// added.
    spec fn advanced(before: &Parser, after: &Parser) -> bool {
        &&& after.wf()
        &&& after.tokens == before.tokens
        &&& after.current >= before.current
        &&& after.errors@.len() >= before.errors@.len()
    }

    pub fn new(tokens: Vec<Token>) -> (r: Parser)
        requires
            well_terminated(tokens@),
        ensures
            r.wf(),
            r.input() == tokens@,
            r.position() == 0,
            r.error_count() == 0,
            r.error_list() == Seq::<(Token, Seq<char>)>::empty(),
    {
        let r = Parser { current: 0, tokens, errors: Vec::new() };
        assert(r.error_list() =~= Seq::<(Token, Seq<char>)>::empty());
        r
    }

    /// Parses the whole program: the statements that parsed, in order. Each
    /// malformed declaration adds its error to `errors` and is skipped up to
    /// the next statement boundary. The result and the errors are those of
    /// the rule `program`.
    pub fn parse(&mut self) -> (r: Vec<Box<Stmt>>)
        requires
            old(self).wf(),
        ensures
            final(self).wf(),
            final(self).input() == old(self).input(),
            final(self).error_count() >= old(self).error_count(),
            0 <= final(self).position() < final(self).input().len(),
            final(self).input()[final(self).position()].token_type == TokenType::Eof,
            (models(unboxed(r@)), final(self).error_list()) == parse_program(
                old(self).input(),
                old(self).position(),
                old(self).error_list(),
                Seq::empty(),
            ),
    {
        let mut statements: Vec<Box<Stmt>> = Vec::new();
        assert(models(unboxed(statements@)) =~= Seq::<SStmt>::empty());
        while !self.at_end()
            invariant
                Self::advanced(old(self), self),
                parse_program(old(self).tokens@, old(self).current as int, error_views(old(self).errors@), Seq::empty()) == parse_program(
                    self.tokens@,
                    self.current as int,
                    error_views(self.errors@),
                    models(unboxed(statements@)),
                ),
            decreases self.left(),
        {
            let ghost v = models(unboxed(statements@));
            match self.declaration() {
                Some(s) => {
                    statements.push(Box::new(s));
                    assert(models(unboxed(statements@)) =~= v.push(model(s)));
                },
                None => {},
            }
        }
        statements
    }

    fn declaration(&mut self) -> (r: Option<Stmt>)
        requires
            old(self).wf(),
        ensures
            Self::advanced(old(self), final(self)),
            !old(self).spec_at_end() ==> final(self).current > old(self).current,
            (
                match r {
                    Some(s) => Some(model(s)),
                    None => None,
                },
                final(self).current as int,
                error_views(final(self).errors@),
            ) == parse_declaration(old(self).tokens@, old(self).current as int, error_views(old(self).errors@)),
        decreases old(self).left(), 30nat,
    {
        let parsed = if self.accept(TokenType::Var) {
            self.var_declaration()
        } else {
            self.statement()
        };
        match parsed {
            Ok(s) => Some(s),
            Err(e) => {
                self.synchronize();
                let ghost before = self.errors@;
                self.errors.push(e);
                assert(error_views(self.errors@) =~= error_views(before).push((e.token, e.message@)));
                None
            },
        }
    }

    fn var_declaration(&mut self) -> (r: Result<Stmt, ParseError>)
        requires
            old(self).wf(),
        ensures
            Self::advanced(old(self), final(self)),
            r is Ok ==> final(self).current > old(self).current,
            final(self).errors == old(self).errors,
            stmt_as(r, final(self).current as int, error_views(final(self).errors@), with_errors(parse_var(old(self).tokens@, old(self).current as int), error_views(old(self).errors@))),
        decreases old(self).left() + 1, 0nat,
    {
        let name = self.consume(TokenType::Identifier, text("Expect variable name."))?;
        if self.accept(TokenType::Equal) {
            let initializer = self.expression()?;
            self.consume(TokenType::Semicolon, text("Expect ';' after variable declaration."))?;
            Ok(Stmt::Var(name, Box::new(Some(initializer))))
        } else {
            self.consume(TokenType::Semicolon, text("Expect ';' after variable declaration."))?;
            Ok(Stmt::Var(name, Box::new(None)))
        }
    }

    fn statement(&mut self) -> (r: Result<Stmt, ParseError>)
        requires
            old(self).wf(),
        ensures
            Self::advanced(old(self), final(self)),
            r is Ok ==> final(self).current > old(self).current,
            stmt_as(r, final(self).current as int, error_views(final(self).errors@), parse_statement(old(self).tokens@, old(self).current as int, error_views(old(self).errors@))),
        decreases old(self).left(), 29nat,
    {
        if self.accept(TokenType::If) {
            self.if_statement()
        } else if self.accept(TokenType::For) {
            self.for_statement()
        } else if self.accept(TokenType::Print) {
            self.print_statement()
        } else if self.accept(TokenType::While) {
            self.while_statement()
        } else if self.accept(TokenType::LeftBrace) {
            self.block_statement()
        } else {
            self.expression_statement()
        }
    }

    fn while_statement(&mut self) -> (r: Result<Stmt, ParseError>)
        requires
            old(self).wf(),
        ensures
            Self::advanced(old(self), final(self)),
            r is Ok ==> final(self).current > old(self).current,
            stmt_as(r, final(self).current as int, error_views(final(self).errors@), parse_while(old(self).tokens@, old(self).current as int, error_views(old(self).errors@))),
        decreases old(self).left() + 1, 0nat,
    {
        self.consume(TokenType::LeftParen, text("Expect '(' after 'while'."))?;
        let condition = self.expression()?;
        self.consume(TokenType::RightParen, text("Expect ')' after condition."))?;
        let body = self.statement()?;
        Ok(Stmt::While(Box::new(condition), Box::new(body)))
    }

    fn for_statement(&mut self) -> (r: Result<Stmt, ParseError>)
        requires
            old(self).wf(),
        ensures
            Self::advanced(old(self), final(self)),
            r is Ok ==> final(self).current > old(self).current,
            stmt_as(r, final(self).current as int, error_views(final(self).errors@), parse_for(old(self).tokens@, old(self).current as int, error_views(old(self).errors@))),
        decreases old(self).left() + 1, 0nat,
    {
        self.consume(TokenType::LeftParen, text("Expect '(' after 'for'."))?;
        let initializer = self.for_initializer()?;
        let (condition, increment) = self.for_clauses()?;
        let ghost q = self.current - 1;
        let ghost gi = initializer;
        let ghost i = match gi {
            Some(x) => Some(model(x)),
            None => None,
        };
        assert(for_head(old(self).tokens@, old(self).current as int) == ForHead::Head(i, condition, increment, q));
        let body = self.statement()?;
        Ok(desugar(initializer, condition, increment, body))
    }

    /// The initializer clause of a `for` loop.
    fn for_initializer(&mut self) -> (r: Result<Option<Stmt>, ParseError>)
        requires
            old(self).wf(),
        ensures
            Self::advanced(old(self), final(self)),
            final(self).errors == old(self).errors,
            r is Ok ==> final(self).current > old(self).current,
            match (r, for_init(old(self).tokens@, old(self).current as int)) {
                (Ok(x), ForInit::Init(i, q)) => final(self).current == q && match x {
                    Some(s) => i == Some(model(s)),
                    None => i is None,
                },
                (Err(e), ForInit::Fail(tok, msg, q)) => e.token == tok && e.message@ == msg
                    && final(self).current == q,
                _ => false,
            },
    {
        if self.accept(TokenType::Semicolon) {
            Ok(None)
        } else if self.accept(TokenType::Var) {
            Ok(Some(self.var_declaration()?))
        } else {
            Ok(Some(self.expression_statement()?))
        }
    }

    /// The condition and increment clauses of a `for` loop, up to and
    /// including `)`.
    fn for_clauses(&mut self) -> (r: Result<(Option<Expr>, Option<Expr>), ParseError>)
        requires
            old(self).wf(),
        ensures
            Self::advanced(old(self), final(self)),
            final(self).errors == old(self).errors,
            r is Ok ==> final(self).current > old(self).current,
            match (r, for_tail(old(self).tokens@, old(self).current as int)) {
                (Ok((c, inc)), ForTail::Tail(c2, inc2, q)) => c == c2 && inc == inc2 && final(self).current
                    == q + 1,
                (Err(e), ForTail::Fail(tok, msg, q)) => e.token == tok && e.message@ == msg
                    && final(self).current == q,
                _ => false,
            },
    {
        let condition = if !self.check(TokenType::Semicolon) {
            Some(self.expression()?)
        } else {
            None
        };
        self.consume(TokenType::Semicolon, text("Expect ';' after loop condition."))?;
        let increment = if !self.check(TokenType::RightParen) {
            Some(self.expression()?)
        } else {
            None
        };
        self.consume(TokenType::RightParen, text("Expect ')' after for clauses."))?;
        Ok((condition, increment))
    }

    fn if_statement(&mut self) -> (r: Result<Stmt, ParseError>)
        requires
            old(self).wf(),
        ensures
            Self::advanced(old(self), final(self)),
            r is Ok ==> final(self).current > old(self).current,
            stmt_as(r, final(self).current as int, error_views(final(self).errors@), parse_if(old(self).tokens@, old(self).current as int, error_views(old(self).errors@))),
        decreases old(self).left() + 1, 0nat,
    {
        self.consume(TokenType::LeftParen, text("Expect '(' after 'if'."))?;
        let condition = self.expression()?;
        self.consume(TokenType::RightParen, text("Expect ')' after condition."))?;
        let then_branch = self.statement()?;
        if self.accept(TokenType::Else) {
            let else_branch = self.statement()?;
            Ok(Stmt::If(Box::new(condition), Box::new(then_branch), Some(Box::new(else_branch))))
        } else {
            Ok(Stmt::If(Box::new(condition), Box::new(then_branch), None))
        }
    }

    fn block_statement(&mut self) -> (r: Result<Stmt, ParseError>)
        requires
            old(self).wf(),
        ensures
            Self::advanced(old(self), final(self)),
            r is Ok ==> final(self).current > old(self).current,
            stmt_as(r, final(self).current as int, error_views(final(self).errors@), parse_block(old(self).tokens@, old(self).current as int, error_views(old(self).errors@))),
        decreases old(self).left() + 1, 0nat,
    {
        let mut statements: Vec<Stmt> = Vec::new();
        assert(models(statements@) =~= Seq::<SStmt>::empty());
        while !self.check(TokenType::RightBrace) && !self.at_end()
            invariant
                Self::advanced(old(self), self),
                parse_block(old(self).tokens@, old(self).current as int, error_views(old(self).errors@)) == parse_block_items(
                    self.tokens@,
                    self.current as int,
                    error_views(self.errors@),
                    models(statements@),
                ),
            decreases self.left(),
        {
            let ghost v = models(statements@);
            match self.declaration() {
                Some(s) => {
                    statements.push(s);
                    assert(models(statements@) =~= v.push(model(s)));
                },
                None => {},
            }
        }
        self.consume(TokenType::RightBrace, text("Expect '}' after block."))?;
        let ghost v = models(statements@);
        let r = Stmt::Block(statements);
        assert(model(r) == SStmt::Block(v)) by {
            assert(v =~= model(r)->Block_0);
        }
        Ok(r)
    }

    fn print_statement(&mut self) -> (r: Result<Stmt, ParseError>)
        requires
            old(self).wf(),
        ensures
            Self::advanced(old(self), final(self)),
            r is Ok ==> final(self).current > old(self).current,
            final(self).errors == old(self).errors,
            stmt_as(r, final(self).current as int, error_views(final(self).errors@), with_errors(parse_print(old(self).tokens@, old(self).current as int), error_views(old(self).errors@))),
        decreases old(self).left() + 1, 0nat,
    {
        let value = self.expression()?;
        self.consume(TokenType::Semicolon, text("Expect ';' after value."))?;
        Ok(Stmt::Print(Box::new(value)))
    }

    fn expression_statement(&mut self) -> (r: Result<Stmt, ParseError>)
        requires
            old(self).wf(),
        ensures
            Self::advanced(old(self), final(self)),
            r is Ok ==> final(self).current > old(self).current,
            final(self).errors == old(self).errors,
            stmt_as(r, final(self).current as int, error_views(final(self).errors@), with_errors(parse_expression_statement(old(self).tokens@, old(self).current as int), error_views(old(self).errors@))),
        decreases old(self).left(), 22nat,
    {
        let expr = self.expression()?;
        self.consume(TokenType::Semicolon, text("Expect ';' after expression."))?;
        Ok(Stmt::Expr(Box::new(expr)))
    }

    fn expression(&mut self) -> (r: Result<Expr, ParseError>)
        requires
            old(self).wf(),
        ensures
            Self::advanced(old(self), final(self)),
            r is Ok ==> final(self).current > old(self).current,
            final(self).errors == old(self).errors,
            parsed_as(r, final(self).current as int, parse_expression(old(self).tokens@, old(self).current as int)),
            r matches Ok(e) ==> expression_form(old(self).tokens@, old(self).current as int, final(self).current as int, e),
        decreases old(self).left(), 12nat,
    {
        self.assignment()
    }

    fn assignment(&mut self) -> (r: Result<Expr, ParseError>)
        requires
            old(self).wf(),
        ensures
            Self::advanced(old(self), final(self)),
            r is Ok ==> final(self).current > old(self).current,
            final(self).errors == old(self).errors,
            parsed_as(r, final(self).current as int, parse_assignment(old(self).tokens@, old(self).current as int)),
            r matches Ok(e) ==> expression_form(old(self).tokens@, old(self).current as int, final(self).current as int, e),
        decreases old(self).left(), 11nat,
    {
        let expr = self.or()?;
        if self.match_(&[TokenType::Equal]) {
            let equals = self.previous();
            let value = self.assignment()?;
            match expr {
                Expr::Variable(t) => Ok(Expr::Assignment(t, Box::new(value))),
                _ => Err(ParseError::new(equals, text("Invalid assignment target."))),
            }
        } else {
            Ok(expr)
        }
    }

    fn or(&mut self) -> (r: Result<Expr, ParseError>)
        requires
            old(self).wf(),
        ensures
            Self::advanced(old(self), final(self)),
            r is Ok ==> final(self).current > old(self).current,
            final(self).errors == old(self).errors,
            parsed_as(r, final(self).current as int, parse_binary(old(self).tokens@, old(self).current as int, 7nat)),
            r matches Ok(e) ==> binary_form(old(self).tokens@, old(self).current as int, final(self).current as int, e, 7nat),
        decreases old(self).left(), 10nat,
    {
        let ghost t = self.tokens@;
        let ghost p = self.current as int;
        let mut expr = match self.and() {
            Ok(e) => e,
            Err(e) => {
                proof {
                    lemma_operand_is(t, p, 7nat);
                    lemma_binary_fail(t, p, 7nat);
                }
                return Err(e);
            },
        };
        proof {
            lemma_operand_is(t, p, 7nat);
            lemma_binary_start(t, p, 7nat, expr, self.current as int);
        }
        proof {
            lemma_operand_lifts(self.tokens@, old(self).current as int, self.current as int, expr, 7nat);
        }
        while self.match_level(7)
            invariant
                Self::advanced(old(self), self),
                self.current > old(self).current,
                t == old(self).tokens@,
                binary_form(self.tokens@, old(self).current as int, self.current as int, expr, 7nat),
                self.errors == old(self).errors,
                parse_binary(self.tokens@, old(self).current as int, 7nat) == parse_chain(self.tokens@, self.current as int, expr, 7nat),
            decreases self.left(),
        {
            let operator = self.previous();
            let ghost k = self.current - 1;
            assert(parse_binary(self.tokens@, old(self).current as int, 7nat) == parse_chain(self.tokens@, k, expr, 7nat));
            let right = match self.and() {
                Ok(r) => r,
                Err(e) => {
                    proof {
                        lemma_operand_is(t, k + 1, 7nat);
                        lemma_chain_fail(t, k, expr, 7nat);
                    }
                    return Err(e);
                },
            };
            let ghost prev = expr;
            expr = Expr::Logical(Box::new(expr), operator, Box::new(right));
            proof {
                lemma_operand_is(t, k + 1, 7nat);
                lemma_chain_next(t, k, prev, 7nat, right, self.current as int);
                assert(expr == join(7nat, prev, t[k], right));
                assert(chain_step(self.tokens@, old(self).current as int, k, self.current as int, expr, 7nat));
                lemma_chain(self.tokens@, old(self).current as int, k, self.current as int, expr, 7nat);
            }
        }
        proof {
            lemma_chain_stop(t, self.current as int, expr, 7nat);
        }
        Ok(expr)
    }

    fn and(&mut self) -> (r: Result<Expr, ParseError>)
        requires
            old(self).wf(),
        ensures
            Self::advanced(old(self), final(self)),
            r is Ok ==> final(self).current > old(self).current,
            final(self).errors == old(self).errors,
            parsed_as(r, final(self).current as int, parse_binary(old(self).tokens@, old(self).current as int, 6nat)),
            r matches Ok(e) ==> binary_form(old(self).tokens@, old(self).current as int, final(self).current as int, e, 6nat),
        decreases old(self).left(), 9nat,
    {
        let ghost t = self.tokens@;
        let ghost p = self.current as int;
        let mut expr = match self.equality() {
            Ok(e) => e,
            Err(e) => {
                proof {
                    lemma_operand_is(t, p, 6nat);
                    lemma_binary_fail(t, p, 6nat);
                }
                return Err(e);
            },
        };
        proof {
            lemma_operand_is(t, p, 6nat);
            lemma_binary_start(t, p, 6nat, expr, self.current as int);
        }
        proof {
            lemma_operand_lifts(self.tokens@, old(self).current as int, self.current as int, expr, 6nat);
        }
        while self.match_level(6)
            invariant
                Self::advanced(old(self), self),
                self.current > old(self).current,
                t == old(self).tokens@,
                binary_form(self.tokens@, old(self).current as int, self.current as int, expr, 6nat),
                self.errors == old(self).errors,
                parse_binary(self.tokens@, old(self).current as int, 6nat) == parse_chain(self.tokens@, self.current as int, expr, 6nat),
            decreases self.left(),
        {
            let operator = self.previous();
            let ghost k = self.current - 1;
            assert(parse_binary(self.tokens@, old(self).current as int, 6nat) == parse_chain(self.tokens@, k, expr, 6nat));
            let right = match self.equality() {
                Ok(r) => r,
                Err(e) => {
                    proof {
                        lemma_operand_is(t, k + 1, 6nat);
                        lemma_chain_fail(t, k, expr, 6nat);
                    }
                    return Err(e);
                },
            };
            let ghost prev = expr;
            expr = Expr::Logical(Box::new(expr), operator, Box::new(right));
            proof {
                lemma_operand_is(t, k + 1, 6nat);
                lemma_chain_next(t, k, prev, 6nat, right, self.current as int);
                assert(expr == join(6nat, prev, t[k], right));
                assert(chain_step(self.tokens@, old(self).current as int, k, self.current as int, expr, 6nat));
                lemma_chain(self.tokens@, old(self).current as int, k, self.current as int, expr, 6nat);
            }
        }
        proof {
            lemma_chain_stop(t, self.current as int, expr, 6nat);
        }
        Ok(expr)
    }

    fn equality(&mut self) -> (r: Result<Expr, ParseError>)
        requires
            old(self).wf(),
        ensures
            Self::advanced(old(self), final(self)),
            r is Ok ==> final(self).current > old(self).current,
            final(self).errors == old(self).errors,
            parsed_as(r, final(self).current as int, parse_binary(old(self).tokens@, old(self).current as int, 5nat)),
            r matches Ok(e) ==> binary_form(old(self).tokens@, old(self).current as int, final(self).current as int, e, 5nat),
        decreases old(self).left(), 8nat,
    {
        let ghost t = self.tokens@;
        let ghost p = self.current as int;
        let mut expr = match self.comparison() {
            Ok(e) => e,
            Err(e) => {
                proof {
                    lemma_operand_is(t, p, 5nat);
                    lemma_binary_fail(t, p, 5nat);
                }
                return Err(e);
            },
        };
        proof {
            lemma_operand_is(t, p, 5nat);
            lemma_binary_start(t, p, 5nat, expr, self.current as int);
        }
        proof {
            lemma_operand_lifts(self.tokens@, old(self).current as int, self.current as int, expr, 5nat);
        }
        while self.match_level(5)
            invariant
                Self::advanced(old(self), self),
                self.current > old(self).current,
                t == old(self).tokens@,
                binary_form(self.tokens@, old(self).current as int, self.current as int, expr, 5nat),
                self.errors == old(self).errors,
                parse_binary(self.tokens@, old(self).current as int, 5nat) == parse_chain(self.tokens@, self.current as int, expr, 5nat),
            decreases self.left(),
        {
            let operator = self.previous();
            let ghost k = self.current - 1;
            assert(parse_binary(self.tokens@, old(self).current as int, 5nat) == parse_chain(self.tokens@, k, expr, 5nat));
            let right = match self.comparison() {
                Ok(r) => r,
                Err(e) => {
                    proof {
                        lemma_operand_is(t, k + 1, 5nat);
                        lemma_chain_fail(t, k, expr, 5nat);
                    }
                    return Err(e);
                },
            };
            let ghost prev = expr;
            expr = Expr::Binary(Box::new(expr), operator, Box::new(right));
            proof {
                lemma_operand_is(t, k + 1, 5nat);
                lemma_chain_next(t, k, prev, 5nat, right, self.current as int);
                assert(expr == join(5nat, prev, t[k], right));
                assert(chain_step(self.tokens@, old(self).current as int, k, self.current as int, expr, 5nat));
                lemma_chain(self.tokens@, old(self).current as int, k, self.current as int, expr, 5nat);
            }
        }
        proof {
            lemma_chain_stop(t, self.current as int, expr, 5nat);
        }
        Ok(expr)
    }

    fn comparison(&mut self) -> (r: Result<Expr, ParseError>)
        requires
            old(self).wf(),
        ensures
            Self::advanced(old(self), final(self)),
            r is Ok ==> final(self).current > old(self).current,
            final(self).errors == old(self).errors,
            parsed_as(r, final(self).current as int, parse_binary(old(self).tokens@, old(self).current as int, 4nat)),
            r matches Ok(e) ==> binary_form(old(self).tokens@, old(self).current as int, final(self).current as int, e, 4nat),
        decreases old(self).left(), 7nat,
    {
        let ghost t = self.tokens@;
        let ghost p = self.current as int;
        let mut expr = match self.term() {
            Ok(e) => e,
            Err(e) => {
                proof {
                    lemma_operand_is(t, p, 4nat);
                    lemma_binary_fail(t, p, 4nat);
                }
                return Err(e);
            },
        };
        proof {
            lemma_operand_is(t, p, 4nat);
            lemma_binary_start(t, p, 4nat, expr, self.current as int);
        }
        proof {
            lemma_operand_lifts(self.tokens@, old(self).current as int, self.current as int, expr, 4nat);
        }
        while self.match_level(4)
            invariant
                Self::advanced(old(self), self),
                self.current > old(self).current,
                t == old(self).tokens@,
                binary_form(self.tokens@, old(self).current as int, self.current as int, expr, 4nat),
                self.errors == old(self).errors,
                parse_binary(self.tokens@, old(self).current as int, 4nat) == parse_chain(self.tokens@, self.current as int, expr, 4nat),
            decreases self.left(),
        {
            let operator = self.previous();
            let ghost k = self.current - 1;
            assert(parse_binary(self.tokens@, old(self).current as int, 4nat) == parse_chain(self.tokens@, k, expr, 4nat));
            let right = match self.term() {
                Ok(r) => r,
                Err(e) => {
                    proof {
                        lemma_operand_is(t, k + 1, 4nat);
                        lemma_chain_fail(t, k, expr, 4nat);
                    }
                    return Err(e);
                },
            };
            let ghost prev = expr;
            expr = Expr::Binary(Box::new(expr), operator, Box::new(right));
            proof {
                lemma_operand_is(t, k + 1, 4nat);
                lemma_chain_next(t, k, prev, 4nat, right, self.current as int);
                assert(expr == join(4nat, prev, t[k], right));
                assert(chain_step(self.tokens@, old(self).current as int, k, self.current as int, expr, 4nat));
                lemma_chain(self.tokens@, old(self).current as int, k, self.current as int, expr, 4nat);
            }
        }
        proof {
            lemma_chain_stop(t, self.current as int, expr, 4nat);
        }
        Ok(expr)
    }

    fn term(&mut self) -> (r: Result<Expr, ParseError>)
        requires
            old(self).wf(),
        ensures
            Self::advanced(old(self), final(self)),
            r is Ok ==> final(self).current > old(self).current,
            final(self).errors == old(self).errors,
            parsed_as(r, final(self).current as int, parse_binary(old(self).tokens@, old(self).current as int, 3nat)),
            r matches Ok(e) ==> binary_form(old(self).tokens@, old(self).current as int, final(self).current as int, e, 3nat),
        decreases old(self).left(), 6nat,
    {
        let ghost t = self.tokens@;
        let ghost p = self.current as int;
        let mut expr = match self.factor() {
            Ok(e) => e,
            Err(e) => {
                proof {
                    lemma_operand_is(t, p, 3nat);
                    lemma_binary_fail(t, p, 3nat);
                }
                return Err(e);
            },
        };
        proof {
            lemma_operand_is(t, p, 3nat);
            lemma_binary_start(t, p, 3nat, expr, self.current as int);
        }
        proof {
            lemma_operand_lifts(self.tokens@, old(self).current as int, self.current as int, expr, 3nat);
        }
        while self.match_level(3)
            invariant
                Self::advanced(old(self), self),
                self.current > old(self).current,
                t == old(self).tokens@,
                binary_form(self.tokens@, old(self).current as int, self.current as int, expr, 3nat),
                self.errors == old(self).errors,
                parse_binary(self.tokens@, old(self).current as int, 3nat) == parse_chain(self.tokens@, self.current as int, expr, 3nat),
            decreases self.left(),
        {
            let operator = self.previous();
            let ghost k = self.current - 1;
            assert(parse_binary(self.tokens@, old(self).current as int, 3nat) == parse_chain(self.tokens@, k, expr, 3nat));
            let right = match self.factor() {
                Ok(r) => r,
                Err(e) => {
                    proof {
                        lemma_operand_is(t, k + 1, 3nat);
                        lemma_chain_fail(t, k, expr, 3nat);
                    }
                    return Err(e);
                },
            };
            let ghost prev = expr;
            expr = Expr::Binary(Box::new(expr), operator, Box::new(right));
            proof {
                lemma_operand_is(t, k + 1, 3nat);
                lemma_chain_next(t, k, prev, 3nat, right, self.current as int);
                assert(expr == join(3nat, prev, t[k], right));
                assert(chain_step(self.tokens@, old(self).current as int, k, self.current as int, expr, 3nat));
                lemma_chain(self.tokens@, old(self).current as int, k, self.current as int, expr, 3nat);
            }
        }
        proof {
            lemma_chain_stop(t, self.current as int, expr, 3nat);
        }
        Ok(expr)
    }

    fn factor(&mut self) -> (r: Result<Expr, ParseError>)
        requires
            old(self).wf(),
        ensures
            Self::advanced(old(self), final(self)),
            r is Ok ==> final(self).current > old(self).current,
            final(self).errors == old(self).errors,
            parsed_as(r, final(self).current as int, parse_binary(old(self).tokens@, old(self).current as int, 2nat)),
            r matches Ok(e) ==> binary_form(old(self).tokens@, old(self).current as int, final(self).current as int, e, 2nat),
        decreases old(self).left(), 5nat,
    {
        let ghost t = self.tokens@;
        let ghost p = self.current as int;
        let mut expr = match self.unary() {
            Ok(e) => e,
            Err(e) => {
                proof {
                    lemma_operand_is(t, p, 2nat);
                    lemma_binary_fail(t, p, 2nat);
                }
                return Err(e);
            },
        };
        proof {
            lemma_operand_is(t, p, 2nat);
            lemma_binary_start(t, p, 2nat, expr, self.current as int);
        }
        proof {
            lemma_operand_lifts(self.tokens@, old(self).current as int, self.current as int, expr, 2nat);
        }
        while self.match_level(2)
            invariant
                Self::advanced(old(self), self),
                self.current > old(self).current,
                t == old(self).tokens@,
                binary_form(self.tokens@, old(self).current as int, self.current as int, expr, 2nat),
                self.errors == old(self).errors,
                parse_binary(self.tokens@, old(self).current as int, 2nat) == parse_chain(self.tokens@, self.current as int, expr, 2nat),
            decreases self.left(),
        {
            let operator = self.previous();
            let ghost k = self.current - 1;
            assert(parse_binary(self.tokens@, old(self).current as int, 2nat) == parse_chain(self.tokens@, k, expr, 2nat));
            let right = match self.unary() {
                Ok(r) => r,
                Err(e) => {
                    proof {
                        lemma_operand_is(t, k + 1, 2nat);
                        lemma_chain_fail(t, k, expr, 2nat);
                    }
                    return Err(e);
                },
            };
            let ghost prev = expr;
            expr = Expr::Binary(Box::new(expr), operator, Box::new(right));
            proof {
                lemma_operand_is(t, k + 1, 2nat);
                lemma_chain_next(t, k, prev, 2nat, right, self.current as int);
                assert(expr == join(2nat, prev, t[k], right));
                assert(chain_step(self.tokens@, old(self).current as int, k, self.current as int, expr, 2nat));
                lemma_chain(self.tokens@, old(self).current as int, k, self.current as int, expr, 2nat);
            }
        }
        proof {
            lemma_chain_stop(t, self.current as int, expr, 2nat);
        }
        Ok(expr)
    }

    fn unary(&mut self) -> (r: Result<Expr, ParseError>)
        requires
            old(self).wf(),
        ensures
            Self::advanced(old(self), final(self)),
            r is Ok ==> final(self).current > old(self).current,
            final(self).errors == old(self).errors,
            parsed_as(r, final(self).current as int, parse_unary(old(self).tokens@, old(self).current as int)),
            r matches Ok(e) ==> unary_form(old(self).tokens@, old(self).current as int, final(self).current as int, e),
        decreases old(self).left(), 4nat,
    {
        if self.match_(&[TokenType::Bang, TokenType::Minus]) {
            let operator = self.previous();
            let right = self.unary()?;
            return Ok(Expr::Unary(operator, Box::new(right)));
        }
        self.primary()
    }

    fn primary(&mut self) -> (r: Result<Expr, ParseError>)
        requires
            old(self).wf(),
        ensures
            Self::advanced(old(self), final(self)),
            r is Ok ==> final(self).current > old(self).current,
            final(self).errors == old(self).errors,
            parsed_as(r, final(self).current as int, parse_primary(old(self).tokens@, old(self).current as int)),
            r matches Ok(e) ==> primary_form(old(self).tokens@, old(self).current as int, final(self).current as int, e),
        decreases old(self).left(), 3nat,
    {
        let tok = self.peek();
        match tok.token_type {
            TokenType::False => {
                self.advance();
                Ok(Expr::Literal(Literal::Bool(false)))
            },
            TokenType::True => {
                self.advance();
                Ok(Expr::Literal(Literal::Bool(true)))
            },
            TokenType::Nil => {
                self.advance();
                Ok(Expr::Literal(Literal::Nil))
            },
            TokenType::Number | TokenType::String => {
                self.advance();
                let literal = match tok.literal {
                    Some(l) => l,
                    None => Literal::Nil,
                };
                Ok(Expr::Literal(literal))
            },
            TokenType::Identifier => {
                self.advance();
                Ok(Expr::Variable(tok))
            },
            TokenType::LeftParen => {
                self.advance();
                let expr = self.expression()?;
                if self.check(TokenType::RightParen) {
                    self.advance();
                    Ok(Expr::Grouping(Box::new(expr)))
                } else {
                    Err(ParseError::new(self.peek(), text("Expect ')' after expression.")))
                }
            },
            _ => Err(ParseError::new(tok, text("Expect expression."))),
        }
    }

    /// Consumes the next token if it has kind `k`.
    fn accept(&mut self, k: TokenType) -> (r: bool)
        requires
            old(self).wf(),
            k != TokenType::Eof,
        ensures
            Self::advanced(old(self), final(self)),
            final(self).errors == old(self).errors,
            r == at_kind(old(self).tokens@, old(self).current as int, k),
            r ==> final(self).current == old(self).current + 1 && final(self).current >= 1,
            !r ==> final(self).current == old(self).current,
    {
        if self.check(k) {
            self.advance();
            true
        } else {
            false
        }
    }

    /// Consumes the next token if it is an operator of binary level
    /// `level`.
    fn match_level(&mut self, level: u8) -> (r: bool)
        requires
            old(self).wf(),
            2 <= level <= 7,
        ensures
            Self::advanced(old(self), final(self)),
            final(self).errors == old(self).errors,
            r == (level_op(level as nat, kind(old(self).tokens@, old(self).current as int)) && kind(
                old(self).tokens@,
                old(self).current as int,
            ) != TokenType::Eof),
            r ==> final(self).current == old(self).current + 1 && final(self).current >= 1,
            !r ==> final(self).current == old(self).current,
    {
        let k = self.tokens[self.current].token_type;
        if k != TokenType::Eof && is_level_op(level, k) {
            self.advance();
            true
        } else {
            false
        }
    }

    /// Consumes the next token if its kind is one of `token_types`.
    fn match_(&mut self, token_types: &[TokenType]) -> (r: bool)
        requires
            old(self).wf(),
        ensures
            Self::advanced(old(self), final(self)),
            final(self).errors == old(self).errors,
            r ==> final(self).current == old(self).current + 1 && final(self).current >= 1
                && token_types@.contains(old(self).tokens@[old(self).current as int].token_type),
            !r ==> final(self).current == old(self).current,
            !r ==> forall|x: int| 0 <= x < token_types@.len() ==> !(#[trigger] token_types@[x]
                == old(self).tokens@[old(self).current as int].token_type && !old(self).spec_at_end()),
    {
        let mut i: usize = 0;
        while i < token_types.len()
            invariant
                self.wf(),
                self == old(self),
                i <= token_types@.len(),
                forall|x: int| 0 <= x < i ==> !(#[trigger] token_types@[x]
                    == old(self).tokens@[old(self).current as int].token_type && !old(self).spec_at_end()),
            decreases token_types@.len() - i,
        {
            if self.check(token_types[i]) {
                self.advance();
                assert(token_types@[i as int] == old(self).tokens@[old(self).current as int].token_type);
                return true;
            }
            i = i + 1;
        }
        false
    }

    fn check(&self, token_type: TokenType) -> (r: bool)
        requires
            self.wf(),
        ensures
            r == (!self.spec_at_end() && self.tokens@[self.current as int].token_type
                == token_type),
    {
        if self.at_end() {
            return false;
        }
        self.tokens[self.current].token_type == token_type
    }

    fn advance(&mut self) -> (r: Token)
        requires
            old(self).wf(),
        ensures
            Self::advanced(old(self), final(self)),
            final(self).errors == old(self).errors,
            !old(self).spec_at_end() ==> final(self).current == old(self).current + 1,
            !old(self).spec_at_end() ==> r == old(self).tokens@[old(self).current as int],
            old(self).spec_at_end() ==> final(self).current == old(self).current,
    {
        if !self.at_end() {
            let n = self.tokens.len();
            assert(self.current + 1 < n) by {
                if self.current + 1 == self.tokens@.len() {
                    assert(self.tokens@[self.current as int] == self.tokens@.last());
                }
            }
            self.current = self.current + 1;
        }
        if self.current > 0 {
            self.previous()
        } else {
            self.peek()
        }
    }

    fn at_end(&self) -> (r: bool)
        requires
            self.wf(),
        ensures
            r == self.spec_at_end(),
    {
        self.tokens[self.current].token_type == TokenType::Eof
    }

    fn peek(&self) -> (r: Token)
        requires
            self.wf(),
        ensures
            r == self.tokens@[self.current as int],
    {
        self.tokens[self.current].duplicate()
    }

    fn previous(&self) -> (r: Token)
        requires
            self.wf(),
            self.current >= 1,
        ensures
            r == self.tokens@[self.current - 1],
    {
        self.tokens[self.current - 1].duplicate()
    }

    fn consume(&mut self, token_type: TokenType, message: String) -> (r: Result<Token, ParseError>)
        requires
            old(self).wf(),
        ensures
            Self::advanced(old(self), final(self)),
            final(self).errors == old(self).errors,
            r is Ok ==> final(self).current == old(self).current + 1 && kind(
                old(self).tokens@,
                old(self).current as int,
            ) == token_type,
            r matches Ok(tok) ==> tok == old(self).tokens@[old(self).current as int],
            r is Ok == (kind(old(self).tokens@, old(self).current as int) == token_type && kind(
                old(self).tokens@,
                old(self).current as int,
            ) != TokenType::Eof),
            r matches Err(e) ==> e.token == old(self).tokens@[old(self).current as int] && e.message
                == message,
            r is Err ==> final(self).current == old(self).current,
    {
        if self.check(token_type) {
            Ok(self.advance())
        } else {
            Err(ParseError::new(self.peek(), message))
        }
    }

    /// Skips tokens up to a statement boundary: the first position after
    /// the next token that follows a `;` or holds a keyword that starts a
    /// declaration or statement, or the end of input.
    fn synchronize(&mut self)
        requires
            old(self).wf(),
        ensures
            Self::advanced(old(self), final(self)),
            final(self).errors == old(self).errors,
            !old(self).spec_at_end() ==> final(self).current > old(self).current,
            final(self).spec_at_end() || boundary(final(self).tokens@, final(self).current as int),
            forall|p: int|
                old(self).current < p < final(self).current ==> !boundary(final(self).tokens@, p)
                    && kind(final(self).tokens@, p) != TokenType::Eof,
            final(self).current == sync(old(self).tokens@, old(self).current as int),
    {
        self.advance();
        while !self.at_end()
            invariant
                Self::advanced(old(self), self),
                self.errors == old(self).errors,
                !old(self).spec_at_end() ==> self.current > old(self).current,
                self.current >= 1 || self.spec_at_end(),
                sync(old(self).tokens@, old(self).current as int) == if self.spec_at_end() {
                    self.current as int
                } else {
                    sync_from(self.tokens@, self.current as int)
                },
                forall|p: int|
                    old(self).current < p < self.current ==> !boundary(self.tokens@, p) && kind(
                        self.tokens@,
                        p,
                    ) != TokenType::Eof,
            decreases self.left(),
        {
            if self.tokens[self.current - 1].token_type == TokenType::Semicolon {
                return;
            }
            match self.tokens[self.current].token_type {
                TokenType::Class | TokenType::Fun | TokenType::Var | TokenType::For
                | TokenType::If | TokenType::While | TokenType::Print | TokenType::Return => {
                    return;
                },
                _ => {},
            }
            let ghost p = self.current as int;
            self.advance();
            assert(!boundary(self.tokens@, p));
        }
    }
}

} // verus!
