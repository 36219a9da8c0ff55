use vstd::prelude::*;
use crate::ast::{Expr, Stmt};
use crate::environment::{declare, lemma_assign_creates_no_binding, lookup, reassign, resolve, Environment};
use crate::token::{Literal, Token, TokenType, Val};

verus! {

/// A runtime error: the token at which it arose and what went wrong.
pub struct RuntimeError {
    pub token: Token,
    pub message: String,
}

impl RuntimeError {
    pub fn new(token: Token, message: String) -> (r: RuntimeError)
        ensures
            r.token == token,
            r.message == message,
    {
        RuntimeError { token, message }
    }
}

/// The message of the error for a name that no scope binds.
pub open spec fn undefined_message(name: Seq<char>) -> Seq<char> {
    "Undefined variable '"@ + name + "'."@
}

pub fn undefined_message_text(name: &String) -> (r: String)
    ensures
        r@ == undefined_message(name@),
{
    let mut m = String::from_str("Undefined variable '");
    m.append(name.as_str());
    m.append("'.");
    m
}

pub open spec fn numbers_message() -> Seq<char> {
    "Operands must be numbers."@
}

pub open spec fn plus_message() -> Seq<char> {
    "Operands must be either two numbers or two strings."@
}

pub open spec fn negation_message() -> Seq<char> {
    "Invalid negation operand."@
}

pub open spec fn unary_message() -> Seq<char> {
    "Invalid unary operand."@
}

pub open spec fn operator_message() -> Seq<char> {
    "Operands must be either numbers or strings."@
}

/// An operation on two numbers that the host computes in double precision.
#[derive(Debug, Clone, Copy, PartialEq, Eq, Structural)]
pub enum NumberOp {
    Add,
    Subtract,
    Multiply,
    Divide,
    Greater,
    GreaterEqual,
    Less,
    LessEqual,
    Equal,
}

impl NumberOp {
    /// Its result is a truth value rather than a number.
    pub open spec fn spec_is_test(self) -> bool {
        match self {
            NumberOp::Greater | NumberOp::GreaterEqual | NumberOp::Less | NumberOp::LessEqual
            | NumberOp::Equal => true,
            _ => false,
        }
    }

    #[verifier::when_used_as_spec(spec_is_test)]
    pub fn is_test(self) -> (r: bool)
        ensures
            r == self.spec_is_test(),
    {
        match self {
            NumberOp::Greater | NumberOp::GreaterEqual | NumberOp::Less | NumberOp::LessEqual
            | NumberOp::Equal => true,
            _ => false,
        }
    }
}

/// Work on numbers that the interpreter hands to its host. Numbers travel as
/// decimal text.
#[derive(Debug)]
pub enum NumberRequest {
    /// Apply the operation; the answer is a number for arithmetic and a
    /// truth value for a comparison or `Equal`.
    Binary(NumberOp, String, String),
    /// The number with its sign flipped.
    Negate(String),
    /// The display form of the number: its shortest decimal form, without a
    /// fractional part when it is integral.
    Show(String),
}

/// The host's answer to a number request.
#[derive(Debug)]
pub enum NumberReply {
    Text(String),
    Truth(bool),
}

pub enum Request {
    Binary(NumberOp, Seq<char>, Seq<char>),
    Negate(Seq<char>),
    Show(Seq<char>),
}

pub enum Reply {
    Text(Seq<char>),
    Truth(bool),
}

impl View for NumberRequest {
    type V = Request;

    open spec fn view(&self) -> Request {
        match self {
            NumberRequest::Binary(op, a, b) => Request::Binary(*op, a@, b@),
            NumberRequest::Negate(a) => Request::Negate(a@),
            NumberRequest::Show(a) => Request::Show(a@),
        }
    }
}

impl View for NumberReply {
    type V = Reply;

    open spec fn view(&self) -> Reply {
        match self {
            NumberReply::Text(s) => Reply::Text(s@),
            NumberReply::Truth(b) => Reply::Truth(*b),
        }
    }
}

pub open spec fn replies_view(v: Seq<NumberReply>) -> Seq<Reply> {
    v.map_values(|r: NumberReply| r@)
}

pub type Scopes = Seq<Map<Seq<char>, Val>>;

/// What evaluating an expression comes to, given the replies to its first
/// number requests.
pub enum Eval {
    /// A value, the scopes after the assignments made, and how many
    /// replies were used.
    Done(Val, Scopes, nat),
    /// The next number request, for which no reply was given yet, and the
    /// scopes as they stood when it was made.
    Ask(Request, Scopes),
    /// A runtime error at a token, with its message and the scopes as they
    /// stood when it arose.
    Fault(Token, Seq<char>, Scopes),
}

/// Truthiness: `nil` and `false` are falsy, every other value is truthy.
pub open spec fn truthy(v: Val) -> bool {
    match v {
        Val::Nil => false,
        Val::Bool(b) => b,
        _ => true,
    }
}

/// Equality of two values that are not both numbers: same kind and same
/// contents.
pub open spec fn same_value(a: Val, b: Val) -> bool {
    match (a, b) {
        (Val::Nil, Val::Nil) => true,
        (Val::Bool(x), Val::Bool(y)) => x == y,
        (Val::Str(x), Val::Str(y)) => x == y,
        _ => false,
    }
}

/// The display form of a value that is not a number.
pub open spec fn display(v: Val) -> Seq<char> {
    match v {
        Val::Nil => "nil"@,
        Val::Bool(b) => if b {
            "true"@
        } else {
            "false"@
        },
        Val::Str(s) => s,
        Val::Number(s) => s,
    }
}

/// The number that reply `k` gives to request `q`, or `q` itself when
/// there is no such reply yet.
pub open spec fn number_answer(ans: Seq<Reply>, k: nat, q: Request, env: Scopes) -> Eval {
    if k < ans.len() && ans[k as int] is Text {
        Eval::Done(Val::Number(ans[k as int]->Text_0), env, k + 1)
    } else {
        Eval::Ask(q, env)
    }
}

/// The truth value that reply `k` gives to request `q`, negated when
/// `flip` holds, or `q` itself when there is no such reply yet.
pub open spec fn truth_answer(ans: Seq<Reply>, k: nat, q: Request, flip: bool, env: Scopes) -> Eval {
    if k < ans.len() && ans[k as int] is Truth {
        Eval::Done(Val::Bool(ans[k as int]->Truth_0 != flip), env, k + 1)
    } else {
        Eval::Ask(q, env)
    }
}

pub open spec fn unary_result(op: Token, v: Val, env: Scopes, ans: Seq<Reply>, k: nat) -> Eval {
    match op.token_type {
        TokenType::Bang => Eval::Done(Val::Bool(!truthy(v)), env, k),
        TokenType::Minus => match v {
            Val::Number(x) => number_answer(ans, k, Request::Negate(x), env),
            _ => Eval::Fault(op, negation_message(), env),
        },
        _ => Eval::Fault(op, unary_message(), env),
    }
}

/// The number operation of an arithmetic or comparison operator.
pub open spec fn number_op(t: TokenType) -> Option<NumberOp> {
    match t {
        TokenType::Plus => Some(NumberOp::Add),
        TokenType::Minus => Some(NumberOp::Subtract),
        TokenType::Star => Some(NumberOp::Multiply),
        TokenType::Slash => Some(NumberOp::Divide),
        TokenType::Greater => Some(NumberOp::Greater),
        TokenType::GreaterEqual => Some(NumberOp::GreaterEqual),
        TokenType::Less => Some(NumberOp::Less),
        TokenType::LessEqual => Some(NumberOp::LessEqual),
        _ => None,
    }
}

pub open spec fn binary_result(op: Token, a: Val, b: Val, env: Scopes, ans: Seq<Reply>, k: nat) -> Eval {
    let t = op.token_type;
    if t == TokenType::EqualEqual || t == TokenType::BangEqual {
        let flip = t == TokenType::BangEqual;
        match (a, b) {
            (Val::Number(x), Val::Number(y)) => truth_answer(
                ans,
                k,
                Request::Binary(NumberOp::Equal, x, y),
                flip,
                env,
            ),
            _ => Eval::Done(Val::Bool(same_value(a, b) != flip), env, k),
        }
    } else {
        match number_op(t) {
            Some(nop) => match (a, b) {
                (Val::Number(x), Val::Number(y)) => if nop.spec_is_test() {
                    truth_answer(ans, k, Request::Binary(nop, x, y), false, env)
                } else {
                    number_answer(ans, k, Request::Binary(nop, x, y), env)
                },
                (Val::Str(x), Val::Str(y)) => if t == TokenType::Plus {
                    Eval::Done(Val::Str(x + y), env, k)
                } else {
                    Eval::Fault(op, numbers_message(), env)
                },
                _ => if t == TokenType::Plus {
                    Eval::Fault(op, plus_message(), env)
                } else {
                    Eval::Fault(op, numbers_message(), env)
                },
            },
            None => Eval::Fault(op, operator_message(), env),
        }
    }
}

/// Evaluation of `e` against the scopes `env`, with `ans` the replies to
/// the number requests, of which the first `k` are used up already.
pub open spec fn eval(e: Expr, env: Scopes, ans: Seq<Reply>, k: nat) -> Eval
    decreases e,
{
    match e {
        Expr::Literal(l) => Eval::Done(l@, env, k),
        Expr::Grouping(inner) => eval(*inner, env, ans, k),
        Expr::Variable(name) => match lookup(env, name.lexeme@) {
            Some(v) => Eval::Done(v, env, k),
            None => Eval::Fault(name, undefined_message(name.lexeme@), env),
        },
        Expr::Assignment(name, value) => match eval(*value, env, ans, k) {
            Eval::Done(v, env1, k1) => if resolve(env1, name.lexeme@) is Some {
                Eval::Done(v, reassign(env1, name.lexeme@, v), k1)
            } else {
                Eval::Fault(name, undefined_message(name.lexeme@), env1)
            },
            other => other,
        },
        Expr::Unary(op, operand) => match eval(*operand, env, ans, k) {
            Eval::Done(v, env1, k1) => unary_result(op, v, env1, ans, k1),
            other => other,
        },
        Expr::Binary(left, op, right) => match eval(*left, env, ans, k) {
            Eval::Done(a, env1, k1) => match eval(*right, env1, ans, k1) {
                Eval::Done(b, env2, k2) => binary_result(op, a, b, env2, ans, k2),
                other => other,
            },
            other => other,
        },
        Expr::Logical(left, op, right) => match eval(*left, env, ans, k) {
            Eval::Done(a, env1, k1) => if (op.token_type == TokenType::Or) == truthy(a) {
                Eval::Done(a, env1, k1)
            } else {
                eval(*right, env1, ans, k1)
            },
            other => other,
        },
    }
}

/// Short-circuit: when the left operand of `or` is truthy, or that of
/// `and` is falsy, a logical expression comes to its left operand alone,
/// whatever the right operand is: the right one is never evaluated.
pub proof fn lemma_short_circuit(
    left: Expr,
    op: Token,
    right: Expr,
    env: Scopes,
    ans: Seq<Reply>,
    k: nat,
)
    requires
        eval(left, env, ans, k) matches Eval::Done(a, _, _) && (
        (op.token_type == TokenType::Or && truthy(a)) || (op.token_type == TokenType::And
            && !truthy(a))),
    ensures
        eval(Expr::Logical(Box::new(left), op, Box::new(right)), env, ans, k) == eval(
            left,
            env,
            ans,
            k,
        ),
{
}

/// Result of evaluating an expression in code.
pub enum Outcome {
    /// The value and the number of replies used.
    Value(Literal, usize),
    Ask(NumberRequest),
    Fault(RuntimeError),
}

/// `r`, with `after` the scopes left behind, is what `s` says.
pub open spec fn outcome_is(r: Outcome, after: Scopes, s: Eval) -> bool {
    match (r, s) {
        (Outcome::Value(v, k), Eval::Done(w, env, j)) => v@ == w && k == j && after == env,
        (Outcome::Ask(q), Eval::Ask(p, env)) => q@ == p && after == env,
        (Outcome::Fault(err), Eval::Fault(t, m, env)) => err.token == t && err.message@ == m
            && after == env,
        _ => false,
    }
}

fn text(s: &str) -> (r: String)
    ensures
        r@ == s@,
{
    String::from_str(s)
}

fn number_reply(ans: &Vec<NumberReply>, k: usize, q: NumberRequest) -> (r: Outcome)
    ensures
        forall|env: Scopes|
            outcome_is(r, env, number_answer(replies_view(ans@), k as nat, q@, env)),
{
    if k < ans.len() {
        match &ans[k] {
            NumberReply::Text(s) => {
                return Outcome::Value(Literal::Number(s.clone()), k + 1);
            },
            _ => {},
        }
    }
    Outcome::Ask(q)
}

fn truth_reply(ans: &Vec<NumberReply>, k: usize, q: NumberRequest, flip: bool) -> (r: Outcome)
    ensures
        forall|env: Scopes|
            outcome_is(r, env, truth_answer(replies_view(ans@), k as nat, q@, flip, env)),
{
    if k < ans.len() {
        match &ans[k] {
            NumberReply::Truth(b) => {
                return Outcome::Value(Literal::Bool(*b != flip), k + 1);
            },
            _ => {},
        }
    }
    Outcome::Ask(q)
}

/// Truthiness of a value.
pub fn is_truthy(value: &Literal) -> (r: bool)
    ensures
        r == truthy(value@),
{
    match value {
        Literal::Nil => false,
        Literal::Bool(b) => *b,
        _ => true,
    }
}

fn same_text(a: &String, b: &String) -> (r: bool)
    ensures
        r == (a@ == b@),
{
    *a == *b
}

/// Equality of two values that are not both numbers: equality of two
/// numbers is double-precision work for the host (see `NumberOp::Equal`).
pub fn is_equal(lhs: &Literal, rhs: &Literal) -> (r: bool)
    requires
        !(lhs@ is Number && rhs@ is Number),
    ensures
        r == same_value(lhs@, rhs@),
{
    match (lhs, rhs) {
        (Literal::Nil, Literal::Nil) => true,
        (Literal::Bool(x), Literal::Bool(y)) => *x == *y,
        (Literal::String(x), Literal::String(y)) => same_text(x, y),
        _ => false,
    }
}

fn number_op_of(t: TokenType) -> (r: Option<NumberOp>)
    ensures
        r == number_op(t),
{
    match t {
        TokenType::Plus => Some(NumberOp::Add),
        TokenType::Minus => Some(NumberOp::Subtract),
        TokenType::Star => Some(NumberOp::Multiply),
        TokenType::Slash => Some(NumberOp::Divide),
        TokenType::Greater => Some(NumberOp::Greater),
        TokenType::GreaterEqual => Some(NumberOp::GreaterEqual),
        TokenType::Less => Some(NumberOp::Less),
        TokenType::LessEqual => Some(NumberOp::LessEqual),
        _ => None,
    }
}

/// Applies a unary operator to a value.
pub fn evaluate_unary(op: &Token, right: Literal, ans: &Vec<NumberReply>, k: usize) -> (r: Outcome)
    ensures
        forall|env: Scopes|
            outcome_is(r, env, unary_result(*op, right@, env, replies_view(ans@), k as nat)),
{
    match op.token_type {
        TokenType::Bang => Outcome::Value(Literal::Bool(!is_truthy(&right)), k),
        TokenType::Minus => match right {
            Literal::Number(x) => number_reply(ans, k, NumberRequest::Negate(x)),
            _ => Outcome::Fault(RuntimeError::new(op.duplicate(), text("Invalid negation operand."))),
        },
        _ => Outcome::Fault(RuntimeError::new(op.duplicate(), text("Invalid unary operand."))),
    }
}

/// Applies a binary operator to two values.
pub fn evaluate_binary(op: &Token, lhs: Literal, rhs: Literal, ans: &Vec<NumberReply>, k: usize) -> (r:
    Outcome)
    ensures
        forall|env: Scopes|
            outcome_is(r, env, binary_result(*op, lhs@, rhs@, env, replies_view(ans@), k as nat)),
{
    let t = op.token_type;
    if t == TokenType::EqualEqual || t == TokenType::BangEqual {
        let flip = t == TokenType::BangEqual;
        match (lhs, rhs) {
            (Literal::Number(x), Literal::Number(y)) => truth_reply(
                ans,
                k,
                NumberRequest::Binary(NumberOp::Equal, x, y),
                flip,
            ),
            (a, b) => Outcome::Value(Literal::Bool(is_equal(&a, &b) != flip), k),
        }
    } else {
        match number_op_of(t) {
            Some(nop) => match (lhs, rhs) {
                (Literal::Number(x), Literal::Number(y)) => if nop.is_test() {
                    truth_reply(ans, k, NumberRequest::Binary(nop, x, y), false)
                } else {
                    number_reply(ans, k, NumberRequest::Binary(nop, x, y))
                },
                (Literal::String(x), Literal::String(y)) => if t == TokenType::Plus {
                    let mut s = x;
                    s.append(y.as_str());
                    Outcome::Value(Literal::String(s), k)
                } else {
                    Outcome::Fault(RuntimeError::new(op.duplicate(), text("Operands must be numbers.")))
                },
                _ => if t == TokenType::Plus {
                    Outcome::Fault(
                        RuntimeError::new(
                            op.duplicate(),
                            text("Operands must be either two numbers or two strings."),
                        ),
                    )
                } else {
                    Outcome::Fault(RuntimeError::new(op.duplicate(), text("Operands must be numbers.")))
                },
            },
            None => Outcome::Fault(
                RuntimeError::new(op.duplicate(), text("Operands must be either numbers or strings.")),
            ),
        }
    }
}

/// Evaluates `expr` against `env`, using the replies in `ans` from index
/// `k` on for its number requests, in order. On a request with no reply
/// yet, the request is returned, with `env` as assignments made before it
/// left it.
pub fn evaluate(expr: &Expr, env: &mut Environment, ans: &Vec<NumberReply>, k: usize) -> (r: Outcome)
    requires
        old(env).wf(),
        k <= ans@.len(),
    ensures
        final(env).wf(),
        outcome_is(r, final(env)@, eval(*expr, old(env)@, replies_view(ans@), k as nat)),
        r matches Outcome::Value(_, j) ==> j <= ans@.len(),
    decreases expr,
{
    match expr {
        Expr::Literal(l) => Outcome::Value(l.duplicate(), k),
        Expr::Grouping(inner) => evaluate(inner, env, ans, k),
        Expr::Variable(name) => match env.get(name.duplicate()) {
            Ok(v) => Outcome::Value(v, k),
            Err(e) => Outcome::Fault(e),
        },
        Expr::Assignment(name, value) => {
            match evaluate(value, env, ans, k) {
                Outcome::Value(v, k1) => {
                    let keep = v.duplicate();
                    match env.assign(name.duplicate(), v) {
                        Ok(()) => Outcome::Value(keep, k1),
                        Err(e) => Outcome::Fault(e),
                    }
                },
                other => other,
            }
        },
        Expr::Unary(op, operand) => match evaluate(operand, env, ans, k) {
            Outcome::Value(v, k1) => {
                let r = evaluate_unary(op, v, ans, k1);
                proof {
                    let s = unary_result(*op, v@, env@, replies_view(ans@), k1 as nat);
                    assert(outcome_is(r, env@, s));
                }
                r
            },
            other => other,
        },
        Expr::Binary(left, op, right) => match evaluate(left, env, ans, k) {
            Outcome::Value(a, k1) => match evaluate(right, env, ans, k1) {
                Outcome::Value(b, k2) => {
                    let ghost env2 = env@;
                    let r = evaluate_binary(op, a, b, ans, k2);
                    assert(outcome_is(r, env2, binary_result(*op, a@, b@, env2, replies_view(ans@), k2 as nat)));
                    r
                },
                other => other,
            },
            other => other,
        },
        Expr::Logical(left, op, right) => match evaluate(left, env, ans, k) {
            Outcome::Value(a, k1) => {
                if (op.token_type == TokenType::Or) == is_truthy(&a) {
                    Outcome::Value(a, k1)
                } else {
                    evaluate(right, env, ans, k1)
                }
            },
            other => other,
        },
    }
}

/// A statement as the interpreter stores it: sub-statements are indices
/// into the store, and a block's statements are a range of the list of
/// children.
pub enum Instr {
    Eval(Expr),
    Print(Expr),
    Define(Token, Expr),
    Block(usize, usize),
    If(Expr, usize, Option<usize>),
    While(Expr, usize),
}

/// An item of pending work: run a stored statement, or leave a block's
/// scope.
#[derive(Debug, Clone, Copy, PartialEq, Eq, Structural)]
pub enum Work {
    Run(usize),
    Leave,
}

/// What one step of the interpreter did.
pub enum Action {
    /// It ran a step with no visible effect.
    Continue,
    /// A `print` statement produced this line.
    Output(String),
    /// It needs the answer to this request, to be passed to the next step.
    Ask(NumberRequest),
    /// A runtime error ended the program; the remaining statements are
    /// dropped and every block scope is left.
    Failed(RuntimeError),
    /// Nothing is left to run.
    Finished,
}

/// The state after one step, in terms of the models.
pub enum Next {
    Continue(Scopes, Seq<Work>),
    Output(Seq<char>, Scopes, Seq<Work>),
    Ask(Request),
    Failed(Token, Seq<char>, Scopes),
    Finished,
}

/// The indices in `i` point into a store of `n` statements and `m`
/// children.
pub open spec fn instr_fits(i: Instr, n: nat, m: nat) -> bool {
    match i {
        Instr::Block(first, end) => first <= end <= m,
        Instr::If(_, a, b) => a < n && (b matches Some(x) ==> x < n),
        Instr::While(_, body) => body < n,
        _ => true,
    }
}

/// Every index in the store points into it.
pub open spec fn store_fits(code: Seq<Instr>, kids: Seq<usize>) -> bool {
    &&& forall|i: int| 0 <= i < code.len() ==> instr_fits(#[trigger] code[i], code.len(), kids.len())
    &&& forall|j: int| 0 <= j < kids.len() ==> #[trigger] kids[j] < code.len()
}

/// The work that runs the children `first..end` in order: the first one on
/// top.
pub open spec fn block_work(kids: Seq<usize>, first: int, end: int) -> Seq<Work> {
    Seq::new((end - first) as nat, |j: int| Work::Run(kids[end - 1 - j]))
}

/// A runtime error ends the program with the global scope alone.
pub open spec fn fail(t: Token, m: Seq<char>, env: Scopes) -> Next {
    Next::Failed(t, m, env.subrange(0, 1))
}

/// One step: what running the top item of `work` does.
pub open spec fn next(code: Seq<Instr>, kids: Seq<usize>, env: Scopes, work: Seq<Work>, ans: Seq<Reply>) -> Next {
    if work.len() == 0 {
        Next::Finished
    } else {
        let rest = work.drop_last();
        match work.last() {
            Work::Leave => Next::Continue(
                if env.len() > 1 {
                    env.drop_last()
                } else {
                    env
                },
                rest,
            ),
            Work::Run(i) => match code[i as int] {
                Instr::Block(first, end) => Next::Continue(
                    env.push(Map::empty()),
                    rest.push(Work::Leave) + block_work(kids, first as int, end as int),
                ),
                Instr::Eval(e) => match eval(e, env, ans, 0) {
                    Eval::Done(_, env1, _) => Next::Continue(env1, rest),
                    Eval::Ask(q, _) => Next::Ask(q),
                    Eval::Fault(t, m, env1) => fail(t, m, env1),
                },
                Instr::Print(e) => match eval(e, env, ans, 0) {
                    Eval::Done(v, env1, k1) => match v {
                        Val::Number(x) => if k1 < ans.len() && ans[k1 as int] is Text {
                            Next::Output(ans[k1 as int]->Text_0, env1, rest)
                        } else {
                            Next::Ask(Request::Show(x))
                        },
                        _ => Next::Output(display(v), env1, rest),
                    },
                    Eval::Ask(q, _) => Next::Ask(q),
                    Eval::Fault(t, m, env1) => fail(t, m, env1),
                },
                Instr::Define(name, e) => match eval(e, env, ans, 0) {
                    Eval::Done(v, env1, _) => Next::Continue(declare(env1, name.lexeme@, v), rest),
                    Eval::Ask(q, _) => Next::Ask(q),
                    Eval::Fault(t, m, env1) => fail(t, m, env1),
                },
                Instr::If(c, a, b) => match eval(c, env, ans, 0) {
                    Eval::Done(v, env1, _) => Next::Continue(
                        env1,
                        if truthy(v) {
                            rest.push(Work::Run(a))
                        } else {
                            match b {
                                Some(x) => rest.push(Work::Run(x)),
                                None => rest,
                            }
                        },
                    ),
                    Eval::Ask(q, _) => Next::Ask(q),
                    Eval::Fault(t, m, env1) => fail(t, m, env1),
                },
                Instr::While(c, body) => match eval(c, env, ans, 0) {
                    Eval::Done(v, env1, _) => Next::Continue(
                        env1,
                        if truthy(v) {
                            work.push(Work::Run(body))
                        } else {
                            rest
                        },
                    ),
                    Eval::Ask(q, _) => Next::Ask(q),
                    Eval::Fault(t, m, env1) => fail(t, m, env1),
                },
            },
        }
    }
}

/// Number of scope exits in `work`: the blocks being run.
pub open spec fn leaves(work: Seq<Work>) -> nat
    decreases work.len(),
{
    if work.len() == 0 {
        0
    } else {
        leaves(work.drop_last()) + if work.last() is Leave {
            1nat
        } else {
            0nat
        }
    }
}

proof fn lemma_leaves_append(a: Seq<Work>, b: Seq<Work>)
    ensures
        leaves(a + b) == leaves(a) + leaves(b),
    decreases b.len(),
{
    if b.len() > 0 {
        assert((a + b).drop_last() =~= a + b.drop_last());
        lemma_leaves_append(a, b.drop_last());
    } else {
        assert(a + b =~= a);
    }
}

proof fn lemma_no_leaves(work: Seq<Work>)
    requires
        forall|j: int| 0 <= j < work.len() ==> #[trigger] work[j] is Run,
    ensures
        leaves(work) == 0,
    decreases work.len(),
{
    if work.len() > 0 {
        assert(work[work.len() - 1] is Run);
        lemma_no_leaves(work.drop_last());
    }
}

proof fn lemma_block_work_leaves(kids: Seq<usize>, first: int, end: int)
    requires
        first <= end,
    ensures
        leaves(block_work(kids, first, end)) == 0,
    decreases end - first,
{
    if first < end {
        assert(block_work(kids, first, end).drop_last() =~= block_work(kids, first + 1, end));
        lemma_block_work_leaves(kids, first + 1, end);
    } else {
        assert(block_work(kids, first, end) =~= Seq::<Work>::empty());
    }
}

/// Evaluation never adds or removes a scope.
pub proof fn lemma_eval_keeps_depth(e: Expr, env: Scopes, ans: Seq<Reply>, k: nat)
    ensures
        eval(e, env, ans, k) matches Eval::Done(_, env1, _) ==> env1.len() == env.len(),
        eval(e, env, ans, k) matches Eval::Fault(_, _, env1) ==> env1.len() == env.len(),
        eval(e, env, ans, k) matches Eval::Ask(_, env1) ==> env1.len() == env.len(),
    decreases e,
{
    match e {
        Expr::Grouping(inner) => lemma_eval_keeps_depth(*inner, env, ans, k),
        Expr::Assignment(name, value) => {
            lemma_eval_keeps_depth(*value, env, ans, k);
            if let Eval::Done(v, env1, k1) = eval(*value, env, ans, k) {
                lemma_assign_creates_no_binding(env1, name.lexeme@, v);
            }
        },
        Expr::Unary(op, operand) => lemma_eval_keeps_depth(*operand, env, ans, k),
        Expr::Binary(left, op, right) => {
            lemma_eval_keeps_depth(*left, env, ans, k);
            if let Eval::Done(a, env1, k1) = eval(*left, env, ans, k) {
                lemma_eval_keeps_depth(*right, env1, ans, k1);
            }
        },
        Expr::Logical(left, op, right) => {
            lemma_eval_keeps_depth(*left, env, ans, k);
            if let Eval::Done(a, env1, k1) = eval(*left, env, ans, k) {
                lemma_eval_keeps_depth(*right, env1, ans, k1);
            }
        },
        _ => {},
    }
}

/// Evaluation never binds a new name nor drops one, in any scope.
pub proof fn lemma_eval_keeps_names(e: Expr, env: Scopes, ans: Seq<Reply>, k: nat)
    ensures
        eval(e, env, ans, k) matches Eval::Done(_, env1, _) ==> same_names(env1, env),
        eval(e, env, ans, k) matches Eval::Fault(_, _, env1) ==> same_names(env1, env),
        eval(e, env, ans, k) matches Eval::Ask(_, env1) ==> same_names(env1, env),
    decreases e,
{
    match e {
        Expr::Grouping(inner) => lemma_eval_keeps_names(*inner, env, ans, k),
        Expr::Assignment(name, value) => {
            lemma_eval_keeps_names(*value, env, ans, k);
            if let Eval::Done(v, env1, k1) = eval(*value, env, ans, k) {
                lemma_assign_creates_no_binding(env1, name.lexeme@, v);
            }
        },
        Expr::Unary(op, operand) => lemma_eval_keeps_names(*operand, env, ans, k),
        Expr::Binary(left, op, right) => {
            lemma_eval_keeps_names(*left, env, ans, k);
            if let Eval::Done(a, env1, k1) = eval(*left, env, ans, k) {
                lemma_eval_keeps_names(*right, env1, ans, k1);
            }
        },
        Expr::Logical(left, op, right) => {
            lemma_eval_keeps_names(*left, env, ans, k);
            if let Eval::Done(a, env1, k1) = eval(*left, env, ans, k) {
                lemma_eval_keeps_names(*right, env1, ans, k1);
            }
        },
        _ => {},
    }
}

/// Two chains of the same length whose scopes bind the same names.
pub open spec fn same_names(a: Scopes, b: Scopes) -> bool {
    a.len() == b.len() && forall|i: int| 0 <= i < a.len() ==> (#[trigger] a[i]).dom() == b[i].dom()
}

/// The first `n` scopes of `env` bind the names `names`.
pub open spec fn outer_names(env: Scopes, n: nat, names: Seq<Set<Seq<char>>>) -> bool {
    &&& names.len() == n <= env.len()
    &&& forall|i: int| 0 <= i < n ==> (#[trigger] env[i]).dom() == names[i]
}

/// `work` is running a block entered when the pending work was `rest`: it
/// is `rest`, then that block's scope exit, then more work.
pub open spec fn inside_block(work: Seq<Work>, rest: Seq<Work>) -> bool {
    &&& work.len() > rest.len()
    &&& work.subrange(0, rest.len() as int) == rest
    &&& work[rest.len() as int] == Work::Leave
}

proof fn lemma_leaves_split(work: Seq<Work>, n: int)
    requires
        0 <= n <= work.len(),
    ensures
        leaves(work) == leaves(work.subrange(0, n)) + leaves(work.subrange(n, work.len() as int)),
{
    lemma_leaves_append(work.subrange(0, n), work.subrange(n, work.len() as int));
    assert(work.subrange(0, n) + work.subrange(n, work.len() as int) =~= work);
}

proof fn lemma_leaves_first(work: Seq<Work>)
    requires
        work.len() > 0,
        work[0] == Work::Leave,
    ensures
        leaves(work) >= 1,
    decreases work.len(),
{
    if work.len() > 1 {
        assert(work.drop_last()[0] == Work::Leave);
        lemma_leaves_first(work.drop_last());
    }
}

/// Block scoping, step by step: while a block runs, no step adds or drops
/// a name in the scopes that enclose it (neither a declaration inside the
/// block nor an assignment to an enclosing variable binds a name there),
/// and the step that ends the block leaves exactly the enclosing scopes,
/// so that what the block declared is gone.
pub proof fn lemma_block_keeps_enclosing_names(
    code: Seq<Instr>,
    kids: Seq<usize>,
    env: Scopes,
    work: Seq<Work>,
    ans: Seq<Reply>,
    rest: Seq<Work>,
    names: Seq<Set<Seq<char>>>,
)
    requires
        store_fits(code, kids),
        forall|j: int| 0 <= j < work.len() ==> (#[trigger] work[j] matches Work::Run(i) ==> i < code.len()),
        env.len() == 1 + leaves(work),
        inside_block(work, rest),
        outer_names(env, 1 + leaves(rest), names),
    ensures
        next(code, kids, env, work, ans) matches Next::Continue(env2, work2) ==> outer_names(
            env2,
            1 + leaves(rest),
            names,
        ) && (inside_block(work2, rest) || (work2 == rest && env2.len() == 1 + leaves(rest))),
        next(code, kids, env, work, ans) matches Next::Output(_, env2, work2) ==> outer_names(
            env2,
            1 + leaves(rest),
            names,
        ) && inside_block(work2, rest),
{
    let n = rest.len() as int;
    let k = 1 + leaves(rest);
    let w = work.subrange(n, work.len() as int);
    lemma_leaves_split(work, n);
    assert(w[0] == Work::Leave);
    lemma_leaves_first(w);
    assert(env.len() >= k + 1);
    let top = work.len() - 1;
    assert(work[top] == work.last());
    match work.last() {
        Work::Leave => {
            if top == n {
                assert(work.drop_last() =~= rest);
            } else {
                let w2 = work.drop_last().subrange(n, work.len() - 1);
                assert(w2 =~= w.drop_last());
                assert(w.last() == Work::Leave);
                assert(leaves(w) == leaves(w.drop_last()) + 1);
                lemma_leaves_split(work.drop_last(), n);
                assert(work.drop_last().subrange(0, n) =~= rest);
                assert(w2[0] == Work::Leave);
                lemma_leaves_first(w2);
                assert(work.drop_last().subrange(0, n) =~= rest);
            }
        },
        Work::Run(i) => {
            assert(top > n);
            assert(work.drop_last().subrange(0, n) =~= rest);
            assert(work.drop_last()[n] == Work::Leave);
            assert(instr_fits(code[i as int], code.len(), kids.len()));
            match code[i as int] {
                Instr::Block(first, end) => {
                    let w2 = work.drop_last().push(Work::Leave) + block_work(kids, first as int, end as int);
                    assert(w2.subrange(0, n) =~= rest);
                    assert(w2[n] == Work::Leave);
                },
                Instr::Eval(e) => lemma_eval_keeps_names(e, env, ans, 0),
                Instr::Print(e) => lemma_eval_keeps_names(e, env, ans, 0),
                Instr::Define(_, e) => lemma_eval_keeps_names(e, env, ans, 0),
                Instr::If(c, a, b) => {
                    lemma_eval_keeps_names(c, env, ans, 0);
                    assert(work.drop_last().push(Work::Run(a)).subrange(0, n) =~= rest);
                    if let Some(x) = b {
                        assert(work.drop_last().push(Work::Run(x)).subrange(0, n) =~= rest);
                    }
                },
                Instr::While(c, body) => {
                    lemma_eval_keeps_names(c, env, ans, 0);
                    assert(work.push(Work::Run(body)).subrange(0, n) =~= rest);
                },
            }
        },
    }
}

/// Scopes are taken and given back in strict nesting: when the chain holds
/// the global scope and one scope per block being run, it still does after
/// any step, whether the step enters a block, leaves one, runs a statement
/// or ends the program with a runtime error.
pub proof fn lemma_step_keeps_scope_nesting(
    code: Seq<Instr>,
    kids: Seq<usize>,
    env: Scopes,
    work: Seq<Work>,
    ans: Seq<Reply>,
)
    requires
        store_fits(code, kids),
        forall|j: int| 0 <= j < work.len() ==> (#[trigger] work[j] matches Work::Run(i) ==> i < code.len()),
        env.len() == 1 + leaves(work),
    ensures
        next(code, kids, env, work, ans) matches Next::Continue(env2, work2) ==> env2.len() == 1
            + leaves(work2),
        next(code, kids, env, work, ans) matches Next::Output(_, env2, work2) ==> env2.len() == 1
            + leaves(work2),
        next(code, kids, env, work, ans) matches Next::Failed(_, _, env2) ==> env2.len() == 1,
{
    if work.len() > 0 {
        let rest = work.drop_last();
        match work.last() {
            Work::Leave => {},
            Work::Run(i) => {
                assert(work[work.len() - 1] == work.last());
                assert(instr_fits(code[i as int], code.len(), kids.len()));
                match code[i as int] {
                    Instr::Block(first, end) => {
                        lemma_block_work_leaves(kids, first as int, end as int);
                        lemma_leaves_append(rest.push(Work::Leave), block_work(kids, first as int, end as int));
                        assert(rest.push(Work::Leave).drop_last() == rest);
                    },
                    Instr::Eval(e) => lemma_eval_keeps_depth(e, env, ans, 0),
                    Instr::Print(e) => lemma_eval_keeps_depth(e, env, ans, 0),
                    Instr::Define(_, e) => lemma_eval_keeps_depth(e, env, ans, 0),
                    Instr::If(c, a, b) => {
                        lemma_eval_keeps_depth(c, env, ans, 0);
                        assert(rest.push(Work::Run(a)).drop_last() == rest);
                        if let Some(x) = b {
                            assert(rest.push(Work::Run(x)).drop_last() == rest);
                        }
                    },
                    Instr::While(c, body) => {
                        lemma_eval_keeps_depth(c, env, ans, 0);
                        assert(work.push(Work::Run(body)).drop_last() == work);
                    },
                }
            },
        }
    }
}

/// `r`, with the state left behind, is the step `n` from a state whose
/// scopes, work and replies were `env`, `work` and `ans`.
pub open spec fn took(
    n: Next,
    r: Action,
    env: Scopes,
    work: Seq<Work>,
    ans: Seq<Reply>,
    env2: Scopes,
    work2: Seq<Work>,
    ans2: Seq<Reply>,
) -> bool {
    match (n, r) {
        (Next::Finished, Action::Finished) => env2 == env && work2 == work && ans2.len() == 0,
        (Next::Continue(e, w), Action::Continue) => env2 == e && work2 == w && ans2.len() == 0,
        (Next::Output(s, e, w), Action::Output(o)) => o@ == s && env2 == e && work2 == w
            && ans2.len() == 0,
        (Next::Ask(q), Action::Ask(p)) => p@ == q && env2 == env && work2 == work && ans2 == ans,
        (Next::Failed(t, m, e), Action::Failed(err)) => err.token == t && err.message@ == m
            && env2 == e && work2.len() == 0 && ans2.len() == 0,
        _ => false,
    }
}

pub open spec fn with_reply(ans: Seq<Reply>, reply: Option<NumberReply>) -> Seq<Reply> {
    match reply {
        Some(x) => ans.push(x@),
        None => ans,
    }
}

/// The initializer of a variable declaration: `nil` when there is none.
pub open spec fn initializer_of(init: Option<Expr>) -> Expr {
    match init {
        Some(e) => e,
        None => Expr::Literal(Literal::Nil),
    }
}

/// Entry `i` of the store, with the entries it points to, holds `s`.
pub open spec fn stored(code: Seq<Instr>, kids: Seq<usize>, i: int, s: Stmt) -> bool
    decreases s,
{
    &&& 0 <= i < code.len()
    &&& match s {
        Stmt::Expr(e) => code[i] == Instr::Eval(*e),
        Stmt::Print(e) => code[i] == Instr::Print(*e),
        Stmt::Var(name, init) => code[i] == Instr::Define(name, initializer_of(*init)),
        Stmt::If(c, a, b) => match code[i] {
            Instr::If(c2, ia, ib) => c2 == *c && stored(code, kids, ia as int, *a) && match b {
                Some(x) => ib matches Some(y) && stored(code, kids, y as int, *x),
                None => ib is None,
            },
            _ => false,
        },
        Stmt::While(c, body) => match code[i] {
            Instr::While(c2, ib) => c2 == *c && stored(code, kids, ib as int, *body),
            _ => false,
        },
        Stmt::Block(v) => match code[i] {
            Instr::Block(f, e) => f <= e <= kids.len() && e - f == v@.len() && forall|j: int|
                0 <= j < v@.len() ==> stored(code, kids, kids[f + j] as int, #[trigger] v@[j]),
            _ => false,
        },
    }
}

/// A stored statement stays stored when the store only grows.
pub proof fn lemma_stored_grows(
    code: Seq<Instr>,
    kids: Seq<usize>,
    code2: Seq<Instr>,
    kids2: Seq<usize>,
    i: int,
    s: Stmt,
)
    requires
        stored(code, kids, i, s),
        code.len() <= code2.len(),
        kids.len() <= kids2.len(),
        code2.subrange(0, code.len() as int) == code,
        kids2.subrange(0, kids.len() as int) == kids,
    ensures
        stored(code2, kids2, i, s),
    decreases s,
{
    assert(code2[i] == code[i]);
    match s {
        Stmt::If(c, a, b) => {
            if let Instr::If(c2, ia, ib) = code[i] {
                lemma_stored_grows(code, kids, code2, kids2, ia as int, *a);
                if let Some(x) = b {
                    lemma_stored_grows(code, kids, code2, kids2, ib->Some_0 as int, *x);
                }
            }
        },
        Stmt::While(c, body) => {
            if let Instr::While(c2, ib) = code[i] {
                lemma_stored_grows(code, kids, code2, kids2, ib as int, *body);
            }
        },
        Stmt::Block(v) => {
            if let Instr::Block(f, e) = code[i] {
                assert forall|j: int| 0 <= j < v@.len() implies stored(
                    code2,
                    kids2,
                    kids2[f + j] as int,
                    #[trigger] v@[j],
                ) by {
                    assert(kids2[f + j] == kids[f + j]);
                    lemma_stored_grows(code, kids, code2, kids2, kids[f + j] as int, v@[j]);
                }
            }
        },
        _ => {},
    }
}

/// A tree-walking interpreter that runs one step at a time, so that its
/// host can answer the number requests between steps. Variables persist
/// from one program to the next.
pub struct Interpreter {
    environment: Environment,
    code: Vec<Instr>,
    kids: Vec<usize>,
    work: Vec<Work>,
    answers: Vec<NumberReply>,
}

impl Interpreter {
    pub closed spec fn wf(&self) -> bool {
        &&& self.environment.wf()
        &&& store_fits(self.code@, self.kids@)
        &&& forall|j: int|
            0 <= j < self.work@.len() ==> (#[trigger] self.work@[j] matches Work::Run(i) ==> i
                < self.code@.len())
    }

    /// The scopes, from the global one to the innermost.
    pub closed spec fn scopes(&self) -> Scopes {
        self.environment@
    }

    /// The pending work, the next item last.
    pub closed spec fn pending(&self) -> Seq<Work> {
        self.work@
    }

    /// The stored statements.
    pub closed spec fn program(&self) -> Seq<Instr> {
        self.code@
    }

    /// The children of the stored blocks.
    pub closed spec fn children(&self) -> Seq<usize> {
        self.kids@
    }

    /// The replies gathered for the statement being run.
    pub closed spec fn replies(&self) -> Seq<Reply> {
        replies_view(self.answers@)
    }

    /// An interpreter with an empty global scope and nothing to run.
    pub fn new() -> (r: Interpreter)
        ensures
            r.wf(),
            r.scopes() == seq![Map::<Seq<char>, Val>::empty()],
            r.pending().len() == 0,
            r.scopes().len() == 1 + leaves(r.pending()),
            r.replies().len() == 0,
    {
        Interpreter {
            environment: Environment::new(),
            code: Vec::new(),
            kids: Vec::new(),
            work: Vec::new(),
            answers: Vec::new(),
        }
    }

    /// Loads a program: its statements are stored, in place of the
    /// previous program, and become the pending work in their order, the
    /// first one next, in place of whatever was left. The global scope stays as it is; block scopes that an
    /// unfinished program left open are closed.
    pub fn interpret(&mut self, statements: Vec<Box<Stmt>>)
        requires
            old(self).wf(),
        ensures
            final(self).wf(),
            final(self).scopes() == old(self).scopes().subrange(0, 1),
            final(self).scopes().len() == 1 + leaves(final(self).pending()),
            final(self).pending().len() == statements@.len(),
            forall|j: int|
                0 <= j < statements@.len() ==> (#[trigger] final(self).pending()[statements@.len() - 1
                    - j] matches Work::Run(i) && stored(
                    final(self).program(),
                    final(self).children(),
                    i as int,
                    *statements@[j],
                )),
            final(self).replies().len() == 0,
    {
        let ghost all = statements@;
        let mut statements = statements;
        self.code = Vec::new();
        self.kids = Vec::new();
        let mut runs: Vec<Work> = Vec::new();
        let n = statements.len();
        while statements.len() > 0
            invariant
                self.environment == old(self).environment,
                store_fits(self.code@, self.kids@),
                statements@ == all.subrange(0, n - runs@.len()),
                runs@.len() <= n,
                n == all.len(),
                forall|j: int| 0 <= j < runs@.len() ==> (#[trigger] runs@[j] matches Work::Run(i) && i
                    < self.code@.len() && stored(self.code@, self.kids@, i as int, *all[n - 1 - j])),
            decreases statements@.len(),
        {
            let ghost code1 = self.code@;
            let ghost kids1 = self.kids@;
            let s = statements.pop().unwrap();
            let i = store(&mut self.code, &mut self.kids, *s);
            proof {
                assert forall|j: int| 0 <= j < runs@.len() implies (#[trigger] runs@[j] matches Work::Run(
                    x,
                ) && x < self.code@.len() && stored(self.code@, self.kids@, x as int, *all[n - 1 - j])) by {
                    if let Work::Run(x) = runs@[j] {
                        lemma_stored_grows(code1, kids1, self.code@, self.kids@, x as int, *all[n - 1 - j]);
                    }
                }
            }
            runs.push(Work::Run(i));
            assert(statements@ =~= all.subrange(0, n - runs@.len()));
        }
        self.work = runs;
        self.answers = Vec::new();
        self.environment.leave_all();
        assert(self.replies() =~= Seq::<Reply>::empty());
        proof {
            lemma_no_leaves(self.work@);
        }
        assert forall|j: int|
            0 <= j < all.len() implies (#[trigger] self.pending()[all.len() - 1 - j] matches Work::Run(i)
                && stored(self.program(), self.children(), i as int, *all[j])) by {
            assert(n - 1 - (n - 1 - j) == j);
        }
    }

    /// Runs one step. `reply` answers the request of the previous step, if
    /// it asked one.
    pub fn step(&mut self, reply: Option<NumberReply>) -> (r: Action)
        requires
            old(self).wf(),
        ensures
            final(self).wf(),
            final(self).program() == old(self).program(),
            final(self).children() == old(self).children(),
            took(
                next(
                    old(self).program(),
                    old(self).children(),
                    old(self).scopes(),
                    old(self).pending(),
                    with_reply(old(self).replies(), reply),
                ),
                r,
                old(self).scopes(),
                old(self).pending(),
                with_reply(old(self).replies(), reply),
                final(self).scopes(),
                final(self).pending(),
                final(self).replies(),
            ),
            old(self).scopes().len() == 1 + leaves(old(self).pending()) ==> final(self).scopes().len()
                == 1 + leaves(final(self).pending()),
    {
        proof {
            if old(self).scopes().len() == 1 + leaves(old(self).pending()) {
                lemma_step_keeps_scope_nesting(
                    self.code@,
                    self.kids@,
                    self.environment@,
                    self.work@,
                    with_reply(self.replies(), reply),
                );
            }
        }
        match reply {
            Some(x) => {
                self.answers.push(x);
            },
            None => {},
        }
        assert(self.replies() =~= with_reply(old(self).replies(), reply));
        let ghost work0 = self.work@;
        if self.work.len() == 0 {
            self.answers = Vec::new();
            assert(self.replies() =~= Seq::<Reply>::empty());
            return Action::Finished;
        }
        let top = self.work[self.work.len() - 1];
        match top {
            Work::Leave => {
                self.work.pop();
                self.environment.leave_scope();
                self.answers = Vec::new();
                assert(self.replies() =~= Seq::<Reply>::empty());
                assert(self.work@ =~= work0.drop_last());
                Action::Continue
            },
            Work::Run(i) => {
                match &self.code[i] {
                    Instr::Block(first, end) => {
                        let first = *first;
                        let end = *end;
                        self.work.pop();
                        self.work.push(Work::Leave);
                        let mut j = end;
                        while j > first
                            invariant
                                store_fits(self.code@, self.kids@),
                                self.code == old(self).code,
                                self.kids == old(self).kids,
                                self.environment == old(self).environment,
                                self.environment.wf(),
                                first <= j <= end <= self.kids@.len(),
                                self.work@ == work0.drop_last().push(Work::Leave) + block_work(self.kids@, j as int, end as int),
                                forall|x: int|
                                    0 <= x < self.work@.len() ==> (#[trigger] self.work@[x] matches Work::Run(i) ==> i
                                        < self.code@.len()),
                            decreases j,
                        {
                            self.work.push(Work::Run(self.kids[j - 1]));
                            j = j - 1;
                            assert(self.work@ =~= work0.drop_last().push(Work::Leave) + block_work(self.kids@, j as int, end as int));
                        }
                        self.environment.enter_scope();
                        self.answers = Vec::new();
                        assert(self.replies() =~= Seq::<Reply>::empty());
                        Action::Continue
                    },
                    _ => self.run_statement(i),
                }
            },
        }
    }

    /// Runs the stored statement `i`, which is on top of the work and is
    /// not a block.
    fn run_statement(&mut self, i: usize) -> (r: Action)
        requires
            old(self).wf(),
            old(self).work@.len() > 0,
            old(self).work@.last() == Work::Run(i),
            !(old(self).code@[i as int] is Block),
        ensures
            final(self).wf(),
            final(self).code == old(self).code,
            final(self).kids == old(self).kids,
            took(
                next(old(self).code@, old(self).kids@, old(self).environment@, old(self).work@, old(self).replies()),
                r,
                old(self).environment@,
                old(self).work@,
                old(self).replies(),
                final(self).environment@,
                final(self).work@,
                final(self).replies(),
            ),
    {
        let ghost work0 = self.work@;
        let mut env = self.environment.snapshot();
        let expr = match &self.code[i] {
            Instr::Eval(e) => e,
            Instr::Print(e) => e,
            Instr::Define(_, e) => e,
            Instr::If(c, _, _) => c,
            Instr::While(c, _) => c,
            // Blocks are run by `step` itself; the requirement rules this out.
            Instr::Block(_, _) => {
                return Action::Finished;
            },
        };
        let outcome = evaluate(expr, &mut env, &self.answers, 0);
        match outcome {
            Outcome::Ask(q) => Action::Ask(q),
            Outcome::Fault(err) => {
                env.leave_all();
                self.environment = env;
                self.work = Vec::new();
                self.answers = Vec::new();
                assert(self.replies() =~= Seq::<Reply>::empty());
                Action::Failed(err)
            },
            Outcome::Value(v, k1) => {
                let action = match &self.code[i] {
                    Instr::Eval(_) => {
                        self.work.pop();
                        Action::Continue
                    },
                    Instr::Print(_) => {
                        match v {
                            Literal::Number(x) => {
                                if k1 < self.answers.len() {
                                    match &self.answers[k1] {
                                        NumberReply::Text(s) => {
                                            let line = s.clone();
                                            self.work.pop();
                                            Action::Output(line)
                                        },
                                        _ => {
                                            return Action::Ask(NumberRequest::Show(x));
                                        },
                                    }
                                } else {
                                    return Action::Ask(NumberRequest::Show(x));
                                }
                            },
                            other => {
                                self.work.pop();
                                Action::Output(display_text(&other))
                            },
                        }
                    },
                    Instr::Define(name, _) => {
                        let key = name.lexeme.clone();
                        env.define(&key, v);
                        self.work.pop();
                        Action::Continue
                    },
                    Instr::If(_, a, b) => {
                        let a = *a;
                        let b = *b;
                        self.work.pop();
                        if is_truthy(&v) {
                            self.work.push(Work::Run(a));
                        } else {
                            match b {
                                Some(x) => self.work.push(Work::Run(x)),
                                None => {},
                            }
                        }
                        Action::Continue
                    },
                    Instr::While(_, body) => {
                        let body = *body;
                        if is_truthy(&v) {
                            self.work.push(Work::Run(body));
                        } else {
                            self.work.pop();
                        }
                        Action::Continue
                    },
                    // Ruled out as above.
                    Instr::Block(_, _) => Action::Finished,
                };
                self.environment = env;
                self.answers = Vec::new();
                assert(self.replies() =~= Seq::<Reply>::empty());
                assert(work0.drop_last() == work0.subrange(0, work0.len() - 1));
                action
            },
        }
    }
}

/// The display form of a value that is not a number.
pub fn display_text(v: &Literal) -> (r: String)
    ensures
        !(v@ is Number) ==> r@ == display(v@),
{
    match v {
        Literal::Nil => text("nil"),
        Literal::Bool(b) => if *b {
            text("true")
        } else {
            text("false")
        },
        Literal::String(s) => s.clone(),
        Literal::Number(s) => s.clone(),
    }
}

/// `code2`, `kids2` hold `code`, `kids` as their beginning.
pub open spec fn grown(code: Seq<Instr>, kids: Seq<usize>, code2: Seq<Instr>, kids2: Seq<usize>) -> bool {
    &&& code.len() <= code2.len()
    &&& kids.len() <= kids2.len()
    &&& code2.subrange(0, code.len() as int) == code
    &&& kids2.subrange(0, kids.len() as int) == kids
}

proof fn lemma_grown_trans(
    c1: Seq<Instr>,
    k1: Seq<usize>,
    c2: Seq<Instr>,
    k2: Seq<usize>,
    c3: Seq<Instr>,
    k3: Seq<usize>,
)
    requires
        grown(c1, k1, c2, k2),
        grown(c2, k2, c3, k3),
    ensures
        grown(c1, k1, c3, k3),
{
    assert(c3.subrange(0, c1.len() as int) =~= c2.subrange(0, c1.len() as int));
    assert(k3.subrange(0, k1.len() as int) =~= k2.subrange(0, k1.len() as int));
}

/// Stores `s` and its sub-statements; returns the index of `s`.
fn store(code: &mut Vec<Instr>, kids: &mut Vec<usize>, s: Stmt) -> (r: usize)
    requires
        store_fits(old(code)@, old(kids)@),
    ensures
        store_fits(final(code)@, final(kids)@),
        grown(old(code)@, old(kids)@, final(code)@, final(kids)@),
        stored(final(code)@, final(kids)@, r as int, s),
    decreases s,
{
    let ghost s0 = s;
    let ghost code0 = code@;
    let ghost kids0 = kids@;
    assert(code@.subrange(0, code0.len() as int) =~= code0);
    assert(kids@.subrange(0, kids0.len() as int) =~= kids0);
    let instr = match s {
        Stmt::Expr(e) => Instr::Eval(*e),
        Stmt::Print(e) => Instr::Print(*e),
        Stmt::Var(name, init) => {
            let e = match *init {
                Some(e) => e,
                None => Expr::Literal(Literal::Nil),
            };
            Instr::Define(name, e)
        },
        Stmt::If(c, a, b) => {
            let ghost ga = *a;
            let ia = store(code, kids, *a);
            let ghost code1 = code@;
            let ghost kids1 = kids@;
            let ib = match b {
                Some(x) => {
                    let y = store(code, kids, *x);
                    proof {
                        lemma_stored_grows(code1, kids1, code@, kids@, ia as int, ga);
                        lemma_grown_trans(code0, kids0, code1, kids1, code@, kids@);
                    }
                    Some(y)
                },
                None => None,
            };
            Instr::If(*c, ia, ib)
        },
        Stmt::While(c, body) => {
            let ib = store(code, kids, *body);
            Instr::While(*c, ib)
        },
        Stmt::Block(stmts) => {
            let ghost whole = stmts;
            let ghost all = stmts@;
            let n = stmts.len();
            let mut rest = stmts;
            let mut idx: Vec<usize> = Vec::new();
            let mut taken: usize = 0;
            assert(code@.subrange(0, code0.len() as int) =~= code0);
            assert(kids@.subrange(0, kids0.len() as int) =~= kids0);
            while rest.len() > 0
                invariant
                    store_fits(code@, kids@),
                    grown(code0, kids0, code@, kids@),
                    all == whole@,
                    n == all.len(),
                    s == Stmt::Block(whole),
                    rest@ == all.subrange(taken as int, all.len() as int),
                    taken <= all.len(),
                    idx@.len() == taken,
                    forall|j: int| 0 <= j < idx@.len() ==> #[trigger] idx@[j] < code@.len(),
                    forall|j: int| 0 <= j < idx@.len() ==> stored(code@, kids@, #[trigger] idx@[j] as int, all[j]),
                decreases rest@.len(),
            {
                let c = rest.remove(0);
                assert(c == all[taken as int]);
                proof {
                    assert(decreases_to!(s => s->Block_0));
                    assert(decreases_to!(whole => whole[taken as int]));
                    assert(decreases_to!(s => c));
                }
                let ghost code1 = code@;
                let ghost kids1 = kids@;
                let j = store(code, kids, c);
                proof {
                    lemma_grown_trans(code0, kids0, code1, kids1, code@, kids@);
                    assert forall|x: int| 0 <= x < idx@.len() implies stored(code@, kids@, #[trigger] idx@[x] as int, all[x]) by {
                        lemma_stored_grows(code1, kids1, code@, kids@, idx@[x] as int, all[x]);
                    }
                }
                idx.push(j);
                taken = taken + 1;
                assert(rest@ =~= all.subrange(taken as int, all.len() as int));
            }
            let first = kids.len();
            let ghost code1 = code@;
            let ghost kids1 = kids@;
            let mut j: usize = 0;
            assert(code@.subrange(0, code1.len() as int) =~= code1);
            assert(kids@.subrange(0, kids1.len() as int) =~= kids1);
            while j < idx.len()
                invariant
                    store_fits(code@, kids@),
                    code@ == code1,
                    grown(code1, kids1, code@, kids@),
                    first == kids1.len(),
                    kids@.len() == first + j,
                    j <= idx@.len(),
                    forall|x: int| 0 <= x < j ==> kids@[first + x] == idx@[x],
                    forall|x: int| 0 <= x < idx@.len() ==> #[trigger] idx@[x] < code@.len(),
                decreases idx@.len() - j,
            {
                kids.push(idx[j]);
                j = j + 1;
                assert(kids@.subrange(0, kids1.len() as int) =~= kids1);
            }
            proof {
                lemma_grown_trans(code0, kids0, code1, kids1, code@, kids@);
            }
            let ghost code2 = code@;
            let end = kids.len();
            let r = code.len();
            code.push(Instr::Block(first, end));
            assert(code@.subrange(0, code2.len() as int) =~= code2);
            assert(kids@.subrange(0, kids@.len() as int) =~= kids@);
            assert forall|x: int| 0 <= x < code@.len() implies instr_fits(#[trigger] code@[x], code@.len(), kids@.len()) by {
                if x < r {
                    assert(instr_fits(code@[x], r as nat, kids@.len()));
                }
            }
            proof {
                lemma_grown_trans(code0, kids0, code2, kids@, code@, kids@);
                assert forall|x: int| 0 <= x < all.len() implies stored(code@, kids@, kids@[first + x] as int, #[trigger] all[x]) by {
                    lemma_stored_grows(code1, kids1, code2, kids@, idx@[x] as int, all[x]);
                    lemma_stored_grows(code2, kids@, code@, kids@, idx@[x] as int, all[x]);
                }
            }
            return r;
        },
    };
    let ghost code1 = code@;
    let ghost ginstr = instr;
    let r = code.len();
    code.push(instr);
    assert(code@.subrange(0, code1.len() as int) =~= code1);
    assert(kids@.subrange(0, kids@.len() as int) =~= kids@);
    assert forall|x: int| 0 <= x < code@.len() implies instr_fits(#[trigger] code@[x], code@.len(), kids@.len()) by {
        if x < r {
            assert(instr_fits(code@[x], r as nat, kids@.len()));
        }
    }
    proof {
        lemma_grown_trans(code0, kids0, code1, kids@, code@, kids@);
        match s0 {
            Stmt::If(c, a, b) => {
                if let Instr::If(_, ia, ib) = ginstr {
                    lemma_stored_grows(code1, kids@, code@, kids@, ia as int, *a);
                    if let Some(x) = b {
                        lemma_stored_grows(code1, kids@, code@, kids@, ib->Some_0 as int, *x);
                    }
                }
            },
            Stmt::While(c, body) => {
                if let Instr::While(_, ib) = ginstr {
                    lemma_stored_grows(code1, kids@, code@, kids@, ib as int, *body);
                }
            },
            _ => {},
        }
    }
    r
}

} // verus!
