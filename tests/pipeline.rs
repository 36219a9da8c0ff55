use rlox::interpreter::{Action, Interpreter, NumberOp, NumberReply, NumberRequest};
use rlox::Lox;

fn number(s: &str) -> f64 {
    s.parse::<f64>().unwrap()
}

fn answer(q: &NumberRequest) -> NumberReply {
    match q {
        NumberRequest::Binary(op, a, b) => {
            let (x, y) = (number(a), number(b));
            match op {
                NumberOp::Add => NumberReply::Text(format!("{}", x + y)),
                NumberOp::Subtract => NumberReply::Text(format!("{}", x - y)),
                NumberOp::Multiply => NumberReply::Text(format!("{}", x * y)),
                NumberOp::Divide => NumberReply::Text(format!("{}", x / y)),
                NumberOp::Greater => NumberReply::Truth(x > y),
                NumberOp::GreaterEqual => NumberReply::Truth(x >= y),
                NumberOp::Less => NumberReply::Truth(x < y),
                NumberOp::LessEqual => NumberReply::Truth(x <= y),
                NumberOp::Equal => NumberReply::Truth(x == y),
            }
        }
        NumberRequest::Negate(a) => NumberReply::Text(format!("{}", -number(a))),
        NumberRequest::Show(a) => NumberReply::Text(format!("{}", number(a))),
    }
}

fn run_line(lox: &mut Lox, interpreter: &mut Interpreter, source: &str) -> Vec<String> {
    lox.run(source.to_string(), interpreter);
    let mut out = Vec::new();
    let mut reply = None;
    loop {
        match interpreter.step(reply.take()) {
            Action::Continue => {}
            Action::Output(line) => out.push(line),
            Action::Ask(q) => reply = Some(answer(&q)),
            Action::Failed(e) => {
                lox.runtime_error(e);
                break;
            }
            Action::Finished => break,
        }
    }
    out
}

fn run(source: &str) -> (Vec<String>, Lox) {
    let mut lox = Lox::new();
    let mut interpreter = Interpreter::new();
    let out = run_line(&mut lox, &mut interpreter, source);
    (out, lox)
}

#[test]
fn prints_sum() {
    let (out, lox) = run("print 1 + 2;");
    assert_eq!(out, vec!["3"]);
    assert!(!lox.had_error && !lox.had_runtime_error);
}

#[test]
fn var_redefinition_overwrites() {
    let (out, _) = run("var a = \"foo\"; var a = \"bar\"; print a;");
    assert_eq!(out, vec!["bar"]);
}

#[test]
fn equality_across_kinds() {
    let (out, _) = run("print \"a\" == \"a\"; print nil == false;");
    assert_eq!(out, vec!["true", "false"]);
}

#[test]
fn while_loop_counts() {
    let (out, _) = run("var x = 0; while (x < 3) { print x; x = x + 1; }");
    assert_eq!(out, vec!["0", "1", "2"]);
}

#[test]
fn block_variable_is_gone_after_block() {
    let (out, lox) = run("{ var x = \"inner\"; } print x;");
    assert!(out.is_empty());
    assert!(lox.had_runtime_error);
    assert!(!lox.had_error);
    let d = lox.diagnostics.last().unwrap();
    assert!(d.runtime);
    assert_eq!(d.message, "Undefined variable 'x'.");
}

#[test]
fn dangling_plus_is_one_parse_error() {
    let (out, lox) = run("1 +;");
    assert!(out.is_empty());
    assert!(lox.had_error);
    assert!(!lox.had_runtime_error);
    assert_eq!(lox.diagnostics.len(), 1);
    assert_eq!(lox.diagnostics[0].location, " at ';'");
    assert_eq!(lox.diagnostics[0].message, "Expect expression.");
    assert_eq!(lox.diagnostics[0].line, 1);
}

#[test]
fn integral_numbers_show_no_point() {
    let (out, _) = run("print 4.0; print 4.5; print 2 * 2; print 10 / 4; print 007;");
    assert_eq!(out, vec!["4", "4.5", "4", "2.5", "7"]);
}

#[test]
fn and_skips_right_when_left_falsy() {
    let (out, _) = run("var c = 0; false and (c = 1); print c; print false and (c = 2);");
    assert_eq!(out, vec!["0", "false"]);
}

#[test]
fn or_skips_right_when_left_truthy() {
    let (out, _) = run("var c = 0; true or (c = 1); print c; print 7 or (c = 2); print c;");
    assert_eq!(out, vec!["0", "7", "0"]);
}

#[test]
fn logical_evaluates_right_when_needed() {
    let (out, _) = run("var c = 0; true and (c = 1); false or (c = c + 1); print c; print nil or \"x\";");
    assert_eq!(out, vec!["2", "x"]);
}

#[test]
fn assignment_in_block_updates_outer() {
    let (out, _) = run("var a = 1; { a = 2; var b = 3; } print a;");
    assert_eq!(out, vec!["2"]);
}

#[test]
fn shadowing_in_block() {
    let (out, _) = run("var a = \"outer\"; { var a = \"inner\"; print a; } print a;");
    assert_eq!(out, vec!["inner", "outer"]);
}

#[test]
fn assign_to_undefined_is_runtime_error() {
    let (out, lox) = run("y = 1; print 5;");
    assert!(out.is_empty());
    assert!(lox.had_runtime_error);
    assert_eq!(lox.diagnostics[0].message, "Undefined variable 'y'.");
}

#[test]
fn runtime_error_stops_remaining_statements() {
    let (out, lox) = run("print 1; print -\"a\"; print 2;");
    assert_eq!(out, vec!["1"]);
    assert_eq!(lox.diagnostics[0].message, "Invalid negation operand.");
}

#[test]
fn operands_must_be_numbers() {
    let (_, lox) = run("print 1 < \"a\";");
    assert_eq!(lox.diagnostics[0].message, "Operands must be numbers.");
    let (_, lox) = run("print \"a\" - \"b\";");
    assert_eq!(lox.diagnostics[0].message, "Operands must be numbers.");
}

#[test]
fn plus_needs_matching_operands() {
    let (_, lox) = run("print 1 + \"a\";");
    assert_eq!(lox.diagnostics[0].message, "Operands must be either two numbers or two strings.");
    assert_eq!(lox.diagnostics[0].line, 1);
}

#[test]
fn string_concatenation() {
    let (out, _) = run("var s = \"ab\" + \"cd\"; print s + \"!\";");
    assert_eq!(out, vec!["abcd!"]);
}

#[test]
fn truthiness_rules() {
    let (out, _) = run("print !nil; print !false; print !0; print !\"\"; if (0) print \"zero\"; if (\"\") print \"empty\"; if (nil) print 1; else print 2;");
    assert_eq!(out, vec!["true", "true", "false", "false", "zero", "empty", "2"]);
}

#[test]
fn equality_rules() {
    let (out, _) = run("print nil == nil; print 1 == \"1\"; print true == true; print 1 == 1; print 1 != 2; print \"a\" != \"a\";");
    assert_eq!(out, vec!["true", "false", "true", "true", "true", "false"]);
}

#[test]
fn division_by_zero_is_not_an_error() {
    let (out, lox) = run("print 1 / 0; print -1 / 0;");
    assert_eq!(out, vec!["inf", "-inf"]);
    assert!(!lox.had_runtime_error);
}

#[test]
fn fractional_results_kept() {
    let (out, _) = run("print 0.1 + 0.2; print -2.5; print 3 - 5;");
    assert_eq!(out, vec!["0.30000000000000004", "-2.5", "-2"]);
}

#[test]
fn for_loop_desugars() {
    let (out, _) = run("for (var i = 0; i < 3; i = i + 1) print i;");
    assert_eq!(out, vec!["0", "1", "2"]);
    let (out, lox) = run("for (var i = 0; i < 1; i = i + 1) {} print i;");
    assert!(out.is_empty());
    assert!(lox.had_runtime_error);
}

#[test]
fn for_loop_without_clauses_parts() {
    let (out, _) = run("var i = 0; for (; i < 2;) { print i; i = i + 1; }");
    assert_eq!(out, vec!["0", "1"]);
}

#[test]
fn comparison_and_precedence() {
    let (out, _) = run("print 1 + 2 * 3; print (1 + 2) * 3; print 2 >= 2; print 3 > 4; print 1 <= 0; print -(-3);");
    assert_eq!(out, vec!["7", "9", "true", "false", "false", "3"]);
}

#[test]
fn if_else_branches() {
    let (out, _) = run("if (1 > 2) print \"a\"; else print \"b\"; if (true) print \"c\";");
    assert_eq!(out, vec!["b", "c"]);
}

#[test]
fn variables_persist_across_runs() {
    let mut lox = Lox::new();
    let mut interpreter = Interpreter::new();
    assert!(run_line(&mut lox, &mut interpreter, "var a = 1;").is_empty());
    assert_eq!(run_line(&mut lox, &mut interpreter, "print a + 1;"), vec!["2"]);
}

#[test]
fn malformed_line_then_good_lines() {
    let mut lox = Lox::new();
    let mut interpreter = Interpreter::new();
    assert!(run_line(&mut lox, &mut interpreter, "var = 1;").is_empty());
    assert_eq!(lox.diagnostics.len(), 1);
    lox.had_error = false;
    assert_eq!(run_line(&mut lox, &mut interpreter, "print 1;"), vec!["1"]);
    assert_eq!(run_line(&mut lox, &mut interpreter, "print 2;"), vec!["2"]);
    assert_eq!(lox.diagnostics.len(), 1);
}

#[test]
fn static_error_suppresses_execution() {
    let (out, lox) = run("print 1; print ;");
    assert!(out.is_empty());
    assert!(lox.had_error);
}

#[test]
fn scan_errors_reported_and_scanning_continues() {
    let (out, lox) = run("print 1; @ # print 2;");
    assert!(out.is_empty());
    assert_eq!(lox.diagnostics.len(), 2);
    assert_eq!(lox.diagnostics[0].message, "Unexpected character.");
    assert_eq!(lox.diagnostics[0].location, "");
}

#[test]
fn invalid_assignment_target() {
    let (_, lox) = run("1 = 2;");
    assert_eq!(lox.diagnostics.len(), 1);
    assert_eq!(lox.diagnostics[0].message, "Invalid assignment target.");
    assert_eq!(lox.diagnostics[0].location, " at '='");
}

#[test]
fn unclosed_group() {
    let (_, lox) = run("print (1 + 2;");
    assert_eq!(lox.diagnostics.len(), 1);
    assert_eq!(lox.diagnostics[0].message, "Expect ')' after expression.");
}

#[test]
fn missing_semicolon_at_end() {
    let (_, lox) = run("print 1");
    assert_eq!(lox.diagnostics.len(), 1);
    assert_eq!(lox.diagnostics[0].location, " at end");
    assert_eq!(lox.diagnostics[0].message, "Expect ';' after value.");
}

#[test]
fn nil_and_bool_display() {
    let (out, _) = run("var n; print n; print true; print false;");
    assert_eq!(out, vec!["nil", "true", "false"]);
}

#[test]
fn chained_assignment() {
    let (out, _) = run("var a; var b; a = b = 3; print a; print b;");
    assert_eq!(out, vec!["3", "3"]);
}

#[test]
fn step_asks_for_number_work() {
    let mut lox = Lox::new();
    let mut interpreter = Interpreter::new();
    lox.run("print 1 + 2;".to_string(), &mut interpreter);
    match interpreter.step(None) {
        Action::Ask(NumberRequest::Binary(NumberOp::Add, a, b)) => {
            assert_eq!(a, "1");
            assert_eq!(b, "2");
        }
        _ => panic!("expected a request for the sum"),
    }
    match interpreter.step(Some(NumberReply::Text("3".to_string()))) {
        Action::Ask(NumberRequest::Show(x)) => assert_eq!(x, "3"),
        _ => panic!("expected a request for the display form"),
    }
    match interpreter.step(Some(NumberReply::Text("3".to_string()))) {
        Action::Output(line) => assert_eq!(line, "3"),
        _ => panic!("expected output"),
    }
    assert!(matches!(interpreter.step(None), Action::Finished));
}

#[test]
fn block_scope_restored_after_runtime_error() {
    let mut lox = Lox::new();
    let mut interpreter = Interpreter::new();
    let out = run_line(&mut lox, &mut interpreter, "var a = 1; { var a = 2; print b; }");
    assert!(out.is_empty());
    assert!(lox.had_runtime_error);
    assert_eq!(run_line(&mut lox, &mut interpreter, "print a;"), vec!["1"]);
}

#[test]
fn unicode_identifier() {
    let (out, lox) = run("var é = 1; print é;");
    assert_eq!(out, vec!["1"]);
    assert!(!lox.had_error);
}

#[test]
fn subtraction_is_left_associative() {
    let (out, _) = run("print 1 - 2 - 3 * 4;");
    assert_eq!(out, vec!["-13"]);
}

#[test]
fn and_is_logical() {
    let (out, _) = run("var a = true; var b = false; print a and b; print b or a;");
    assert_eq!(out, vec!["false", "true"]);
}

#[test]
fn empty_block_runs() {
    let (out, lox) = run("{} print 1;");
    assert_eq!(out, vec!["1"]);
    assert!(!lox.had_error);
}

#[test]
fn assignment_target_error_at_equals() {
    let (_, lox) = run("var a; var b; var c; a + b = c;");
    assert_eq!(lox.diagnostics.len(), 1);
    assert_eq!(lox.diagnostics[0].message, "Invalid assignment target.");
    assert_eq!(lox.diagnostics[0].location, " at '='");
}

#[test]
fn group_needs_closing_paren() {
    let (_, lox) = run("(1 2;");
    assert_eq!(lox.diagnostics[0].message, "Expect ')' after expression.");
    assert_eq!(lox.diagnostics[0].location, " at '2'");
}

#[test]
fn for_without_condition_or_increment_runs_body() {
    let (out, _) = run("var i = 0; for (; i < 2;) i = i + 1; print i; for (;false;) print 9;");
    assert_eq!(out, vec!["2"]);
}

#[test]
fn each_malformed_declaration_reported() {
    let (out, lox) = run("var = 1; print 1; 1 +; print 2;");
    assert!(out.is_empty());
    assert_eq!(lox.diagnostics.len(), 2);
}
