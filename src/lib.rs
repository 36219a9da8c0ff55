pub mod ast;
pub mod environment;
pub mod interpreter;
pub mod parser;
pub mod scanner;
pub mod token;

use vstd::prelude::*;
use crate::interpreter::{stored, Interpreter, RuntimeError, Work};
use crate::ast::Stmt;
use crate::parser::{error_views, models, parse_program, unboxed, ParseError, Parser};
use crate::scanner::{error_models, lex_from, scanned, token_models, Scanner};
use crate::token::{Token, TokenType};

verus! {

/// One reported error: its line, where on the line (empty for a runtime
/// error), its message, and whether it arose at run time.
pub struct Diagnostic {
    pub line: usize,
    pub location: String,
    pub message: String,
    pub runtime: bool,
}

/// `ts` are the tokens scanned from `text`, `v` the program that the rule
/// `program` parses from them without error, and `interpreter` has `v`
/// stored as its pending work, the first declaration next.
pub open spec fn program_of(text: Seq<char>, ts: Seq<Token>, v: Seq<Stmt>, interpreter: Interpreter) -> bool {
    &&& token_models(ts) == scanned(text)
    &&& parse_program(ts, 0, Seq::empty(), Seq::empty()) == (models(v), Seq::<(Token, Seq<char>)>::empty())
    &&& interpreter.pending().len() == v.len()
    &&& forall|j: int|
        0 <= j < v.len() ==> (#[trigger] interpreter.pending()[v.len() - 1 - j] matches Work::Run(x)
            && stored(interpreter.program(), interpreter.children(), x as int, v[j]))
}

/// Where a syntax error at `tok` is reported: at the end of input, or at
/// the token's text.
pub open spec fn location_of(tok: Token) -> Seq<char> {
    if tok.token_type == TokenType::Eof {
        " at end"@
    } else {
        " at '"@ + tok.lexeme@ + "'"@
    }
}

/// `ds` from `start` on reports the syntax errors `errs`, in order, and
/// nothing else.
pub open spec fn reports_syntax_errors(ds: Seq<Diagnostic>, start: int, errs: Seq<(Token, Seq<char>)>) -> bool {
    &&& ds.len() == start + errs.len()
    &&& forall|i: int|
        0 <= i < errs.len() ==> {
            let d = #[trigger] ds[start + i];
            &&& d.line == errs[i].0.line
            &&& d.message@ == errs[i].1
            &&& d.location@ == location_of(errs[i].0)
            &&& !d.runtime
        }
}

/// `ts` are the tokens scanned from `text`, and `ds` reports, from `start`
/// on, the lexical errors and then the syntax errors of parsing `ts`.
pub open spec fn reported(text: Seq<char>, ts: Seq<Token>, start: int, ds: Seq<Diagnostic>) -> bool {
    &&& token_models(ts) == scanned(text)
    &&& reports_syntax_errors(ds, start + lex_from(text, 0).1.len(), parse_program(ts, 0, Seq::empty(), Seq::empty()).1)
}

/// The diagnostics collector that the pipeline reports into, with the
/// flags that the host maps to exit codes.
pub struct Lox {
    pub had_error: bool,
    pub had_runtime_error: bool,
    pub diagnostics: Vec<Diagnostic>,
}

impl Lox {
    pub fn new() -> (r: Lox)
        ensures
            !r.had_error,
            !r.had_runtime_error,
            r.diagnostics@.len() == 0,
    {
        Lox { had_error: false, had_runtime_error: false, diagnostics: Vec::new() }
    }

    /// Reports a lexical error found on `line`.
    pub fn error(&mut self, line: usize, message: String)
        ensures
            final(self).had_error,
            final(self).had_runtime_error == old(self).had_runtime_error,
            final(self).diagnostics@.len() == old(self).diagnostics@.len() + 1,
            final(self).diagnostics@.drop_last() == old(self).diagnostics@,
            final(self).diagnostics@.last().line == line,
            final(self).diagnostics@.last().message == message,
            final(self).diagnostics@.last().location@ == Seq::<char>::empty(),
            !final(self).diagnostics@.last().runtime,
    {
        self.report(line, String::new(), message);
        assert(self.diagnostics@.drop_last() =~= old(self).diagnostics@);
    }

    /// Reports a syntax error at its token: " at end" for the end of input,
    /// else " at '<lexeme>'".
    pub fn parse_error(&mut self, error: &ParseError)
        ensures
            final(self).had_error,
            final(self).had_runtime_error == old(self).had_runtime_error,
            final(self).diagnostics@.len() == old(self).diagnostics@.len() + 1,
            final(self).diagnostics@.drop_last() == old(self).diagnostics@,
            final(self).diagnostics@.last().line == error.token.line,
            final(self).diagnostics@.last().message == error.message,
            !final(self).diagnostics@.last().runtime,
            error.token.token_type == TokenType::Eof ==> final(self).diagnostics@.last().location@
                == " at end"@,
            error.token.token_type != TokenType::Eof ==> final(self).diagnostics@.last().location@
                == " at '"@ + error.token.lexeme@ + "'"@,
    {
        let location = if error.token.token_type == TokenType::Eof {
            String::from_str(" at end")
        } else {
            let mut l = String::from_str(" at '");
            l.append(error.token.lexeme.as_str());
            l.append("'");
            l
        };
        self.report(error.token.line, location, error.message.clone());
        assert(self.diagnostics@.drop_last() =~= old(self).diagnostics@);
    }

    /// Reports a runtime error at the line of its token.
    pub fn runtime_error(&mut self, error: RuntimeError)
        ensures
            final(self).had_runtime_error,
            final(self).had_error == old(self).had_error,
            final(self).diagnostics@.len() == old(self).diagnostics@.len() + 1,
            final(self).diagnostics@.drop_last() == old(self).diagnostics@,
            final(self).diagnostics@.last().line == error.token.line,
            final(self).diagnostics@.last().message == error.message,
            final(self).diagnostics@.last().location@ == Seq::<char>::empty(),
            final(self).diagnostics@.last().runtime,
    {
        let line = error.token.line;
        self.diagnostics.push(
            Diagnostic { line, location: String::new(), message: error.message, runtime: true },
        );
        self.had_runtime_error = true;
        assert(self.diagnostics@.drop_last() =~= old(self).diagnostics@);
    }

    /// Records a static error and raises the error flag.
    pub fn report(&mut self, line: usize, location: String, message: String)
        ensures
            final(self).had_error,
            final(self).had_runtime_error == old(self).had_runtime_error,
            final(self).diagnostics@ == old(self).diagnostics@.push(
                Diagnostic { line, location, message, runtime: false },
            ),
    {
        self.diagnostics.push(Diagnostic { line, location, message, runtime: false });
        self.had_error = true;
    }

    /// Scans and parses `source`, reporting every lexical error, in order,
    /// then every syntax error. When there was none, the program is loaded
    /// into `interpreter` for its host to run step by step: its statements
    /// derive the scanned tokens by the grammar, and become the pending
    /// work in order. Otherwise the interpreter is left as it was.
    #[verifier::rlimit(80)]
    pub fn run(&mut self, source: String, interpreter: &mut Interpreter)
        requires
            source@.len() < usize::MAX,
            old(interpreter).wf(),
        ensures
            final(interpreter).wf(),
            final(self).had_runtime_error == old(self).had_runtime_error,
            final(self).diagnostics@.len() >= old(self).diagnostics@.len() + lex_from(source@, 0).1.len(),
            final(self).diagnostics@.subrange(0, old(self).diagnostics@.len() as int)
                == old(self).diagnostics@,
            forall|i: int|
                0 <= i < lex_from(source@, 0).1.len() ==> {
                    let d = #[trigger] final(self).diagnostics@[old(self).diagnostics@.len() + i];
                    &&& d.line == lex_from(source@, 0).1[i].0
                    &&& d.message@ == lex_from(source@, 0).1[i].1
                    &&& d.location@ == Seq::<char>::empty()
                    &&& !d.runtime
                },
            exists|ts: Seq<Token>|
                #[trigger] reported(source@, ts, old(self).diagnostics@.len() as int, final(self).diagnostics@),
            final(self).had_error == (old(self).had_error || final(self).diagnostics@.len()
                > old(self).diagnostics@.len()),
            final(self).diagnostics@.len() > old(self).diagnostics@.len() ==> *final(interpreter)
                == *old(interpreter),
            final(self).diagnostics@.len() == old(self).diagnostics@.len()
                ==> final(interpreter).replies().len() == 0,
            final(self).diagnostics@.len() == old(self).diagnostics@.len()
                ==> final(interpreter).scopes() == old(interpreter).scopes().subrange(0, 1),
            final(self).diagnostics@.len() == old(self).diagnostics@.len() ==> exists|
                ts: Seq<Token>,
                v: Seq<Stmt>,
            |
                #[trigger] program_of(source@, ts, v, *final(interpreter)),
    {
        let ghost text = source@;
        let ghost before = self.diagnostics@;
        let mut scanner = Scanner::new(source);
        let tokens = scanner.scan_tokens();
        let scan_errors = scanner.errors();
        let ghost lexed = lex_from(text, 0).1;
        assert(error_models(scan_errors@) == lexed);
        let mut i: usize = 0;
        while i < scan_errors.len()
            invariant
                i <= scan_errors@.len(),
                error_models(scan_errors@) == lexed,
                self.had_runtime_error == old(self).had_runtime_error,
                self.diagnostics@.len() == before.len() + i,
                self.diagnostics@.subrange(0, before.len() as int) == before,
                self.had_error == (old(self).had_error || i > 0),
                forall|x: int|
                    0 <= x < i ==> {
                        let d = #[trigger] self.diagnostics@[before.len() + x];
                        &&& d.line == lexed[x].0
                        &&& d.message@ == lexed[x].1
                        &&& d.location@ == Seq::<char>::empty()
                        &&& !d.runtime
                    },
            decreases scan_errors@.len() - i,
        {
            let ghost d0 = self.diagnostics@;
            self.error(scan_errors[i].line, scan_errors[i].message.clone());
            assert(self.diagnostics@.subrange(0, before.len() as int) =~= d0.subrange(0, before.len() as int));
            assert forall|x: int| 0 <= x < i + 1 implies {
                let d = #[trigger] self.diagnostics@[before.len() + x];
                &&& d.line == lexed[x].0
                &&& d.message@ == lexed[x].1
                &&& d.location@ == Seq::<char>::empty()
                &&& !d.runtime
            } by {
                if x < i {
                    assert(self.diagnostics@[before.len() + x] == d0[before.len() + x]);
                }
            }
            i = i + 1;
        }
        let ghost ts = tokens@;
        let mut parser = Parser::new(tokens);
        let statements = parser.parse();
        let ghost v = unboxed(statements@);
        let parse_errors = parser.errors();
        let mut j: usize = 0;
        while j < parse_errors.len()
            invariant
                j <= parse_errors@.len(),
                lexed.len() == scan_errors@.len(),
                forall|x: int| 0 <= x < j ==> {
                    let d = #[trigger] self.diagnostics@[before.len() + lexed.len() + x];
                    &&& d.line == error_views(parse_errors@)[x].0.line
                    &&& d.message@ == error_views(parse_errors@)[x].1
                    &&& d.location@ == location_of(error_views(parse_errors@)[x].0)
                    &&& !d.runtime
                },
                self.had_runtime_error == old(self).had_runtime_error,
                self.diagnostics@.len() == before.len() + scan_errors@.len() + j,
                self.diagnostics@.subrange(0, before.len() as int) == before,
                self.had_error == (old(self).had_error || scan_errors@.len() + j > 0),
                forall|x: int|
                    0 <= x < lexed.len() ==> {
                        let d = #[trigger] self.diagnostics@[before.len() + x];
                        &&& d.line == lexed[x].0
                        &&& d.message@ == lexed[x].1
                        &&& d.location@ == Seq::<char>::empty()
                        &&& !d.runtime
                    },
            decreases parse_errors@.len() - j,
        {
            let ghost d0 = self.diagnostics@;
            self.parse_error(&parse_errors[j]);
            assert forall|x: int| 0 <= x < j + 1 implies {
                let d = #[trigger] self.diagnostics@[before.len() + lexed.len() + x];
                &&& d.line == error_views(parse_errors@)[x].0.line
                &&& d.message@ == error_views(parse_errors@)[x].1
                &&& d.location@ == location_of(error_views(parse_errors@)[x].0)
                &&& !d.runtime
            } by {
                if x < j {
                    assert(self.diagnostics@[before.len() + lexed.len() + x] == d0[before.len() + lexed.len() + x]);
                }
            }
            assert(self.diagnostics@.subrange(0, before.len() as int) =~= d0.subrange(0, before.len() as int));
            assert forall|x: int| 0 <= x < lexed.len() implies {
                let d = #[trigger] self.diagnostics@[before.len() + x];
                &&& d.line == lexed[x].0
                &&& d.message@ == lexed[x].1
                &&& d.location@ == Seq::<char>::empty()
                &&& !d.runtime
            } by {
                assert(self.diagnostics@[before.len() + x] == d0[before.len() + x]);
            }
            j = j + 1;
        }
        assert(reported(text, ts, before.len() as int, self.diagnostics@)) by {
            assert(error_views(parse_errors@) == parse_program(ts, 0, Seq::empty(), Seq::empty()).1);
        }
        if scan_errors.len() == 0 && parse_errors.len() == 0 {
            interpreter.interpret(statements);
            proof {
                assert(ts.len() - 1 == parser.position()) by {
                    if parser.position() < ts.len() - 1 {
                        assert(ts[parser.position()].token_type != TokenType::Eof);
                    }
                }
                assert(parser.error_list() =~= Seq::<(Token, Seq<char>)>::empty());
                assert(program_of(text, ts, v, *interpreter));
            }
        }
    }
}

} // verus!
