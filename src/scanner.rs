use vstd::prelude::*;
use crate::token::{lookup_keyword, word_kind, Literal, Token, TokenModel, TokenType, Val};

verus! {

/// A lexical error: the line it was found on and what went wrong.
pub struct ScanError {
    pub line: usize,
    pub message: String,
}

/// Number of newline characters in `s`.
pub open spec fn newlines(s: Seq<char>) -> nat
    decreases s.len(),
{
    if s.len() == 0 {
        0
    } else {
        newlines(s.drop_last()) + if s.last() == '\n' {
            1nat
        } else {
            0nat
        }
    }
}

proof fn lemma_newlines_bound(s: Seq<char>)
    ensures
        newlines(s) <= s.len(),
    decreases s.len(),
{
    if s.len() > 0 {
        lemma_newlines_bound(s.drop_last());
    }
}

pub open spec fn is_digit(c: char) -> bool {
    '0' <= c && c <= '9'
}

/// Whether `c` has the Unicode Alphabetic property.
pub uninterp spec fn alphabetic(c: char) -> bool;

/// Whether `c` is Unicode Alphabetic or Numeric.
pub uninterp spec fn alphanumeric(c: char) -> bool;

/// A character that starts an identifier: a letter or `_`.
pub open spec fn is_alpha(c: char) -> bool {
    alphabetic(c) || c == '_'
}

/// A character that continues an identifier: a letter, a digit or `_`.
pub open spec fn is_alphanumeric(c: char) -> bool {
    alphanumeric(c) || c == '_'
}

/// Relies on `char::is_alphabetic`: whether the character has the Unicode
/// Alphabetic property.
#[verifier::external_body]
fn letter(c: char) -> (r: bool)
    ensures
        r == alphabetic(c),
{
    c.is_alphabetic()
}

/// Relies on `char::is_alphanumeric`: whether the character is Unicode
/// Alphabetic or Numeric.
#[verifier::external_body]
fn letter_or_digit(c: char) -> (r: bool)
    ensures
        r == alphanumeric(c),
{
    c.is_alphanumeric()
}

fn digit(c: char) -> (r: bool)
    ensures
        r == is_digit(c),
{
    '0' <= c && c <= '9'
}

fn alpha(c: char) -> (r: bool)
    ensures
        r == is_alpha(c),
{
    c == '_' || letter(c)
}

fn alnum(c: char) -> (r: bool)
    ensures
        r == is_alphanumeric(c),
{
    c == '_' || letter_or_digit(c)
}

/// End of the run of digits that starts at `p`.
pub open spec fn digits_end(c: Seq<char>, p: int) -> int
    decreases c.len() - p,
{
    if 0 <= p < c.len() && is_digit(c[p]) {
        digits_end(c, p + 1)
    } else {
        p
    }
}

/// End of the run of letters, digits and underscores that starts at `p`.
pub open spec fn word_end(c: Seq<char>, p: int) -> int
    decreases c.len() - p,
{
    if 0 <= p < c.len() && is_alphanumeric(c[p]) {
        word_end(c, p + 1)
    } else {
        p
    }
}

/// First position from `p` on that holds `stop`, or the end of the text.
pub open spec fn find_end(c: Seq<char>, p: int, stop: char) -> int
    decreases c.len() - p,
{
    if 0 <= p < c.len() && c[p] != stop {
        find_end(c, p + 1, stop)
    } else {
        p
    }
}

/// End of a number literal whose first digit ends at `p`: more digits,
/// then a fractional part only if a digit follows the `.`.
pub open spec fn number_end(c: Seq<char>, p: int) -> int {
    let d = digits_end(c, p);
    if d + 1 < c.len() && c[d] == '.' && is_digit(c[d + 1]) {
        digits_end(c, d + 1)
    } else {
        d
    }
}

/// What the scanner does with the text at `p`.
pub enum Lexed {
    /// A token of this kind, ending at the position given.
    Emit(TokenType, int),
    /// Whitespace or a comment, ending at the position given.
    Skip(int),
    /// A character that starts no token.
    Unexpected(int),
    /// A string that is not closed before the end of the text.
    Unterminated(int),
}

pub open spec fn lexed_end(l: Lexed) -> int {
    match l {
        Lexed::Emit(_, e) => e,
        Lexed::Skip(e) => e,
        Lexed::Unexpected(e) => e,
        Lexed::Unterminated(e) => e,
    }
}

/// A one- or two-character operator: `two` when the next character is `=`.
pub open spec fn with_equal(c: Seq<char>, p: int, one: TokenType, two: TokenType) -> Lexed {
    if p + 1 < c.len() && c[p + 1] == '=' {
        Lexed::Emit(two, p + 2)
    } else {
        Lexed::Emit(one, p + 1)
    }
}

/// The lexical rule at position `p` of the text `c`.
pub open spec fn lex_step(c: Seq<char>, p: int) -> Lexed {
    let ch = c[p];
    if ch == '(' {
        Lexed::Emit(TokenType::LeftParen, p + 1)
    } else if ch == ')' {
        Lexed::Emit(TokenType::RightParen, p + 1)
    } else if ch == '{' {
        Lexed::Emit(TokenType::LeftBrace, p + 1)
    } else if ch == '}' {
        Lexed::Emit(TokenType::RightBrace, p + 1)
    } else if ch == ',' {
        Lexed::Emit(TokenType::Comma, p + 1)
    } else if ch == '.' {
        Lexed::Emit(TokenType::Dot, p + 1)
    } else if ch == '-' {
        Lexed::Emit(TokenType::Minus, p + 1)
    } else if ch == '+' {
        Lexed::Emit(TokenType::Plus, p + 1)
    } else if ch == ';' {
        Lexed::Emit(TokenType::Semicolon, p + 1)
    } else if ch == '*' {
        Lexed::Emit(TokenType::Star, p + 1)
    } else if ch == '!' {
        with_equal(c, p, TokenType::Bang, TokenType::BangEqual)
    } else if ch == '=' {
        with_equal(c, p, TokenType::Equal, TokenType::EqualEqual)
    } else if ch == '<' {
        with_equal(c, p, TokenType::Less, TokenType::LessEqual)
    } else if ch == '>' {
        with_equal(c, p, TokenType::Greater, TokenType::GreaterEqual)
    } else if ch == '/' {
        if p + 1 < c.len() && c[p + 1] == '/' {
            Lexed::Skip(find_end(c, p + 2, '\n'))
        } else {
            Lexed::Emit(TokenType::Slash, p + 1)
        }
    } else if ch == ' ' || ch == '\r' || ch == '\t' || ch == '\n' {
        Lexed::Skip(p + 1)
    } else if ch == '"' {
        let q = find_end(c, p + 1, '"');
        if q >= c.len() {
            Lexed::Unterminated(q)
        } else {
            Lexed::Emit(TokenType::String, q + 1)
        }
    } else if is_digit(ch) {
        Lexed::Emit(TokenType::Number, number_end(c, p + 1))
    } else if is_alpha(ch) {
        let e = word_end(c, p + 1);
        Lexed::Emit(word_kind(c.subrange(p, e)), e)
    } else {
        Lexed::Unexpected(p + 1)
    }
}

/// The line that position `p` of `c` is on.
pub open spec fn line_at(c: Seq<char>, p: int) -> nat {
    1 + newlines(c.subrange(0, p))
}

/// The token of kind `k` scanned from `p` to `e`.
pub open spec fn token_model(c: Seq<char>, k: TokenType, p: int, e: int) -> TokenModel {
    TokenModel {
        kind: k,
        text: c.subrange(p, e),
        value: Some(
            if k == TokenType::String {
                Val::Str(c.subrange(p + 1, e - 1))
            } else if k == TokenType::Number {
                Val::Number(c.subrange(p, e))
            } else {
                Val::Nil
            },
        ),
        line: line_at(c, e),
    }
}

/// The tokens and the errors (line, message) that scanning `c` from `p`
/// produces.
pub open spec fn lex_from(c: Seq<char>, p: int) -> (Seq<TokenModel>, Seq<(nat, Seq<char>)>)
    decreases c.len() - p,
{
    if p < 0 || p >= c.len() {
        (Seq::empty(), Seq::empty())
    } else {
        let st = lex_step(c, p);
        let e = lexed_end(st);
        if e <= p || e > c.len() {
            (Seq::empty(), Seq::empty())
        } else {
            let rest = lex_from(c, e);
            match st {
                Lexed::Emit(k, _) => (seq![token_model(c, k, p, e)] + rest.0, rest.1),
                Lexed::Skip(_) => rest,
                Lexed::Unexpected(_) => (
                    rest.0,
                    seq![(line_at(c, e), "Unexpected character."@)] + rest.1,
                ),
                Lexed::Unterminated(_) => (
                    rest.0,
                    seq![(line_at(c, e), "Unterminated string."@)] + rest.1,
                ),
            }
        }
    }
}

/// The end-of-input token that closes the scan of `c`.
pub open spec fn eof_model(c: Seq<char>) -> TokenModel {
    TokenModel { kind: TokenType::Eof, text: Seq::empty(), value: None, line: line_at(c, c.len() as int) }
}

/// The tokens that scanning `c` produces, end-of-input included.
pub open spec fn scanned(c: Seq<char>) -> Seq<TokenModel> {
    lex_from(c, 0).0.push(eof_model(c))
}

pub open spec fn token_models(ts: Seq<Token>) -> Seq<TokenModel> {
    ts.map_values(|t: Token| t@)
}

pub open spec fn error_models(es: Seq<ScanError>) -> Seq<(nat, Seq<char>)> {
    es.map_values(|e: ScanError| (e.line as nat, e.message@))
}

/// The lines of `tokens` never decrease, and none is an end-of-input token.
pub open spec fn ordered_body(tokens: Seq<Token>, line: nat) -> bool {
    &&& forall|i: int| 0 <= i < tokens.len() ==> (#[trigger] tokens[i]).token_type != TokenType::Eof
    &&& forall|i: int| 0 <= i < tokens.len() ==> 1 <= (#[trigger] tokens[i]).line <= line
    &&& forall|i: int, j: int| 0 <= i <= j < tokens.len() ==> tokens[i].line <= tokens[j].line
}

/// Converts source text into tokens, in a single left-to-right pass.
pub struct Scanner {
    source: String,
    chars: Vec<char>,
    tokens: Vec<Token>,
    errors: Vec<ScanError>,
    start: usize,
    current: usize,
    line: usize,
}

/// What one lexical step turns the tokens and errors scanned so far into.
pub open spec fn step_output(
    ts: Seq<TokenModel>,
    es: Seq<(nat, Seq<char>)>,
    c: Seq<char>,
    p: int,
) -> (Seq<TokenModel>, Seq<(nat, Seq<char>)>) {
    match lex_step(c, p) {
        Lexed::Emit(k, e) => (ts.push(token_model(c, k, p, e)), es),
        Lexed::Skip(_) => (ts, es),
        Lexed::Unexpected(e) => (ts, es.push((line_at(c, e), "Unexpected character."@))),
        Lexed::Unterminated(e) => (ts, es.push((line_at(c, e), "Unterminated string."@))),
    }
}

impl Scanner {
    pub closed spec fn wf(&self) -> bool {
        &&& self.chars@ == self.source@
        &&& self.chars@.len() < usize::MAX
        &&& self.start <= self.current <= self.chars@.len()
        &&& self.line == line_at(self.chars@, self.current as int)
        &&& ordered_body(self.tokens@, self.line as nat)
    }

    /// The text being scanned.
    pub closed spec fn text(&self) -> Seq<char> {
        self.source@
    }

    /// Nothing of the text has been scanned yet.
    pub closed spec fn fresh(&self) -> bool {
        &&& self.current == 0
        &&& self.tokens@.len() == 0
        &&& self.errors@.len() == 0
    }

    /// The lexical errors met so far, as (line, message).
    pub closed spec fn error_list(&self) -> Seq<(nat, Seq<char>)> {
        error_models(self.errors@)
    }

    pub fn new(source: String) -> (r: Scanner)
        requires
            source@.len() < usize::MAX,
        ensures
            r.wf(),
            r.fresh(),
            r.text() == source@,
    {
        let n = source.as_str().unicode_len();
        let mut chars: Vec<char> = Vec::new();
        let mut i: usize = 0;
        while i < n
            invariant
                n == source@.len(),
                i <= n,
                chars@ == source@.subrange(0, i as int),
            decreases n - i,
        {
            chars.push(source.as_str().get_char(i));
            i = i + 1;
            assert(chars@ == source@.subrange(0, i as int));
        }
        assert(chars@ == source@);
        assert(chars@.subrange(0, 0) =~= Seq::<char>::empty());
        Scanner { source, chars, tokens: Vec::new(), errors: Vec::new(), start: 0, current: 0, line: 1 }
    }

    /// The lexical errors met so far, in order.
    pub fn errors(&self) -> (r: &Vec<ScanError>)
        ensures
            error_models(r@) == self.error_list(),
    {
        &self.errors
    }

    /// Scans the whole text: the tokens of the lexical rules, in order,
    /// then one end-of-input token on the last line. The lines of the
    /// tokens never decrease.
    pub fn scan_tokens(&mut self) -> (r: Vec<Token>)
        requires
            old(self).wf(),
            old(self).fresh(),
        ensures
            token_models(r@) == scanned(old(self).text()),
            final(self).error_list() == lex_from(old(self).text(), 0).1,
            r@.len() >= 1,
            r@.last().token_type == TokenType::Eof,
            forall|i: int| 0 <= i < r@.len() - 1 ==> (#[trigger] r@[i]).token_type != TokenType::Eof,
            forall|i: int| 0 <= i < r@.len() ==> (#[trigger] r@[i]).line >= 1,
            forall|i: int, j: int| 0 <= i <= j < r@.len() ==> r@[i].line <= r@[j].line,
            r@.last().line == 1 + newlines(old(self).text()),
            final(self).text() == old(self).text(),
    {
        let ghost c = self.chars@;
        assert(token_models(self.tokens@) + lex_from(c, 0).0 =~= lex_from(c, 0).0);
        assert(error_models(self.errors@) + lex_from(c, 0).1 =~= lex_from(c, 0).1);
        while !self.at_end()
            invariant
                self.wf(),
                self.source == old(self).source,
                self.chars@ == c,
                token_models(self.tokens@) + lex_from(c, self.current as int).0 == lex_from(c, 0).0,
                error_models(self.errors@) + lex_from(c, self.current as int).1 == lex_from(c, 0).1,
            decreases self.chars@.len() - self.current,
        {
            let ghost ts = token_models(self.tokens@);
            let ghost es = error_models(self.errors@);
            let ghost p = self.current as int;
            self.start = self.current;
            self.scan_token();
            proof {
                let rest = lex_from(c, self.current as int);
                assert(lexed_end(lex_step(c, p)) == self.current);
                assert(token_models(self.tokens@) + rest.0 =~= ts + lex_from(c, p).0);
                assert(error_models(self.errors@) + rest.1 =~= es + lex_from(c, p).1);
            }
        }
        assert(self.chars@.subrange(0, self.current as int) == self.chars@);
        assert(token_models(self.tokens@) =~= lex_from(c, 0).0);
        assert(error_models(self.errors@) =~= lex_from(c, 0).1);
        let end_of_file = Token::new(TokenType::Eof, String::new(), None, self.line);
        self.tokens.push(end_of_file);
        let mut r: Vec<Token> = Vec::new();
        let mut i: usize = 0;
        while i < self.tokens.len()
            invariant
                i <= self.tokens@.len(),
                r@ == self.tokens@.subrange(0, i as int),
            decreases self.tokens@.len() - i,
        {
            r.push(self.tokens[i].duplicate());
            i = i + 1;
            assert(r@ == self.tokens@.subrange(0, i as int));
        }
        assert(r@ == self.tokens@);
        assert(token_models(r@) =~= lex_from(c, 0).0.push(
            TokenModel {
                kind: TokenType::Eof,
                text: Seq::empty(),
                value: None,
                line: line_at(c, c.len() as int),
            },
        ));
        r
    }

    /// Scans one lexical unit from the current position.
    fn scan_token(&mut self)
        requires
            old(self).wf(),
            old(self).start == old(self).current,
            old(self).current < old(self).chars@.len(),
        ensures
            final(self).wf(),
            final(self).source == old(self).source,
            final(self).current > old(self).current,
            final(self).current == lexed_end(lex_step(old(self).chars@, old(self).current as int)),
            (token_models(final(self).tokens@), error_models(final(self).errors@)) == step_output(
                token_models(old(self).tokens@),
                error_models(old(self).errors@),
                old(self).chars@,
                old(self).current as int,
            ),
    {
        let ghost c = self.chars@;
        let ghost p = self.current as int;
        let ch = self.advance();
        match ch {
            '(' => self.add_token(TokenType::LeftParen),
            ')' => self.add_token(TokenType::RightParen),
            '{' => self.add_token(TokenType::LeftBrace),
            '}' => self.add_token(TokenType::RightBrace),
            ',' => self.add_token(TokenType::Comma),
            '.' => self.add_token(TokenType::Dot),
            '-' => self.add_token(TokenType::Minus),
            '+' => self.add_token(TokenType::Plus),
            ';' => self.add_token(TokenType::Semicolon),
            '*' => self.add_token(TokenType::Star),
            '!' => {
                if self.match_('=') {
                    self.add_token(TokenType::BangEqual)
                } else {
                    self.add_token(TokenType::Bang)
                }
            },
            '=' => {
                if self.match_('=') {
                    self.add_token(TokenType::EqualEqual)
                } else {
                    self.add_token(TokenType::Equal)
                }
            },
            '<' => {
                if self.match_('=') {
                    self.add_token(TokenType::LessEqual)
                } else {
                    self.add_token(TokenType::Less)
                }
            },
            '>' => {
                if self.match_('=') {
                    self.add_token(TokenType::GreaterEqual)
                } else {
                    self.add_token(TokenType::Greater)
                }
            },
            '/' => {
                if self.match_('/') {
                    while self.peek() != '\n' && !self.at_end()
                        invariant
                            self.wf(),
                            self.source == old(self).source,
                            self.chars@ == c,
                            self.tokens == old(self).tokens,
                            self.errors == old(self).errors,
                            self.current >= p + 2,
                            find_end(c, self.current as int, '\n') == find_end(c, p + 2, '\n'),
                        decreases self.chars@.len() - self.current,
                    {
                        self.advance();
                    }
                } else {
                    self.add_token(TokenType::Slash)
                }
            },
            ' ' | '\r' | '\t' | '\n' => {},
            '"' => self.string(),
            _ => {
                if digit(ch) {
                    self.number();
                } else if alpha(ch) {
                    self.identifier();
                } else {
                    let line = self.line;
                    self.errors.push(
                        ScanError { line, message: String::from_str("Unexpected character.") },
                    );
                }
            },
        }
    }

    /// Scans the rest of an identifier or keyword whose first character is
    /// consumed.
    fn identifier(&mut self)
        requires
            old(self).wf(),
            old(self).current == old(self).start + 1,
        ensures
            final(self).wf(),
            final(self).source == old(self).source,
            final(self).errors == old(self).errors,
            final(self).current >= old(self).current,
            final(self).current == word_end(old(self).chars@, old(self).current as int),
            token_models(final(self).tokens@) == token_models(old(self).tokens@).push(
                token_model(
                    old(self).chars@,
                    word_kind(old(self).chars@.subrange(old(self).start as int, final(self).current as int)),
                    old(self).start as int,
                    final(self).current as int,
                ),
            ),
    {
        let ghost c = self.chars@;
        while !self.at_end() && alnum(self.peek())
            invariant
                self.wf(),
                self.source == old(self).source,
                self.chars@ == c,
                self.start == old(self).start,
                self.tokens == old(self).tokens,
                self.errors == old(self).errors,
                self.current >= old(self).current,
                word_end(c, self.current as int) == word_end(c, old(self).current as int),
            decreases self.chars@.len() - self.current,
        {
            self.advance();
        }
        let text = self.source.as_str().substring_char(self.start, self.current);
        let token_type = lookup_keyword(text);
        self.add_token(token_type);
    }

    /// Scans the rest of a number whose first digit is consumed.
    fn number(&mut self)
        requires
            old(self).wf(),
            old(self).current == old(self).start + 1,
        ensures
            final(self).wf(),
            final(self).source == old(self).source,
            final(self).errors == old(self).errors,
            final(self).current >= old(self).current,
            final(self).current == number_end(old(self).chars@, old(self).current as int),
            token_models(final(self).tokens@) == token_models(old(self).tokens@).push(
                token_model(
                    old(self).chars@,
                    TokenType::Number,
                    old(self).start as int,
                    final(self).current as int,
                ),
            ),
    {
        let ghost c = self.chars@;
        while digit(self.peek())
            invariant
                self.wf(),
                self.source == old(self).source,
                self.chars@ == c,
                self.start == old(self).start,
                self.tokens == old(self).tokens,
                self.errors == old(self).errors,
                self.current >= old(self).current,
                digits_end(c, self.current as int) == digits_end(c, old(self).current as int),
            decreases self.chars@.len() - self.current,
        {
            self.advance();
        }
        if self.peek() == '.' && digit(self.peek_next()) {
            self.advance();
            let ghost d = self.current as int;
            while digit(self.peek())
                invariant
                    self.wf(),
                    self.source == old(self).source,
                    self.chars@ == c,
                    self.start == old(self).start,
                    self.tokens == old(self).tokens,
                    self.errors == old(self).errors,
                    self.current >= d,
                    digits_end(c, self.current as int) == digits_end(c, d),
                decreases self.chars@.len() - self.current,
            {
                self.advance();
            }
        }
        let value = self.source.as_str().substring_char(self.start, self.current).to_owned();
        self.add_full_token(TokenType::Number, Some(Literal::Number(value)));
    }

    /// Consumes the next character if it is `expected`.
    fn match_(&mut self, expected: char) -> (r: bool)
        requires
            old(self).wf(),
        ensures
            final(self).wf(),
            final(self).source == old(self).source,
            final(self).tokens == old(self).tokens,
            final(self).errors == old(self).errors,
            final(self).start == old(self).start,
            r == (old(self).current < old(self).chars@.len() && old(self).chars@[old(self).current as int]
                == expected),
            final(self).current == old(self).current + if r {
                1int
            } else {
                0int
            },
    {
        if self.at_end() {
            return false;
        }
        if self.chars[self.current] != expected {
            return false;
        }
        self.advance();
        true
    }

    /// Scans the rest of a string whose opening quote is consumed.
    fn string(&mut self)
        requires
            old(self).wf(),
            old(self).current == old(self).start + 1,
        ensures
            final(self).wf(),
            final(self).source == old(self).source,
            final(self).current >= old(self).current,
            ({
                let q = find_end(old(self).chars@, old(self).current as int, '"');
                if q >= old(self).chars@.len() {
                    &&& final(self).current == q
                    &&& final(self).tokens == old(self).tokens
                    &&& error_models(final(self).errors@) == error_models(old(self).errors@).push(
                        (line_at(old(self).chars@, q), "Unterminated string."@),
                    )
                } else {
                    &&& final(self).current == q + 1
                    &&& final(self).errors == old(self).errors
                    &&& token_models(final(self).tokens@) == token_models(old(self).tokens@).push(
                        token_model(old(self).chars@, TokenType::String, old(self).start as int, q + 1),
                    )
                }
            }),
    {
        let ghost c = self.chars@;
        while self.peek() != '"' && !self.at_end()
            invariant
                self.wf(),
                self.source == old(self).source,
                self.chars@ == c,
                self.start == old(self).start,
                self.tokens == old(self).tokens,
                self.errors == old(self).errors,
                self.current >= old(self).current,
                find_end(c, self.current as int, '"') == find_end(c, old(self).current as int, '"'),
            decreases self.chars@.len() - self.current,
        {
            self.advance();
        }
        if self.at_end() {
            let line = self.line;
            self.errors.push(ScanError { line, message: String::from_str("Unterminated string.") });
            assert(error_models(self.errors@) =~= error_models(old(self).errors@).push(
                (line_at(c, self.current as int), "Unterminated string."@),
            ));
            return ;
        }
        self.advance();
        let value = self.source.as_str().substring_char(self.start + 1, self.current - 1).to_owned();
        self.add_full_token(TokenType::String, Some(Literal::String(value)));
    }

    /// The next character, or `'\0'` at the end of the text.
    fn peek(&self) -> (r: char)
        requires
            self.wf(),
        ensures
            self.current < self.chars@.len() ==> r == self.chars@[self.current as int],
            self.current >= self.chars@.len() ==> r == '\0',
    {
        if self.at_end() {
            '\0'
        } else {
            self.chars[self.current]
        }
    }

    /// The character after the next one, or `'\0'` past the end.
    fn peek_next(&self) -> (r: char)
        requires
            self.wf(),
        ensures
            self.current + 1 < self.chars@.len() ==> r == self.chars@[self.current + 1],
            self.current + 1 >= self.chars@.len() ==> r == '\0',
    {
        if self.current + 1 >= self.chars.len() {
            '\0'
        } else {
            self.chars[self.current + 1]
        }
    }

    fn at_end(&self) -> (r: bool)
        requires
            self.wf(),
        ensures
            r == (self.current >= self.chars@.len()),
    {
        self.current >= self.chars.len()
    }

    /// Consumes the next character; a newline moves to the next line.
    fn advance(&mut self) -> (r: char)
        requires
            old(self).wf(),
            old(self).current < old(self).chars@.len(),
        ensures
            final(self).wf(),
            final(self).source == old(self).source,
            final(self).chars == old(self).chars,
            final(self).tokens == old(self).tokens,
            final(self).errors == old(self).errors,
            final(self).start == old(self).start,
            final(self).current == old(self).current + 1,
            r == old(self).chars@[old(self).current as int],
    {
        let c = self.chars[self.current];
        proof {
            let s = self.chars@.subrange(0, self.current + 1);
            assert(s.drop_last() == self.chars@.subrange(0, self.current as int));
            lemma_newlines_bound(self.chars@.subrange(0, self.current as int));
        }
        self.current = self.current + 1;
        if c == '\n' {
            self.line = self.line + 1;
        }
        c
    }

    fn add_token(&mut self, token_type: TokenType)
        requires
            old(self).wf(),
            token_type != TokenType::Eof,
            token_type != TokenType::String,
            token_type != TokenType::Number,
        ensures
            final(self).wf(),
            final(self).source == old(self).source,
            final(self).chars == old(self).chars,
            final(self).current == old(self).current,
            final(self).start == old(self).start,
            final(self).errors == old(self).errors,
            token_models(final(self).tokens@) == token_models(old(self).tokens@).push(
                token_model(old(self).chars@, token_type, old(self).start as int, old(self).current as int),
            ),
    {
        self.add_full_token(token_type, Some(Literal::Nil));
    }

    fn add_full_token(&mut self, token_type: TokenType, literal: Option<Literal>)
        requires
            old(self).wf(),
            token_type != TokenType::Eof,
        ensures
            final(self).wf(),
            final(self).source == old(self).source,
            final(self).chars == old(self).chars,
            final(self).current == old(self).current,
            final(self).start == old(self).start,
            final(self).errors == old(self).errors,
            token_models(final(self).tokens@) == token_models(old(self).tokens@).push(
                TokenModel {
                    kind: token_type,
                    text: old(self).chars@.subrange(old(self).start as int, old(self).current as int),
                    value: match literal {
                        Some(l) => Some(l@),
                        None => None,
                    },
                    line: line_at(old(self).chars@, old(self).current as int),
                },
            ),
    {
        let text = self.source.as_str().substring_char(self.start, self.current).to_owned();
        let line = self.line;
        self.tokens.push(Token::new(token_type, text, literal, line));
        assert(token_models(self.tokens@) =~= token_models(old(self).tokens@).push(
            TokenModel {
                kind: token_type,
                text: old(self).chars@.subrange(old(self).start as int, old(self).current as int),
                value: match literal {
                    Some(l) => Some(l@),
                    None => None,
                },
                line: line_at(old(self).chars@, old(self).current as int),
            },
        ));
    }
}

} // verus!
