use vstd::prelude::*;

verus! {

/// The kinds of tokens of the language.
#[derive(Debug, Clone, Copy, PartialEq, Eq, Structural)]
pub enum TokenType {
    // Single-character tokens.
    LeftParen,
    RightParen,
    LeftBrace,
    RightBrace,
    Comma,
    Dot,
    Minus,
    Plus,
    Semicolon,
    Slash,
    Star,
    // One or two character tokens.
    Bang,
    BangEqual,
    Equal,
    EqualEqual,
    Greater,
    GreaterEqual,
    Less,
    LessEqual,
    // Literals.
    Identifier,
    String,
    Number,
    // Keywords.
    And,
    Class,
    Else,
    False,
    Fun,
    For,
    If,
    Nil,
    Or,
    Print,
    Return,
    Super,
    This,
    True,
    Var,
    While,
    Eof,
}

/// A runtime value, also the payload of NUMBER and STRING tokens.
///
/// A number is carried as decimal text: its value is the double-precision
/// float that the text denotes. Arithmetic on numbers is done by the host,
/// which answers the interpreter's number requests.
#[derive(Debug, Clone, PartialEq)]
pub enum Literal {
    Bool(bool),
    Number(String),
    String(String),
    Nil,
}

/// The runtime value type: the same shape as a token's literal payload.
pub type Value = Literal;

/// The mathematical form of a value: texts as character sequences.
pub enum Val {
    Bool(bool),
    Number(Seq<char>),
    Str(Seq<char>),
    Nil,
}

impl View for Literal {
    type V = Val;

    open spec fn view(&self) -> Val {
        match self {
            Literal::Bool(b) => Val::Bool(*b),
            Literal::Number(s) => Val::Number(s@),
            Literal::String(s) => Val::Str(s@),
            Literal::Nil => Val::Nil,
        }
    }
}

impl Literal {
    /// A copy of this value that is equal to it.
    pub fn duplicate(&self) -> (r: Literal)
        ensures
            r == *self,
    {
        match self {
            Literal::Bool(b) => Literal::Bool(*b),
            Literal::Number(s) => Literal::Number(s.clone()),
            Literal::String(s) => Literal::String(s.clone()),
            Literal::Nil => Literal::Nil,
        }
    }
}

/// A lexical unit: its kind, the source text it was scanned from, its
/// literal payload and the line it ended on.
#[derive(Debug, Clone)]
pub struct Token {
    pub token_type: TokenType,
    pub lexeme: String,
    pub literal: Option<Literal>,
    pub line: usize,
}

/// The mathematical form of a token.
pub struct TokenModel {
    pub kind: TokenType,
    pub text: Seq<char>,
    pub value: Option<Val>,
    pub line: nat,
}

impl View for Token {
    type V = TokenModel;

    open spec fn view(&self) -> TokenModel {
        TokenModel {
            kind: self.token_type,
            text: self.lexeme@,
            value: match self.literal {
                Some(l) => Some(l@),
                None => None,
            },
            line: self.line as nat,
        }
    }
}

impl Token {
    pub fn new(token_type: TokenType, lexeme: String, literal: Option<Literal>, line: usize) -> (r:
        Token)
        ensures
            r.token_type == token_type,
            r.lexeme == lexeme,
            r.literal == literal,
            r.line == line,
    {
        Token { token_type, lexeme, literal, line }
    }

    /// A copy of this token that is equal to it.
    pub fn duplicate(&self) -> (r: Token)
        ensures
            r == *self,
    {
        let literal = match &self.literal {
            Some(l) => Some(l.duplicate()),
            None => None,
        };
        Token {
            token_type: self.token_type,
            lexeme: self.lexeme.clone(),
            literal,
            line: self.line,
        }
    }
}

/// The keyword that a word spells, if any.
pub open spec fn keyword_of(w: Seq<char>) -> Option<TokenType> {
    if w == "and"@ {
        Some(TokenType::And)
    } else if w == "class"@ {
        Some(TokenType::Class)
    } else if w == "else"@ {
        Some(TokenType::Else)
    } else if w == "false"@ {
        Some(TokenType::False)
    } else if w == "for"@ {
        Some(TokenType::For)
    } else if w == "fun"@ {
        Some(TokenType::Fun)
    } else if w == "if"@ {
        Some(TokenType::If)
    } else if w == "nil"@ {
        Some(TokenType::Nil)
    } else if w == "or"@ {
        Some(TokenType::Or)
    } else if w == "print"@ {
        Some(TokenType::Print)
    } else if w == "return"@ {
        Some(TokenType::Return)
    } else if w == "super"@ {
        Some(TokenType::Super)
    } else if w == "this"@ {
        Some(TokenType::This)
    } else if w == "true"@ {
        Some(TokenType::True)
    } else if w == "var"@ {
        Some(TokenType::Var)
    } else if w == "while"@ {
        Some(TokenType::While)
    } else {
        None
    }
}

/// The token kind of a scanned word: its keyword, or an identifier.
pub open spec fn word_kind(w: Seq<char>) -> TokenType {
    match keyword_of(w) {
        Some(k) => k,
        None => TokenType::Identifier,
    }
}

fn same_text(a: &str, b: &str) -> (r: bool)
    ensures
        r == (a@ == b@),
{
    let n = a.unicode_len();
    if n != b.unicode_len() {
        return false;
    }
    let mut i: usize = 0;
    while i < n
        invariant
            n == a@.len(),
            n == b@.len(),
            i <= n,
            a@.subrange(0, i as int) == b@.subrange(0, i as int),
        decreases n - i,
    {
        if a.get_char(i) != b.get_char(i) {
            assert(a@[i as int] != b@[i as int]);
            return false;
        }
        assert(a@.subrange(0, i + 1) == a@.subrange(0, i as int).push(a@[i as int]));
        assert(b@.subrange(0, i + 1) == b@.subrange(0, i as int).push(b@[i as int]));
        i = i + 1;
    }
    assert(a@ == a@.subrange(0, n as int));
    assert(b@ == b@.subrange(0, n as int));
    true
}

/// The token kind of a scanned word: a keyword if the word is one, else an
/// identifier.
pub fn lookup_keyword(w: &str) -> (r: TokenType)
    ensures
        r == word_kind(w@),
{
    if same_text(w, "and") {
        TokenType::And
    } else if same_text(w, "class") {
        TokenType::Class
    } else if same_text(w, "else") {
        TokenType::Else
    } else if same_text(w, "false") {
        TokenType::False
    } else if same_text(w, "for") {
        TokenType::For
    } else if same_text(w, "fun") {
        TokenType::Fun
    } else if same_text(w, "if") {
        TokenType::If
    } else if same_text(w, "nil") {
        TokenType::Nil
    } else if same_text(w, "or") {
        TokenType::Or
    } else if same_text(w, "print") {
        TokenType::Print
    } else if same_text(w, "return") {
        TokenType::Return
    } else if same_text(w, "super") {
        TokenType::Super
    } else if same_text(w, "this") {
        TokenType::This
    } else if same_text(w, "true") {
        TokenType::True
    } else if same_text(w, "var") {
        TokenType::Var
    } else if same_text(w, "while") {
        TokenType::While
    } else {
        TokenType::Identifier
    }
}

} // verus!
