//! The token model: the closed set of lexical categories, their ghost view,
//! and the keyword lookup that tells reserved words from identifiers.

use vstd::prelude::*;
use vstd::string::StrSliceExecFns;
use vstd::string::StringExecFns;

verus! {

/// One lexical unit. Identifiers and integer literals carry their text, the
/// illegal token carries the offending character, and every operator,
/// delimiter and keyword is its own fixed member.
#[derive(Debug, PartialEq, Eq, Hash)]
pub enum Token {
    // Identifiers + literals
    Ident(String),
    Int(String),
    // Operators
    Assign,
    Plus,
    Minus,
    Bang,
    Asterisk,
    Slash,
    Lt,
    Gt,
    Eq,
    NotEq,
    // Delimiters
    Comma,
    Semicolon,
    LParen,
    RParen,
    LBrace,
    RBrace,
    // Keywords
    Function,
    Let,
    True,
    False,
    If,
    Else,
    Return,
    // Special tokens
    Illegal(char),
    Eof,
}

/// The mathematical model of a token: the same categories, with the carried
/// text abstracted to a sequence of characters.
pub enum TokenView {
    Ident(Seq<char>),
    Int(Seq<char>),
    Assign,
    Plus,
    Minus,
    Bang,
    Asterisk,
    Slash,
    Lt,
    Gt,
    Eq,
    NotEq,
    Comma,
    Semicolon,
    LParen,
    RParen,
    LBrace,
    RBrace,
    Function,
    Let,
    True,
    False,
    If,
    Else,
    Return,
    Illegal(char),
    Eof,
}

impl View for Token {
    type V = TokenView;

    open spec fn view(&self) -> TokenView {
        match self {
            Token::Ident(s) => TokenView::Ident(s@),
            Token::Int(s) => TokenView::Int(s@),
            Token::Assign => TokenView::Assign,
            Token::Plus => TokenView::Plus,
            Token::Minus => TokenView::Minus,
            Token::Bang => TokenView::Bang,
            Token::Asterisk => TokenView::Asterisk,
            Token::Slash => TokenView::Slash,
            Token::Lt => TokenView::Lt,
            Token::Gt => TokenView::Gt,
            Token::Eq => TokenView::Eq,
            Token::NotEq => TokenView::NotEq,
            Token::Comma => TokenView::Comma,
            Token::Semicolon => TokenView::Semicolon,
            Token::LParen => TokenView::LParen,
            Token::RParen => TokenView::RParen,
            Token::LBrace => TokenView::LBrace,
            Token::RBrace => TokenView::RBrace,
            Token::Function => TokenView::Function,
            Token::Let => TokenView::Let,
            Token::True => TokenView::True,
            Token::False => TokenView::False,
            Token::If => TokenView::If,
            Token::Else => TokenView::Else,
            Token::Return => TokenView::Return,
            Token::Illegal(c) => TokenView::Illegal(*c),
            Token::Eof => TokenView::Eof,
        }
    }
}

impl Clone for Token {
    fn clone(&self) -> (r: Token)
        ensures
            r == self,
    {
        match self {
            Token::Ident(s) => Token::Ident(s.clone()),
            Token::Int(s) => Token::Int(s.clone()),
            Token::Assign => Token::Assign,
            Token::Plus => Token::Plus,
            Token::Minus => Token::Minus,
            Token::Bang => Token::Bang,
            Token::Asterisk => Token::Asterisk,
            Token::Slash => Token::Slash,
            Token::Lt => Token::Lt,
            Token::Gt => Token::Gt,
            Token::Eq => Token::Eq,
            Token::NotEq => Token::NotEq,
            Token::Comma => Token::Comma,
            Token::Semicolon => Token::Semicolon,
            Token::LParen => Token::LParen,
            Token::RParen => Token::RParen,
            Token::LBrace => Token::LBrace,
            Token::RBrace => Token::RBrace,
            Token::Function => Token::Function,
            Token::Let => Token::Let,
            Token::True => Token::True,
            Token::False => Token::False,
            Token::If => Token::If,
            Token::Else => Token::Else,
            Token::Return => Token::Return,
            Token::Illegal(c) => Token::Illegal(*c),
            Token::Eof => Token::Eof,
        }
    }
}

/// What the keyword lookup returns on a given text: the keyword token for one
/// of the seven reserved words, an identifier carrying the text otherwise.
/// Matching is exact and case-sensitive.
pub open spec fn lookup_view(s: Seq<char>) -> TokenView {
    if s == "fn"@ {
        TokenView::Function
    } else if s == "let"@ {
        TokenView::Let
    } else if s == "true"@ {
        TokenView::True
    } else if s == "false"@ {
        TokenView::False
    } else if s == "if"@ {
        TokenView::If
    } else if s == "else"@ {
        TokenView::Else
    } else if s == "return"@ {
        TokenView::Return
    } else {
        TokenView::Ident(s)
    }
}

/// Character-by-character string comparison, so that equality of `&str` values
/// is available to verified code.
pub fn str_eq(a: &str, b: &str) -> (r: bool)
    ensures
        r == (a@ == b@),
{
    let na = a.unicode_len();
    let nb = b.unicode_len();
    if na != nb {
        return false;
    }
    let mut i: usize = 0;
    while i < na
        invariant
            na == a@.len(),
            na == b@.len(),
            i <= na,
            forall|j: int| 0 <= j < i ==> a@[j] == b@[j],
        decreases na - i,
    {
        if a.get_char(i) != b.get_char(i) {
            return false;
        }
        i += 1;
    }
    proof {
        assert(a@ =~= b@);
    }
    true
}

/// Resolves an identifier's text: the keyword token where the text is one of
/// the reserved words, otherwise an identifier token carrying the text.
pub fn lookup_ident(ident: &str) -> (t: Token)
    ensures
        t@ == lookup_view(ident@),
{
    if str_eq(ident, "fn") {
        Token::Function
    } else if str_eq(ident, "let") {
        Token::Let
    } else if str_eq(ident, "true") {
        Token::True
    } else if str_eq(ident, "false") {
        Token::False
    } else if str_eq(ident, "if") {
        Token::If
    } else if str_eq(ident, "else") {
        Token::Else
    } else if str_eq(ident, "return") {
        Token::Return
    } else {
        Token::Ident(ident.to_owned())
    }
}

/// Relies on std's String::push: appends exactly the one character to the end
/// of the string.
#[verifier::external_body]
pub(crate) fn push_char(s: &mut String, c: char)
    ensures
        final(s)@ == old(s)@.push(c),
{
    s.push(c);
}

/// The canonical text of a token: its lexeme for identifiers, literals and
/// operators, a marked form for the illegal token and the end marker.
pub open spec fn token_text(t: TokenView) -> Seq<char> {
    match t {
        TokenView::Ident(s) => s,
        TokenView::Int(s) => s,
        TokenView::Assign => "="@,
        TokenView::Plus => "+"@,
        TokenView::Minus => "-"@,
        TokenView::Bang => "!"@,
        TokenView::Asterisk => "*"@,
        TokenView::Slash => "/"@,
        TokenView::Lt => "<"@,
        TokenView::Gt => ">"@,
        TokenView::Eq => "=="@,
        TokenView::NotEq => "!="@,
        TokenView::Comma => ","@,
        TokenView::Semicolon => ";"@,
        TokenView::LParen => "("@,
        TokenView::RParen => ")"@,
        TokenView::LBrace => "{"@,
        TokenView::RBrace => "}"@,
        TokenView::Function => "fn"@,
        TokenView::Let => "let"@,
        TokenView::True => "true"@,
        TokenView::False => "false"@,
        TokenView::If => "if"@,
        TokenView::Else => "else"@,
        TokenView::Return => "return"@,
        TokenView::Illegal(c) => "Illegal("@ + seq![c] + ")"@,
        TokenView::Eof => "EOF"@,
    }
}

impl Token {
    /// The token's canonical text, as the rendering of trees and diagnostics
    /// uses it.
    pub fn text(&self) -> (r: String)
        ensures
            r@ == token_text(self@),
    {
        match self {
            Token::Ident(s) => s.clone(),
            Token::Int(s) => s.clone(),
            Token::Assign => "=".to_owned(),
            Token::Plus => "+".to_owned(),
            Token::Minus => "-".to_owned(),
            Token::Bang => "!".to_owned(),
            Token::Asterisk => "*".to_owned(),
            Token::Slash => "/".to_owned(),
            Token::Lt => "<".to_owned(),
            Token::Gt => ">".to_owned(),
            Token::Eq => "==".to_owned(),
            Token::NotEq => "!=".to_owned(),
            Token::Comma => ",".to_owned(),
            Token::Semicolon => ";".to_owned(),
            Token::LParen => "(".to_owned(),
            Token::RParen => ")".to_owned(),
            Token::LBrace => "{".to_owned(),
            Token::RBrace => "}".to_owned(),
            Token::Function => "fn".to_owned(),
            Token::Let => "let".to_owned(),
            Token::True => "true".to_owned(),
            Token::False => "false".to_owned(),
            Token::If => "if".to_owned(),
            Token::Else => "else".to_owned(),
            Token::Return => "return".to_owned(),
            Token::Illegal(c) => {
                let mut r = "Illegal(".to_owned();
                push_char(&mut r, *c);
                r.append(")");
                proof {
                    assert(r@ =~= "Illegal("@ + seq![*c] + ")"@);
                }
                r
            },
            Token::Eof => "EOF".to_owned(),
        }
    }
}

} // verus!
