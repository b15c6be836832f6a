//! The lexer: turns source text into tokens, one at a time, with one token of
//! buffered lookahead. The model is `spec_tokens_from`, which gives the whole
//! token sequence of a character sequence, always ending in the end marker;
//! every method's contract is stated against `remaining()`, the sequence of
//! tokens the lexer has yet to produce.

use vstd::prelude::*;
use vstd::string::StrSliceExecFns;

use crate::token::lookup_ident;
use crate::token::lookup_view;
use crate::token::push_char;
use crate::token::Token;
use crate::token::TokenView;

verus! {

/// The whitespace characters the lexer skips between tokens.
pub open spec fn is_ws_char(c: char) -> bool {
    c == ' ' || c == '\t' || c == '\n' || c == '\r'
}

/// Whether a character is alphabetic. Named for std's char::is_alphabetic,
/// whose result depends on the character alone.
pub uninterp spec fn is_alpha(c: char) -> bool;

/// Relies on std's char::is_alphabetic: whether the character has Unicode's
/// Alphabetic property, a function of the character alone.
#[verifier::external_body]
fn char_is_alphabetic(c: char) -> (r: bool)
    ensures
        r == is_alpha(c),
{
    c.is_alphabetic()
}

/// The characters that may make up an identifier: alphabetic or underscore.
pub open spec fn is_letter_char(c: char) -> bool {
    is_alpha(c) || c == '_'
}

/// The decimal digits.
pub open spec fn is_digit_char(c: char) -> bool {
    ('0' as u32) <= (c as u32) && (c as u32) <= ('9' as u32)
}

/// Whether a character may make up an identifier: alphabetic or underscore.
pub fn is_letter(ch: char) -> (r: bool)
    ensures
        r == is_letter_char(ch),
{
    char_is_alphabetic(ch) || ch == '_'
}

/// Whether a character is a decimal digit.
pub fn is_digit(ch: char) -> (r: bool)
    ensures
        r == is_digit_char(ch),
{
    let u = ch as u32;
    ('0' as u32) <= u && u <= ('9' as u32)
}

/// Whether a character is whitespace to the lexer.
pub fn is_ws(ch: char) -> (r: bool)
    ensures
        r == is_ws_char(ch),
{
    ch == ' ' || ch == '\t' || ch == '\n' || ch == '\r'
}

/// The first position at or after `i` that does not hold whitespace.
pub open spec fn skip_ws_from(s: Seq<char>, i: nat) -> nat
    decreases s.len() - i,
{
    if i < s.len() && is_ws_char(s[i as int]) {
        skip_ws_from(s, (i + 1) as nat)
    } else {
        i
    }
}

/// The end of the maximal run of identifier characters starting at `i`.
pub open spec fn ident_end(s: Seq<char>, i: nat) -> nat
    decreases s.len() - i,
{
    if i < s.len() && is_letter_char(s[i as int]) {
        ident_end(s, (i + 1) as nat)
    } else {
        i
    }
}

/// The end of the maximal run of decimal digits starting at `i`.
pub open spec fn int_end(s: Seq<char>, i: nat) -> nat
    decreases s.len() - i,
{
    if i < s.len() && is_digit_char(s[i as int]) {
        int_end(s, (i + 1) as nat)
    } else {
        i
    }
}

/// The token that begins at position `i` (no whitespace skipped here), and the
/// position just past it. At or past the end of input the end marker is
/// produced and the position does not move.
pub open spec fn lex_at(s: Seq<char>, i: nat) -> (TokenView, nat) {
    if i >= s.len() {
        (TokenView::Eof, i)
    } else {
        let c = s[i as int];
        if c == '=' {
            if i + 1 < s.len() && s[i as int + 1] == '=' {
                (TokenView::Eq, (i + 2) as nat)
            } else {
                (TokenView::Assign, (i + 1) as nat)
            }
        } else if c == '!' {
            if i + 1 < s.len() && s[i as int + 1] == '=' {
                (TokenView::NotEq, (i + 2) as nat)
            } else {
                (TokenView::Bang, (i + 1) as nat)
            }
        } else if c == '+' {
            (TokenView::Plus, (i + 1) as nat)
        } else if c == '-' {
            (TokenView::Minus, (i + 1) as nat)
        } else if c == '*' {
            (TokenView::Asterisk, (i + 1) as nat)
        } else if c == '/' {
            (TokenView::Slash, (i + 1) as nat)
        } else if c == '<' {
            (TokenView::Lt, (i + 1) as nat)
        } else if c == '>' {
            (TokenView::Gt, (i + 1) as nat)
        } else if c == ',' {
            (TokenView::Comma, (i + 1) as nat)
        } else if c == ';' {
            (TokenView::Semicolon, (i + 1) as nat)
        } else if c == '(' {
            (TokenView::LParen, (i + 1) as nat)
        } else if c == ')' {
            (TokenView::RParen, (i + 1) as nat)
        } else if c == '{' {
            (TokenView::LBrace, (i + 1) as nat)
        } else if c == '}' {
            (TokenView::RBrace, (i + 1) as nat)
        } else if is_letter_char(c) {
            (lookup_view(s.subrange(i as int, ident_end(s, i) as int)), ident_end(s, i))
        } else if is_digit_char(c) {
            (TokenView::Int(s.subrange(i as int, int_end(s, i) as int)), int_end(s, i))
        } else {
            (TokenView::Illegal(c), (i + 1) as nat)
        }
    }
}

/// The next token from position `i`: whitespace skipped first.
pub open spec fn next_lex(s: Seq<char>, i: nat) -> (TokenView, nat) {
    lex_at(s, skip_ws_from(s, i))
}

/// The whole token sequence from position `i`, ending with exactly one end
/// marker.
pub open spec fn spec_tokens_from(s: Seq<char>, i: nat) -> Seq<TokenView>
    decreases s.len() - i,
{
    let tj = next_lex(s, i);
    if tj.0 is Eof {
        seq![TokenView::Eof]
    } else if i < tj.1 <= s.len() {
        seq![tj.0] + spec_tokens_from(s, tj.1)
    } else {
        seq![tj.0]
    }
}

/// A well-formed token sequence: non-empty, with the end marker exactly at the
/// end.
pub open spec fn tokens_wf(ts: Seq<TokenView>) -> bool {
    &&& ts.len() >= 1
    &&& ts.last() is Eof
    &&& forall|k: int| 0 <= k < ts.len() - 1 ==> !(#[trigger] ts[k] is Eof)
}

pub proof fn lemma_skip_ws_bounds(s: Seq<char>, i: nat)
    ensures
        i <= skip_ws_from(s, i),
        i <= s.len() ==> skip_ws_from(s, i) <= s.len(),
    decreases s.len() - i,
{
    if i < s.len() && is_ws_char(s[i as int]) {
        lemma_skip_ws_bounds(s, (i + 1) as nat);
    }
}

pub proof fn lemma_ident_end_bounds(s: Seq<char>, i: nat)
    ensures
        i <= ident_end(s, i),
        i <= s.len() ==> ident_end(s, i) <= s.len(),
        i < s.len() && is_letter_char(s[i as int]) ==> i < ident_end(s, i),
    decreases s.len() - i,
{
    if i < s.len() && is_letter_char(s[i as int]) {
        lemma_ident_end_bounds(s, (i + 1) as nat);
    }
}

pub proof fn lemma_int_end_bounds(s: Seq<char>, i: nat)
    ensures
        i <= int_end(s, i),
        i <= s.len() ==> int_end(s, i) <= s.len(),
        i < s.len() && is_digit_char(s[i as int]) ==> i < int_end(s, i),
    decreases s.len() - i,
{
    if i < s.len() && is_digit_char(s[i as int]) {
        lemma_int_end_bounds(s, (i + 1) as nat);
    }
}

/// A token other than the end marker takes at least one character, and lexing
/// never runs past the end of the input.
pub proof fn lemma_lex_progress(s: Seq<char>, i: nat)
    requires
        i <= s.len(),
    ensures
        !(lex_at(s, i).0 is Eof) ==> i < lex_at(s, i).1,
        lex_at(s, i).1 <= s.len(),
        lex_at(s, i).0 is Eof ==> lex_at(s, i).1 == i,
{
    if i < s.len() {
        lemma_ident_end_bounds(s, i);
        lemma_int_end_bounds(s, i);
    }
}

/// The token sequence of any position is well formed: non-empty, the end
/// marker exactly at the end.
pub proof fn lemma_tokens_from_wf(s: Seq<char>, i: nat)
    requires
        i <= s.len(),
    ensures
        tokens_wf(spec_tokens_from(s, i)),
    decreases s.len() - i,
{
    lemma_skip_ws_bounds(s, i);
    let p = skip_ws_from(s, i);
    lemma_lex_progress(s, p);
    let tj = next_lex(s, i);
    if tj.0 is Eof {
    } else {
        lemma_tokens_from_wf(s, tj.1);
        let rest = spec_tokens_from(s, tj.1);
        let ts = seq![tj.0] + rest;
        assert(ts.last() == rest.last());
        assert(forall|k: int| 1 <= k < ts.len() - 1 ==> ts[k] == rest[k - 1]);
    }
}

/// The operator and delimiter characters, those that begin a one- or
/// two-character operator token.
pub open spec fn is_op_char(c: char) -> bool {
    ||| c == '='
    ||| c == '!'
    ||| c == '+'
    ||| c == '-'
    ||| c == '*'
    ||| c == '/'
    ||| c == '<'
    ||| c == '>'
    ||| c == ','
    ||| c == ';'
    ||| c == '('
    ||| c == ')'
    ||| c == '{'
    ||| c == '}'
}

/// The token of an operator character standing on its own.
pub open spec fn op_token(c: char) -> TokenView {
    if c == '=' {
        TokenView::Assign
    } else if c == '!' {
        TokenView::Bang
    } else if c == '+' {
        TokenView::Plus
    } else if c == '-' {
        TokenView::Minus
    } else if c == '*' {
        TokenView::Asterisk
    } else if c == '/' {
        TokenView::Slash
    } else if c == '<' {
        TokenView::Lt
    } else if c == '>' {
        TokenView::Gt
    } else if c == ',' {
        TokenView::Comma
    } else if c == ';' {
        TokenView::Semicolon
    } else if c == '(' {
        TokenView::LParen
    } else if c == ')' {
        TokenView::RParen
    } else if c == '{' {
        TokenView::LBrace
    } else {
        TokenView::RBrace
    }
}

/// Law: an input made of operator and delimiter characters, none of them a
/// `==` or `!=` pair, lexes to exactly one token per character, in order,
/// terminated by the end marker.
pub proof fn lemma_operator_run(s: Seq<char>, i: nat)
    requires
        i <= s.len(),
        forall|k: int| 0 <= k < s.len() ==> is_op_char(#[trigger] s[k]),
        forall|k: int| 0 <= k < s.len() - 1 ==> ((#[trigger] s[k] == '=' || s[k] == '!') ==> s[k
            + 1] != '='),
    ensures
        spec_tokens_from(s, i) == s.skip(i as int).map_values(|c: char| op_token(c)) + seq![
            TokenView::Eof,
        ],
    decreases s.len() - i,
{
    let tail = s.skip(i as int).map_values(|c: char| op_token(c)) + seq![TokenView::Eof];
    if i == s.len() {
        assert(spec_tokens_from(s, i) =~= tail);
    } else {
        assert(skip_ws_from(s, i) == i);
        assert(lex_at(s, i).0 == op_token(s[i as int]));
        assert(lex_at(s, i).1 == i + 1);
        lemma_operator_run(s, (i + 1) as nat);
        assert(spec_tokens_from(s, i) =~= tail);
    }
}

/// Law: a single operator or delimiter character, alone, lexes to its own
/// token followed by the end marker.
pub proof fn lemma_single_operator_input(c: char)
    requires
        is_op_char(c),
    ensures
        spec_tokens_from(seq![c], 0) == seq![op_token(c), TokenView::Eof],
{
    let s = seq![c];
    lemma_operator_run(s, 0);
    assert(s.skip(0) =~= s);
    assert(s.map_values(|ch: char| op_token(ch)) =~= seq![op_token(c)]);
    assert(seq![op_token(c)] + seq![TokenView::Eof] =~= seq![op_token(c), TokenView::Eof]);
}

/// Law: `==` lexes to one equality token, not two assignments, and `!=` to one
/// inequality token, not a negation and an assignment.
pub proof fn lemma_double_operator_input()
    ensures
        spec_tokens_from(seq!['=', '='], 0) == seq![TokenView::Eq, TokenView::Eof],
        spec_tokens_from(seq!['!', '='], 0) == seq![TokenView::NotEq, TokenView::Eof],
{
    let s1 = seq!['=', '='];
    assert(skip_ws_from(s1, 0) == 0);
    assert(lex_at(s1, 0) == (TokenView::Eq, 2nat));
    assert(skip_ws_from(s1, 2) == 2);
    assert(spec_tokens_from(s1, 2) =~= seq![TokenView::Eof]);
    assert(spec_tokens_from(s1, 0) =~= seq![TokenView::Eq, TokenView::Eof]);
    let s2 = seq!['!', '='];
    assert(skip_ws_from(s2, 0) == 0);
    assert(lex_at(s2, 0) == (TokenView::NotEq, 2nat));
    assert(skip_ws_from(s2, 2) == 2);
    assert(spec_tokens_from(s2, 2) =~= seq![TokenView::Eof]);
    assert(spec_tokens_from(s2, 0) =~= seq![TokenView::NotEq, TokenView::Eof]);
}

/// Law: empty input lexes to exactly the end marker.
pub proof fn lemma_lex_empty_input()
    ensures
        spec_tokens_from(Seq::<char>::empty(), 0) == seq![TokenView::Eof],
{
    assert(spec_tokens_from(Seq::<char>::empty(), 0) =~= seq![TokenView::Eof]);
}

/// Law: an input of one character that no rule recognizes lexes to the illegal
/// token carrying that character, followed by the end marker: a recoverable
/// diagnostic, never a fault.
pub proof fn lemma_lex_illegal_input(c: char)
    requires
        !is_ws_char(c),
        !is_letter_char(c),
        !is_digit_char(c),
        !is_op_char(c),
    ensures
        spec_tokens_from(seq![c], 0) == seq![TokenView::Illegal(c), TokenView::Eof],
{
    let s = seq![c];
    assert(skip_ws_from(s, 0) == 0);
    assert(lex_at(s, 0) == (TokenView::Illegal(c), 1nat));
    assert(skip_ws_from(s, 1) == 1);
    assert(spec_tokens_from(s, 1) =~= seq![TokenView::Eof]);
    assert(spec_tokens_from(s, 0) =~= seq![TokenView::Illegal(c), TokenView::Eof]);
}

/// The lexer: the source as characters, a cursor, and at most one buffered
/// token of lookahead.
pub struct Lexer {
    input: Vec<char>,
    position: usize,
    peeked: Option<Token>,
}

impl Lexer {
    /// The source text the lexer was built over.
    pub closed spec fn src(&self) -> Seq<char> {
        self.input@
    }

    /// The lexer's invariant: the cursor stays inside the input, and a
    /// buffered token is never the end marker.
    pub closed spec fn wf(&self) -> bool {
        &&& self.position <= self.input.len()
        &&& match self.peeked {
            Some(t) => !(t@ is Eof),
            None => true,
        }
    }

    /// Whether the one-token lookahead buffer is empty.
    pub closed spec fn no_lookahead(&self) -> bool {
        self.peeked is None
    }

    /// The tokens the lexer has yet to produce: the buffered token, if any,
    /// then the tokens of the rest of the input.
    pub closed spec fn remaining(&self) -> Seq<TokenView> {
        match self.peeked {
            Some(t) => seq![t@] + spec_tokens_from(self.input@, self.position as nat),
            None => spec_tokens_from(self.input@, self.position as nat),
        }
    }

    /// What remains of a well-formed lexer is a well-formed token sequence.
    pub proof fn lemma_shape(&self)
        requires
            self.wf(),
        ensures
            tokens_wf(self.remaining()),
    {
        lemma_tokens_from_wf(self.input@, self.position as nat);
        match self.peeked {
            Some(t) => {
                let rest = spec_tokens_from(self.input@, self.position as nat);
                let ts = seq![t@] + rest;
                assert(ts.last() == rest.last());
                assert(forall|k: int| 1 <= k < ts.len() - 1 ==> ts[k] == rest[k - 1]);
            },
            None => {},
        }
    }

    /// Builds a lexer over the given source text, ready to produce its whole
    /// token sequence.
    pub fn new(input: String) -> (lx: Lexer)
        ensures
            lx.wf(),
            lx.src() == input@,
            lx.remaining() == spec_tokens_from(input@, 0),
    {
        let n = input.as_str().unicode_len();
        let mut chars: Vec<char> = Vec::new();
        let mut i: usize = 0;
        while i < n
            invariant
                i <= n,
                n == input@.len(),
                chars@ == input@.subrange(0, i as int),
            decreases n - i,
        {
            let c = input.as_str().get_char(i);
            chars.push(c);
            proof {
                assert(chars@ =~= input@.subrange(0, i + 1));
            }
            i += 1;
        }
        proof {
            assert(chars@ =~= input@);
        }
        Lexer { input: chars, position: 0, peeked: None }
    }

    /// Moves the cursor past any whitespace.
    fn skip_whitespace(&mut self)
        requires
            old(self).wf(),
        ensures
            final(self).wf(),
            final(self).input == old(self).input,
            final(self).peeked == old(self).peeked,
            final(self).position as nat == skip_ws_from(old(self).input@, old(self).position as nat),
            final(self).position <= final(self).input.len(),
    {
        while self.position < self.input.len() && is_ws(self.input[self.position])
            invariant
                self.wf(),
                self.input == old(self).input,
                self.peeked == old(self).peeked,
                skip_ws_from(self.input@, self.position as nat) == skip_ws_from(
                    old(self).input@,
                    old(self).position as nat,
                ),
            decreases self.input.len() - self.position,
        {
            self.position += 1;
        }
    }

    /// Builds a string from a range of the character vector.
    fn chars_to_string(v: &Vec<char>, start: usize, end: usize) -> (r: String)
        requires
            start <= end <= v@.len(),
        ensures
            r@ == v@.subrange(start as int, end as int),
    {
        let mut r = String::new();
        let mut i = start;
        while i < end
            invariant
                start <= i <= end <= v@.len(),
                r@ == v@.subrange(start as int, i as int),
            decreases end - i,
        {
            push_char(&mut r, v[i]);
            proof {
                assert(r@ =~= v@.subrange(start as int, i + 1));
            }
            i += 1;
        }
        r
    }

    /// Returns the next token without consuming it: the value the next
    /// `next_token` call will return. The remaining sequence does not change,
    /// and peeking again returns the same token.
    pub fn peek(&mut self) -> (t: Token)
        requires
            old(self).wf(),
        ensures
            final(self).wf(),
            final(self).src() == old(self).src(),
            final(self).remaining() == old(self).remaining(),
            t@ == final(self).remaining()[0],
            tokens_wf(final(self).remaining()),
    {
        proof {
            old(self).lemma_shape();
        }
        match &self.peeked {
            Some(tok) => {
                let t = tok.clone();
                proof {
                    self.lemma_shape();
                }
                return t;
            },
            None => {},
        }
        let t = self.next_token();
        proof {
            self.lemma_shape();
        }
        if !matches!(t, Token::Eof) {
            proof {
                // The token was not the end marker, so the old remaining
                // sequence had more than one element and was consumed by one.
                assert(old(self).remaining().len() > 1);
            }
            let t2 = t.clone();
            self.peeked = Some(t2);
            proof {
                assert(self.remaining() =~= old(self).remaining());
                self.lemma_shape();
            }
            t
        } else {
            proof {
                assert(old(self).remaining().len() == 1);
                assert(self.remaining() =~= old(self).remaining());
            }
            t
        }
    }

    /// Produces the next token and consumes it. After the end of input every
    /// further call keeps returning the end marker.
    pub fn next_token(&mut self) -> (t: Token)
        requires
            old(self).wf(),
        ensures
            final(self).wf(),
            final(self).src() == old(self).src(),
            t@ == old(self).remaining()[0],
            final(self).remaining() == if old(self).remaining().len() == 1 {
                old(self).remaining()
            } else {
                old(self).remaining().skip(1)
            },
            tokens_wf(final(self).remaining()),
            final(self).no_lookahead(),
    {
        proof {
            old(self).lemma_shape();
        }
        let mut took: Option<Token> = None;
        core::mem::swap(&mut took, &mut self.peeked);
        match took {
            Some(tok) => {
                proof {
                    lemma_tokens_from_wf(self.input@, self.position as nat);
                    assert(old(self).remaining().len() > 1);
                    assert(self.remaining() =~= old(self).remaining().skip(1));
                }
                return tok;
            },
            None => {},
        }
        self.skip_whitespace();
        let ghost s = self.input@;
        let ghost p0 = old(self).position as nat;
        let ghost p = self.position as nat;
        proof {
            lemma_skip_ws_bounds(s, p0);
            lemma_lex_progress(s, p);
        }
        if self.position >= self.input.len() {
            proof {
                assert(old(self).remaining() =~= seq![TokenView::Eof]);
                assert(self.remaining() =~= seq![TokenView::Eof]);
            }
            return Token::Eof;
        }
        let c = self.input[self.position];
        let tok: Token;
        if c == '=' {
            if self.position + 1 < self.input.len() && self.input[self.position + 1] == '=' {
                self.position += 2;
                tok = Token::Eq;
            } else {
                self.position += 1;
                tok = Token::Assign;
            }
        } else if c == '!' {
            if self.position + 1 < self.input.len() && self.input[self.position + 1] == '=' {
                self.position += 2;
                tok = Token::NotEq;
            } else {
                self.position += 1;
                tok = Token::Bang;
            }
        } else if c == '+' {
            self.position += 1;
            tok = Token::Plus;
        } else if c == '-' {
            self.position += 1;
            tok = Token::Minus;
        } else if c == '*' {
            self.position += 1;
            tok = Token::Asterisk;
        } else if c == '/' {
            self.position += 1;
            tok = Token::Slash;
        } else if c == '<' {
            self.position += 1;
            tok = Token::Lt;
        } else if c == '>' {
            self.position += 1;
            tok = Token::Gt;
        } else if c == ',' {
            self.position += 1;
            tok = Token::Comma;
        } else if c == ';' {
            self.position += 1;
            tok = Token::Semicolon;
        } else if c == '(' {
            self.position += 1;
            tok = Token::LParen;
        } else if c == ')' {
            self.position += 1;
            tok = Token::RParen;
        } else if c == '{' {
            self.position += 1;
            tok = Token::LBrace;
        } else if c == '}' {
            self.position += 1;
            tok = Token::RBrace;
        } else if is_letter(c) {
            let text = self.read_identifier();
            tok = lookup_ident(text.as_str());
        } else if is_digit(c) {
            let text = self.read_number();
            tok = Token::Int(text);
        } else {
            self.position += 1;
            tok = Token::Illegal(c);
        }
        proof {
            let j = self.position as nat;
            assert(lex_at(s, p) == (tok@, j));
            lemma_lex_progress(s, p);
            lemma_tokens_from_wf(s, j);
            assert(old(self).remaining() =~= seq![tok@] + spec_tokens_from(s, j));
            assert(self.remaining() =~= old(self).remaining().skip(1));
        }
        tok
    }

    /// Consumes the maximal run of identifier characters at the cursor and
    /// returns its text.
    fn read_identifier(&mut self) -> (r: String)
        requires
            old(self).wf(),
            old(self).position < old(self).input.len(),
            is_letter_char(old(self).input@[old(self).position as int]),
        ensures
            final(self).wf(),
            final(self).input == old(self).input,
            final(self).peeked == old(self).peeked,
            final(self).position as nat == ident_end(old(self).input@, old(self).position as nat),
            r@ == old(self).input@.subrange(
                old(self).position as int,
                ident_end(old(self).input@, old(self).position as nat) as int,
            ),
    {
        let start = self.position;
        while self.position < self.input.len() && is_letter(self.input[self.position])
            invariant
                self.wf(),
                self.input == old(self).input,
                self.peeked == old(self).peeked,
                start <= self.position,
                ident_end(self.input@, self.position as nat) == ident_end(
                    old(self).input@,
                    old(self).position as nat,
                ),
            decreases self.input.len() - self.position,
        {
            self.position += 1;
        }
        Self::chars_to_string(&self.input, start, self.position)
    }

    /// Consumes the maximal run of decimal digits at the cursor and returns
    /// its text.
    fn read_number(&mut self) -> (r: String)
        requires
            old(self).wf(),
            old(self).position < old(self).input.len(),
            is_digit_char(old(self).input@[old(self).position as int]),
        ensures
            final(self).wf(),
            final(self).input == old(self).input,
            final(self).peeked == old(self).peeked,
            final(self).position as nat == int_end(old(self).input@, old(self).position as nat),
            r@ == old(self).input@.subrange(
                old(self).position as int,
                int_end(old(self).input@, old(self).position as nat) as int,
            ),
    {
        let start = self.position;
        while self.position < self.input.len() && is_digit(self.input[self.position])
            invariant
                self.wf(),
                self.input == old(self).input,
                self.peeked == old(self).peeked,
                start <= self.position,
                int_end(self.input@, self.position as nat) == int_end(
                    old(self).input@,
                    old(self).position as nat,
                ),
            decreases self.input.len() - self.position,
        {
            self.position += 1;
        }
        Self::chars_to_string(&self.input, start, self.position)
    }
}

/// The view of a token vector, element by element.
pub open spec fn tokens_view(v: Seq<Token>) -> Seq<TokenView> {
    v.map_values(|t: Token| t@)
}

/// Produces the whole token sequence of the source text, the end marker
/// included as the last element.
pub fn tokenize(input: String) -> (toks: Vec<Token>)
    ensures
        tokens_view(toks@) == spec_tokens_from(input@, 0),
{
    let mut lx = Lexer::new(input);
    let mut toks: Vec<Token> = Vec::new();
    loop
        invariant
            lx.wf(),
            tokens_view(toks@) + lx.remaining() == spec_tokens_from(input@, 0),
        decreases lx.remaining().len(),
    {
        proof {
            lx.lemma_shape();
        }
        let t = lx.next_token();
        let is_eof = matches!(t, Token::Eof);
        let ghost prev = toks@;
        toks.push(t);
        proof {
            assert(tokens_view(toks@) =~= tokens_view(prev).push(t@));
        }
        if is_eof {
            proof {
                assert(tokens_view(toks@) =~= spec_tokens_from(input@, 0));
            }
            return toks;
        }
        proof {
            assert(tokens_view(toks@) + lx.remaining() =~= spec_tokens_from(input@, 0));
        }
    }
}

} // verus!
