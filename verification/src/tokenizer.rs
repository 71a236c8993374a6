//! Splitting a JSONPath expression into tokens.
//!
//! The behaviour is specified by `lex_step`, one token from a character
//! index, and `tokenize`, the whole token stream up to the first error.

use vstd::prelude::*;
use crate::chars::{
    byte_offset, is_white_space, is_whitespace, lemma_byte_offset_mono,
    lemma_utf8_len_is_encoding_len, utf8_len, utf8_width,
};
use crate::path_reader::{lemma_run_len, push_char, run_len, PathReader, ReaderError};

verus! {

/// Why no token could be read.
#[derive(Debug, Clone, Copy, PartialEq, Eq, Structural)]
pub enum TokenError {
    /// The input ended.
    Eof,
    /// The operator starting at this byte offset is malformed.
    Position(usize),
}

fn to_token_error(read_err: ReaderError) -> (e: TokenError)
    ensures
        e == TokenError::Eof,
{
    match read_err {
        ReaderError::Eof => TokenError::Eof,
    }
}

/// A token with the byte offset at which it starts.
#[derive(Debug, PartialEq)]
pub enum Token {
    Absolute(usize),
    Dot(usize),
    At(usize),
    OpenArray(usize),
    CloseArray(usize),
    Asterisk(usize),
    Question(usize),
    Comma(usize),
    Split(usize),
    OpenParenthesis(usize),
    CloseParenthesis(usize),
    Key(usize, String),
    DoubleQuoted(usize, String),
    SingleQuoted(usize, String),
    Equal(usize),
    GreaterOrEqual(usize),
    Greater(usize),
    Little(usize),
    LittleOrEqual(usize),
    NotEqual(usize),
    And(usize),
    Or(usize),
    /// Offset of the first white-space character, and the number of bytes of
    /// white space that follow it.
    Whitespace(usize, usize),
}

/// The mathematical value of a `Token`: text is a sequence of characters.
pub enum TokenView {
    Absolute(usize),
    Dot(usize),
    At(usize),
    OpenArray(usize),
    CloseArray(usize),
    Asterisk(usize),
    Question(usize),
    Comma(usize),
    Split(usize),
    OpenParenthesis(usize),
    CloseParenthesis(usize),
    Key(usize, Seq<char>),
    DoubleQuoted(usize, Seq<char>),
    SingleQuoted(usize, Seq<char>),
    Equal(usize),
    GreaterOrEqual(usize),
    Greater(usize),
    Little(usize),
    LittleOrEqual(usize),
    NotEqual(usize),
    And(usize),
    Or(usize),
    Whitespace(usize, usize),
}

impl View for Token {
    type V = TokenView;

    open spec fn view(&self) -> TokenView {
        match self {
            Token::Absolute(p) => TokenView::Absolute(*p),
            Token::Dot(p) => TokenView::Dot(*p),
            Token::At(p) => TokenView::At(*p),
            Token::OpenArray(p) => TokenView::OpenArray(*p),
            Token::CloseArray(p) => TokenView::CloseArray(*p),
            Token::Asterisk(p) => TokenView::Asterisk(*p),
            Token::Question(p) => TokenView::Question(*p),
            Token::Comma(p) => TokenView::Comma(*p),
            Token::Split(p) => TokenView::Split(*p),
            Token::OpenParenthesis(p) => TokenView::OpenParenthesis(*p),
            Token::CloseParenthesis(p) => TokenView::CloseParenthesis(*p),
            Token::Key(p, s) => TokenView::Key(*p, s@),
            Token::DoubleQuoted(p, s) => TokenView::DoubleQuoted(*p, s@),
            Token::SingleQuoted(p, s) => TokenView::SingleQuoted(*p, s@),
            Token::Equal(p) => TokenView::Equal(*p),
            Token::GreaterOrEqual(p) => TokenView::GreaterOrEqual(*p),
            Token::Greater(p) => TokenView::Greater(*p),
            Token::Little(p) => TokenView::Little(*p),
            Token::LittleOrEqual(p) => TokenView::LittleOrEqual(*p),
            Token::NotEqual(p) => TokenView::NotEqual(*p),
            Token::And(p) => TokenView::And(*p),
            Token::Or(p) => TokenView::Or(*p),
            Token::Whitespace(p, n) => TokenView::Whitespace(*p, *n),
        }
    }
}

impl TokenView {
    /// Byte offset at which the token starts.
    pub open spec fn pos(self) -> usize {
        match self {
            TokenView::Absolute(p) => p,
            TokenView::Dot(p) => p,
            TokenView::At(p) => p,
            TokenView::OpenArray(p) => p,
            TokenView::CloseArray(p) => p,
            TokenView::Asterisk(p) => p,
            TokenView::Question(p) => p,
            TokenView::Comma(p) => p,
            TokenView::Split(p) => p,
            TokenView::OpenParenthesis(p) => p,
            TokenView::CloseParenthesis(p) => p,
            TokenView::Key(p, _) => p,
            TokenView::DoubleQuoted(p, _) => p,
            TokenView::SingleQuoted(p, _) => p,
            TokenView::Equal(p) => p,
            TokenView::GreaterOrEqual(p) => p,
            TokenView::Greater(p) => p,
            TokenView::Little(p) => p,
            TokenView::LittleOrEqual(p) => p,
            TokenView::NotEqual(p) => p,
            TokenView::And(p) => p,
            TokenView::Or(p) => p,
            TokenView::Whitespace(p, _) => p,
        }
    }

    /// The token's kind, numbered in the order of declaration.
    pub open spec fn kind(self) -> nat {
        match self {
            TokenView::Absolute(_) => 0,
            TokenView::Dot(_) => 1,
            TokenView::At(_) => 2,
            TokenView::OpenArray(_) => 3,
            TokenView::CloseArray(_) => 4,
            TokenView::Asterisk(_) => 5,
            TokenView::Question(_) => 6,
            TokenView::Comma(_) => 7,
            TokenView::Split(_) => 8,
            TokenView::OpenParenthesis(_) => 9,
            TokenView::CloseParenthesis(_) => 10,
            TokenView::Key(_, _) => 11,
            TokenView::DoubleQuoted(_, _) => 12,
            TokenView::SingleQuoted(_, _) => 13,
            TokenView::Equal(_) => 14,
            TokenView::GreaterOrEqual(_) => 15,
            TokenView::Greater(_) => 16,
            TokenView::Little(_) => 17,
            TokenView::LittleOrEqual(_) => 18,
            TokenView::NotEqual(_) => 19,
            TokenView::And(_) => 20,
            TokenView::Or(_) => 21,
            TokenView::Whitespace(_, _) => 22,
        }
    }

    /// The characters of the input that the token was read from; for white
    /// space, whose text the token does not keep, it is empty.
    pub open spec fn spelling(self) -> Seq<char> {
        match self {
            TokenView::Absolute(_) => seq!['$'],
            TokenView::Dot(_) => seq!['.'],
            TokenView::At(_) => seq!['@'],
            TokenView::OpenArray(_) => seq!['['],
            TokenView::CloseArray(_) => seq![']'],
            TokenView::Asterisk(_) => seq!['*'],
            TokenView::Question(_) => seq!['?'],
            TokenView::Comma(_) => seq![','],
            TokenView::Split(_) => seq![':'],
            TokenView::OpenParenthesis(_) => seq!['('],
            TokenView::CloseParenthesis(_) => seq![')'],
            TokenView::Key(_, w) => w,
            TokenView::DoubleQuoted(_, w) => seq!['"'] + w + seq!['"'],
            TokenView::SingleQuoted(_, w) => seq!['\''] + w + seq!['\''],
            TokenView::Equal(_) => seq!['=', '='],
            TokenView::GreaterOrEqual(_) => seq!['>', '='],
            TokenView::Greater(_) => seq!['>'],
            TokenView::Little(_) => seq!['<'],
            TokenView::LittleOrEqual(_) => seq!['<', '='],
            TokenView::NotEqual(_) => seq!['!', '='],
            TokenView::And(_) => seq!['&', '&'],
            TokenView::Or(_) => seq!['|', '|'],
            TokenView::Whitespace(_, _) => seq![],
        }
    }

    /// Whether `end` is the byte offset just past the token: its start plus
    /// the bytes of its spelling, or, for white space, its start plus the
    /// width of a white-space character plus the counted bytes.
    pub open spec fn ends_at(self, end: usize) -> bool {
        match self {
            TokenView::Whitespace(p, n) => exists|c: char|
                is_white_space(c) && end == p + utf8_width(c) + n,
            _ => end == self.pos() + utf8_len(self.spelling()),
        }
    }

    /// The symbol that names the token's kind.
    pub open spec fn symbol(self) -> Seq<char> {
        match self {
            TokenView::Absolute(_) => "$"@,
            TokenView::Dot(_) => "."@,
            TokenView::At(_) => "@"@,
            TokenView::OpenArray(_) => "["@,
            TokenView::CloseArray(_) => "]"@,
            TokenView::Asterisk(_) => "*"@,
            TokenView::Question(_) => "?"@,
            TokenView::Comma(_) => ","@,
            TokenView::Split(_) => ":"@,
            TokenView::OpenParenthesis(_) => "("@,
            TokenView::CloseParenthesis(_) => ")"@,
            TokenView::Key(_, _) => "Key"@,
            TokenView::DoubleQuoted(_, _) => "\""@,
            TokenView::SingleQuoted(_, _) => "'"@,
            TokenView::Equal(_) => "=="@,
            TokenView::GreaterOrEqual(_) => ">="@,
            TokenView::Greater(_) => ">"@,
            TokenView::Little(_) => "<"@,
            TokenView::LittleOrEqual(_) => "<="@,
            TokenView::NotEqual(_) => "!="@,
            TokenView::And(_) => "&&"@,
            TokenView::Or(_) => "||"@,
            TokenView::Whitespace(_, _) => " "@,
        }
    }
}

/// Whether two strings hold the same characters.
fn str_eq(a: &str, b: &str) -> (r: bool)
    ensures
        r == (a@ == b@),
{
    let n = a.unicode_len();
    let m = b.unicode_len();
    if n != m {
        return false;
    }
    let mut i: usize = 0;
    while i < n
        invariant
            n == a@.len(),
            m == b@.len(),
            n == m,
            i <= n,
            forall|k: int| 0 <= k < i ==> a@[k] == b@[k],
        decreases n - i,
    {
        if a.get_char(i) != b.get_char(i) {
            return false;
        }
        i = i + 1;
    }
    assert(a@ =~= b@);
    true
}

impl Token {
    /// Whether the two tokens are of the same kind; positions and text are
    /// not compared.
    pub fn partial_eq(&self, other: Token) -> (r: bool)
        ensures
            r == (self@.symbol() == other@.symbol()),
    {
        str_eq(self.to_simple(), other.to_simple())
    }

    fn to_simple(&self) -> (r: &'static str)
        ensures
            r@ == self@.symbol(),
    {
        match self {
            Token::Absolute(_) => "$",
            Token::Dot(_) => ".",
            Token::At(_) => "@",
            Token::OpenArray(_) => "[",
            Token::CloseArray(_) => "]",
            Token::Asterisk(_) => "*",
            Token::Question(_) => "?",
            Token::Comma(_) => ",",
            Token::Split(_) => ":",
            Token::OpenParenthesis(_) => "(",
            Token::CloseParenthesis(_) => ")",
            Token::Key(_, _) => "Key",
            Token::DoubleQuoted(_, _) => "\"",
            Token::SingleQuoted(_, _) => "'",
            Token::Equal(_) => "==",
            Token::GreaterOrEqual(_) => ">=",
            Token::Greater(_) => ">",
            Token::Little(_) => "<",
            Token::LittleOrEqual(_) => "<=",
            Token::NotEqual(_) => "!=",
            Token::And(_) => "&&",
            Token::Or(_) => "||",
            Token::Whitespace(_, _) => " ",
        }
    }
}

/// The token that the single character `ch` at byte offset `pos` forms on
/// its own, if any.
pub open spec fn simple_token(ch: char, pos: usize) -> Option<TokenView> {
    if ch == '$' {
        Some(TokenView::Absolute(pos))
    } else if ch == '.' {
        Some(TokenView::Dot(pos))
    } else if ch == '*' {
        Some(TokenView::Asterisk(pos))
    } else if ch == '[' {
        Some(TokenView::OpenArray(pos))
    } else if ch == ']' {
        Some(TokenView::CloseArray(pos))
    } else if ch == '(' {
        Some(TokenView::OpenParenthesis(pos))
    } else if ch == ')' {
        Some(TokenView::CloseParenthesis(pos))
    } else if ch == '@' {
        Some(TokenView::At(pos))
    } else if ch == '?' {
        Some(TokenView::Question(pos))
    } else if ch == ',' {
        Some(TokenView::Comma(pos))
    } else if ch == ':' {
        Some(TokenView::Split(pos))
    } else {
        None
    }
}

fn simple_matched_token(ch: char, pos: usize) -> (r: Option<Token>)
    ensures
        r is None <==> simple_token(ch, pos) is None,
        r matches Some(t) ==> simple_token(ch, pos) == Some(t@),
{
    match ch {
        '$' => Some(Token::Absolute(pos)),
        '.' => Some(Token::Dot(pos)),
        '*' => Some(Token::Asterisk(pos)),
        '[' => Some(Token::OpenArray(pos)),
        ']' => Some(Token::CloseArray(pos)),
        '(' => Some(Token::OpenParenthesis(pos)),
        ')' => Some(Token::CloseParenthesis(pos)),
        '@' => Some(Token::At(pos)),
        '?' => Some(Token::Question(pos)),
        ',' => Some(Token::Comma(pos)),
        ':' => Some(Token::Split(pos)),
        _ => None,
    }
}

/// Characters that may continue a key: neither a one-character token, nor a
/// character that starts an operator, nor white space.
pub open spec fn is_key_char(c: char) -> bool {
    &&& simple_token(c, 0) is None
    &&& c != '<' && c != '>' && c != '=' && c != '&' && c != '|' && c != '!'
    &&& !is_white_space(c)
}

/// The characters other than `q`.
pub open spec fn other_than(q: char) -> spec_fn(char) -> bool {
    |c: char| c != q
}

/// The white-space characters.
pub open spec fn white_space() -> spec_fn(char) -> bool {
    |c: char| is_white_space(c)
}

/// The characters that may continue a key.
pub open spec fn key_chars() -> spec_fn(char) -> bool {
    |c: char| is_key_char(c)
}

/// Byte offset of character index `i` of `s`, as the tokenizer reports it.
pub open spec fn position_at(s: Seq<char>, i: int) -> usize {
    byte_offset(s, i) as usize
}

/// The `Result` of a token read, by its view.
pub open spec fn view_result(r: Result<Token, TokenError>) -> Result<TokenView, TokenError> {
    match r {
        Ok(t) => Ok(t@),
        Err(e) => Err(e),
    }
}

/// A quoted text whose opening quote `q` was at byte offset `pos`, with the
/// text starting at index `j`: the text runs to the next `q`, which is
/// consumed too; without a closing quote the input is used up and the read
/// fails with `Eof`.
pub open spec fn quoted_step(s: Seq<char>, j: int, q: char, pos: usize, single: bool) -> (
    Result<TokenView, TokenError>,
    int,
) {
    let k = j + run_len(s, j, other_than(q));
    if k >= s.len() {
        (Err(TokenError::Eof), k)
    } else if single {
        (Ok(TokenView::SingleQuoted(pos, s.subrange(j, k))), k + 1)
    } else {
        (Ok(TokenView::DoubleQuoted(pos, s.subrange(j, k))), k + 1)
    }
}

/// An operator whose first character was at byte offset `pos`, looking at
/// index `j`: `Eof` at the end of the input; `paired` when the character at
/// `j` is `second`, which is consumed; otherwise `alone`, consuming nothing.
pub open spec fn pair_step(
    s: Seq<char>,
    j: int,
    second: char,
    paired: TokenView,
    alone: Result<TokenView, TokenError>,
) -> (Result<TokenView, TokenError>, int) {
    if j >= s.len() {
        (Err(TokenError::Eof), j)
    } else if s[j] == second {
        (Ok(paired), j + 1)
    } else {
        (alone, j)
    }
}

/// White space whose first character was at byte offset `pos`: the rest of
/// the run from index `j` is consumed and counted in bytes.
pub open spec fn whitespace_step(s: Seq<char>, j: int, pos: usize) -> (
    Result<TokenView, TokenError>,
    int,
) {
    let k = j + run_len(s, j, white_space());
    (Ok(TokenView::Whitespace(pos, utf8_len(s.subrange(j, k)) as usize)), k)
}

/// A key that starts with `ch` at byte offset `pos` and continues with the
/// key characters from index `j`.
pub open spec fn key_step(s: Seq<char>, j: int, ch: char, pos: usize) -> (
    Result<TokenView, TokenError>,
    int,
) {
    let k = j + run_len(s, j, key_chars());
    (Ok(TokenView::Key(pos, seq![ch] + s.subrange(j, k))), k)
}

/// Reading one token of `s` from character index `i`: the outcome, and the
/// index from which the next read starts.
pub open spec fn lex_step(s: Seq<char>, i: int) -> (Result<TokenView, TokenError>, int) {
    if i < 0 || i >= s.len() {
        (Err(TokenError::Eof), i)
    } else {
        let ch = s[i];
        let pos = position_at(s, i);
        let j = i + 1;
        match simple_token(ch, pos) {
            Some(t) => (Ok(t), j),
            None => {
                if ch == '\'' {
                    quoted_step(s, j, ch, pos, true)
                } else if ch == '"' {
                    quoted_step(s, j, ch, pos, false)
                } else if ch == '=' {
                    pair_step(
                        s,
                        j,
                        '=',
                        TokenView::Equal(pos),
                        Err(TokenError::Position(pos)),
                    )
                } else if ch == '>' {
                    pair_step(
                        s,
                        j,
                        '=',
                        TokenView::GreaterOrEqual(pos),
                        Ok(TokenView::Greater(pos)),
                    )
                } else if ch == '<' {
                    pair_step(
                        s,
                        j,
                        '=',
                        TokenView::LittleOrEqual(pos),
                        Ok(TokenView::Little(pos)),
                    )
                } else if ch == '&' {
                    pair_step(s, j, '&', TokenView::And(pos), Err(TokenError::Position(pos)))
                } else if ch == '|' {
                    pair_step(s, j, '|', TokenView::Or(pos), Err(TokenError::Position(pos)))
                } else if ch == '!' {
                    pair_step(
                        s,
                        j,
                        '=',
                        TokenView::NotEqual(pos),
                        Err(TokenError::Position(pos)),
                    )
                } else if is_white_space(ch) {
                    whitespace_step(s, j, pos)
                } else {
                    key_step(s, j, ch, pos)
                }
            },
        }
    }
}

/// A read from within the input never moves backwards nor past the end,
/// and a successful read consumes at least one character.
pub proof fn lemma_lex_step_progress(s: Seq<char>, i: int)
    ensures
        0 <= i <= s.len() ==> i <= lex_step(s, i).1 <= s.len(),
        lex_step(s, i).0 is Ok ==> 0 <= i < lex_step(s, i).1 <= s.len(),
{
    if 0 <= i < s.len() {
        lemma_run_len(s, i + 1, other_than(s[i]));
        lemma_run_len(s, i + 1, white_space());
        lemma_run_len(s, i + 1, key_chars());
    }
}

/// Reads tokens one at a time from an input string.
pub struct Tokenizer {
    input: PathReader,
}

impl Tokenizer {
    /// The characters of the input.
    pub closed spec fn source(&self) -> Seq<char> {
        self.input.input()
    }

    /// Number of characters consumed so far.
    pub closed spec fn index(&self) -> int {
        self.input.index()
    }

    /// Internal consistency of the tokenizer.
    pub closed spec fn wf(&self) -> bool {
        self.input.wf()
    }

    /// What a well-formed tokenizer guarantees to its users.
    pub proof fn lemma_wf(&self)
        requires
            self.wf(),
        ensures
            0 <= self.index() <= self.source().len(),
            utf8_len(self.source()) <= usize::MAX,
    {
        self.input.lemma_wf();
    }

    /// A tokenizer at the start of `input`.
    pub fn new(input: &str) -> (t: Tokenizer)
        ensures
            t.wf(),
            t.source() == input@,
            t.index() == 0,
    {
        Tokenizer { input: PathReader::new(input) }
    }

    fn single_quota(&mut self, pos: usize, ch: char) -> (r: Result<Token, TokenError>)
        requires
            old(self).wf(),
        ensures
            final(self).wf(),
            final(self).source() == old(self).source(),
            (view_result(r), final(self).index()) == quoted_step(
                old(self).source(),
                old(self).index(),
                ch,
                pos,
                true,
            ),
    {
        let fun = |c: &char| -> (b: bool)
            ensures
                b == (*c != ch),
            { *c != ch };
        let (_, val) = match self.input.take_while(fun, Ghost(other_than(ch))) {
            Ok(x) => x,
            Err(e) => return Err(to_token_error(e)),
        };
        match self.input.next_char() {
            Ok(_) => {},
            Err(e) => return Err(to_token_error(e)),
        }
        Ok(Token::SingleQuoted(pos, val))
    }

    fn double_quota(&mut self, pos: usize, ch: char) -> (r: Result<Token, TokenError>)
        requires
            old(self).wf(),
        ensures
            final(self).wf(),
            final(self).source() == old(self).source(),
            (view_result(r), final(self).index()) == quoted_step(
                old(self).source(),
                old(self).index(),
                ch,
                pos,
                false,
            ),
    {
        let fun = |c: &char| -> (b: bool)
            ensures
                b == (*c != ch),
            { *c != ch };
        let (_, val) = match self.input.take_while(fun, Ghost(other_than(ch))) {
            Ok(x) => x,
            Err(e) => return Err(to_token_error(e)),
        };
        match self.input.next_char() {
            Ok(_) => {},
            Err(e) => return Err(to_token_error(e)),
        }
        Ok(Token::DoubleQuoted(pos, val))
    }

    fn equal(&mut self, pos: usize, _ch: char) -> (r: Result<Token, TokenError>)
        requires
            old(self).wf(),
        ensures
            final(self).wf(),
            final(self).source() == old(self).source(),
            (view_result(r), final(self).index()) == pair_step(
                old(self).source(),
                old(self).index(),
                '=',
                TokenView::Equal(pos),
                Err(TokenError::Position(pos)),
            ),
    {
        let (_, ch) = match self.input.peek_char() {
            Ok(x) => x,
            Err(e) => return Err(to_token_error(e)),
        };
        match ch {
            '=' => {
                match self.input.next_char() {
                    Ok(_) => {},
                    Err(e) => return Err(to_token_error(e)),
                }
                Ok(Token::Equal(pos))
            },
            _ => Err(TokenError::Position(pos)),
        }
    }

    fn not_equal(&mut self, pos: usize, _ch: char) -> (r: Result<Token, TokenError>)
        requires
            old(self).wf(),
        ensures
            final(self).wf(),
            final(self).source() == old(self).source(),
            (view_result(r), final(self).index()) == pair_step(
                old(self).source(),
                old(self).index(),
                '=',
                TokenView::NotEqual(pos),
                Err(TokenError::Position(pos)),
            ),
    {
        let (_, ch) = match self.input.peek_char() {
            Ok(x) => x,
            Err(e) => return Err(to_token_error(e)),
        };
        match ch {
            '=' => {
                match self.input.next_char() {
                    Ok(_) => {},
                    Err(e) => return Err(to_token_error(e)),
                }
                Ok(Token::NotEqual(pos))
            },
            _ => Err(TokenError::Position(pos)),
        }
    }

    fn little(&mut self, pos: usize, _ch: char) -> (r: Result<Token, TokenError>)
        requires
            old(self).wf(),
        ensures
            final(self).wf(),
            final(self).source() == old(self).source(),
            (view_result(r), final(self).index()) == pair_step(
                old(self).source(),
                old(self).index(),
                '=',
                TokenView::LittleOrEqual(pos),
                Ok(TokenView::Little(pos)),
            ),
    {
        let (_, ch) = match self.input.peek_char() {
            Ok(x) => x,
            Err(e) => return Err(to_token_error(e)),
        };
        match ch {
            '=' => {
                match self.input.next_char() {
                    Ok(_) => {},
                    Err(e) => return Err(to_token_error(e)),
                }
                Ok(Token::LittleOrEqual(pos))
            },
            _ => Ok(Token::Little(pos)),
        }
    }

    fn greater(&mut self, pos: usize, _ch: char) -> (r: Result<Token, TokenError>)
        requires
            old(self).wf(),
        ensures
            final(self).wf(),
            final(self).source() == old(self).source(),
            (view_result(r), final(self).index()) == pair_step(
                old(self).source(),
                old(self).index(),
                '=',
                TokenView::GreaterOrEqual(pos),
                Ok(TokenView::Greater(pos)),
            ),
    {
        let (_, ch) = match self.input.peek_char() {
            Ok(x) => x,
            Err(e) => return Err(to_token_error(e)),
        };
        match ch {
            '=' => {
                match self.input.next_char() {
                    Ok(_) => {},
                    Err(e) => return Err(to_token_error(e)),
                }
                Ok(Token::GreaterOrEqual(pos))
            },
            _ => Ok(Token::Greater(pos)),
        }
    }

    fn and(&mut self, pos: usize, _ch: char) -> (r: Result<Token, TokenError>)
        requires
            old(self).wf(),
        ensures
            final(self).wf(),
            final(self).source() == old(self).source(),
            (view_result(r), final(self).index()) == pair_step(
                old(self).source(),
                old(self).index(),
                '&',
                TokenView::And(pos),
                Err(TokenError::Position(pos)),
            ),
    {
        let (_, ch) = match self.input.peek_char() {
            Ok(x) => x,
            Err(e) => return Err(to_token_error(e)),
        };
        match ch {
            '&' => {
                let _ = self.input.next_char();
                Ok(Token::And(pos))
            },
            _ => Err(TokenError::Position(pos)),
        }
    }

    fn or(&mut self, pos: usize, _ch: char) -> (r: Result<Token, TokenError>)
        requires
            old(self).wf(),
        ensures
            final(self).wf(),
            final(self).source() == old(self).source(),
            (view_result(r), final(self).index()) == pair_step(
                old(self).source(),
                old(self).index(),
                '|',
                TokenView::Or(pos),
                Err(TokenError::Position(pos)),
            ),
    {
        let (_, ch) = match self.input.peek_char() {
            Ok(x) => x,
            Err(e) => return Err(to_token_error(e)),
        };
        match ch {
            '|' => {
                match self.input.next_char() {
                    Ok(_) => {},
                    Err(e) => return Err(to_token_error(e)),
                }
                Ok(Token::Or(pos))
            },
            _ => Err(TokenError::Position(pos)),
        }
    }

    fn whitespace(&mut self, pos: usize, _ch: char) -> (r: Result<Token, TokenError>)
        requires
            old(self).wf(),
        ensures
            final(self).wf(),
            final(self).source() == old(self).source(),
            (view_result(r), final(self).index()) == whitespace_step(
                old(self).source(),
                old(self).index(),
                pos,
            ),
    {
        let ghost s = self.source();
        let ghost j = self.index();
        let fun = |c: &char| -> (b: bool)
            ensures
                b == is_white_space(*c),
            { is_whitespace(*c) };
        let (_, vec) = match self.input.take_while(fun, Ghost(white_space())) {
            Ok(x) => x,
            Err(e) => return Err(to_token_error(e)),
        };
        proof {
            self.input.lemma_wf();
            lemma_run_len(s, j, white_space());
            lemma_byte_offset_mono(s, j, self.index());
            lemma_utf8_len_is_encoding_len(vec@);
        }
        let n = vec.as_str().len();
        Ok(Token::Whitespace(pos, n))
    }

    fn other(&mut self, pos: usize, ch: char) -> (r: Result<Token, TokenError>)
        requires
            old(self).wf(),
        ensures
            final(self).wf(),
            final(self).source() == old(self).source(),
            (view_result(r), final(self).index()) == key_step(
                old(self).source(),
                old(self).index(),
                ch,
                pos,
            ),
    {
        let fun = |c: &char| -> (b: bool)
            ensures
                b == is_key_char(*c),
            {
                match simple_matched_token(*c, pos) {
                    Some(_) => false,
                    _ => {
                        if *c == '<' || *c == '>' || *c == '=' || *c == '&' || *c == '|' || *c
                            == '!' {
                            false
                        } else {
                            !is_whitespace(*c)
                        }
                    },
                }
            };
        let (_, vec) = match self.input.take_while(fun, Ghost(key_chars())) {
            Ok(x) => x,
            Err(e) => return Err(to_token_error(e)),
        };
        let mut key = String::new();
        push_char(&mut key, ch);
        key.append(vec.as_str());
        assert(key@ =~= seq![ch] + vec@);
        Ok(Token::Key(pos, key))
    }

    /// Reads the next token. At the end of the input this gives `Eof` and
    /// leaves the tokenizer as it is.
    pub fn next_token(&mut self) -> (r: Result<Token, TokenError>)
        requires
            old(self).wf(),
        ensures
            final(self).wf(),
            final(self).source() == old(self).source(),
            (view_result(r), final(self).index()) == lex_step(
                old(self).source(),
                old(self).index(),
            ),
    {
        proof {
            self.input.lemma_wf();
        }
        let (pos, ch) = match self.input.next_char() {
            Ok(x) => x,
            Err(e) => return Err(to_token_error(e)),
        };
        match simple_matched_token(ch, pos) {
            Some(t) => Ok(t),
            None => {
                match ch {
                    '\'' => self.single_quota(pos, ch),
                    '"' => self.double_quota(pos, ch),
                    '=' => self.equal(pos, ch),
                    '>' => self.greater(pos, ch),
                    '<' => self.little(pos, ch),
                    '&' => self.and(pos, ch),
                    '|' => self.or(pos, ch),
                    '!' => self.not_equal(pos, ch),
                    _ if is_whitespace(ch) => self.whitespace(pos, ch),
                    _ => self.other(pos, ch),
                }
            },
        }
    }

    fn current_pos(&self) -> (r: usize)
        requires
            self.wf(),
        ensures
            r == position_at(self.source(), self.index()),
    {
        self.input.current_pos()
    }
}

/// Reading tokens of `s` from index `i` until the first failed read: each
/// token paired with the byte offset at which the next read starts, then the
/// error, then the index at which it came.
pub open spec fn lex_from(s: Seq<char>, i: int) -> (Seq<(usize, TokenView)>, TokenError, int)
    decreases s.len() - i,
{
    let step = lex_step(s, i);
    match step.0 {
        Err(e) => (Seq::empty(), e, step.1),
        Ok(t) => {
            proof {
                lemma_lex_step_progress(s, i);
            }
            let rest = lex_from(s, step.1);
            (seq![(position_at(s, step.1), t)] + rest.0, rest.1, rest.2)
        },
    }
}

/// All tokens of `s` up to the first failed read.
pub open spec fn tokenize(s: Seq<char>) -> (Seq<(usize, TokenView)>, TokenError, int) {
    lex_from(s, 0)
}

/// Stored pairs by their views.
pub open spec fn pairs_view(v: Seq<(usize, Token)>) -> Seq<(usize, TokenView)> {
    v.map_values(|p: (usize, Token)| (p.0, p.1@))
}

/// The message that shows `src` on one line and, on the next, `n` carets.
pub open spec fn caret_message(src: Seq<char>, n: nat) -> Seq<char> {
    src + seq!['\n'] + Seq::new(n, |_i: int| '^') + seq!['\n']
}

/// A tokenizer that reads the whole input up front and then hands out the
/// tokens one by one, followed by the error that ended the reading.
pub struct PreloadedTokenizer<'a> {
    origin_input: &'a str,
    err: TokenError,
    err_pos: usize,
    tokens: Vec<(usize, Token)>,
    curr_pos: Option<usize>,
}

impl<'a> PreloadedTokenizer<'a> {
    /// The input.
    pub closed spec fn source(&self) -> Seq<char> {
        self.origin_input@
    }

    /// The tokens not yet handed out, in the order in which they will be,
    /// each with the byte offset just after it.
    pub closed spec fn pending(&self) -> Seq<(usize, TokenView)> {
        pairs_view(self.tokens@).reverse()
    }

    /// The error that ended the reading.
    pub closed spec fn error(&self) -> TokenError {
        self.err
    }

    /// Byte offset at which the reading ended.
    pub closed spec fn error_pos(&self) -> usize {
        self.err_pos
    }

    /// Byte offset just after the token handed out last, if any was.
    pub closed spec fn current(&self) -> Option<usize> {
        self.curr_pos
    }

    /// What the next `peek_token` or `next_token` gives.
    pub open spec fn front(&self) -> Result<TokenView, TokenError> {
        if self.pending().len() > 0 {
            Ok(self.pending()[0].1)
        } else {
            Err(self.error())
        }
    }

    /// Reads all tokens of `input`.
    pub fn new(input: &'a str) -> (p: PreloadedTokenizer<'a>)
        ensures
            p.source() == input@,
            p.pending() == tokenize(input@).0,
            p.error() == tokenize(input@).1,
            p.error_pos() == position_at(input@, tokenize(input@).2),
            p.current() == None::<usize>,
    {
        let ghost s = input@;
        let mut tokenizer = Tokenizer::new(input);
        let mut tokens: Vec<(usize, Token)> = Vec::new();
        loop
            invariant
                tokenizer.wf(),
                s == input@,
                tokenizer.source() == s,
                0 <= tokenizer.index() <= s.len(),
                pairs_view(tokens@).reverse() + lex_from(s, tokenizer.index()).0 == tokenize(
                    s,
                ).0,
                lex_from(s, tokenizer.index()).1 == tokenize(s).1,
                lex_from(s, tokenizer.index()).2 == tokenize(s).2,
            decreases s.len() - tokenizer.index(),
        {
            let ghost i = tokenizer.index();
            let ghost before = pairs_view(tokens@);
            proof {
                lemma_lex_step_progress(s, i);
            }
            match tokenizer.next_token() {
                Ok(t) => {
                    let at = tokenizer.current_pos();
                    let ghost rest = lex_from(s, tokenizer.index());
                    assert(lex_from(s, i).0 == seq![(at, t@)] + rest.0);
                    tokens.insert(0, (at, t));
                    assert(pairs_view(tokens@) =~= seq![(at, t@)] + before);
                    assert(pairs_view(tokens@).reverse() =~= before.reverse() + seq![(at, t@)]);
                    assert(pairs_view(tokens@).reverse() + rest.0 =~= before.reverse() + (seq![
                        (at, t@),
                    ] + rest.0));
                },
                Err(e) => {
                    let err_pos = tokenizer.current_pos();
                    assert(lex_from(s, i).0 =~= Seq::<(usize, TokenView)>::empty());
                    assert(before.reverse() + Seq::<(usize, TokenView)>::empty() =~= before.reverse());
                    return PreloadedTokenizer {
                        origin_input: input,
                        err: e,
                        err_pos,
                        tokens,
                        curr_pos: None,
                    };
                },
            }
        }
    }

    /// The next token, without handing it out; the error once none is left.
    pub fn peek_token(&self) -> (r: Result<&Token, TokenError>)
        ensures
            match r {
                Ok(t) => self.front() == Ok::<TokenView, TokenError>(t@),
                Err(e) => self.front() == Err::<TokenView, TokenError>(e),
            },
    {
        match self.tokens.last() {
            Some((_, t)) => {
                assert(self.pending()[0] == pairs_view(self.tokens@).last());
                Ok(t)
            },
            _ => Err(self.err.clone()),
        }
    }

    /// Hands out the next token; once none is left, gives the error and
    /// changes nothing.
    pub fn next_token(&mut self) -> (r: Result<Token, TokenError>)
        ensures
            view_result(r) == old(self).front(),
            final(self).source() == old(self).source(),
            final(self).error() == old(self).error(),
            final(self).error_pos() == old(self).error_pos(),
            old(self).pending().len() > 0 ==> {
                &&& final(self).pending() == old(self).pending().drop_first()
                &&& final(self).current() == Some(old(self).pending()[0].0)
            },
            old(self).pending().len() == 0 ==> {
                &&& final(self).pending() == old(self).pending()
                &&& final(self).current() == old(self).current()
            },
    {
        let ghost before = pairs_view(self.tokens@);
        match self.tokens.pop() {
            Some((pos, t)) => {
                assert(pairs_view(self.tokens@) =~= before.drop_last());
                assert(before.drop_last().reverse() =~= before.reverse().drop_first());
                self.curr_pos = Some(pos);
                Ok(t)
            },
            _ => Err(self.err.clone()),
        }
    }

    /// The input with, on the next line, `pos` carets.
    pub fn err_msg_with_pos(&self, pos: usize) -> (r: String)
        ensures
            r@ == caret_message(self.source(), pos as nat),
    {
        let mut w = self.origin_input.to_owned();
        push_char(&mut w, '\n');
        let mut i: usize = 0;
        while i < pos
            invariant
                i <= pos,
                w@ == self.source() + seq!['\n'] + Seq::new(i as nat, |_i: int| '^'),
            decreases pos - i,
        {
            push_char(&mut w, '^');
            assert(Seq::new(i as nat, |_i: int| '^').push('^') =~= Seq::new(
                (i + 1) as nat,
                |_i: int| '^',
            ));
            i = i + 1;
        }
        push_char(&mut w, '\n');
        w
    }

    /// The error message: carets up to the end of the token handed out last,
    /// or, if none was, up to where the reading ended.
    pub fn err_msg(&self) -> (r: String)
        ensures
            r@ == caret_message(
                self.source(),
                match self.current() {
                    Some(p) => p as nat,
                    None => self.error_pos() as nat,
                },
            ),
    {
        match self.curr_pos {
            Some(pos) => self.err_msg_with_pos(pos),
            _ => self.err_msg_with_pos(self.err_pos),
        }
    }
}

} // verus!
