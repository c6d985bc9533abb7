use vstd::prelude::*;

use crate::keyword_trie::{KeywordTrie, prefix_free, is_prefix, classify};
use vstd::string::StrSliceExecFns;

verus! {

/// The kinds of token the scanner produces.
#[derive(Debug, Clone, Copy, PartialEq, Eq, Structural)]
pub enum TokenType {
    // Single-character tokens.
    LeftParen,
    RightParen,
    LeftBrace,
    RightBrace,
    Comma,
    Dot,
    Minus,
    Plus,
    Semicolon,
    Slash,
    Star,
    // One or two character tokens.
    Bang,
    BangEqual,
    Equal,
    EqualEqual,
    Greater,
    GreaterEqual,
    Less,
    LessEqual,
    // Literals.
    Identifier,
    String,
    Number,
    // Keywords.
    And,
    Class,
    Else,
    False,
    For,
    Fun,
    If,
    Nil,
    Or,
    Print,
    Return,
    Super,
    This,
    True,
    Var,
    While,
    Fn,
    Struct,
    Trait,
    Impl,
    New,
    Error,
    Eof,
}

/// The reserved words of the language and the token type of each.
pub open spec fn keyword_map() -> Map<Seq<char>, TokenType> {
    map![
        seq!['a', 'n', 'd'] => TokenType::And,
        seq!['c', 'l', 'a', 's', 's'] => TokenType::Class,
        seq!['e', 'l', 's', 'e'] => TokenType::Else,
        seq!['i', 'f'] => TokenType::If,
        seq!['n', 'i', 'l'] => TokenType::Nil,
        seq!['o', 'r'] => TokenType::Or,
        seq!['p', 'r', 'i', 'n', 't'] => TokenType::Print,
        seq!['r', 'e', 't', 'u', 'r', 'n'] => TokenType::Return,
        seq!['s', 'u', 'p', 'e', 'r'] => TokenType::Super,
        seq!['v', 'a', 'r'] => TokenType::Var,
        seq!['w', 'h', 'i', 'l', 'e'] => TokenType::While,
        seq!['f', 'o', 'r'] => TokenType::For,
        seq!['f', 'a', 'l', 's', 'e'] => TokenType::False,
        seq!['f', 'u', 'n'] => TokenType::Fun,
        seq!['t', 'h', 'i', 's'] => TokenType::This,
        seq!['t', 'r', 'u', 'e'] => TokenType::True,
        seq!['f', 'n'] => TokenType::Fn,
        seq!['s', 't', 'r', 'u', 'c', 't'] => TokenType::Struct,
        seq!['t', 'r', 'a', 'i', 't'] => TokenType::Trait,
        seq!['i', 'm', 'p', 'l'] => TokenType::Impl,
        seq!['n', 'e', 'w'] => TokenType::New
    ]
}

/// No reserved word is a proper prefix of another one.
pub proof fn lemma_keywords_prefix_free()
    ensures
        prefix_free(keyword_map()),
{
    let m = keyword_map();
    assert(!m.dom().contains(Seq::<char>::empty())) by {
        assert forall|a: Seq<char>| m.dom().contains(a) implies a.len() >= 2 by {}
    }
    assert forall|a: Seq<char>, b: Seq<char>|
        m.dom().contains(a) && m.dom().contains(b) && a != b implies !is_prefix(a, b) by {
        if is_prefix(a, b) {
            assert(a[0] == b[0]);
            assert(a[1] == b[1]);
            if a.len() > 2 {
                assert(a[2] == b[2]);
            }
            assert(false);
        }
    }
}

/// The trie of all reserved words.
fn build_keyword_trie() -> (t: KeywordTrie)
    ensures
        t.wf(),
        t.words() == keyword_map(),
{
    let mut t = KeywordTrie::new();
    t.insert(&vec!['a', 'n', 'd'], TokenType::And);
    t.insert(&vec!['c', 'l', 'a', 's', 's'], TokenType::Class);
    t.insert(&vec!['e', 'l', 's', 'e'], TokenType::Else);
    t.insert(&vec!['i', 'f'], TokenType::If);
    t.insert(&vec!['n', 'i', 'l'], TokenType::Nil);
    t.insert(&vec!['o', 'r'], TokenType::Or);
    t.insert(&vec!['p', 'r', 'i', 'n', 't'], TokenType::Print);
    t.insert(&vec!['r', 'e', 't', 'u', 'r', 'n'], TokenType::Return);
    t.insert(&vec!['s', 'u', 'p', 'e', 'r'], TokenType::Super);
    t.insert(&vec!['v', 'a', 'r'], TokenType::Var);
    t.insert(&vec!['w', 'h', 'i', 'l', 'e'], TokenType::While);
    t.insert(&vec!['f', 'o', 'r'], TokenType::For);
    t.insert(&vec!['f', 'a', 'l', 's', 'e'], TokenType::False);
    t.insert(&vec!['f', 'u', 'n'], TokenType::Fun);
    t.insert(&vec!['t', 'h', 'i', 's'], TokenType::This);
    t.insert(&vec!['t', 'r', 'u', 'e'], TokenType::True);
    t.insert(&vec!['f', 'n'], TokenType::Fn);
    t.insert(&vec!['s', 't', 'r', 'u', 'c', 't'], TokenType::Struct);
    t.insert(&vec!['t', 'r', 'a', 'i', 't'], TokenType::Trait);
    t.insert(&vec!['i', 'm', 'p', 'l'], TokenType::Impl);
    t.insert(&vec!['n', 'e', 'w'], TokenType::New);
    t
}

// ---------------------------------------------------------------------------
// Character classes
// ---------------------------------------------------------------------------

pub open spec fn is_digit_char(c: char) -> bool {
    '0' <= c && c <= '9'
}

pub open spec fn is_alpha_char(c: char) -> bool {
    ('a' <= c && c <= 'z') || ('A' <= c && c <= 'Z') || c == '_'
}

/// The Unicode `White_Space` property.
pub open spec fn is_whitespace_char(c: char) -> bool {
    let u = c as u32;
    (0x09 <= u && u <= 0x0d) || u == 0x20 || u == 0x85 || u == 0xa0 || u == 0x1680 || (0x2000
        <= u && u <= 0x200a) || u == 0x2028 || u == 0x2029 || u == 0x202f || u == 0x205f || u
        == 0x3000
}

fn is_whitespace(ch: char) -> (b: bool)
    ensures
        b == is_whitespace_char(ch),
{
    let u = ch as u32;
    (0x09 <= u && u <= 0x0d) || u == 0x20 || u == 0x85 || u == 0xa0 || u == 0x1680 || (0x2000
        <= u && u <= 0x200a) || u == 0x2028 || u == 0x2029 || u == 0x202f || u == 0x205f || u
        == 0x3000
}

// ---------------------------------------------------------------------------
// The lexical grammar, over the characters of the source
// ---------------------------------------------------------------------------

/// Position of the first character at or after `pos` that is neither white space nor part of a
/// `//` comment.
pub open spec fn skip_trivia(s: Seq<char>, pos: int) -> int
    decreases s.len() - pos, 1int,
{
    if 0 <= pos < s.len() {
        if is_whitespace_char(s[pos]) {
            skip_trivia(s, pos + 1)
        } else if s[pos] == '/' && pos + 1 < s.len() && s[pos + 1] == '/' {
            skip_comment(s, pos + 2)
        } else {
            pos
        }
    } else {
        pos
    }
}

/// Inside a line comment: skip to the end of the line, then on over trivia.
pub open spec fn skip_comment(s: Seq<char>, pos: int) -> int
    decreases s.len() - pos, 0int,
{
    if 0 <= pos < s.len() {
        if s[pos] == '\n' {
            skip_trivia(s, pos + 1)
        } else {
            skip_comment(s, pos + 1)
        }
    } else {
        pos
    }
}

/// End of the run of letters, digits and underscores that starts at `pos`.
pub open spec fn ident_end(s: Seq<char>, pos: int) -> int
    decreases s.len() - pos,
{
    if 0 <= pos < s.len() && (is_alpha_char(s[pos]) || is_digit_char(s[pos])) {
        ident_end(s, pos + 1)
    } else {
        pos
    }
}

/// End of the run of digits that starts at `pos`.
pub open spec fn digits_end(s: Seq<char>, pos: int) -> int
    decreases s.len() - pos,
{
    if 0 <= pos < s.len() && is_digit_char(s[pos]) {
        digits_end(s, pos + 1)
    } else {
        pos
    }
}

/// End of a number literal whose first digit ends at `pos`: more digits, then optionally a
/// `.` followed by at least one digit and more digits.
pub open spec fn number_end(s: Seq<char>, pos: int) -> int {
    let e = digits_end(s, pos);
    if 0 <= e && e + 1 < s.len() && s[e] == '.' && is_digit_char(s[e + 1]) {
        digits_end(s, e + 1)
    } else {
        e
    }
}

/// End of a string literal whose opening quote ends at `pos`: just past the closing quote, or
/// the end of the source when there is none.
pub open spec fn string_end(s: Seq<char>, pos: int) -> int
    decreases s.len() - pos,
{
    if 0 <= pos < s.len() {
        if s[pos] == '"' {
            pos + 1
        } else {
            string_end(s, pos + 1)
        }
    } else {
        pos
    }
}

/// Number of line breaks in `s[from..to]`.
pub open spec fn newlines(s: Seq<char>, from: int, to: int) -> int
    decreases to - from,
{
    if from < to {
        (if s[from] == '\n' {
            1int
        } else {
            0int
        }) + newlines(s, from + 1, to)
    } else {
        0
    }
}

/// Tokens made of exactly one character.
pub open spec fn single_char_token(c: char) -> Option<TokenType> {
    if c == '(' {
        Some(TokenType::LeftParen)
    } else if c == ')' {
        Some(TokenType::RightParen)
    } else if c == '{' {
        Some(TokenType::LeftBrace)
    } else if c == '}' {
        Some(TokenType::RightBrace)
    } else if c == ';' {
        Some(TokenType::Semicolon)
    } else if c == ',' {
        Some(TokenType::Comma)
    } else if c == '.' {
        Some(TokenType::Dot)
    } else if c == '-' {
        Some(TokenType::Minus)
    } else if c == '+' {
        Some(TokenType::Plus)
    } else if c == '/' {
        Some(TokenType::Slash)
    } else if c == '*' {
        Some(TokenType::Star)
    } else {
        None
    }
}

/// Tokens of one character that become another token when `=` follows: (alone, with `=`).
pub open spec fn pair_token(c: char) -> Option<(TokenType, TokenType)> {
    if c == '!' {
        Some((TokenType::Bang, TokenType::BangEqual))
    } else if c == '=' {
        Some((TokenType::Equal, TokenType::EqualEqual))
    } else if c == '<' {
        Some((TokenType::Less, TokenType::LessEqual))
    } else if c == '>' {
        Some((TokenType::Greater, TokenType::GreaterEqual))
    } else {
        None
    }
}

/// A token as the grammar describes it.
pub struct SpecToken {
    pub token_type: TokenType,
    pub value: Seq<char>,
    pub line: int,
}

/// The token that scanning `s` from position `pos` on line `line` yields, and the position
/// after it. The line of the token is the line the scanner is on after it.
pub open spec fn scan_step(s: Seq<char>, pos: int, line: int) -> (SpecToken, int) {
    let st = skip_trivia(s, pos);
    if st >= s.len() {
        (SpecToken { token_type: TokenType::Eof, value: Seq::empty(), line }, st)
    } else {
        let c = s[st];
        let p = st + 1;
        if is_alpha_char(c) {
            let e = ident_end(s, p);
            (
                SpecToken {
                    token_type: classify(keyword_map(), s.subrange(st, e)),
                    value: s.subrange(st, e),
                    line,
                },
                e,
            )
        } else if is_digit_char(c) {
            let e = number_end(s, p);
            (SpecToken { token_type: TokenType::Number, value: s.subrange(st, e), line }, e)
        } else if c == '"' {
            let e = string_end(s, p);
            (
                SpecToken {
                    token_type: TokenType::String,
                    value: s.subrange(st, e),
                    line: line + newlines(s, p, e),
                },
                e,
            )
        } else {
            match single_char_token(c) {
                Some(tt) => (SpecToken { token_type: tt, value: s.subrange(st, p), line }, p),
                None => match pair_token(c) {
                    Some((one, two)) => if p < s.len() && s[p] == '=' {
                        (SpecToken { token_type: two, value: s.subrange(st, p + 1), line }, p + 1)
                    } else {
                        (SpecToken { token_type: one, value: s.subrange(st, p), line }, p)
                    },
                    None => (
                        SpecToken {
                            token_type: TokenType::Error,
                            value: "Unexpected character."@,
                            line,
                        },
                        p,
                    ),
                },
            }
        }
    }
}

// ---------------------------------------------------------------------------
// Tokens and the scanner
// ---------------------------------------------------------------------------

/// A token: its kind, its text (or, for an error token, the message) and its line.
#[derive(Debug, Clone, Copy)]
pub struct Token<'a> {
    pub token_type: TokenType,
    pub value: &'a str,
    pub line: usize,
}

impl<'a> Token<'a> {
    pub open spec fn spec_token(&self) -> SpecToken {
        SpecToken { token_type: self.token_type, value: self.value@, line: self.line as int }
    }
}

/// Turns source text into tokens, one call of `scan_token` at a time.
pub struct Scanner<'a> {
    source: &'a str,
    chars: Vec<char>,
    start: usize,
    current: usize,
    line: usize,
    keywords: KeywordTrie,
}

impl<'a> Scanner<'a> {
    /// The characters of the source.
    pub closed spec fn spec_source(&self) -> Seq<char> {
        self.chars@
    }

    /// Index of the next character to scan.
    pub closed spec fn spec_pos(&self) -> int {
        self.current as int
    }

    /// The line the scanner is on.
    pub closed spec fn spec_line(&self) -> int {
        self.line as int
    }

    pub closed spec fn wf(&self) -> bool {
        &&& self.chars@ == self.source@
        &&& self.chars@.len() < usize::MAX
        &&& self.start <= self.current <= self.chars@.len()
        &&& self.line <= self.current + 1
        &&& self.keywords.wf()
        &&& self.keywords.words() == keyword_map()
    }

    pub fn new(source: &'a str) -> (scanner: Box<Scanner<'a>>)
        requires
            source@.len() < usize::MAX,
        ensures
            scanner.wf(),
            scanner.spec_source() == source@,
            scanner.spec_pos() == 0,
            scanner.spec_line() == 1,
    {
        let keywords = build_keyword_trie();
        let chars = to_char_vec(source);
        Box::new(Scanner { source, chars, start: 0, current: 0, line: 1, keywords })
    }

    /// Everything of the state but the position is as in `other`.
    spec fn same_but_pos(&self, other: &Self) -> bool {
        &&& self.source == other.source
        &&& self.chars == other.chars
        &&& self.start == other.start
        &&& self.line == other.line
        &&& self.keywords == other.keywords
    }

    /// The invariant without the bound on the line number.
    spec fn base(&self) -> bool {
        &&& self.chars@ == self.source@
        &&& self.chars@.len() < usize::MAX
        &&& self.start <= self.current <= self.chars@.len()
        &&& self.keywords.wf()
        &&& self.keywords.words() == keyword_map()
    }

    /// Scans the next token.
    pub fn scan_token(&mut self) -> (token: Token<'a>)
        requires
            old(self).wf(),
        ensures
            final(self).wf(),
            final(self).spec_source() == old(self).spec_source(),
            scan_step(old(self).spec_source(), old(self).spec_pos(), old(self).spec_line()) == (
                token.spec_token(),
                final(self).spec_pos(),
            ),
            final(self).spec_line() == token.line,
            0 <= final(self).spec_pos() <= final(self).spec_source().len(),
    {
        let ghost s = self.chars@;
        let ghost line0 = self.line as int;
        self.skip_whitespace();
        self.start = self.current;
        let ghost st = self.current as int;
        if self.is_end() {
            let t = self.make_token(TokenType::Eof);
            assert(t.value@ =~= Seq::<char>::empty());
            return t;
        }
        let c = self.advance();
        if Self::is_alpha(c) {
            return self.make_identifier_token();
        }
        if Self::is_digit(c) {
            return self.make_number_token();
        }
        match c {
            '(' => self.make_token(TokenType::LeftParen),
            ')' => self.make_token(TokenType::RightParen),
            '{' => self.make_token(TokenType::LeftBrace),
            '}' => self.make_token(TokenType::RightBrace),
            ';' => self.make_token(TokenType::Semicolon),
            ',' => self.make_token(TokenType::Comma),
            '.' => self.make_token(TokenType::Dot),
            '-' => self.make_token(TokenType::Minus),
            '+' => self.make_token(TokenType::Plus),
            '/' => self.make_token(TokenType::Slash),
            '*' => self.make_token(TokenType::Star),
            '"' => self.make_string_token(),
            '!' => {
                if self.match_char('=') {
                    self.make_token(TokenType::BangEqual)
                } else {
                    self.make_token(TokenType::Bang)
                }
            },
            '=' => {
                if self.match_char('=') {
                    self.make_token(TokenType::EqualEqual)
                } else {
                    self.make_token(TokenType::Equal)
                }
            },
            '<' => {
                if self.match_char('=') {
                    self.make_token(TokenType::LessEqual)
                } else {
                    self.make_token(TokenType::Less)
                }
            },
            '>' => {
                if self.match_char('=') {
                    self.make_token(TokenType::GreaterEqual)
                } else {
                    self.make_token(TokenType::Greater)
                }
            },
            _ => self.error_token("Unexpected character."),
        }
    }

    fn is_digit(ch: char) -> (b: bool)
        ensures
            b == is_digit_char(ch),
    {
        '0' <= ch && ch <= '9'
    }

    fn is_alpha(ch: char) -> (b: bool)
        ensures
            b == is_alpha_char(ch),
    {
        ('a' <= ch && ch <= 'z') || ('A' <= ch && ch <= 'Z') || ch == '_'
    }

    /// The token type of the word `source[start..current]`.
    fn identifier_type(&mut self) -> (t: TokenType)
        requires
            old(self).wf(),
            old(self).start < old(self).current,
        ensures
            *final(self) == *old(self),
            t == classify(
                keyword_map(),
                old(self).chars@.subrange(old(self).start as int, old(self).current as int),
            ),
    {
        let keyword = self.check_keyword();
        match keyword {
            Some(TokenType::Error) => TokenType::Error,
            Some(token_type) => token_type,
            None => TokenType::Error,
        }
    }

    fn make_identifier_token(&mut self) -> (t: Token<'a>)
        requires
            old(self).wf(),
            old(self).start < old(self).current,
        ensures
            final(self).wf(),
            final(self).same_but_pos(&*old(self)),
            final(self).current == ident_end(old(self).chars@, old(self).current as int),
            t.spec_token() == (SpecToken {
                token_type: classify(
                    keyword_map(),
                    old(self).chars@.subrange(old(self).start as int, final(self).current as int),
                ),
                value: old(self).chars@.subrange(old(self).start as int, final(self).current as int),
                line: old(self).line as int,
            }),
    {
        let ghost s = self.chars@;
        let ghost target = ident_end(s, self.current as int);
        let ghost entry = *self;
        loop
            invariant
                self.wf(),
                self.same_but_pos(&entry),
                entry.current <= self.current,
                ident_end(s, self.current as int) == target,
                s == self.chars@,
            ensures
                self.current == target,
            decreases s.len() - self.current,
        {
            match self.peek() {
                Some(c) => {
                    if Self::is_alpha(c) || Self::is_digit(c) {
                        self.advance();
                    } else {
                        break ;
                    }
                },
                None => break ,
            }
        }
        let token_type = self.identifier_type();
        self.make_token(token_type)
    }

    fn make_number_token(&mut self) -> (t: Token<'a>)
        requires
            old(self).wf(),
            old(self).start < old(self).current,
        ensures
            final(self).wf(),
            final(self).same_but_pos(&*old(self)),
            final(self).current == number_end(old(self).chars@, old(self).current as int),
            t.spec_token() == (SpecToken {
                token_type: TokenType::Number,
                value: old(self).chars@.subrange(old(self).start as int, final(self).current as int),
                line: old(self).line as int,
            }),
    {
        let ghost s = self.chars@;
        let ghost entry = *self;
        let ghost target = digits_end(s, self.current as int);
        loop
            invariant
                self.wf(),
                self.same_but_pos(&entry),
                entry.current <= self.current,
                digits_end(s, self.current as int) == target,
                s == self.chars@,
            ensures
                self.current == target,
            decreases s.len() - self.current,
        {
            match self.peek() {
                Some(c) => {
                    if Self::is_digit(c) {
                        self.advance();
                    } else {
                        break ;
                    }
                },
                None => break ,
            }
        }
        let current = self.peek();
        if let Some('.') = current {
            if let Some(c) = self.peek_next() {
                if Self::is_digit(c) {
                    self.advance();
                    let ghost target2 = digits_end(s, self.current as int);
                    loop
                        invariant
                            self.wf(),
                            self.same_but_pos(&entry),
                            entry.current <= self.current,
                            digits_end(s, self.current as int) == target2,
                            s == self.chars@,
                        ensures
                            self.current == target2,
                        decreases s.len() - self.current,
                    {
                        match self.peek() {
                            Some(ch) => {
                                if Self::is_digit(ch) {
                                    self.advance();
                                } else {
                                    break ;
                                }
                            },
                            None => break ,
                        }
                    }
                }
            }
        }
        self.make_token(TokenType::Number)
    }

    fn make_string_token(&mut self) -> (t: Token<'a>)
        requires
            old(self).wf(),
            old(self).start < old(self).current,
        ensures
            final(self).wf(),
            final(self).source == old(self).source,
            final(self).chars == old(self).chars,
            final(self).start == old(self).start,
            final(self).keywords == old(self).keywords,
            final(self).current == string_end(old(self).chars@, old(self).current as int),
            final(self).line == old(self).line + newlines(
                old(self).chars@,
                old(self).current as int,
                final(self).current as int,
            ),
            t.spec_token() == (SpecToken {
                token_type: TokenType::String,
                value: old(self).chars@.subrange(old(self).start as int, final(self).current as int),
                line: final(self).line as int,
            }),
    {
        let ghost s = self.chars@;
        let ghost p = self.current as int;
        let ghost line0 = self.line as int;
        let ghost target = string_end(s, p);
        let ghost entry = *self;
        loop
            invariant
                self.wf(),
                self.source == entry.source,
                self.chars == entry.chars,
                self.start == entry.start,
                self.keywords == entry.keywords,
                p <= self.current,
                string_end(s, self.current as int) == target,
                self.line == line0 + newlines(s, p, self.current as int),
                s == self.chars@,
            ensures
                target == (if self.current < s.len() {
                    self.current + 1
                } else {
                    self.current as int
                }),
                self.current < s.len() ==> s[self.current as int] == '"',
            decreases s.len() - self.current,
        {
            match self.peek() {
                Some(ch) => {
                    proof {
                        lemma_newlines_snoc(s, p, self.current as int);
                    }
                    if ch == '\n' {
                        self.line = self.line + 1;
                    } else if ch == '"' {
                        break ;
                    } else if self.is_end() {
                        return self.error_token("Unterminated string.");
                    }
                    self.advance();
                },
                None => break ,
            }
        }
        proof {
            if self.current < s.len() {
                lemma_newlines_snoc(s, p, self.current as int);
            }
        }
        self.advance();
        return self.make_token(TokenType::String);
    }

    /// Moves past white space and line comments.
    fn skip_whitespace(&mut self)
        requires
            old(self).wf(),
        ensures
            final(self).wf(),
            final(self).same_but_pos(&*old(self)),
            final(self).current == skip_trivia(old(self).chars@, old(self).current as int),
    {
        let ghost s = self.chars@;
        let ghost target = skip_trivia(s, self.current as int);
        let ghost entry = *self;
        loop
            invariant
                self.wf(),
                self.same_but_pos(&entry),
                entry.current <= self.current,
                skip_trivia(s, self.current as int) == target,
                s == self.chars@,
            ensures
                self.current == target,
            decreases s.len() - self.current,
        {
            let next_char = self.peek_next();
            match self.peek() {
                Some(c) => {
                    let next_is_slash = match next_char {
                        Some(n) => n == '/',
                        None => false,
                    };
                    if is_whitespace(c) {
                        self.advance();
                    } else if c == '/' && next_is_slash {
                        let ghost c0 = self.current as int;
                        assert(skip_comment(s, c0 + 1) == skip_comment(s, c0 + 2));
                        assert(skip_comment(s, c0) == skip_comment(s, c0 + 1));
                        assert(skip_trivia(s, c0) == skip_comment(s, c0 + 2));
                        loop
                            invariant
                                self.wf(),
                                self.same_but_pos(&entry),
                                c0 <= self.current,
                                c0 < s.len(),
                                s[c0] == '/',
                                skip_comment(s, self.current as int) == target,
                                s == self.chars@,
                            ensures
                                self.current < s.len() ==> s[self.current as int] == '\n',
                            decreases s.len() - self.current,
                        {
                            match self.peek() {
                                Some(ch) => {
                                    if ch == '\n' {
                                        break ;
                                    }
                                    self.advance();
                                },
                                None => break ,
                            }
                        }
                        assert(self.current > c0);
                    } else {
                        break ;
                    }
                },
                None => break ,
            }
        }
    }

    fn peek(&self) -> (r: Option<char>)
        requires
            self.base(),
        ensures
            r == (if self.current < self.chars@.len() {
                Some(self.chars@[self.current as int])
            } else {
                None::<char>
            }),
    {
        if self.current < self.chars.len() {
            Some(self.chars[self.current])
        } else {
            None
        }
    }

    fn peek_next(&self) -> (r: Option<char>)
        requires
            self.base(),
        ensures
            r == (if self.current + 1 < self.chars@.len() {
                Some(self.chars@[self.current + 1])
            } else {
                None::<char>
            }),
    {
        if self.is_end() {
            return None;
        }
        if self.current + 1 < self.chars.len() {
            Some(self.chars[self.current + 1])
        } else {
            None
        }
    }

    fn is_end(&self) -> (b: bool)
        requires
            self.base(),
        ensures
            b == (self.current >= self.chars@.len()),
    {
        self.current >= self.chars.len()
    }

    fn make_token(&self, token_type: TokenType) -> (t: Token<'a>)
        requires
            self.base(),
        ensures
            t.spec_token() == (SpecToken {
                token_type,
                value: self.chars@.subrange(self.start as int, self.current as int),
                line: self.line as int,
            }),
    {
        let source: &'a str = self.source;
        Token { token_type, value: source.substring_char(self.start, self.current), line: self.line }
    }

    fn error_token(&self, reason: &'static str) -> (t: Token<'a>)
        ensures
            t.spec_token() == (SpecToken {
                token_type: TokenType::Error,
                value: reason@,
                line: self.line as int,
            }),
    {
        Token { token_type: TokenType::Error, value: reason, line: self.line }
    }

    fn match_char(&mut self, expected: char) -> (b: bool)
        requires
            old(self).base(),
        ensures
            final(self).base(),
            final(self).same_but_pos(&*old(self)),
            b == (old(self).current < old(self).chars@.len() && old(self).chars@[old(self).current as int]
                == expected),
            final(self).current == (if b {
                old(self).current + 1
            } else {
                old(self).current as int
            }),
    {
        if self.is_end() {
            return false;
        }
        if let Some(next_char) = self.peek() {
            if next_char == expected {
                self.advance();
                return true;
            }
        }
        false
    }

    /// The token type of the word `source[start..current]`, found with the keyword trie.
    fn check_keyword(&self) -> (r: Option<TokenType>)
        requires
            self.wf(),
            self.start < self.current,
        ensures
            r == Some(
                classify(
                    keyword_map(),
                    self.chars@.subrange(self.start as int, self.current as int),
                ),
            ),
    {
        proof {
            lemma_keywords_prefix_free();
        }
        self.keywords.lookup(&self.chars, self.start, self.current)
    }

    fn advance(&mut self) -> (c: char)
        requires
            old(self).base(),
        ensures
            final(self).base(),
            final(self).same_but_pos(&*old(self)),
            old(self).current < old(self).chars@.len() ==> final(self).current == old(self).current
                + 1 && c == old(self).chars@[old(self).current as int],
            old(self).current >= old(self).chars@.len() ==> final(self).current == old(
                self,
            ).current && c == '\0',
    {
        if self.current < self.chars.len() {
            let next_char = self.chars[self.current];
            self.current = self.current + 1;
            next_char
        } else {
            '\0'
        }
    }
}

/// The trivia skipped from `pos` ends at or after `pos` and within the source.
proof fn lemma_skip_bounds(s: Seq<char>, pos: int)
    requires
        0 <= pos <= s.len(),
    ensures
        pos <= skip_trivia(s, pos) <= s.len(),
        pos <= skip_comment(s, pos) <= s.len(),
    decreases s.len() - pos,
{
    if pos < s.len() {
        lemma_skip_bounds(s, pos + 1);
        if pos + 2 <= s.len() {
            lemma_skip_bounds(s, pos + 2);
        }
    }
}

proof fn lemma_run_bounds(s: Seq<char>, pos: int)
    requires
        0 <= pos <= s.len(),
    ensures
        pos <= ident_end(s, pos) <= s.len(),
        pos <= digits_end(s, pos) <= s.len(),
        pos <= string_end(s, pos) <= s.len(),
    decreases s.len() - pos,
{
    if pos < s.len() {
        lemma_run_bounds(s, pos + 1);
    }
}

/// Scanning never moves backwards nor past the end, and every token but the end of input
/// consumes at least one character.
pub proof fn lemma_scan_step_progress(s: Seq<char>, pos: int, line: int)
    requires
        0 <= pos <= s.len(),
    ensures
        pos <= scan_step(s, pos, line).1 <= s.len(),
        scan_step(s, pos, line).0.token_type != TokenType::Eof ==> pos < scan_step(s, pos, line).1,
{
    lemma_skip_bounds(s, pos);
    let st = skip_trivia(s, pos);
    if st < s.len() {
        lemma_run_bounds(s, st + 1);
        let e = digits_end(s, st + 1);
        if 0 <= e && e + 1 < s.len() {
            lemma_run_bounds(s, e + 1);
        }
    }
}

/// Once the scanner reports the end of input it stands at the end, and from there it reports
/// the end of input again.
pub proof fn lemma_end_of_input(s: Seq<char>, pos: int, line: int, later: int)
    requires
        0 <= pos <= s.len(),
        scan_step(s, pos, line).0.token_type == TokenType::Eof,
    ensures
        scan_step(s, pos, line).1 == s.len(),
        scan_step(s, s.len() as int, later).0.token_type == TokenType::Eof,
        scan_step(s, s.len() as int, later).1 == s.len(),
{
    lemma_skip_bounds(s, pos);
    lemma_skip_bounds(s, s.len() as int);
}

/// The tokens the scanner gives from position `pos` on line `line`, up to and with the end
/// of input.
pub open spec fn tokens_from(s: Seq<char>, pos: int, line: int) -> Seq<SpecToken>
    decreases s.len() - pos,
{
    let (t, next) = scan_step(s, pos, line);
    if t.token_type == TokenType::Eof || !(pos < next <= s.len()) {
        seq![t]
    } else {
        seq![t] + tokens_from(s, next, t.line)
    }
}

/// The first token from a position is the one `scan_step` gives there; after a token other
/// than the end of input come the tokens from where that token ends.
pub proof fn lemma_tokens_from_step(s: Seq<char>, pos: int, line: int)
    requires
        0 <= pos <= s.len(),
    ensures
        tokens_from(s, pos, line).len() >= 1,
        tokens_from(s, pos, line)[0] == scan_step(s, pos, line).0,
        scan_step(s, pos, line).0.token_type != TokenType::Eof ==> tokens_from(
            s,
            scan_step(s, pos, line).1,
            scan_step(s, pos, line).0.line,
        ) == tokens_from(s, pos, line).drop_first(),
{
    lemma_scan_step_progress(s, pos, line);
    let (t, next) = scan_step(s, pos, line);
    if t.token_type != TokenType::Eof {
        assert(tokens_from(s, pos, line) == seq![t] + tokens_from(s, next, t.line));
        assert(tokens_from(s, pos, line).drop_first() =~= tokens_from(s, next, t.line));
    }
}

/// Scanning ends: from any position, the scanner gives at most one token per character left
/// and then the end of input, and the end of input only last.
pub proof fn lemma_scanning_ends(s: Seq<char>, pos: int, line: int)
    requires
        0 <= pos <= s.len(),
    ensures
        1 <= tokens_from(s, pos, line).len() <= s.len() - pos + 1,
        tokens_from(s, pos, line).last().token_type == TokenType::Eof,
        forall|i: int|
            0 <= i < tokens_from(s, pos, line).len() - 1 ==> #[trigger] tokens_from(s, pos, line)[i].token_type
                != TokenType::Eof,
    decreases s.len() - pos,
{
    lemma_scan_step_progress(s, pos, line);
    let (t, next) = scan_step(s, pos, line);
    if t.token_type == TokenType::Eof || !(pos < next <= s.len()) {
        assert(t.token_type == TokenType::Eof);
    } else {
        lemma_scanning_ends(s, next, t.line);
        let rest = tokens_from(s, next, t.line);
        assert(tokens_from(s, pos, line) == seq![t] + rest);
        assert forall|i: int| 0 <= i < tokens_from(s, pos, line).len() - 1 implies #[trigger] tokens_from(
            s,
            pos,
            line,
        )[i].token_type != TokenType::Eof by {
            if i > 0 {
                assert(tokens_from(s, pos, line)[i] == rest[i - 1]);
            }
        }
    }
}

proof fn lemma_newlines_snoc(s: Seq<char>, a: int, b: int)
    requires
        a <= b,
    ensures
        newlines(s, a, b + 1) == newlines(s, a, b) + (if s[b] == '\n' {
            1int
        } else {
            0int
        }),
    decreases b - a,
{
    if a < b {
        lemma_newlines_snoc(s, a + 1, b);
        assert(newlines(s, a, b + 1) == (if s[a] == '\n' {
            1int
        } else {
            0int
        }) + newlines(s, a + 1, b + 1));
    } else {
        assert(newlines(s, a + 1, b + 1) == 0);
    }
}

/// The characters of `s`, in order.
fn to_char_vec(s: &str) -> (v: Vec<char>)
    ensures
        v@ == s@,
{
    broadcast use vstd::string::group_string_axioms;

    let mut v: Vec<char> = Vec::new();
    for c in it: s.chars()
        invariant
            v@ == it.seq().take(it.index() as int),
            it.seq() == s@,
    {
        v.push(c);
    }
    v
}

} // verus!
