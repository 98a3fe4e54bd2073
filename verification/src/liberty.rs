//! A lexer for Liberty files, which describe libraries of standard cells.
//!
//! The lexer reads bytes. Each byte is taken as the character with the same
//! code point. Whitespace and backslashes are skipped, as are `/* ... */`
//! and `// ...` comments. Identifiers are runs of alphanumeric characters
//! and `_ . - +`; literals are enclosed in double quotes.

use vstd::prelude::*;

verus! {

/// What `String::from_utf8` makes of a sequence of bytes: the characters
/// they encode, or nothing where they are not valid UTF-8.
pub uninterp spec fn utf8_decode(bytes: Seq<u8>) -> Option<Seq<char>>;

/// The Latin-1 code points with the Unicode `White_Space` property: tab,
/// line feed, vertical tab, form feed, carriage return, space, next line,
/// and no-break space.
pub open spec fn latin1_whitespace(n: u32) -> bool {
    n == 9 || n == 10 || n == 11 || n == 12 || n == 13 || n == 32 || n == 0x85 || n == 0xA0
}

/// The Latin-1 code points that are alphabetic or numeric in the Unicode
/// sense: ASCII digits and letters, the ordinal indicators, micro sign,
/// superscript digits, vulgar fractions, and the accented letters.
pub open spec fn latin1_alphanumeric(n: u32) -> bool {
    ||| 48 <= n <= 57
    ||| 65 <= n <= 90
    ||| 97 <= n <= 122
    ||| n == 0xAA || n == 0xB2 || n == 0xB3 || n == 0xB5 || n == 0xB9 || n == 0xBA
    ||| 0xBC <= n <= 0xBE
    ||| 0xC0 <= n <= 0xD6
    ||| 0xD8 <= n <= 0xF6
    ||| 0xF8 <= n <= 0xFF
}

/// `char::is_whitespace`, on the Latin-1 code points, which are all the
/// lexer asks about; the contract states its result there.
#[verifier::external_body]
fn is_whitespace(c: char) -> (b: bool)
    requires
        (c as u32) <= 0xFF,
    ensures
        b == latin1_whitespace(c as u32),
{
    c.is_whitespace()
}

/// `char::is_alphanumeric`, on the Latin-1 code points, which are all the
/// lexer asks about; the contract states its result there.
#[verifier::external_body]
fn is_alphanumeric(c: char) -> (b: bool)
    requires
        (c as u32) <= 0xFF,
    ensures
        b == latin1_alphanumeric(c as u32),
{
    c.is_alphanumeric()
}

/// `String::from_utf8`; the contract names its result, and the error is
/// dropped.
#[verifier::external_body]
fn string_from_utf8(v: Vec<u8>) -> (r: Option<String>)
    ensures
        r is Some == utf8_decode(v@) is Some,
        r is Some ==> r->0@ == utf8_decode(v@)->0,
{
    String::from_utf8(v).ok()
}

/// The token emitted by the lexer.
#[derive(Debug, Clone, PartialEq, Eq)]
pub enum Token {
    Ident(String),
    Literal(String),
    LParen,
    RParen,
    LBrace,
    RBrace,
    Comma,
    Colon,
    Semicolon,
}

/// What lexing one token does: the end of the input is reached, a symbol,
/// identifier, or literal is read (with its bytes), or the input holds an
/// error. Each carries the position after it.
pub enum Lexed {
    End(int),
    Symbol(u8, int),
    Ident(Seq<u8>, int),
    Literal(Seq<u8>, int),
    Error,
}

/// The byte at position `i`, if there is one.
pub open spec fn at(s: Seq<u8>, i: int) -> Option<u8> {
    if 0 <= i < s.len() {
        Some(s[i])
    } else {
        None
    }
}

/// Whitespace and backslashes are skipped.
pub open spec fn skipped(c: u8) -> bool {
    latin1_whitespace(c as u32) || c == 92
}

/// The bytes that identifiers are made of.
pub open spec fn ident_byte(c: u8) -> bool {
    latin1_alphanumeric(c as u32) || c == 95 || c == 46 || c == 45 || c == 43
}

/// The bytes that stand for a symbol token.
pub open spec fn symbol_byte(c: u8) -> bool {
    c == 40 || c == 41 || c == 123 || c == 125 || c == 44 || c == 58 || c == 59
}

/// The position of the `*/` that ends a comment, scanning from `p`, or the
/// end of the input.
pub open spec fn comment_end(s: Seq<u8>, p: int) -> int
    decreases s.len() - p,
{
    if p >= s.len() || p < 0 {
        p
    } else if s[p] == 42 && at(s, p + 1) == Some(47u8) {
        p
    } else {
        comment_end(s, p + 1)
    }
}

/// The position of the newline that ends a line comment, scanning from `p`,
/// or the end of the input.
pub open spec fn line_end(s: Seq<u8>, p: int) -> int
    decreases s.len() - p,
{
    if p >= s.len() || p < 0 {
        p
    } else if s[p] == 10 {
        p
    } else {
        line_end(s, p + 1)
    }
}

/// The position after the identifier bytes from `p` on.
pub open spec fn ident_end(s: Seq<u8>, p: int) -> int
    decreases s.len() - p,
{
    if p >= s.len() || p < 0 {
        p
    } else if ident_byte(s[p]) {
        ident_end(s, p + 1)
    } else {
        p
    }
}

/// The bytes of a literal from `p` on, up to its closing quote, and the
/// position of that quote (or past the end of the input). A backslash is
/// kept and the byte after it is dropped.
pub open spec fn literal_body(s: Seq<u8>, p: int) -> (Seq<u8>, int)
    decreases s.len() + 2 - p,
{
    if p >= s.len() || p < 0 {
        (Seq::empty(), p)
    } else if s[p] == 34 {
        (Seq::empty(), p)
    } else {
        let next = if s[p] == 92 { p + 2 } else { p + 1 };
        let rest = literal_body(s, next);
        (seq![s[p]] + rest.0, rest.1)
    }
}

/// Lex one token from position `p`.
pub open spec fn lex(s: Seq<u8>, p: int) -> Lexed
    decreases s.len() + 3 - p,
{
    if p < 0 {
        Lexed::Error
    } else if p >= s.len() {
        Lexed::End(p)
    } else {
        let c = s[p];
        if c == 47 && at(s, p + 1) == Some(42u8) {
            proof {
                lemma_comment_end(s, p + 2);
            }
            lex(s, comment_end(s, p + 2) + 2)
        } else if c == 47 && at(s, p + 1) == Some(47u8) {
            proof {
                lemma_line_end(s, p + 2);
            }
            lex(s, line_end(s, p + 2))
        } else if skipped(c) {
            lex(s, p + 1)
        } else if symbol_byte(c) {
            Lexed::Symbol(c, p + 1)
        } else if ident_byte(c) {
            let e = ident_end(s, p + 1);
            if utf8_decode(s.subrange(p, e)) is Some {
                Lexed::Ident(s.subrange(p, e), e)
            } else {
                Lexed::Error
            }
        } else if c == 34 {
            let b = literal_body(s, p + 1);
            if utf8_decode(b.0) is Some {
                Lexed::Literal(b.0, b.1 + 1)
            } else {
                Lexed::Error
            }
        } else {
            Lexed::Error
        }
    }
}

/// The token a symbol byte stands for.
pub open spec fn symbol_token(c: u8) -> Token {
    if c == 40 {
        Token::LParen
    } else if c == 41 {
        Token::RParen
    } else if c == 123 {
        Token::LBrace
    } else if c == 125 {
        Token::RBrace
    } else if c == 44 {
        Token::Comma
    } else if c == 58 {
        Token::Colon
    } else {
        Token::Semicolon
    }
}

/// A lexer for Liberty files.
#[derive(Clone, Copy)]
pub struct Lexer<'a> {
    input: &'a [u8],
    pos: usize,
}

/// The end of a comment lies between its start and the end of the input.
pub proof fn lemma_comment_end(s: Seq<u8>, p: int)
    requires
        0 <= p,
    ensures
        p <= comment_end(s, p),
        comment_end(s, p) <= if p > s.len() { p } else { s.len() as int },
    decreases s.len() - p,
{
    if p < s.len() && !(s[p] == 42 && at(s, p + 1) == Some(47u8)) {
        lemma_comment_end(s, p + 1);
    }
}

/// The end of a line comment lies between its start and the end of the input.
pub proof fn lemma_line_end(s: Seq<u8>, p: int)
    requires
        0 <= p,
    ensures
        p <= line_end(s, p),
        line_end(s, p) <= if p > s.len() { p } else { s.len() as int },
    decreases s.len() - p,
{
    if p < s.len() && s[p] != 10 {
        lemma_line_end(s, p + 1);
    }
}

/// An identifier ends between its start and the end of the input.
pub proof fn lemma_ident_end(s: Seq<u8>, p: int)
    requires
        0 <= p <= s.len(),
    ensures
        p <= ident_end(s, p) <= s.len(),
    decreases s.len() - p,
{
    if p < s.len() && ident_byte(s[p]) {
        lemma_ident_end(s, p + 1);
    }
}

/// A literal ends between its start and just past the end of the input, and
/// holds at most as many bytes as it spans.
pub proof fn lemma_literal_body(s: Seq<u8>, p: int)
    requires
        0 <= p,
    ensures
        p <= literal_body(s, p).1,
        literal_body(s, p).1 <= if p > s.len() { p } else { s.len() as int + 1 },
        literal_body(s, p).0.len() <= literal_body(s, p).1 - p,
    decreases s.len() + 2 - p,
{
    if p < s.len() && s[p] != 34 {
        let next = if s[p] == 92 { p + 2 } else { p + 1 };
        lemma_literal_body(s, next);
    }
}

impl<'a> Lexer<'a> {
    /// The input bytes.
    pub closed spec fn spec_input(&self) -> Seq<u8> {
        self.input@
    }

    /// The position of the next byte to read.
    pub closed spec fn spec_pos(&self) -> int {
        self.pos as int
    }

    /// Create a lexer for the given input.
    pub fn new(input: &'a [u8]) -> (l: Self)
        ensures
            l.spec_input() == input@,
            l.spec_pos() == 0,
    {
        Lexer { input, pos: 0 }
    }

    /// The positions the lexer reaches fit in a `usize`.
    pub open spec fn pos_ok(&self) -> bool {
        &&& self.spec_input().len() + 3 <= usize::MAX
        &&& 0 <= self.spec_pos() <= self.spec_input().len() + 2
    }

    /// The lexer can take its next step: the next token is no error.
    pub open spec fn can_step(&self) -> bool {
        &&& self.pos_ok()
        &&& !(lex(self.spec_input(), self.spec_pos()) is Error)
    }

    /// The byte at `p`, if there is one.
    fn peek(&self, p: usize) -> (r: Option<u8>)
        ensures
            r == at(self.input@, p as int),
    {
        if p < self.input.len() {
            Some(self.input[p])
        } else {
            None
        }
    }

    /// Read the next token, or `None` at the end of the input; `Err` where
    /// the input holds an error.
    fn step(&mut self) -> (r: Result<Option<Token>, ()>)
        requires
            old(self).pos_ok(),
        ensures
            final(self).spec_input() == old(self).spec_input(),
            final(self).pos_ok(),
            match lex(old(self).spec_input(), old(self).spec_pos()) {
                Lexed::End(p) => r == Ok::<Option<Token>, ()>(None) && final(self).spec_pos() == p,
                Lexed::Symbol(c, p) => r == Ok::<Option<Token>, ()>(Some(symbol_token(c))) && final(self).spec_pos() == p,
                Lexed::Ident(b, p) => r matches Ok(Some(Token::Ident(t))) && t@ == utf8_decode(b)->0 && final(self).spec_pos() == p,
                Lexed::Literal(b, p) => r matches Ok(Some(Token::Literal(t))) && t@ == utf8_decode(b)->0 && final(self).spec_pos() == p,
                Lexed::Error => r is Err,
            },
    {
        let ghost s = self.input@;
        let ghost target = lex(s, self.pos as int);
        let n = self.input.len();
        loop
            invariant
                s == self.input@,
                s == old(self).input@,
                target == lex(old(self).input@, old(self).pos as int),
                n == s.len(),
                n + 3 <= usize::MAX,
                self.pos <= n + 2,
                lex(s, self.pos as int) == target,
            decreases n + 3 - self.pos,
        {
            let p = self.pos;
            let p0 = self.peek(p);
            match p0 {
                None => {
                    return Ok(None);
                },
                Some(c) => {
                    let p1 = if p + 1 < n {
                        Some(self.input[p + 1])
                    } else {
                        None
                    };
                    if c == 47 && p1 == Some(42u8) {
                        let mut q = p + 2;
                        proof {
                            lemma_comment_end(s, p + 2);
                        }
                        while q < n && !(self.input[q] == 42 && q + 1 < n && self.input[q + 1] == 47)
                            invariant
                                s == self.input@,
                                n == s.len(),
                                p + 2 <= q <= n,
                                comment_end(s, q as int) == comment_end(s, p + 2),
                                n + 3 <= usize::MAX,
                                p < n,
                            decreases n - q,
                        {
                            q = q + 1;
                        }
                        proof {
                            lemma_comment_end(s, p + 2);
                        }
                        self.pos = q + 2;
                    } else if c == 47 && p1 == Some(47u8) {
                        let mut q = p + 2;
                        while q < n && self.input[q] != 10
                            invariant
                                s == self.input@,
                                n == s.len(),
                                p + 2 <= q <= n,
                                line_end(s, q as int) == line_end(s, p + 2),
                                n + 3 <= usize::MAX,
                                p < n,
                            decreases n - q,
                        {
                            q = q + 1;
                        }
                        self.pos = q;
                    } else if is_whitespace(c as char) || c == 92 {
                        self.pos = p + 1;
                    } else if c == 40 || c == 41 || c == 123 || c == 125 || c == 44 || c == 58 || c == 59 {
                        self.pos = p + 1;
                        let t = if c == 40 {
                            Token::LParen
                        } else if c == 41 {
                            Token::RParen
                        } else if c == 123 {
                            Token::LBrace
                        } else if c == 125 {
                            Token::RBrace
                        } else if c == 44 {
                            Token::Comma
                        } else if c == 58 {
                            Token::Colon
                        } else {
                            Token::Semicolon
                        };
                        return Ok(Some(t));
                    } else if is_alphanumeric(c as char) || c == 95 || c == 46 || c == 45 || c == 43 {
                        let mut v: Vec<u8> = Vec::new();
                        v.push(c);
                        let mut q = p + 1;
                        proof {
                            lemma_ident_end(s, p + 1);
                        }
                        loop
                            invariant
                                s == self.input@,
                                n == s.len(),
                                p < n,
                                p + 1 <= q <= n,
                                ident_end(s, q as int) == ident_end(s, p + 1),
                                v@ == s.subrange(p as int, q as int),
                            ensures
                                q == ident_end(s, p + 1),
                                v@ == s.subrange(p as int, q as int),
                            decreases n - q,
                        {
                            if q >= n {
                                break;
                            }
                            let b = self.input[q];
                            if !(is_alphanumeric(b as char) || b == 95 || b == 46 || b == 45 || b == 43) {
                                break;
                            }
                            v.push(b);
                            q = q + 1;
                            proof {
                                assert(v@ =~= s.subrange(p as int, q as int));
                            }
                        }
                        self.pos = q;
                        match string_from_utf8(v) {
                            Some(t) => {
                                return Ok(Some(Token::Ident(t)));
                            },
                            None => {
                                return Err(());
                            },
                        }
                    } else if c == 34 {
                        let mut v: Vec<u8> = Vec::new();
                        let mut q = p + 1;
                        let ghost body = literal_body(s, p + 1);
                        proof {
                            lemma_literal_body(s, p + 1);
                        }
                        loop
                            invariant
                                s == self.input@,
                                n == s.len(),
                                p < n,
                                p + 1 <= q <= n + 1,
                                n + 3 <= usize::MAX,
                                body == literal_body(s, p + 1),
                                body.0 == v@ + literal_body(s, q as int).0,
                                body.1 == literal_body(s, q as int).1,
                                body.1 <= n + 1,
                            ensures
                                v@ == body.0,
                                q == body.1,
                            decreases n + 1 - q,
                        {
                            if q >= n {
                                break;
                            }
                            let b = self.input[q];
                            if b == 34 {
                                break;
                            }
                            if b == 92 {
                                q = q + 1;
                            }
                            v.push(b);
                            q = q + 1;
                            proof {
                                lemma_literal_body(s, q as int);
                            }
                        }
                        self.pos = q + 1;
                        match string_from_utf8(v) {
                            Some(t) => {
                                return Ok(Some(Token::Literal(t)));
                            },
                            None => {
                                return Err(());
                            },
                        }
                    } else {
                        return Err(());
                    }
                },
            }
        }
    }

    /// Whether the next token is an error: a byte that starts no token, or
    /// an identifier or literal that is not valid UTF-8.
    pub fn error_ahead(&self) -> (b: bool)
        requires
            self.pos_ok(),
        ensures
            b == (lex(self.spec_input(), self.spec_pos()) is Error),
    {
        let mut probe = *self;
        probe.step().is_err()
    }

    /// Read the next token, or `None` at the end of the input.
    pub fn next(&mut self) -> (r: Option<Token>)
        requires
            old(self).can_step(),
        ensures
            final(self).spec_input() == old(self).spec_input(),
            final(self).pos_ok(),
            match lex(old(self).spec_input(), old(self).spec_pos()) {
                Lexed::End(p) => r is None && final(self).spec_pos() == p,
                Lexed::Symbol(c, p) => r == Some(symbol_token(c)) && final(self).spec_pos() == p,
                Lexed::Ident(b, p) => r matches Some(Token::Ident(t)) && t@ == utf8_decode(b)->0 && final(self).spec_pos() == p,
                Lexed::Literal(b, p) => r matches Some(Token::Literal(t)) && t@ == utf8_decode(b)->0 && final(self).spec_pos() == p,
                Lexed::Error => false,
            },
    {
        match self.step() {
            Ok(t) => t,
            Err(_) => {
                proof {
                    assert(false);
                }
                None
            },
        }
    }

    /// Read the next token where the input holds no error there: `None`
    /// where it does, with the lexer unchanged; otherwise what `next` reads.
    pub fn next_checked(&mut self) -> (r: Option<Option<Token>>)
        requires
            old(self).pos_ok(),
        ensures
            final(self).pos_ok(),
            final(self).spec_input() == old(self).spec_input(),
            (r is None) == (lex(old(self).spec_input(), old(self).spec_pos()) is Error),
            r is None ==> final(self).spec_pos() == old(self).spec_pos(),
            match lex(old(self).spec_input(), old(self).spec_pos()) {
                Lexed::End(p) => r == Some(None::<Token>) && final(self).spec_pos() == p,
                Lexed::Symbol(c, p) => r == Some(Some(symbol_token(c))) && final(self).spec_pos() == p,
                Lexed::Ident(b, p) => r matches Some(Some(Token::Ident(t))) && t@ == utf8_decode(b)->0 && final(self).spec_pos() == p,
                Lexed::Literal(b, p) => r matches Some(Some(Token::Literal(t))) && t@ == utf8_decode(b)->0 && final(self).spec_pos() == p,
                Lexed::Error => true,
            },
    {
        if self.error_ahead() {
            None
        } else {
            Some(self.next())
        }
    }
}

/// The ASCII bytes that identifiers are made of: the letters `A` to `Z` and
/// `a` to `z`, the digits `0` to `9`, and `_ . - +`.
pub open spec fn ascii_word_byte(c: u8) -> bool {
    ||| 65 <= c <= 90
    ||| 97 <= c <= 122
    ||| 48 <= c <= 57
    ||| c == 95 || c == 46 || c == 45 || c == 43
}

/// An ASCII byte starts or continues an identifier exactly when it is a
/// letter of either case, a digit, or one of `_ . - +`; a byte beyond ASCII
/// does exactly when `char::is_alphanumeric` holds for its code point.
pub proof fn lemma_ident_bytes(c: u8)
    ensures
        c < 128 ==> (ident_byte(c) <==> ascii_word_byte(c)),
        c >= 128 ==> (ident_byte(c) <==> latin1_alphanumeric(c as u32)),
{
}

/// A run of identifier bytes stops at the end of the input, at whitespace and
/// at a symbol.
proof fn lemma_word_run_end(s: Seq<u8>, q: int, e: int)
    requires
        0 <= q <= e <= s.len(),
        forall|i: int| q <= i < e ==> ascii_word_byte(#[trigger] s[i]),
        e < s.len() ==> (symbol_byte(s[e]) || latin1_whitespace(s[e] as u32)),
    ensures
        ident_end(s, q) == e,
    decreases e - q,
{
    if q < e {
        lemma_ident_bytes(s[q]);
        lemma_word_run_end(s, q + 1, e);
    }
}

/// Lexing at a word of ASCII letters, digits and `_ . - +` that runs up to
/// the end of the input, whitespace or a symbol reads the whole word as one
/// identifier, whatever the case of its letters.
pub proof fn lemma_lex_word(s: Seq<u8>, p: int, e: int)
    requires
        0 <= p < e <= s.len(),
        forall|i: int| p <= i < e ==> ascii_word_byte(#[trigger] s[i]),
        e < s.len() ==> (symbol_byte(s[e]) || latin1_whitespace(s[e] as u32)),
    ensures
        utf8_decode(s.subrange(p, e)) is Some ==> lex(s, p) == Lexed::Ident(s.subrange(p, e), e),
        utf8_decode(s.subrange(p, e)) is None ==> lex(s, p) is Error,
{
    assert(ascii_word_byte(s[p]));
    lemma_ident_bytes(s[p]);
    lemma_word_run_end(s, p + 1, e);
}

} // verus!
