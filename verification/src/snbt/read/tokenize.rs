//! Splitting SNBT source text into tokens.
use vstd::prelude::*;
use vstd::slice::slice_subrange;
use vstd::utf8::*;
use vstd::string::StringSliceAdditionalSpecFns;
use crate::snbt::read::{SourcePosition, Span};
use crate::snbt::read::tokenize::number::{
    NumberParser, Number, NumberView, Base, spec_take_number, is_digit, digit_sequence, run_len,
    lemma_run_len_bounds, spec_sign, prefix_at, in_sequence, spec_exponent,
};

pub mod number;

verus! {

#[derive(Debug, Clone, PartialEq)]
pub enum Token<'src> {
    /// End of the source.
    Eof,
    /// `{`
    OpenBrace,
    /// `}`
    CloseBrace,
    /// `[`
    OpenBracket,
    /// `]`
    CloseBracket,
    /// `(`
    OpenParen,
    /// `)`
    CloseParen,
    /// `:`
    Colon,
    /// `,`
    Comma,
    /// `B;`
    Int8ArrayHeader,
    /// `I;`
    Int32ArrayHeader,
    /// `L;`
    Int64ArrayHeader,
    /// `true`
    True,
    /// `false`
    False,
    /// `bool`
    Bool,
    /// `uuid`
    Uuid,
    /// A quoted string, or a bare word.
    String(Vec<StringContentToken<'src>>),
    /// A number.
    Number(Number<'src>),
}

#[derive(Debug, Clone, PartialEq)]
pub struct SpannedToken<'src> {
    pub token: Token<'src>,
    pub span: Span,
}

/// A piece of a string: text as written, one escaped character, or a named character
/// (`\N{name}`).
#[derive(Debug, Clone, PartialEq)]
pub enum StringContentToken<'src> {
    Literal(&'src str),
    Escaped(char),
    Named(&'src str),
}

/// A tokenizer error, with the position where it was found.
#[derive(Debug, Clone, Copy, PartialEq, Eq, Structural)]
pub enum Error {
    /// No token starts here, or a string has no closing quote.
    InvalidToken(SourcePosition),
    /// The source ends before the escape does.
    UnclosedEscape(SourcePosition),
    /// The letter after a backslash names no escape.
    UnknownEscape(SourcePosition),
    /// An escape that takes digits is followed by enough bytes, but not all digits.
    EscapeNonDigits(SourcePosition),
    /// The digits of an escape name no character.
    InvalidEscapeChar(SourcePosition),
    /// A number starts here but is malformed.
    InvalidNumber(SourcePosition),
    /// A piece of a string is not UTF-8.
    InvalidUtf8(SourcePosition),
}

pub enum PieceView {
    Literal(Seq<char>),
    Escaped(char),
    Named(Seq<char>),
}

pub enum TokenView {
    Eof,
    OpenBrace,
    CloseBrace,
    OpenBracket,
    CloseBracket,
    OpenParen,
    CloseParen,
    Colon,
    Comma,
    Int8ArrayHeader,
    Int32ArrayHeader,
    Int64ArrayHeader,
    True,
    False,
    Bool,
    Uuid,
    String(Seq<PieceView>),
    Number(NumberView),
}

impl<'src> View for StringContentToken<'src> {
    type V = PieceView;

    open spec fn view(&self) -> PieceView {
        match self {
            StringContentToken::Literal(s) => PieceView::Literal(s@),
            StringContentToken::Escaped(c) => PieceView::Escaped(*c),
            StringContentToken::Named(s) => PieceView::Named(s@),
        }
    }
}

pub open spec fn pieces_view(v: Seq<StringContentToken>) -> Seq<PieceView> {
    v.map_values(|t: StringContentToken| t@)
}

impl<'src> View for Token<'src> {
    type V = TokenView;

    open spec fn view(&self) -> TokenView {
        match self {
            Token::Eof => TokenView::Eof,
            Token::OpenBrace => TokenView::OpenBrace,
            Token::CloseBrace => TokenView::CloseBrace,
            Token::OpenBracket => TokenView::OpenBracket,
            Token::CloseBracket => TokenView::CloseBracket,
            Token::OpenParen => TokenView::OpenParen,
            Token::CloseParen => TokenView::CloseParen,
            Token::Colon => TokenView::Colon,
            Token::Comma => TokenView::Comma,
            Token::Int8ArrayHeader => TokenView::Int8ArrayHeader,
            Token::Int32ArrayHeader => TokenView::Int32ArrayHeader,
            Token::Int64ArrayHeader => TokenView::Int64ArrayHeader,
            Token::True => TokenView::True,
            Token::False => TokenView::False,
            Token::Bool => TokenView::Bool,
            Token::Uuid => TokenView::Uuid,
            Token::String(v) => TokenView::String(pieces_view(v@)),
            Token::Number(n) => TokenView::Number(n@),
        }
    }
}

impl<'src> View for SpannedToken<'src> {
    type V = (TokenView, Span);

    open spec fn view(&self) -> (TokenView, Span) {
        (self.token@, self.span)
    }
}

pub open spec fn at(p: int) -> SourcePosition {
    SourcePosition(p as usize)
}

pub open spec fn is_space(b: u8) -> bool {
    b == 0x20 /* ' ' */ || b == 0x09 /* '\t' */ || b == 0x0a /* '\n' */ || b == 0x0d /* '\r' */
}

pub open spec fn is_letter(b: u8) -> bool {
    (0x61 /* 'a' */ <= b <= 0x7a /* 'z' */) || (0x41 /* 'A' */ <= b <= 0x5a /* 'Z' */)
}

/// A byte that may begin a bare word.
pub open spec fn is_word_start(b: u8) -> bool {
    is_letter(b) || b == 0x5f /* '_' */
}

/// A byte that may stand in a bare word.
pub open spec fn is_word_byte(b: u8) -> bool {
    is_word_start(b) || is_digit(b) || b == 0x2d /* '-' */ || b == 0x2e /* '.' */ || b == 0x2b /* '+' */
}

/// The length of the run of word bytes from `p`.
pub open spec fn word_len(s: Seq<u8>, p: int) -> nat
    decreases s.len() - p,
{
    if 0 <= p < s.len() && is_word_byte(s[p]) {
        1 + word_len(s, p + 1)
    } else {
        0
    }
}

/// The first index in `from..to` that holds `b`.
pub open spec fn find_from(s: Seq<u8>, from: int, to: int, b: u8) -> Option<int>
    decreases to - from,
{
    if from < to {
        if s[from] == b {
            Some(from)
        } else {
            find_from(s, from + 1, to, b)
        }
    } else {
        None
    }
}

/// The value of a denary digit.
pub open spec fn digit(b: u8) -> int {
    b - 0x30
}

/// The character with the scalar value `v`, if there is one.
pub open spec fn char_of(v: int) -> Option<char> {
    if 0 <= v <= u32::MAX && is_scalar(v as u32) {
        Some(v as char)
    } else {
        None
    }
}

/// The escape whose letter stands at `p` (after a backslash), and the position after it.
pub open spec fn spec_escape(s: Seq<u8>, p: int) -> Result<(PieceView, int), Error> {
    if !(0 <= p < s.len()) {
        Err(Error::UnclosedEscape(at(p)))
    } else {
        let b = s[p];
        if b == 0x62 /* 'b' */ {
            Ok((PieceView::Escaped('\u{8}'), p + 1))
        } else if b == 0x66 /* 'f' */ {
            Ok((PieceView::Escaped('\u{c}'), p + 1))
        } else if b == 0x6e /* 'n' */ {
            Ok((PieceView::Escaped('\n'), p + 1))
        } else if b == 0x72 /* 'r' */ {
            Ok((PieceView::Escaped('\r'), p + 1))
        } else if b == 0x73 /* 's' */ {
            Ok((PieceView::Escaped(' '), p + 1))
        } else if b == 0x74 /* 't' */ {
            Ok((PieceView::Escaped('\t'), p + 1))
        } else if b == 0x5c /* '\' */ {
            Ok((PieceView::Escaped('\\'), p + 1))
        } else if b == 0x27 /* ''' */ {
            Ok((PieceView::Escaped('\''), p + 1))
        } else if b == 0x22 /* '"' */ {
            Ok((PieceView::Escaped('"'), p + 1))
        } else if b == 0x78 /* 'x' */ {
            if p + 2 < s.len() && is_digit(s[p + 1]) && is_digit(s[p + 2]) {
                Ok((PieceView::Escaped(char_of(digit(s[p + 1]) * 0x10 + digit(s[p + 2])).unwrap()), p + 3))
            } else if s.len() - (p + 1) >= 2 {
                Err(Error::EscapeNonDigits(at(p)))
            } else {
                Err(Error::UnclosedEscape(at(p)))
            }
        } else if b == 0x75 /* 'u' */ {
            if p + 4 < s.len() && is_digit(s[p + 1]) && is_digit(s[p + 2]) && is_digit(s[p + 3])
                && is_digit(s[p + 4]) {
                let v = digit(s[p + 1]) * 0x1000 + digit(s[p + 2]) * 0x100 + digit(s[p + 3]) * 0x10
                    + digit(s[p + 4]);
                match char_of(v) {
                    Some(c) => Ok((PieceView::Escaped(c), p + 5)),
                    None => Err(Error::InvalidEscapeChar(at(p))),
                }
            } else if s.len() - (p + 1) >= 4 {
                Err(Error::EscapeNonDigits(at(p)))
            } else {
                Err(Error::UnclosedEscape(at(p)))
            }
        } else if b == 0x55 /* 'U' */ {
            if p + 8 < s.len() && is_digit(s[p + 1]) && is_digit(s[p + 2]) && is_digit(s[p + 3])
                && is_digit(s[p + 4]) && is_digit(s[p + 5]) && is_digit(s[p + 6]) && is_digit(s[p + 7])
                && is_digit(s[p + 8]) {
                let v = digit(s[p + 1]) * 0x1000_0000 + digit(s[p + 2]) * 0x100_0000 + digit(s[p + 3])
                    * 0x10_0000 + digit(s[p + 4]) * 0x1_0000 + digit(s[p + 5]) * 0x1000 + digit(s[p + 6])
                    * 0x100 + digit(s[p + 7]) * 0x10 + digit(s[p + 8]);
                match char_of(v) {
                    Some(c) => Ok((PieceView::Escaped(c), p + 5)),
                    None => Err(Error::InvalidEscapeChar(at(p))),
                }
            } else if s.len() - (p + 1) >= 8 {
                Err(Error::EscapeNonDigits(at(p)))
            } else {
                Err(Error::UnclosedEscape(at(p)))
            }
        } else if b == 0x4e /* 'N' */ {
            if p + 1 < s.len() && s[p + 1] == 0x7b /* '{' */ {
                match find_from(s, p + 2, s.len() as int, 0x7d /* '}' */) {
                    Some(c) => if valid_utf8(s.subrange(p + 2, c)) {
                        Ok((PieceView::Named(decode_utf8(s.subrange(p + 2, c))), c))
                    } else {
                        Err(Error::InvalidUtf8(at(p)))
                    },
                    None => Err(Error::UnclosedEscape(at(p))),
                }
            } else {
                Err(Error::UnclosedEscape(at(p)))
            }
        } else {
            Err(Error::UnknownEscape(at(p)))
        }
    }
}

/// The pieces of a string from `p` up to its closing `quote`, and the position after the quote.
pub open spec fn spec_string_rest(s: Seq<u8>, p: int, quote: u8) -> Result<(Seq<PieceView>, int), Error>
    decreases s.len() - p,
{
    if !(0 <= p <= s.len()) {
        Err(Error::InvalidToken(at(p)))
    } else {
        match find_from(s, p, s.len() as int, quote) {
            None => Err(Error::InvalidToken(at(p))),
            Some(q) => match find_from(s, p, q, 0x5c /* '\' */) {
                None => if valid_utf8(s.subrange(p, q)) {
                    Ok((seq![PieceView::Literal(decode_utf8(s.subrange(p, q)))], q + 1))
                } else {
                    Err(Error::InvalidUtf8(at(p)))
                },
                Some(bs) => if !valid_utf8(s.subrange(p, bs)) {
                    Err(Error::InvalidUtf8(at(p)))
                } else {
                    match spec_escape(s, bs + 1) {
                        Err(e) => Err(e),
                        Ok((piece, p2)) => if p < p2 <= s.len() {
                            match spec_string_rest(s, p2, quote) {
                                Err(e) => Err(e),
                                Ok((rest, p3)) => Ok((
                                    seq![PieceView::Literal(decode_utf8(s.subrange(p, bs))), piece] + rest,
                                    p3,
                                )),
                            }
                        } else {
                            Err(Error::InvalidToken(at(p)))
                        },
                    }
                },
            },
        }
    }
}

/// `expected` stands at `p`: then `t`, and the position after it.
pub open spec fn spec_unit(s: Seq<u8>, p: int, expected: Seq<u8>, t: TokenView) -> Result<(TokenView, int), Error> {
    if p + expected.len() <= s.len() && s.subrange(p, p + expected.len()) == expected {
        Ok((t, p + expected.len()))
    } else {
        Err(Error::InvalidToken(at(p)))
    }
}

/// The token at `p` (after any white space), and the position after it.
pub open spec fn spec_take_token(s: Seq<u8>, p: int) -> Result<(TokenView, int), Error>
    decreases s.len() - p,
{
    if !(0 <= p < s.len()) {
        Ok((TokenView::Eof, p))
    } else {
        let b = s[p];
        if is_space(b) {
            spec_take_token(s, p + 1)
        } else if b == 0x7b /* '{' */ {
            Ok((TokenView::OpenBrace, p + 1))
        } else if b == 0x7d /* '}' */ {
            Ok((TokenView::CloseBrace, p + 1))
        } else if b == 0x5b /* '[' */ {
            Ok((TokenView::OpenBracket, p + 1))
        } else if b == 0x5d /* ']' */ {
            Ok((TokenView::CloseBracket, p + 1))
        } else if b == 0x28 /* '(' */ {
            Ok((TokenView::OpenParen, p + 1))
        } else if b == 0x29 /* ')' */ {
            Ok((TokenView::CloseParen, p + 1))
        } else if b == 0x3a /* ':' */ {
            Ok((TokenView::Colon, p + 1))
        } else if b == 0x2c /* ',' */ {
            Ok((TokenView::Comma, p + 1))
        } else if b == 0x42 /* 'B' */ {
            spec_unit(s, p, seq![0x42 /* 'B' */, 0x3b /* ';' */], TokenView::Int8ArrayHeader)
        } else if b == 0x49 /* 'I' */ {
            spec_unit(s, p, seq![0x49 /* 'I' */, 0x3b /* ';' */], TokenView::Int32ArrayHeader)
        } else if b == 0x4c /* 'L' */ {
            spec_unit(s, p, seq![0x4c /* 'L' */, 0x3b /* ';' */], TokenView::Int64ArrayHeader)
        } else if b == 0x74 /* 't' */ {
            spec_unit(s, p, seq![0x74 /* 't' */, 0x72 /* 'r' */, 0x75 /* 'u' */, 0x65 /* 'e' */], TokenView::True)
        } else if b == 0x66 /* 'f' */ {
            spec_unit(s, p, seq![0x66 /* 'f' */, 0x61 /* 'a' */, 0x6c /* 'l' */, 0x73 /* 's' */, 0x65 /* 'e' */], TokenView::False)
        } else if b == 0x62 /* 'b' */ {
            spec_unit(s, p, seq![0x62 /* 'b' */, 0x6f /* 'o' */, 0x6f /* 'o' */, 0x6c /* 'l' */], TokenView::Bool)
        } else if b == 0x75 /* 'u' */ {
            spec_unit(s, p, seq![0x75 /* 'u' */, 0x75 /* 'u' */, 0x69 /* 'i' */, 0x64 /* 'd' */], TokenView::Uuid)
        } else if b == 0x2e /* '.' */ || b == 0x2d /* '-' */ || is_digit(b) {
            match spec_take_number(s.subrange(p, s.len() as int), 0) {
                Some((n, k)) => Ok((TokenView::Number(n), p + k)),
                None => Err(Error::InvalidNumber(at(p))),
            }
        } else if b == 0x22 /* '"' */ || b == 0x27 /* ''' */ {
            match spec_string_rest(s, p + 1, b) {
                Ok((pieces, q)) => Ok((TokenView::String(pieces), q)),
                Err(e) => Err(e),
            }
        } else if is_word_start(b) {
            let n = word_len(s, p);
            Ok((TokenView::String(seq![PieceView::Literal(decode_utf8(s.subrange(p, p + n)))]), p + n))
        } else {
            Err(Error::InvalidToken(at(p)))
        }
    }
}

/// The first position from `p` that does not hold white space.
pub open spec fn skip_space(s: Seq<u8>, p: int) -> int
    decreases s.len() - p,
{
    if 0 <= p < s.len() && is_space(s[p]) {
        skip_space(s, p + 1)
    } else {
        p
    }
}

/// The token after any white space from `p`, where it starts, and where it ends.
pub open spec fn spec_take_spanned_token(s: Seq<u8>, p: int) -> Result<(TokenView, int, int), Error> {
    let q = skip_space(s, p);
    match spec_take_token(s, q) {
        Ok((t, e)) => Ok((t, q, e)),
        Err(e) => Err(e),
    }
}

/// The token at `p` when a number starts there.
pub open spec fn spec_number_token(s: Seq<u8>, p: int) -> Result<(TokenView, int), Error> {
    match spec_take_number(s.subrange(p, s.len() as int), 0) {
        Some((n, k)) => Ok((TokenView::Number(n), p + k)),
        None => Err(Error::InvalidNumber(at(p))),
    }
}

/// A token result and the position after it, as the specifications state them.
pub open spec fn outcome(r: Result<Token, Error>, p: int) -> Result<(TokenView, int), Error> {
    match r {
        Ok(t) => Ok((t@, p)),
        Err(e) => Err(e),
    }
}

/// The string token for the outcome of `spec_string_rest`, with `pre` before its pieces.
pub open spec fn string_result(pre: Seq<PieceView>, r: Result<(Seq<PieceView>, int), Error>) -> Result<(TokenView, int), Error> {
    match r {
        Ok((pieces, q)) => Ok((TokenView::String(pre + pieces), q)),
        Err(e) => Err(e),
    }
}

pub proof fn lemma_find_from(s: Seq<u8>, from: int, to: int, b: u8)
    requires
        0 <= from,
        to <= s.len(),
    ensures
        find_from(s, from, to, b) matches Some(i) ==> from <= i < to && s[i] == b,
        find_from(s, from, to, b) is None ==> forall|i: int| from <= i < to ==> s[i] != b,
    decreases to - from,
{
    if from < to {
        lemma_find_from(s, from + 1, to, b);
    }
}

pub proof fn lemma_escape_advances(s: Seq<u8>, p: int)
    requires
        0 <= p,
    ensures
        spec_escape(s, p) matches Ok((_, q)) ==> p < q <= s.len(),
{
    if p + 1 < s.len() {
        lemma_find_from(s, p + 2, s.len() as int, 0x7d /* '}' */);
    }
}

pub proof fn lemma_word_len(s: Seq<u8>, p: int)
    requires
        0 <= p <= s.len(),
    ensures
        p + word_len(s, p) <= s.len(),
        forall|i: int| p <= i < p + word_len(s, p) ==> is_word_byte(#[trigger] s[i]),
    decreases s.len() - p,
{
    if p < s.len() && is_word_byte(s[p]) {
        lemma_word_len(s, p + 1);
    }
}

fn find_byte(s: &[u8], from: usize, to: usize, b: u8) -> (r: Option<usize>)
    requires
        from <= to <= s.len(),
    ensures
        match r {
            Some(i) => find_from(s@, from as int, to as int, b) == Some(i as int),
            None => find_from(s@, from as int, to as int, b) is None,
        },
{
    let mut i = from;
    while i < to
        invariant
            from <= i <= to <= s.len(),
            find_from(s@, from as int, to as int, b) == find_from(s@, i as int, to as int, b),
        decreases to - i,
    {
        if s[i] == b {
            return Some(i);
        }
        i = i + 1;
    }
    None
}

fn is_space_byte(b: u8) -> (r: bool)
    ensures
        r == is_space(b),
{
    b == 0x20 /* ' ' */ || b == 0x09 /* '\t' */ || b == 0x0a /* '\n' */ || b == 0x0d /* '\r' */
}

fn is_digit_byte(b: u8) -> (r: bool)
    ensures
        r == is_digit(b),
{
    0x30 /* '0' */ <= b && b <= 0x39 /* '9' */
}

fn is_word_byte_exec(b: u8) -> (r: bool)
    ensures
        r == is_word_byte(b),
{
    (0x61 /* 'a' */ <= b && b <= 0x7a /* 'z' */) || (0x41 /* 'A' */ <= b && b <= 0x5a /* 'Z' */) || b == 0x5f /* '_' */ || (0x30 /* '0' */ <= b && b <= 0x39 /* '9' */)
        || b == 0x2d /* '-' */ || b == 0x2e /* '.' */ || b == 0x2b /* '+' */
}

/// `expected` stands in `bytes` at `p`.
fn bytes_at(bytes: &[u8], p: usize, expected: &[u8]) -> (r: bool)
    requires
        p <= bytes.len(),
    ensures
        r == (p + expected@.len() <= bytes@.len() && bytes@.subrange(p as int, p + expected@.len()) == expected@),
{
    if bytes.len() - p < expected.len() {
        return false;
    }
    let mut i: usize = 0;
    while i < expected.len()
        invariant
            p + expected.len() <= bytes.len(),
            i <= expected.len(),
            forall|j: int| 0 <= j < i ==> bytes@[p + j] == expected@[j],
        decreases expected.len() - i,
    {
        if bytes[p + i] != expected[i] {
            proof {
                assert(bytes@.subrange(p as int, p + expected.len())[i as int] != expected@[i as int]);
            }
            return false;
        }
        i = i + 1;
    }
    proof {
        assert(bytes@.subrange(p as int, p + expected.len()) =~= expected@);
    }
    true
}

/// Splits SNBT source text into tokens, one at a time.
#[derive(Debug, Clone)]
pub struct Tokenizer<'src> {
    position: usize,
    source: &'src str,
}

impl<'src> Tokenizer<'src> {
    /// The position of the next byte to read.
    pub closed spec fn pos(&self) -> int {
        self.position as int
    }

    /// The source text as bytes.
    pub closed spec fn src(&self) -> Seq<u8> {
        self.source.spec_bytes()
    }

    pub closed spec fn wf(&self) -> bool {
        self.position <= self.source.spec_bytes().len()
    }

    /// A well-formed tokenizer stands within its source: `0 <= pos() <= src().len()`.
    pub proof fn lemma_position(&self)
        requires
            self.wf(),
        ensures
            0 <= self.pos() <= self.src().len(),
    {
    }

    /// The tokens that are left to take.
    pub open spec fn stream(&self) -> Seq<TokenEntry> {
        spec_tokens(self.src(), self.pos())
    }

    pub fn new(source: &'src str) -> (r: Self)
        ensures
            r.pos() == 0,
            r.src() == source.spec_bytes(),
            r.wf(),
    {
        Self { position: 0, source }
    }

    /// Takes the token after any white space, with the span of source text that it covers.
    pub fn take_spanned_token(&mut self) -> (r: Result<SpannedToken<'src>, Error>)
        requires
            old(self).wf(),
        ensures
            final(self).src() == old(self).src(),
            final(self).wf(),
            match r {
                Ok(st) => spec_take_spanned_token(old(self).src(), old(self).pos()) == Ok::<
                    (TokenView, int, int),
                    Error,
                >((st.token@, st.span.start.0 as int, st.span.end.0 as int))
                    && final(self).pos() == st.span.end.0,
                Err(e) => spec_take_spanned_token(old(self).src(), old(self).pos()) == Err::<
                    (TokenView, int, int),
                    Error,
                >(e),
            },
            old(self).stream().len() >= 1,
            match r {
                Ok(st) => old(self).stream()[0] == Ok::<(TokenView, Span), Error>((st.token@, st.span))
                    && final(self).stream() == (if st.token@ is Eof {
                        old(self).stream()
                    } else {
                        old(self).stream().drop_first()
                    }),
                Err(e) => old(self).stream()[0] == Err::<(TokenView, Span), Error>(e),
            },
    {
        proof {
            lemma_tokens_step(self.src(), self.pos());
        }
        let src: &'src str = self.source;
        let bytes: &'src [u8] = src.as_bytes();
        while self.position < bytes.len() && is_space_byte(bytes[self.position])
            invariant
                self.source == src,
                bytes@ == src.spec_bytes(),
                self.position <= bytes.len(),
                skip_space(bytes@, old(self).pos()) == skip_space(bytes@, self.position as int),
            decreases bytes.len() - self.position,
        {
            self.position = self.position + 1;
        }
        let start = self.position;
        let token = self.take_token();
        match token {
            Ok(t) => Ok(SpannedToken { token: t, span: Span { start: SourcePosition(start), end: SourcePosition(self.position) } }),
            Err(e) => Err(e),
        }
    }

    /// Takes the token after any white space.
    pub fn take_token(&mut self) -> (r: Result<Token<'src>, Error>)
        requires
            old(self).wf(),
        ensures
            final(self).src() == old(self).src(),
            final(self).wf(),
            outcome(r, final(self).pos()) == spec_take_token(old(self).src(), old(self).pos()),
    {
        let src: &'src str = self.source;
        let bytes: &'src [u8] = src.as_bytes();
        while self.position < bytes.len() && is_space_byte(bytes[self.position])
            invariant
                self.source == src,
                bytes@ == src.spec_bytes(),
                self.position <= bytes.len(),
                spec_take_token(bytes@, old(self).pos()) == spec_take_token(bytes@, self.position as int),
            decreases bytes.len() - self.position,
        {
            self.position = self.position + 1;
        }
        let p = self.position;
        if p >= bytes.len() {
            return Ok(Token::Eof);
        }
        let b = bytes[p];
        let token = if b == 0x7b /* '{' */ {
            Token::OpenBrace
        } else if b == 0x7d /* '}' */ {
            Token::CloseBrace
        } else if b == 0x5b /* '[' */ {
            Token::OpenBracket
        } else if b == 0x5d /* ']' */ {
            Token::CloseBracket
        } else if b == 0x28 /* '(' */ {
            Token::OpenParen
        } else if b == 0x29 /* ')' */ {
            Token::CloseParen
        } else if b == 0x3a /* ':' */ {
            Token::Colon
        } else if b == 0x2c /* ',' */ {
            Token::Comma
        } else if b == 0x42 /* 'B' */ {
            return self.take_unit_token(&[0x42 /* 'B' */, 0x3b /* ';' */], Token::Int8ArrayHeader);
        } else if b == 0x49 /* 'I' */ {
            return self.take_unit_token(&[0x49 /* 'I' */, 0x3b /* ';' */], Token::Int32ArrayHeader);
        } else if b == 0x4c /* 'L' */ {
            return self.take_unit_token(&[0x4c /* 'L' */, 0x3b /* ';' */], Token::Int64ArrayHeader);
        } else if b == 0x74 /* 't' */ {
            return self.take_unit_token(&[0x74 /* 't' */, 0x72 /* 'r' */, 0x75 /* 'u' */, 0x65 /* 'e' */], Token::True);
        } else if b == 0x66 /* 'f' */ {
            return self.take_unit_token(&[0x66 /* 'f' */, 0x61 /* 'a' */, 0x6c /* 'l' */, 0x73 /* 's' */, 0x65 /* 'e' */], Token::False);
        } else if b == 0x62 /* 'b' */ {
            return self.take_unit_token(&[0x62 /* 'b' */, 0x6f /* 'o' */, 0x6f /* 'o' */, 0x6c /* 'l' */], Token::Bool);
        } else if b == 0x75 /* 'u' */ {
            return self.take_unit_token(&[0x75 /* 'u' */, 0x75 /* 'u' */, 0x69 /* 'i' */, 0x64 /* 'd' */], Token::Uuid);
        } else if b == 0x2e /* '.' */ || b == 0x2d /* '-' */ || is_digit_byte(b) {
            return self.take_number_token();
        } else if b == 0x22 /* '"' */ || b == 0x27 /* ''' */ {
            return self.take_string_token(b);
        } else if (0x61 /* 'a' */ <= b && b <= 0x7a /* 'z' */) || (0x41 /* 'A' */ <= b && b <= 0x5a /* 'Z' */) || b == 0x5f /* '_' */ {
            return Ok(self.take_word());
        } else {
            return Err(Error::InvalidToken(SourcePosition(p)));
        };
        self.position = p + 1;
        Ok(token)
    }

    /// Takes the bare word at the current position, which holds a letter or an underscore.
    fn take_word(&mut self) -> (r: Token<'src>)
        requires
            old(self).wf(),
            old(self).pos() < old(self).src().len(),
            is_word_start(old(self).src()[old(self).pos()]),
        ensures
            final(self).src() == old(self).src(),
            final(self).wf(),
            r@ == TokenView::String(seq![PieceView::Literal(decode_utf8(old(self).src().subrange(old(self).pos(), final(self).pos())))]),
            final(self).pos() == old(self).pos() + word_len(old(self).src(), old(self).pos()),
    {
        let src: &'src str = self.source;
        let bytes: &'src [u8] = src.as_bytes();
        let p = self.position;
        proof {
            lemma_word_len(bytes@, p as int);
        }
        let mut n: usize = 0;
        while p + n < bytes.len() && is_word_byte_exec(bytes[p + n])
            invariant
                p + n <= bytes.len(),
                word_len(bytes@, p as int) == n + word_len(bytes@, p + n),
            decreases bytes.len() - p - n,
        {
            n = n + 1;
        }
        let content = slice_subrange(bytes, p, p + n);
        proof {
            let c = content@;
            assert forall|i: int| 0 <= i < n implies #[trigger] is_leading_byte_width_1(c[i]) by {
                assert(c[i] == bytes@[p + i]);
                assert(is_word_byte(bytes@[p + i]));
            }
            assert(c.subrange(0, 0) =~= Seq::<u8>::empty());
            partial_valid_utf8_extend_ascii_block(c, 0, n as int);
            assert(c.subrange(0, n as int) =~= c);
        }
        let text = str_from_utf8(content);
        self.position = p + n;
        let v = vec![StringContentToken::Literal(text.unwrap())];
        proof {
            assert(pieces_view(v@) =~= seq![PieceView::Literal(decode_utf8(content@))]);
        }
        Token::String(v)
    }

    fn take_unit_token(&mut self, expected: &[u8], token: Token<'src>) -> (r: Result<Token<'src>, Error>)
        requires
            old(self).wf(),
        ensures
            final(self).src() == old(self).src(),
            final(self).wf(),
            outcome(r, final(self).pos()) == spec_unit(old(self).src(), old(self).pos(), expected@, token@),
    {
        let src: &'src str = self.source;
        let bytes: &'src [u8] = src.as_bytes();
        let p = self.position;
        assert(bytes@ == self.src());
        assert(bytes@.len() == bytes.len());
        if bytes_at(bytes, p, expected) {
            self.position = p + expected.len();
            Ok(token)
        } else {
            Err(Error::InvalidToken(SourcePosition(p)))
        }
    }

    /// Takes the number at the current position.
    pub fn take_number_token(&mut self) -> (r: Result<Token<'src>, Error>)
        requires
            old(self).wf(),
        ensures
            final(self).src() == old(self).src(),
            final(self).wf(),
            outcome(r, final(self).pos()) == spec_number_token(old(self).src(), old(self).pos()),
            r is Err ==> final(self).pos() == old(self).pos(),
    {
        let src: &'src str = self.source;
        let bytes: &'src [u8] = src.as_bytes();
        let p = self.position;
        let rest = slice_subrange(bytes, p, bytes.len());
        let mut parser = NumberParser::new(rest);
        match parser.take_number() {
            Ok(n) => {
                self.position = p + parser.position();
                Ok(Token::Number(n))
            },
            Err(_) => Err(Error::InvalidNumber(SourcePosition(p))),
        }
    }

    /// Takes a quoted string; the current position holds the opening `quote`.
    fn take_string_token(&mut self, quote: u8) -> (r: Result<Token<'src>, Error>)
        requires
            old(self).wf(),
            old(self).pos() < old(self).src().len(),
            old(self).src()[old(self).pos()] == quote,
        ensures
            final(self).src() == old(self).src(),
            final(self).wf(),
            outcome(r, final(self).pos()) == string_result(seq![], spec_string_rest(old(self).src(), old(self).pos() + 1, quote)),
    {
        let src: &'src str = self.source;
        let bytes: &'src [u8] = src.as_bytes();
        assert(bytes@ == self.src());
        assert(bytes@.len() == bytes.len());
        self.position = self.position + 1;
        let mut tokens: Vec<StringContentToken<'src>> = Vec::new();
        proof {
            assert(pieces_view(tokens@) =~= seq![]);
        }
        loop
            invariant
                self.wf(),
                self.src() == old(self).src(),
                string_result(seq![], spec_string_rest(self.src(), old(self).pos() + 1, quote))
                    == string_result(pieces_view(tokens@), spec_string_rest(self.src(), self.pos(), quote)),
            decreases self.src().len() - self.pos(),
        {
            match self.take_string_piece(quote, &mut tokens) {
                Ok(true) => {
                    return Ok(Token::String(tokens));
                },
                Ok(false) => {},
                Err(e) => {
                    return Err(e);
                },
            }
        }
    }

    /// Takes the text of a string up to its closing quote or its next escape, and that escape.
    /// Returns whether the string ended.
    fn take_string_piece(&mut self, quote: u8, tokens: &mut Vec<StringContentToken<'src>>) -> (r: Result<bool, Error>)
        requires
            old(self).wf(),
        ensures
            final(self).src() == old(self).src(),
            final(self).wf(),
            match r {
                Ok(true) => string_result(pieces_view(old(tokens)@), spec_string_rest(old(self).src(), old(self).pos(), quote))
                    == Ok::<(TokenView, int), Error>((TokenView::String(pieces_view(final(tokens)@)), final(self).pos())),
                Ok(false) => string_result(pieces_view(old(tokens)@), spec_string_rest(old(self).src(), old(self).pos(), quote))
                    == string_result(pieces_view(final(tokens)@), spec_string_rest(old(self).src(), final(self).pos(), quote))
                    && final(self).pos() > old(self).pos(),
                Err(e) => string_result(pieces_view(old(tokens)@), spec_string_rest(old(self).src(), old(self).pos(), quote))
                    == Err::<(TokenView, int), Error>(e),
            },
    {
        let src: &'src str = self.source;
        let bytes: &'src [u8] = src.as_bytes();
        let p = self.position;
        let ghost s = bytes@;
        let q = match find_byte(bytes, p, bytes.len(), quote) {
            Some(q) => q,
            None => {
                return Err(Error::InvalidToken(SourcePosition(p)));
            },
        };
        proof {
            lemma_find_from(s, p as int, s.len() as int, quote);
        }
        match find_byte(bytes, p, q, 0x5c /* '\' */) {
            None => {
                let text = str_from_utf8(slice_subrange(bytes, p, q));
                match text {
                    Some(t) => {
                        let ghost before = tokens@;
                        tokens.push(StringContentToken::Literal(t));
                        self.position = q + 1;
                        proof {
                            assert(pieces_view(tokens@) =~= pieces_view(before) + seq![PieceView::Literal(t@)]);
                        }
                        Ok(true)
                    },
                    None => Err(Error::InvalidUtf8(SourcePosition(p))),
                }
            },
            Some(bs) => {
                proof {
                    lemma_find_from(s, p as int, q as int, 0x5c /* '\' */);
                }
                let text = str_from_utf8(slice_subrange(bytes, p, bs));
                match text {
                    Some(t) => {
                        let ghost before = tokens@;
                        self.position = bs + 1;
                        proof {
                            lemma_escape_advances(s, bs + 1);
                        }
                        match self.take_string_escape() {
                            Ok(e) => {
                                tokens.push(StringContentToken::Literal(t));
                                tokens.push(e);
                                proof {
                                    let x = seq![PieceView::Literal(t@), e@];
                                    assert(pieces_view(tokens@) =~= pieces_view(before) + x);
                                    match spec_string_rest(s, self.pos(), quote) {
                                        Ok((rest, _)) => {
                                            assert(pieces_view(before) + (x + rest) =~= pieces_view(tokens@) + rest);
                                        },
                                        Err(_) => {},
                                    }
                                }
                                Ok(false)
                            },
                            Err(e) => Err(e),
                        }
                    },
                    None => Err(Error::InvalidUtf8(SourcePosition(p))),
                }
            },
        }
    }

    /// Takes the escape whose letter stands at the current position, after a backslash.
    pub fn take_string_escape(&mut self) -> (r: Result<StringContentToken<'src>, Error>)
        requires
            old(self).wf(),
        ensures
            final(self).src() == old(self).src(),
            final(self).wf(),
            match r {
                Ok(t) => spec_escape(old(self).src(), old(self).pos()) == Ok::<(PieceView, int), Error>((t@, final(self).pos())),
                Err(e) => spec_escape(old(self).src(), old(self).pos()) == Err::<(PieceView, int), Error>(e)
                    && final(self).pos() == old(self).pos(),
            },
    {
        let src: &'src str = self.source;
        let bytes: &'src [u8] = src.as_bytes();
        let p = self.position;
        if p >= bytes.len() {
            return Err(Error::UnclosedEscape(SourcePosition(p)));
        }
        let b = bytes[p];
        let c = if b == 0x62 /* 'b' */ {
            '\u{8}'
        } else if b == 0x66 /* 'f' */ {
            '\u{c}'
        } else if b == 0x6e /* 'n' */ {
            '\n'
        } else if b == 0x72 /* 'r' */ {
            '\r'
        } else if b == 0x73 /* 's' */ {
            ' '
        } else if b == 0x74 /* 't' */ {
            '\t'
        } else if b == 0x5c /* '\' */ {
            '\\'
        } else if b == 0x27 /* ''' */ {
            '\''
        } else if b == 0x22 /* '"' */ {
            '"'
        } else if b == 0x78 /* 'x' */ {
            if bytes.len() - p > 2 && is_digit_byte(bytes[p + 1]) && is_digit_byte(bytes[p + 2]) {
                let v: u32 = ((bytes[p + 1] - 0x30) as u32) * 0x10 + ((bytes[p + 2] - 0x30) as u32);
                let c = char_from_u32(v);
                self.position = p + 3;
                return Ok(StringContentToken::Escaped(c.unwrap()));
            } else if bytes.len() - (p + 1) >= 2 {
                return Err(Error::EscapeNonDigits(SourcePosition(p)));
            } else {
                return Err(Error::UnclosedEscape(SourcePosition(p)));
            }
        } else if b == 0x75 /* 'u' */ {
            if bytes.len() - p > 4 && is_digit_byte(bytes[p + 1]) && is_digit_byte(bytes[p + 2])
                && is_digit_byte(bytes[p + 3]) && is_digit_byte(bytes[p + 4]) {
                let v: u32 = ((bytes[p + 1] - 0x30) as u32) * 0x1000 + ((bytes[p + 2] - 0x30) as u32) * 0x100
                    + ((bytes[p + 3] - 0x30) as u32) * 0x10 + ((bytes[p + 4] - 0x30) as u32);
                match char_from_u32(v) {
                    Some(c) => {
                        self.position = p + 5;
                        return Ok(StringContentToken::Escaped(c));
                    },
                    None => {
                        return Err(Error::InvalidEscapeChar(SourcePosition(p)));
                    },
                }
            } else if bytes.len() - (p + 1) >= 4 {
                return Err(Error::EscapeNonDigits(SourcePosition(p)));
            } else {
                return Err(Error::UnclosedEscape(SourcePosition(p)));
            }
        } else if b == 0x55 /* 'U' */ {
            if bytes.len() - p > 8 && is_digit_byte(bytes[p + 1]) && is_digit_byte(bytes[p + 2])
                && is_digit_byte(bytes[p + 3]) && is_digit_byte(bytes[p + 4]) && is_digit_byte(bytes[p + 5])
                && is_digit_byte(bytes[p + 6]) && is_digit_byte(bytes[p + 7]) && is_digit_byte(bytes[p + 8]) {
                let v: u32 = ((bytes[p + 1] - 0x30) as u32) * 0x1000_0000 + ((bytes[p + 2] - 0x30) as u32)
                    * 0x100_0000 + ((bytes[p + 3] - 0x30) as u32) * 0x10_0000 + ((bytes[p + 4] - 0x30) as u32)
                    * 0x1_0000 + ((bytes[p + 5] - 0x30) as u32) * 0x1000 + ((bytes[p + 6] - 0x30) as u32)
                    * 0x100 + ((bytes[p + 7] - 0x30) as u32) * 0x10 + ((bytes[p + 8] - 0x30) as u32);
                match char_from_u32(v) {
                    Some(c) => {
                        self.position = p + 5;
                        return Ok(StringContentToken::Escaped(c));
                    },
                    None => {
                        return Err(Error::InvalidEscapeChar(SourcePosition(p)));
                    },
                }
            } else if bytes.len() - (p + 1) >= 8 {
                return Err(Error::EscapeNonDigits(SourcePosition(p)));
            } else {
                return Err(Error::UnclosedEscape(SourcePosition(p)));
            }
        } else if b == 0x4e /* 'N' */ {
            if bytes.len() - p > 1 && bytes[p + 1] == 0x7b /* '{' */ {
                match find_byte(bytes, p + 2, bytes.len(), 0x7d /* '}' */) {
                    Some(close) => {
                        proof {
                            lemma_find_from(bytes@, p + 2, bytes@.len() as int, 0x7d);
                        }
                        match str_from_utf8(slice_subrange(bytes, p + 2, close)) {
                            Some(name) => {
                                self.position = close;
                                return Ok(StringContentToken::Named(name));
                            },
                            None => {
                                return Err(Error::InvalidUtf8(SourcePosition(p)));
                            },
                        }
                    },
                    None => {
                        return Err(Error::UnclosedEscape(SourcePosition(p)));
                    },
                }
            } else {
                return Err(Error::UnclosedEscape(SourcePosition(p)));
            }
        } else {
            return Err(Error::UnknownEscape(SourcePosition(p)));
        };
        self.position = p + 1;
        Ok(StringContentToken::Escaped(c))
    }
}

/// One entry of the token stream: a token with its span, or the error that stopped the
/// tokenizer.
pub type TokenEntry = Result<(TokenView, Span), Error>;

pub open spec fn span_of(q: int, e: int) -> Span {
    Span { start: SourcePosition(q as usize), end: SourcePosition(e as usize) }
}

/// The tokens that the tokenizer yields from `p` on: it ends with the end-of-source token or
/// with an error.
pub open spec fn spec_tokens(s: Seq<u8>, p: int) -> Seq<TokenEntry>
    decreases s.len() - p,
{
    match spec_take_spanned_token(s, p) {
        Err(e) => seq![Err(e)],
        Ok((t, q, e)) => if !(t is Eof) && p < e <= s.len() {
            seq![Ok((t, span_of(q, e)))] + spec_tokens(s, e)
        } else {
            seq![Ok((t, span_of(q, e)))]
        },
    }
}

pub proof fn lemma_skip_space(s: Seq<u8>, p: int)
    requires
        0 <= p <= s.len(),
    ensures
        p <= skip_space(s, p) <= s.len(),
        skip_space(s, skip_space(s, p)) == skip_space(s, p),
        skip_space(s, p) < s.len() ==> !is_space(s[skip_space(s, p)]),
    decreases s.len() - p,
{
    if p < s.len() && is_space(s[p]) {
        lemma_skip_space(s, p + 1);
    }
}

/// The one-letter escapes and the characters they stand for: `\b` backspace, `\f` form feed,
/// `\n` line feed, `\r` carriage return, `\s` space, `\t` tab, and `\\`, `\'` and `\"` the
/// backslash and the two quotes; each takes one byte after the backslash. `\x` with two
/// digits stands for the character of the value of the first digit times sixteen plus the
/// second, and takes three bytes.
pub proof fn law_simple_escapes(s: Seq<u8>, p: int)
    requires
        0 <= p < s.len(),
    ensures
        s[p] == 0x62 ==> spec_escape(s, p) == Ok::<(PieceView, int), Error>((PieceView::Escaped('\u{8}'), p + 1)),
        s[p] == 0x66 ==> spec_escape(s, p) == Ok::<(PieceView, int), Error>((PieceView::Escaped('\u{c}'), p + 1)),
        s[p] == 0x6e ==> spec_escape(s, p) == Ok::<(PieceView, int), Error>((PieceView::Escaped('\n'), p + 1)),
        s[p] == 0x72 ==> spec_escape(s, p) == Ok::<(PieceView, int), Error>((PieceView::Escaped('\r'), p + 1)),
        s[p] == 0x73 ==> spec_escape(s, p) == Ok::<(PieceView, int), Error>((PieceView::Escaped(' '), p + 1)),
        s[p] == 0x74 ==> spec_escape(s, p) == Ok::<(PieceView, int), Error>((PieceView::Escaped('\t'), p + 1)),
        s[p] == 0x5c ==> spec_escape(s, p) == Ok::<(PieceView, int), Error>((PieceView::Escaped('\\'), p + 1)),
        s[p] == 0x27 ==> spec_escape(s, p) == Ok::<(PieceView, int), Error>((PieceView::Escaped('\''), p + 1)),
        s[p] == 0x22 ==> spec_escape(s, p) == Ok::<(PieceView, int), Error>((PieceView::Escaped('"'), p + 1)),
        s[p] == 0x78 && p + 2 < s.len() && 0x30 <= s[p + 1] <= 0x39 && 0x30 <= s[p + 2] <= 0x39 ==> (
            spec_escape(s, p) matches Ok((PieceView::Escaped(c), q)) && q == p + 3
                && c as int == (s[p + 1] - 0x30) * 16 + (s[p + 2] - 0x30)),
{
    if s[p] == 0x78 && p + 2 < s.len() && 0x30 <= s[p + 1] <= 0x39 && 0x30 <= s[p + 2] <= 0x39 {
        let v = (s[p + 1] - 0x30) * 16 + (s[p + 2] - 0x30);
        assert(0 <= v < 0xd800);
        assert(is_scalar(v as u32));
    }
}

/// The keywords and punctuation of SNBT and the tokens they are: `true`, `false`, `bool`,
/// `uuid`, the array headers `B;`, `I;` and `L;`, and the eight punctuation marks `{ } [ ] ( ) : ,`,
/// each read whole from where it starts.
pub proof fn law_keyword_tokens(s: Seq<u8>, p: int)
    requires
        0 <= p < s.len(),
    ensures
        p + 4 <= s.len() && s.subrange(p, p + 4) == seq![0x74, 0x72, 0x75, 0x65u8] ==> spec_take_token(s, p) == Ok::<(TokenView, int), Error>((TokenView::True, p + 4)),
        p + 5 <= s.len() && s.subrange(p, p + 5) == seq![0x66, 0x61, 0x6c, 0x73, 0x65u8] ==> spec_take_token(s, p) == Ok::<(TokenView, int), Error>((TokenView::False, p + 5)),
        p + 4 <= s.len() && s.subrange(p, p + 4) == seq![0x62, 0x6f, 0x6f, 0x6cu8] ==> spec_take_token(s, p) == Ok::<(TokenView, int), Error>((TokenView::Bool, p + 4)),
        p + 4 <= s.len() && s.subrange(p, p + 4) == seq![0x75, 0x75, 0x69, 0x64u8] ==> spec_take_token(s, p) == Ok::<(TokenView, int), Error>((TokenView::Uuid, p + 4)),
        p + 2 <= s.len() && s.subrange(p, p + 2) == seq![0x42, 0x3bu8] ==> spec_take_token(s, p) == Ok::<(TokenView, int), Error>((TokenView::Int8ArrayHeader, p + 2)),
        p + 2 <= s.len() && s.subrange(p, p + 2) == seq![0x49, 0x3bu8] ==> spec_take_token(s, p) == Ok::<(TokenView, int), Error>((TokenView::Int32ArrayHeader, p + 2)),
        p + 2 <= s.len() && s.subrange(p, p + 2) == seq![0x4c, 0x3bu8] ==> spec_take_token(s, p) == Ok::<(TokenView, int), Error>((TokenView::Int64ArrayHeader, p + 2)),
        s[p] == 0x7b ==> spec_take_token(s, p) == Ok::<(TokenView, int), Error>((TokenView::OpenBrace, p + 1)),
        s[p] == 0x7d ==> spec_take_token(s, p) == Ok::<(TokenView, int), Error>((TokenView::CloseBrace, p + 1)),
        s[p] == 0x5b ==> spec_take_token(s, p) == Ok::<(TokenView, int), Error>((TokenView::OpenBracket, p + 1)),
        s[p] == 0x5d ==> spec_take_token(s, p) == Ok::<(TokenView, int), Error>((TokenView::CloseBracket, p + 1)),
        s[p] == 0x28 ==> spec_take_token(s, p) == Ok::<(TokenView, int), Error>((TokenView::OpenParen, p + 1)),
        s[p] == 0x29 ==> spec_take_token(s, p) == Ok::<(TokenView, int), Error>((TokenView::CloseParen, p + 1)),
        s[p] == 0x3a ==> spec_take_token(s, p) == Ok::<(TokenView, int), Error>((TokenView::Colon, p + 1)),
        s[p] == 0x2c ==> spec_take_token(s, p) == Ok::<(TokenView, int), Error>((TokenView::Comma, p + 1)),
{
    if p + 4 <= s.len() {
        assert(s.subrange(p, p + 4)[0] == s[p]);
    }
    if p + 5 <= s.len() {
        assert(s.subrange(p, p + 5)[0] == s[p]);
    }
    if p + 4 <= s.len() {
        assert(s.subrange(p, p + 4)[0] == s[p]);
    }
    if p + 4 <= s.len() {
        assert(s.subrange(p, p + 4)[0] == s[p]);
    }
    if p + 2 <= s.len() {
        assert(s.subrange(p, p + 2)[0] == s[p]);
    }
    if p + 2 <= s.len() {
        assert(s.subrange(p, p + 2)[0] == s[p]);
    }
    if p + 2 <= s.len() {
        assert(s.subrange(p, p + 2)[0] == s[p]);
    }
}

/// White space is the space, tab, line feed and carriage return, and it is skipped before a
/// token.
pub proof fn law_white_space(s: Seq<u8>, p: int, b: u8)
    requires
        0 <= p < s.len(),
    ensures
        is_space(b) <==> (b == 0x20 || b == 0x09 || b == 0x0a || b == 0x0d),
        is_space(s[p]) ==> spec_take_token(s, p) == spec_take_token(s, p + 1),
{
}

/// The bytes of a bare word: letters, digits, `_`, `-`, `.` and `+`; a bare word starts with
/// a letter or `_`.
pub proof fn law_word_bytes(b: u8)
    ensures
        is_word_byte(b) <==> ((0x61 <= b <= 0x7a) || (0x41 <= b <= 0x5a) || (0x30 <= b <= 0x39) || b == 0x5f
            || b == 0x2d || b == 0x2e || b == 0x2b),
        is_word_start(b) <==> ((0x61 <= b <= 0x7a) || (0x41 <= b <= 0x5a) || b == 0x5f),
{
}

/// A bare word that starts with a letter that begins no keyword, or with `_`, is a string token
/// of the longest run of word bytes from there.
pub proof fn law_bare_word(s: Seq<u8>, p: int)
    requires
        0 <= p < s.len(),
        is_word_start(s[p]),
        !(s[p] == 0x74 || s[p] == 0x66 || s[p] == 0x62 || s[p] == 0x75 || s[p] == 0x42 || s[p] == 0x49 || s[p] == 0x4c),
    ensures
        ({
            let q = p + word_len(s, p);
            &&& p < q <= s.len()
            &&& forall|k: int| p <= k < q ==> is_word_byte(#[trigger] s[k])
            &&& q < s.len() ==> !is_word_byte(s[q])
            &&& spec_take_token(s, p) == Ok::<(TokenView, int), Error>(
                (TokenView::String(seq![PieceView::Literal(decode_utf8(s.subrange(p, q)))]), q),
            )
        }),
{
    lemma_word_len(s, p);
    lemma_word_len_end(s, p);
}

/// A bare word ends at the first byte that cannot stand in one.
pub proof fn lemma_word_len_end(s: Seq<u8>, p: int)
    requires
        0 <= p <= s.len(),
    ensures
        p + word_len(s, p) < s.len() ==> !is_word_byte(s[p + word_len(s, p)]),
    decreases s.len() - p,
{
    if p < s.len() && is_word_byte(s[p]) {
        lemma_word_len_end(s, p + 1);
    }
}

/// White space before a token does not change the token.
pub proof fn lemma_take_token_skip(s: Seq<u8>, p: int)
    requires
        0 <= p <= s.len(),
    ensures
        spec_take_token(s, p) == spec_take_token(s, skip_space(s, p)),
    decreases s.len() - p,
{
    if p < s.len() && is_space(s[p]) {
        lemma_take_token_skip(s, p + 1);
    }
}

/// The spanned and the plain token readers agree: from the same place in the same text they
/// read the same token and end at the same place, and the span starts after the white space;
/// where one fails, the other fails with the same error.
pub proof fn law_spanned_token_agrees(s: Seq<u8>, p: int)
    requires
        0 <= p <= s.len(),
    ensures
        match (spec_take_spanned_token(s, p), spec_take_token(s, p)) {
            (Ok((t, a, b)), Ok((u, c))) => t == u && b == c && a == skip_space(s, p),
            (Err(e1), Err(e2)) => e1 == e2,
            _ => false,
        },
{
    lemma_take_token_skip(s, p);
}

pub proof fn lemma_digit_sequence(s: Seq<u8>, p: int, base: Base)
    requires
        0 <= p <= s.len(),
    ensures
        p <= digit_sequence(s, p, base).1 <= s.len(),
        p < s.len() && in_sequence(base, s[p]) && s[p] != 0x5f ==> p < digit_sequence(s, p, base).1,
{
    lemma_run_len_bounds(s, p, base);
    reveal_with_fuel(run_len, 2);
}

pub proof fn lemma_number_advances(s: Seq<u8>)
    ensures
        spec_take_number(s, 0) matches Some((_, k)) ==> 1 <= k <= s.len(),
{
    let (sign, p) = spec_sign(s, 0);
    if prefix_at(s, p, 0x62, Base::Binary) {
        lemma_digit_sequence(s, p + 2, Base::Binary);
    } else if prefix_at(s, p, 0x78, Base::Hex) {
        lemma_digit_sequence(s, p + 2, Base::Hex);
    } else if 0 <= p < s.len() && is_digit(s[p]) {
        lemma_digit_sequence(s, p, Base::Denary);
        let p1 = digit_sequence(s, p, Base::Denary).1;
        if 0 <= p1 < s.len() && s[p1] == 0x2e && p1 + 1 < s.len() && is_digit(s[p1 + 1]) {
            lemma_digit_sequence(s, p1 + 1, Base::Denary);
        }
        let p2 = spec_decimal_fraction_end(s, p1);
        lemma_exponent(s, p2);
    } else if 0 <= p && p + 1 < s.len() && s[p] == 0x2e && is_digit(s[p + 1]) {
        lemma_digit_sequence(s, p + 1, Base::Denary);
        lemma_exponent(s, digit_sequence(s, p + 1, Base::Denary).1);
    }
}

/// Where the fractional part that may follow an integer part ending at `p1` ends.
pub open spec fn spec_decimal_fraction_end(s: Seq<u8>, p1: int) -> int {
    if 0 <= p1 < s.len() && s[p1] == 0x2e {
        if p1 + 1 < s.len() && is_digit(s[p1 + 1]) {
            digit_sequence(s, p1 + 1, Base::Denary).1
        } else {
            p1 + 1
        }
    } else {
        p1
    }
}

pub proof fn lemma_exponent(s: Seq<u8>, p: int)
    requires
        0 <= p <= s.len(),
    ensures
        p <= spec_exponent(s, p).1 <= s.len(),
{
    if 0 <= p && p + 1 < s.len() {
        lemma_digit_sequence(s, p + 1, Base::Denary);
    }
    if 0 <= p && p + 2 < s.len() {
        lemma_digit_sequence(s, p + 2, Base::Denary);
    }
}

pub proof fn lemma_string_rest_advances(s: Seq<u8>, p: int, quote: u8)
    ensures
        spec_string_rest(s, p, quote) matches Ok((_, r)) ==> p < r <= s.len(),
    decreases s.len() - p,
{
    if 0 <= p <= s.len() {
        lemma_find_from(s, p, s.len() as int, quote);
        match find_from(s, p, s.len() as int, quote) {
            None => {},
            Some(q) => {
                lemma_find_from(s, p, q, 0x5c);
                match find_from(s, p, q, 0x5c) {
                    None => {},
                    Some(bs) => {
                        match spec_escape(s, bs + 1) {
                            Err(_) => {},
                            Ok((_, p2)) => {
                                if p < p2 <= s.len() {
                                    lemma_string_rest_advances(s, p2, quote);
                                }
                            },
                        }
                    },
                }
            },
        }
    }
}

/// A token other than the end of the source covers at least one byte.
pub proof fn lemma_take_token_advances(s: Seq<u8>, p: int)
    requires
        0 <= p <= s.len(),
    ensures
        spec_take_token(s, p) matches Ok((t, e)) ==> p <= e && (!(t is Eof) ==> p < e),
    decreases s.len() - p,
{
    if p < s.len() {
        let b = s[p];
        if is_space(b) {
            lemma_take_token_advances(s, p + 1);
        } else if b == 0x2e || b == 0x2d || is_digit(b) {
            lemma_number_advances(s.subrange(p, s.len() as int));
        } else if b == 0x22 || b == 0x27 {
            lemma_string_rest_advances(s, p + 1, b);
        } else {
            reveal_with_fuel(word_len, 2);
        }
    }
}

/// `spec_tokens` from `p` begins with the next token, and goes on with the tokens after it.
pub proof fn lemma_tokens_step(s: Seq<u8>, p: int)
    requires
        0 <= p <= s.len(),
    ensures
        spec_tokens(s, p).len() >= 1,
        match spec_take_spanned_token(s, p) {
            Err(e) => spec_tokens(s, p)[0] == Err::<(TokenView, Span), Error>(e),
            Ok((t, q, e)) => spec_tokens(s, p)[0] == Ok::<(TokenView, Span), Error>((t, span_of(q, e)))
                && p <= q <= e
                && (t is Eof ==> e == q && spec_tokens(s, q) == spec_tokens(s, p))
                && (!(t is Eof) && e <= s.len() ==> spec_tokens(s, e) == spec_tokens(s, p).drop_first()),
        },
{
    lemma_skip_space(s, p);
    let q = skip_space(s, p);
    lemma_take_token_advances(s, q);
    match spec_take_spanned_token(s, p) {
        Err(e) => {},
        Ok((t, q1, e)) => {
            if t is Eof {
                assert(spec_take_spanned_token(s, q) == spec_take_spanned_token(s, p));
                if q < s.len() {
                    assert(!is_space(s[q]));
                }
            } else if e <= s.len() {
                assert(spec_tokens(s, p) == seq![Ok::<(TokenView, Span), Error>((t, span_of(q1, e)))] + spec_tokens(s, e));
                assert(spec_tokens(s, p).drop_first() =~= spec_tokens(s, e));
            }
        },
    }
}

/// `std::str::from_utf8`: a string slice over `bytes` exactly when they are valid UTF-8.
#[verifier::external_body]
pub(crate) fn str_from_utf8(bytes: &[u8]) -> (r: Option<&str>)
    ensures
        r is Some <==> valid_utf8(bytes@),
        r matches Some(s) ==> s@ == decode_utf8(bytes@),
{
    std::str::from_utf8(bytes).ok()
}

/// `char::from_u32`: the character with scalar value `v`, where `v` is a Unicode scalar value.
#[verifier::external_body]
fn char_from_u32(v: u32) -> (r: Option<char>)
    ensures
        r == char_of(v as int),
{
    char::from_u32(v)
}

} // verus!
