//! Parsing a token stream into a syntax tree.
use vstd::prelude::*;
use vstd::string::StringSliceAdditionalSpecFns;
use crate::snbt::read::{SourcePosition, Span};
use crate::snbt::read::tokenize::{
    self, SpannedToken, Token, Tokenizer, TokenView, TokenEntry, PieceView, StringContentToken,
    pieces_view, spec_tokens,
};
use crate::snbt::read::tokenize::number::{Int, Float, Number, IntView, FloatView, NumberView};

verus! {

/// A parse error; the nested errors say which enclosing list, compound or operation it
/// was found in.
#[derive(Debug, PartialEq)]
pub enum Error<'src> {
    TokenizeError(tokenize::Error),
    UnexpectedToken(SpannedToken<'src>),
    List(SourcePosition, Box<Error<'src>>),
    MissingListComma(SourcePosition, SpannedToken<'src>),
    UnexpectedNonInteger(SourcePosition, Variant<'src>),
    Compound(SourcePosition, Box<Error<'src>>),
    MissingCompoundComma(SourcePosition, SpannedToken<'src>),
    NonStringKey(SourcePosition, Variant<'src>),
    MissingColon(SourcePosition, SpannedToken<'src>),
    MissingOpenParen(Span, SpannedToken<'src>),
    Operation(Span, Box<Error<'src>>),
    MissingOperationComma(Span, SpannedToken<'src>),
}

/// A node of the syntax tree.
#[derive(Debug, PartialEq)]
pub enum Variant<'src> {
    Int(SpannedInt<'src>),
    Float(SpannedFloat<'src>),
    String(SpannedString<'src>),
    Compound(Compound<'src>),
    List(List<'src>),
    IntList(IntList<'src>),
    Operation(Box<Operation<'src>>),
    Bool(Span, bool),
}

#[derive(Debug, PartialEq)]
pub struct Compound<'src> {
    pub span: Span,
    pub fields: Vec<Field<'src>>,
}

#[derive(Debug, PartialEq)]
pub struct List<'src> {
    pub span: Span,
    pub list: Vec<Variant<'src>>,
}

#[derive(Debug, PartialEq)]
pub struct IntList<'src> {
    pub span: Span,
    pub header: ListHeader,
    pub list: Vec<SpannedInt<'src>>,
}

#[derive(Debug, PartialEq)]
pub struct Field<'src> {
    pub key: SpannedString<'src>,
    pub value: Variant<'src>,
}

#[derive(Debug, Clone, Copy, PartialEq)]
pub struct SpannedInt<'src> {
    pub span: Span,
    pub integer: Int<'src>,
}

#[derive(Debug, Clone, Copy, PartialEq)]
pub struct SpannedFloat<'src> {
    pub span: Span,
    pub float: Float<'src>,
}

#[derive(Debug, Clone, PartialEq)]
pub struct SpannedString<'src> {
    pub span: Span,
    pub content: Vec<StringContentToken<'src>>,
}

/// A call such as `bool(1)`: `span` covers it all, `kind_span` its name.
#[derive(Debug, PartialEq)]
pub struct Operation<'src> {
    pub span: Span,
    pub kind_span: Span,
    pub kind: OperationKind,
    pub arguments: Vec<Variant<'src>>,
}

#[derive(Debug, Clone, Copy, PartialEq, Eq, Structural)]
pub enum OperationKind {
    Uuid,
    Bool,
}

#[derive(Debug, Clone, Copy, PartialEq, Eq, Structural)]
pub struct ListHeader {
    pub span: Span,
    pub kind: ListHeaderKind,
}

#[derive(Debug, Clone, Copy, PartialEq, Eq, Structural)]
pub enum ListHeaderKind {
    Int8,
    Int32,
    Int64,
}

/// A node of the syntax tree as a mathematical value.
pub enum VariantView {
    Int(Span, IntView),
    Float(Span, FloatView),
    String(Span, Seq<PieceView>),
    /// The fields: the key's span and content, then the value.
    Compound(Span, Seq<(Span, Seq<PieceView>, VariantView)>),
    List(Span, Seq<VariantView>),
    IntList(Span, ListHeader, Seq<(Span, IntView)>),
    /// The whole span, the name's span, the kind, the arguments.
    Operation(Span, Span, OperationKind, Seq<VariantView>),
    Bool(Span, bool),
}

pub enum ErrorView {
    TokenizeError(tokenize::Error),
    UnexpectedToken((TokenView, Span)),
    List(SourcePosition, Box<ErrorView>),
    MissingListComma(SourcePosition, (TokenView, Span)),
    UnexpectedNonInteger(SourcePosition, VariantView),
    Compound(SourcePosition, Box<ErrorView>),
    MissingCompoundComma(SourcePosition, (TokenView, Span)),
    NonStringKey(SourcePosition, VariantView),
    MissingColon(SourcePosition, (TokenView, Span)),
    MissingOpenParen(Span, (TokenView, Span)),
    Operation(Span, Box<ErrorView>),
    MissingOperationComma(Span, (TokenView, Span)),
}

pub open spec fn variant_view(v: Variant) -> VariantView
    decreases v,
{
    match v {
        Variant::Int(i) => VariantView::Int(i.span, i.integer@),
        Variant::Float(f) => VariantView::Float(f.span, f.float@),
        Variant::String(s) => VariantView::String(s.span, pieces_view(s.content@)),
        Variant::Compound(c) => VariantView::Compound(
            c.span,
            Seq::new(
                c.fields@.len(),
                |i: int|
                    if 0 <= i < c.fields@.len() {
                        (
                            c.fields@[i].key.span,
                            pieces_view(c.fields@[i].key.content@),
                            variant_view(c.fields@[i].value),
                        )
                    } else {
                        (c.span, Seq::empty(), VariantView::Bool(c.span, false))
                    },
            ),
        ),
        Variant::List(l) => VariantView::List(
            l.span,
            Seq::new(
                l.list@.len(),
                |i: int|
                    if 0 <= i < l.list@.len() {
                        variant_view(l.list@[i])
                    } else {
                        VariantView::Bool(l.span, false)
                    },
            ),
        ),
        Variant::IntList(l) => VariantView::IntList(l.span, l.header, ints_view(l.list@)),
        Variant::Operation(op) => VariantView::Operation(
            op.span,
            op.kind_span,
            op.kind,
            Seq::new(
                op.arguments@.len(),
                |i: int|
                    if 0 <= i < op.arguments@.len() {
                        variant_view(op.arguments@[i])
                    } else {
                        VariantView::Bool(op.span, false)
                    },
            ),
        ),
        Variant::Bool(sp, b) => VariantView::Bool(sp, b),
    }
}

pub open spec fn ints_view(s: Seq<SpannedInt>) -> Seq<(Span, IntView)> {
    s.map_values(|x: SpannedInt| (x.span, x.integer@))
}

pub open spec fn variants_view(s: Seq<Variant>) -> Seq<VariantView> {
    s.map_values(|x: Variant| variant_view(x))
}

pub open spec fn fields_view(s: Seq<Field>) -> Seq<(Span, Seq<PieceView>, VariantView)> {
    s.map_values(|f: Field| (f.key.span, pieces_view(f.key.content@), variant_view(f.value)))
}

pub open spec fn error_view(e: Error) -> ErrorView
    decreases e,
{
    match e {
        Error::TokenizeError(t) => ErrorView::TokenizeError(t),
        Error::UnexpectedToken(t) => ErrorView::UnexpectedToken(t@),
        Error::List(p, b) => ErrorView::List(p, Box::new(error_view(*b))),
        Error::MissingListComma(p, t) => ErrorView::MissingListComma(p, t@),
        Error::UnexpectedNonInteger(p, v) => ErrorView::UnexpectedNonInteger(p, variant_view(v)),
        Error::Compound(p, b) => ErrorView::Compound(p, Box::new(error_view(*b))),
        Error::MissingCompoundComma(p, t) => ErrorView::MissingCompoundComma(p, t@),
        Error::NonStringKey(p, v) => ErrorView::NonStringKey(p, variant_view(v)),
        Error::MissingColon(p, t) => ErrorView::MissingColon(p, t@),
        Error::MissingOpenParen(sp, t) => ErrorView::MissingOpenParen(sp, t@),
        Error::Operation(sp, b) => ErrorView::Operation(sp, Box::new(error_view(*b))),
        Error::MissingOperationComma(sp, t) => ErrorView::MissingOperationComma(sp, t@),
    }
}

impl<'src> View for Variant<'src> {
    type V = VariantView;

    open spec fn view(&self) -> VariantView {
        variant_view(*self)
    }
}

impl<'src> View for Error<'src> {
    type V = ErrorView;

    open spec fn view(&self) -> ErrorView {
        error_view(*self)
    }
}

/// What a parse step gives: the tree and the tokens left, or an error.
pub type ParseResult = Result<(VariantView, Seq<TokenEntry>), ErrorView>;

pub open spec fn parsed(r: Result<Variant, Error>, rest: Seq<TokenEntry>) -> ParseResult {
    match r {
        Ok(v) => Ok((v@, rest)),
        Err(e) => Err(e@),
    }
}

/// The next entry of the stream, and the stream after it is taken.  The end of the source
/// stays in the stream: taking it again gives it again.
pub open spec fn next_token(ts: Seq<TokenEntry>) -> (TokenEntry, Seq<TokenEntry>) {
    if ts.len() == 0 {
        (Err(tokenize::Error::InvalidToken(SourcePosition(0))), ts)
    } else {
        (
            ts[0],
            match ts[0] {
                Ok((t, _)) => if t is Eof {
                    ts
                } else {
                    ts.drop_first()
                },
                Err(_) => ts,
            },
        )
    }
}

pub open spec fn rank(t: TokenView) -> int {
    if t is Eof {
        0
    } else {
        1
    }
}

/// The error for a step that the tokens cannot reach.
pub open spec fn unreachable_error() -> ErrorView {
    ErrorView::TokenizeError(tokenize::Error::InvalidToken(SourcePosition(0)))
}

pub open spec fn header_kind(t: TokenView) -> Option<ListHeaderKind> {
    match t {
        TokenView::Int8ArrayHeader => Some(ListHeaderKind::Int8),
        TokenView::Int32ArrayHeader => Some(ListHeaderKind::Int32),
        TokenView::Int64ArrayHeader => Some(ListHeaderKind::Int64),
        _ => None,
    }
}

/// After an element: the next token, or the one after it where the next is a comma; and
/// whether that comma was there.
pub open spec fn spec_continue(ts: Seq<TokenEntry>) -> Result<(TokenView, Span, Seq<TokenEntry>, bool), tokenize::Error> {
    match next_token(ts) {
        (Err(e), _) => Err(e),
        (Ok((t2, sp2)), ts2) => if t2 is Comma {
            match next_token(ts2) {
                (Err(e), _) => Err(e),
                (Ok((t3, sp3)), ts3) => Ok((t3, sp3, ts3, true)),
            }
        } else {
            Ok((t2, sp2, ts2, false))
        },
    }
}

/// The stream `ts2`, whose next token is `t2`, is further on than `ts`.
pub open spec fn advanced(ts2: Seq<TokenEntry>, t2: TokenView, ts: Seq<TokenEntry>) -> bool {
    ts2.len() < ts.len() || (ts2.len() <= ts.len() && t2 is Eof)
}

/// Takes a token and parses the value that it starts.
pub open spec fn spec_parse_next(ts: Seq<TokenEntry>) -> ParseResult
    decreases ts.len(), 1int, 3int,
{
    match next_token(ts) {
        (Err(e), _) => Err(ErrorView::TokenizeError(e)),
        (Ok((t, sp)), ts1) => spec_token_variant(ts1, t, sp),
    }
}

/// Parses the value that the token `t` (already taken) starts.
pub open spec fn spec_token_variant(ts: Seq<TokenEntry>, t: TokenView, sp: Span) -> ParseResult
    decreases ts.len(), rank(t), 0int,
{
    match t {
        TokenView::String(c) => Ok((VariantView::String(sp, c), ts)),
        TokenView::Number(NumberView::Int(i)) => Ok((VariantView::Int(sp, i), ts)),
        TokenView::Number(NumberView::Float(f)) => Ok((VariantView::Float(sp, f), ts)),
        TokenView::True => Ok((VariantView::Bool(sp, true), ts)),
        TokenView::False => Ok((VariantView::Bool(sp, false), ts)),
        TokenView::Bool => spec_operation(ts, sp, OperationKind::Bool),
        TokenView::Uuid => spec_operation(ts, sp, OperationKind::Uuid),
        TokenView::OpenBrace => spec_compound(ts, sp.start),
        TokenView::OpenBracket => spec_list(ts, sp.start),
        _ => Err(ErrorView::UnexpectedToken((t, sp))),
    }
}

/// The arguments of an operation, after its name.
pub open spec fn spec_operation(ts: Seq<TokenEntry>, kind_span: Span, kind: OperationKind) -> ParseResult
    decreases ts.len(), 0int, 2int,
{
    match next_token(ts) {
        (Err(e), _) => Err(ErrorView::Operation(kind_span, Box::new(ErrorView::TokenizeError(e)))),
        (Ok((t1, sp1)), ts1) => if !(t1 is OpenParen) {
            Err(ErrorView::MissingOpenParen(kind_span, (t1, sp1)))
        } else {
            match next_token(ts1) {
                (Err(e), _) => Err(ErrorView::Operation(kind_span, Box::new(ErrorView::TokenizeError(e)))),
                (Ok((t2, sp2)), ts2) => spec_operation_items(ts2, t2, sp2, kind_span, kind, seq![], true),
            }
        },
    }
}

/// The rest of an operation's arguments from the token `t`; `acc` holds those before it.
pub open spec fn spec_operation_items(
    ts: Seq<TokenEntry>,
    t: TokenView,
    sp: Span,
    kind_span: Span,
    kind: OperationKind,
    acc: Seq<VariantView>,
    expecting: bool,
) -> ParseResult
    decreases ts.len(), rank(t), 1int,
{
    if t is CloseParen {
        Ok((VariantView::Operation(Span { start: kind_span.start, end: sp.end }, kind_span, kind, acc), ts))
    } else if !expecting {
        Err(ErrorView::MissingOperationComma(kind_span, (t, sp)))
    } else {
        match spec_token_variant(ts, t, sp) {
            Err(e) => Err(ErrorView::Operation(kind_span, Box::new(e))),
            Ok((v, ts1)) => if t is Eof || ts1.len() > ts.len() {
                Err(unreachable_error())
            } else {
                match spec_continue(ts1) {
                    Err(e) => Err(ErrorView::Operation(kind_span, Box::new(ErrorView::TokenizeError(e)))),
                    Ok((t2, sp2, ts2, expecting2)) => if advanced(ts2, t2, ts) {
                        spec_operation_items(ts2, t2, sp2, kind_span, kind, acc.push(v), expecting2)
                    } else {
                        Err(unreachable_error())
                    },
                }
            },
        }
    }
}

/// A list, after its opening bracket at `start`.
pub open spec fn spec_list(ts: Seq<TokenEntry>, start: SourcePosition) -> ParseResult
    decreases ts.len(), 0int, 2int,
{
    match next_token(ts) {
        (Err(e), _) => Err(ErrorView::List(start, Box::new(ErrorView::TokenizeError(e)))),
        (Ok((t, sp)), ts1) => match header_kind(t) {
            Some(kind) => spec_int_list(ts1, start, ListHeader { span: sp, kind }),
            None => spec_list_items(ts1, t, sp, start, seq![], true),
        },
    }
}

/// The rest of a list from the token `t`; `acc` holds the elements before it.
pub open spec fn spec_list_items(
    ts: Seq<TokenEntry>,
    t: TokenView,
    sp: Span,
    start: SourcePosition,
    acc: Seq<VariantView>,
    expecting: bool,
) -> ParseResult
    decreases ts.len(), rank(t), 1int,
{
    if t is CloseBracket {
        Ok((VariantView::List(Span { start, end: sp.end }, acc), ts))
    } else if !expecting {
        Err(ErrorView::MissingListComma(start, (t, sp)))
    } else {
        match spec_token_variant(ts, t, sp) {
            Err(e) => Err(ErrorView::List(start, Box::new(e))),
            Ok((v, ts1)) => if t is Eof || ts1.len() > ts.len() {
                Err(unreachable_error())
            } else {
                match spec_continue(ts1) {
                    Err(e) => Err(ErrorView::List(start, Box::new(ErrorView::TokenizeError(e)))),
                    Ok((t2, sp2, ts2, expecting2)) => if advanced(ts2, t2, ts) {
                        spec_list_items(ts2, t2, sp2, start, acc.push(v), expecting2)
                    } else {
                        Err(unreachable_error())
                    },
                }
            },
        }
    }
}

/// An integer list, after its header.
pub open spec fn spec_int_list(ts: Seq<TokenEntry>, start: SourcePosition, header: ListHeader) -> ParseResult
    decreases ts.len(), 0int, 2int,
{
    match next_token(ts) {
        (Err(e), _) => Err(ErrorView::List(start, Box::new(ErrorView::TokenizeError(e)))),
        (Ok((t, sp)), ts1) => spec_int_items(ts1, t, sp, start, header, seq![], true),
    }
}

/// The rest of an integer list from the token `t`; `acc` holds the integers before it.
pub open spec fn spec_int_items(
    ts: Seq<TokenEntry>,
    t: TokenView,
    sp: Span,
    start: SourcePosition,
    header: ListHeader,
    acc: Seq<(Span, IntView)>,
    expecting: bool,
) -> ParseResult
    decreases ts.len(), rank(t), 1int,
{
    if t is CloseBracket {
        Ok((VariantView::IntList(Span { start, end: sp.end }, header, acc), ts))
    } else if !expecting {
        Err(ErrorView::MissingListComma(start, (t, sp)))
    } else {
        match spec_token_variant(ts, t, sp) {
            Err(e) => Err(ErrorView::List(start, Box::new(e))),
            Ok((v, ts1)) => match v {
                VariantView::Int(isp, i) => if t is Eof || ts1.len() > ts.len() {
                    Err(unreachable_error())
                } else {
                    match spec_continue(ts1) {
                        Err(e) => Err(ErrorView::List(start, Box::new(ErrorView::TokenizeError(e)))),
                        Ok((t2, sp2, ts2, expecting2)) => if advanced(ts2, t2, ts) {
                            spec_int_items(ts2, t2, sp2, start, header, acc.push((isp, i)), expecting2)
                        } else {
                            Err(unreachable_error())
                        },
                    }
                },
                other => Err(ErrorView::UnexpectedNonInteger(start, other)),
            },
        }
    }
}

/// A compound, after its opening brace at `start`.
pub open spec fn spec_compound(ts: Seq<TokenEntry>, start: SourcePosition) -> ParseResult
    decreases ts.len(), 0int, 2int,
{
    match next_token(ts) {
        (Err(e), _) => Err(ErrorView::Compound(start, Box::new(ErrorView::TokenizeError(e)))),
        (Ok((t, sp)), ts1) => spec_compound_items(ts1, t, sp, start, seq![], true),
    }
}

/// The rest of a compound from the token `t`; `acc` holds the fields before it.
pub open spec fn spec_compound_items(
    ts: Seq<TokenEntry>,
    t: TokenView,
    sp: Span,
    start: SourcePosition,
    acc: Seq<(Span, Seq<PieceView>, VariantView)>,
    expecting: bool,
) -> ParseResult
    decreases ts.len(), rank(t), 1int,
{
    if t is CloseBrace {
        Ok((VariantView::Compound(Span { start, end: sp.end }, acc), ts))
    } else if !expecting {
        Err(ErrorView::MissingCompoundComma(start, (t, sp)))
    } else {
        match spec_token_variant(ts, t, sp) {
            Err(e) => Err(e),
            Ok((k, ts1)) => match k {
                VariantView::String(ksp, kc) => if t is Eof || ts1.len() > ts.len() {
                    Err(unreachable_error())
                } else {
                    match next_token(ts1) {
                        (Err(e), _) => Err(ErrorView::TokenizeError(e)),
                        (Ok((tc, spc)), ts2) => if !(tc is Colon) {
                            Err(ErrorView::MissingColon(start, (tc, spc)))
                        } else {
                            match spec_parse_next(ts2) {
                                Err(e) => Err(ErrorView::Compound(start, Box::new(e))),
                                Ok((v, ts3)) => if ts3.len() > ts2.len() {
                                    Err(unreachable_error())
                                } else {
                                    match spec_continue(ts3) {
                                        Err(e) => Err(
                                            ErrorView::Compound(start, Box::new(ErrorView::TokenizeError(e))),
                                        ),
                                        Ok((t4, sp4, ts4, expecting4)) => if advanced(ts4, t4, ts) {
                                            spec_compound_items(ts4, t4, sp4, start, acc.push((ksp, kc, v)), expecting4)
                                        } else {
                                            Err(unreachable_error())
                                        },
                                    }
                                },
                            }
                        },
                    }
                },
                other => Err(ErrorView::NonStringKey(start, other)),
            },
        }
    }
}

/// A whole source: one value, then the end of the source.
pub open spec fn spec_parse_and_finish(ts: Seq<TokenEntry>) -> Result<VariantView, ErrorView> {
    match spec_parse_next(ts) {
        Err(e) => Err(e),
        Ok((v, ts1)) => match next_token(ts1).0 {
            Err(e) => Err(ErrorView::TokenizeError(e)),
            Ok((t, sp)) => if t is Eof {
                Ok(v)
            } else {
                Err(ErrorView::UnexpectedToken((t, sp)))
            },
        },
    }
}

pub open spec fn entry(r: Result<SpannedToken, tokenize::Error>) -> TokenEntry {
    match r {
        Ok(st) => Ok(st@),
        Err(e) => Err(e),
    }
}

pub proof fn lemma_list_view(l: List)
    ensures
        variant_view(Variant::List(l)) == VariantView::List(l.span, variants_view(l.list@)),
{
    let xs = match variant_view(Variant::List(l)) {
        VariantView::List(_, xs) => xs,
        _ => Seq::empty(),
    };
    assert(variants_view(l.list@) =~= xs);
}

pub proof fn lemma_compound_view(c: Compound)
    ensures
        variant_view(Variant::Compound(c)) == VariantView::Compound(c.span, fields_view(c.fields@)),
{
    let xs = match variant_view(Variant::Compound(c)) {
        VariantView::Compound(_, xs) => xs,
        _ => Seq::empty(),
    };
    assert(fields_view(c.fields@) =~= xs);
}

pub proof fn lemma_operation_view(op: Operation)
    ensures
        variant_view(Variant::Operation(Box::new(op))) == VariantView::Operation(
            op.span,
            op.kind_span,
            op.kind,
            variants_view(op.arguments@),
        ),
{
    let xs = match variant_view(Variant::Operation(Box::new(op))) {
        VariantView::Operation(_, _, _, xs) => xs,
        _ => Seq::empty(),
    };
    assert(variants_view(op.arguments@) =~= xs);
}

fn is_eof_token(token: &SpannedToken) -> (b: bool)
    ensures
        b == (token.token@ is Eof),
{
    matches!(token.token, Token::Eof)
}

fn is_colon_token(token: &SpannedToken) -> (b: bool)
    ensures
        b == (token.token@ is Colon),
{
    matches!(token.token, Token::Colon)
}

/// Parses SNBT source text, taking tokens from a tokenizer as it goes.
pub struct Parser<'src> {
    tokenizer: Tokenizer<'src>,
}

impl<'src> Parser<'src> {
    /// The tokens that are left to take.
    pub closed spec fn stream(&self) -> Seq<TokenEntry> {
        self.tokenizer.stream()
    }

    pub closed spec fn wf(&self) -> bool {
        self.tokenizer.wf()
    }

    pub fn new(source: &'src str) -> (r: Self)
        ensures
            r.wf(),
            r.stream() == spec_tokens(source.spec_bytes(), 0),
    {
        Self { tokenizer: Tokenizer::new(source) }
    }

    fn next(&mut self) -> (r: Result<SpannedToken<'src>, tokenize::Error>)
        requires
            old(self).wf(),
        ensures
            final(self).wf(),
            entry(r) == next_token(old(self).stream()).0,
            r is Ok ==> final(self).stream() == next_token(old(self).stream()).1,
    {
        self.tokenizer.take_spanned_token()
    }

    /// Parses one value and then expects the end of the source.
    pub fn parse_variant_and_finish(self) -> (r: Result<Variant<'src>, Error<'src>>)
        requires
            self.wf(),
        ensures
            match r {
                Ok(v) => spec_parse_and_finish(self.stream()) == Ok::<VariantView, ErrorView>(v@),
                Err(e) => spec_parse_and_finish(self.stream()) == Err::<VariantView, ErrorView>(e@),
            },
    {
        let mut parser = self;
        parser.finish()
    }

    fn finish(&mut self) -> (r: Result<Variant<'src>, Error<'src>>)
        requires
            old(self).wf(),
        ensures
            match r {
                Ok(v) => spec_parse_and_finish(old(self).stream()) == Ok::<VariantView, ErrorView>(v@),
                Err(e) => spec_parse_and_finish(old(self).stream()) == Err::<VariantView, ErrorView>(e@),
            },
    {
        let variant = match self.parse_variant(None) {
            Ok(v) => v,
            Err(e) => {
                return Err(e);
            },
        };
        match self.expect_token(is_eof_token) {
            Ok(_) => Ok(variant),
            Err(e) => Err(e),
        }
    }

    /// Parses the value that `first_token` starts, or, where it is `None`, the value that
    /// the next token starts.
    pub fn parse_variant(&mut self, first_token: Option<SpannedToken<'src>>) -> (r: Result<Variant<'src>, Error<'src>>)
        requires
            old(self).wf(),
        ensures
            final(self).wf(),
            parsed(r, final(self).stream()) == (match first_token {
                Some(t) => spec_token_variant(old(self).stream(), t.token@, t.span),
                None => spec_parse_next(old(self).stream()),
            }),
            r is Ok ==> final(self).stream().len() <= old(self).stream().len(),
        decreases old(self).stream().len(), 1int, 3int,
    {
        let token = match first_token {
            Some(t) => t,
            None => match self.next() {
                Ok(t) => t,
                Err(e) => {
                    return Err(Error::TokenizeError(e));
                },
            },
        };
        self.parse_token_variant(token)
    }

    fn parse_token_variant(&mut self, token: SpannedToken<'src>) -> (r: Result<Variant<'src>, Error<'src>>)
        requires
            old(self).wf(),
        ensures
            final(self).wf(),
            parsed(r, final(self).stream()) == spec_token_variant(old(self).stream(), token.token@, token.span),
            r is Ok ==> final(self).stream().len() <= old(self).stream().len(),
        decreases old(self).stream().len(), rank(token.token@), 0int,
    {
        let span = token.span;
        match token.token {
            Token::String(content) => Ok(Variant::String(SpannedString { span, content })),
            Token::Number(Number::Int(integer)) => Ok(Variant::Int(SpannedInt { span, integer })),
            Token::Number(Number::Float(float)) => Ok(Variant::Float(SpannedFloat { span, float })),
            Token::True => Ok(Variant::Bool(span, true)),
            Token::False => Ok(Variant::Bool(span, false)),
            Token::Bool => match self.parse_operation(span, OperationKind::Bool) {
                Ok(op) => Ok(Variant::Operation(Box::new(op))),
                Err(e) => Err(e),
            },
            Token::Uuid => match self.parse_operation(span, OperationKind::Uuid) {
                Ok(op) => Ok(Variant::Operation(Box::new(op))),
                Err(e) => Err(e),
            },
            Token::OpenBrace => match self.parse_compound(span.start) {
                Ok(c) => Ok(Variant::Compound(c)),
                Err(e) => Err(e),
            },
            Token::OpenBracket => self.parse_list(span.start),
            _ => Err(Error::UnexpectedToken(token)),
        }
    }

    fn parse_list(&mut self, start: SourcePosition) -> (r: Result<Variant<'src>, Error<'src>>)
        requires
            old(self).wf(),
        ensures
            final(self).wf(),
            parsed(r, final(self).stream()) == spec_list(old(self).stream(), start),
            r is Ok ==> final(self).stream().len() <= old(self).stream().len(),
        decreases old(self).stream().len(), 0int, 2int,
    {
        let ghost ts0 = self.stream();
        let token = match self.take_list_token(start) {
            Ok(t) => t,
            Err(e) => {
                return Err(e);
            },
        };
        let kind = match token.token {
            Token::Int8ArrayHeader => Some(ListHeaderKind::Int8),
            Token::Int32ArrayHeader => Some(ListHeaderKind::Int32),
            Token::Int64ArrayHeader => Some(ListHeaderKind::Int64),
            _ => None,
        };
        if let Some(kind) = kind {
            return match self.parse_int_list(start, ListHeader { kind, span: token.span }) {
                Ok(l) => Ok(Variant::IntList(l)),
                Err(e) => Err(e),
            };
        }
        let mut token = token;
        let mut list: Vec<Variant<'src>> = Vec::new();
        let mut expecting_item = true;
        proof {
            assert(variants_view(list@) =~= seq![]);
        }
        loop
            invariant
                self.wf(),
                ts0 == old(self).stream(),
                spec_list(ts0, start) == spec_list_items(self.stream(), token.token@, token.span, start, variants_view(list@), expecting_item),
                self.stream().len() <= ts0.len(),
                self.stream().len() < ts0.len() || token.token@ is Eof,
            decreases self.stream().len(), rank(token.token@),
        {
            if matches!(token.token, Token::CloseBracket) {
                let l = List { span: Span { start, end: token.span.end }, list };
                proof {
                    lemma_list_view(l);
                }
                return Ok(Variant::List(l));
            }
            if !expecting_item {
                return Err(Error::MissingListComma(start, token));
            }
            let next = match self.list_step(start, token, &mut list) {
                Ok(next) => next,
                Err(e) => {
                    return Err(e);
                },
            };
            token = next.0;
            expecting_item = next.1;
        }
    }

    /// Parses the element that `token` starts, then takes the token after it, and the one after
    /// that where the first is a comma.
    fn list_step(&mut self, start: SourcePosition, token: SpannedToken<'src>, list: &mut Vec<Variant<'src>>) -> (r: Result<
        (SpannedToken<'src>, bool),
        Error<'src>,
    >)
        requires
            old(self).wf(),
            !(token.token@ is CloseBracket),
        ensures
            final(self).wf(),
            match r {
                Ok((t, expecting)) => spec_list_items(old(self).stream(), token.token@, token.span, start, variants_view(old(list)@), true)
                    == spec_list_items(final(self).stream(), t.token@, t.span, start, variants_view(final(list)@), expecting)
                    && !(token.token@ is Eof) && advanced(final(self).stream(), t.token@, old(self).stream()),
                Err(e) => spec_list_items(old(self).stream(), token.token@, token.span, start, variants_view(old(list)@), true)
                    == Err::<(VariantView, Seq<TokenEntry>), ErrorView>(e@),
            },
        decreases old(self).stream().len(), rank(token.token@), 1int,
    {
        proof {
            reveal_with_fuel(error_view, 2);
        }
        let item = match self.parse_token_variant(token) {
            Ok(v) => v,
            Err(e) => {
                return Err(Error::List(start, Box::new(e)));
            },
        };
        let ghost before = list@;
        list.push(item);
        proof {
            assert(variants_view(list@) =~= variants_view(before).push(item@));
        }
        match self.take_continue() {
            Ok(next) => Ok(next),
            Err(e) => Err(Error::List(start, Box::new(Error::TokenizeError(e)))),
        }
    }

    fn parse_int_list(&mut self, start: SourcePosition, header: ListHeader) -> (r: Result<IntList<'src>, Error<'src>>)
        requires
            old(self).wf(),
        ensures
            final(self).wf(),
            parsed(
                match r {
                    Ok(l) => Ok(Variant::IntList(l)),
                    Err(e) => Err(e),
                },
                final(self).stream(),
            ) == spec_int_list(old(self).stream(), start, header),
            r is Ok ==> final(self).stream().len() <= old(self).stream().len(),
        decreases old(self).stream().len(), 0int, 2int,
    {
        let ghost ts0 = self.stream();
        let mut token = match self.take_list_token(start) {
            Ok(t) => t,
            Err(e) => {
                return Err(e);
            },
        };
        let mut list: Vec<SpannedInt<'src>> = Vec::new();
        let mut expecting_item = true;
        proof {
            assert(ints_view(list@) =~= seq![]);
        }
        loop
            invariant
                self.wf(),
                ts0 == old(self).stream(),
                spec_int_list(ts0, start, header) == spec_int_items(self.stream(), token.token@, token.span, start, header, ints_view(list@), expecting_item),
                self.stream().len() <= ts0.len(),
                self.stream().len() < ts0.len() || token.token@ is Eof,
            decreases self.stream().len(), rank(token.token@),
        {
            if matches!(token.token, Token::CloseBracket) {
                return Ok(IntList { span: Span { start, end: token.span.end }, header, list });
            }
            if !expecting_item {
                return Err(Error::MissingListComma(start, token));
            }
            let next = match self.int_list_step(start, header, token, &mut list) {
                Ok(next) => next,
                Err(e) => {
                    return Err(e);
                },
            };
            token = next.0;
            expecting_item = next.1;
        }
    }

    /// Parses the integer that `token` starts, then takes the token after it, and the one after
    /// that where the first is a comma.
    fn int_list_step(
        &mut self,
        start: SourcePosition,
        header: ListHeader,
        token: SpannedToken<'src>,
        list: &mut Vec<SpannedInt<'src>>,
    ) -> (r: Result<(SpannedToken<'src>, bool), Error<'src>>)
        requires
            old(self).wf(),
            !(token.token@ is CloseBracket),
        ensures
            final(self).wf(),
            match r {
                Ok((t, expecting)) => spec_int_items(old(self).stream(), token.token@, token.span, start, header, ints_view(old(list)@), true)
                    == spec_int_items(final(self).stream(), t.token@, t.span, start, header, ints_view(final(list)@), expecting)
                    && !(token.token@ is Eof) && advanced(final(self).stream(), t.token@, old(self).stream()),
                Err(e) => spec_int_items(old(self).stream(), token.token@, token.span, start, header, ints_view(old(list)@), true)
                    == Err::<(VariantView, Seq<TokenEntry>), ErrorView>(e@),
            },
        decreases old(self).stream().len(), rank(token.token@), 1int,
    {
        proof {
            reveal_with_fuel(error_view, 2);
        }
        let variant = match self.parse_token_variant(token) {
            Ok(v) => v,
            Err(e) => {
                return Err(Error::List(start, Box::new(e)));
            },
        };
        match variant {
            Variant::Int(integer) => {
                let ghost before = list@;
                list.push(integer);
                proof {
                    assert(ints_view(list@) =~= ints_view(before).push((integer.span, integer.integer@)));
                }
            },
            variant => {
                return Err(Error::UnexpectedNonInteger(start, variant));
            },
        }
        match self.take_continue() {
            Ok(next) => Ok(next),
            Err(e) => Err(Error::List(start, Box::new(Error::TokenizeError(e)))),
        }
    }

    /// Takes the token after an element, and the one after that where the first is a comma.
    fn take_continue(&mut self) -> (r: Result<(SpannedToken<'src>, bool), tokenize::Error>)
        requires
            old(self).wf(),
        ensures
            final(self).wf(),
            match spec_continue(old(self).stream()) {
                Err(e) => r == Err::<(SpannedToken<'src>, bool), tokenize::Error>(e),
                Ok((t, sp, ts, expecting)) => r matches Ok((st, b)) && st@ == (t, sp) && b == expecting
                    && final(self).stream() == ts,
            },
            r matches Ok((st, _)) ==> advanced(final(self).stream(), st.token@, old(self).stream()),
    {
        let token = match self.next() {
            Ok(t) => t,
            Err(e) => {
                return Err(e);
            },
        };
        if matches!(token.token, Token::Comma) {
            match self.next() {
                Ok(t) => Ok((t, true)),
                Err(e) => Err(e),
            }
        } else {
            Ok((token, false))
        }
    }

    fn take_list_token(&mut self, start: SourcePosition) -> (r: Result<SpannedToken<'src>, Error<'src>>)
        requires
            old(self).wf(),
        ensures
            final(self).wf(),
            match next_token(old(self).stream()).0 {
                Ok(x) => r matches Ok(st) && st@ == x && final(self).stream() == next_token(old(self).stream()).1,
                Err(e) => r matches Err(err) && err@ == ErrorView::List(start, Box::new(ErrorView::TokenizeError(e))),
            },
    {
        proof {
            reveal_with_fuel(error_view, 2);
        }
        match self.next() {
            Ok(t) => Ok(t),
            Err(e) => Err(Error::List(start, Box::new(Error::TokenizeError(e)))),
        }
    }

    fn parse_compound(&mut self, start: SourcePosition) -> (r: Result<Compound<'src>, Error<'src>>)
        requires
            old(self).wf(),
        ensures
            final(self).wf(),
            parsed(
                match r {
                    Ok(c) => Ok(Variant::Compound(c)),
                    Err(e) => Err(e),
                },
                final(self).stream(),
            ) == spec_compound(old(self).stream(), start),
            r is Ok ==> final(self).stream().len() <= old(self).stream().len(),
        decreases old(self).stream().len(), 0int, 2int,
    {
        let ghost ts0 = self.stream();
        let mut token = match self.take_compound_token(start) {
            Ok(t) => t,
            Err(e) => {
                return Err(e);
            },
        };
        let mut fields: Vec<Field<'src>> = Vec::new();
        let mut expecting_item = true;
        proof {
            assert(fields_view(fields@) =~= seq![]);
        }
        loop
            invariant
                self.wf(),
                ts0 == old(self).stream(),
                spec_compound(ts0, start) == spec_compound_items(self.stream(), token.token@, token.span, start, fields_view(fields@), expecting_item),
                self.stream().len() <= ts0.len(),
                self.stream().len() < ts0.len() || token.token@ is Eof,
            decreases self.stream().len(), rank(token.token@),
        {
            if matches!(token.token, Token::CloseBrace) {
                let c = Compound { span: Span { start, end: token.span.end }, fields };
                proof {
                    lemma_compound_view(c);
                }
                return Ok(c);
            }
            if !expecting_item {
                return Err(Error::MissingCompoundComma(start, token));
            }
            let next = match self.compound_step(start, token, &mut fields) {
                Ok(next) => next,
                Err(e) => {
                    return Err(e);
                },
            };
            token = next.0;
            expecting_item = next.1;
        }
    }

    /// Parses the field whose key `token` starts, then takes the token after it, and the one
    /// after that where the first is a comma.
    fn compound_step(&mut self, start: SourcePosition, token: SpannedToken<'src>, fields: &mut Vec<Field<'src>>) -> (r: Result<
        (SpannedToken<'src>, bool),
        Error<'src>,
    >)
        requires
            old(self).wf(),
            !(token.token@ is CloseBrace),
        ensures
            final(self).wf(),
            match r {
                Ok((t, expecting)) => spec_compound_items(old(self).stream(), token.token@, token.span, start, fields_view(old(fields)@), true)
                    == spec_compound_items(final(self).stream(), t.token@, t.span, start, fields_view(final(fields)@), expecting)
                    && !(token.token@ is Eof) && advanced(final(self).stream(), t.token@, old(self).stream()),
                Err(e) => spec_compound_items(old(self).stream(), token.token@, token.span, start, fields_view(old(fields)@), true)
                    == Err::<(VariantView, Seq<TokenEntry>), ErrorView>(e@),
            },
        decreases old(self).stream().len(), rank(token.token@), 1int,
    {
        proof {
            reveal_with_fuel(error_view, 2);
        }
        let key = match self.parse_token_variant(token) {
            Ok(Variant::String(string)) => string,
            Ok(key) => {
                return Err(Error::NonStringKey(start, key));
            },
            Err(e) => {
                return Err(e);
            },
        };
        match self.expect_token(is_colon_token) {
            Ok(_) => {},
            Err(Error::UnexpectedToken(found)) => {
                return Err(Error::MissingColon(start, found));
            },
            Err(e) => {
                return Err(e);
            },
        }
        let value = match self.parse_variant(None) {
            Ok(v) => v,
            Err(e) => {
                return Err(Error::Compound(start, Box::new(e)));
            },
        };
        let ghost before = fields@;
        let ghost kv = (key.span, pieces_view(key.content@), value@);
        fields.push(Field { key, value });
        proof {
            assert(fields_view(fields@) =~= fields_view(before).push(kv));
        }
        match self.take_continue() {
            Ok(next) => Ok(next),
            Err(e) => Err(Error::Compound(start, Box::new(Error::TokenizeError(e)))),
        }
    }

    fn take_compound_token(&mut self, start: SourcePosition) -> (r: Result<SpannedToken<'src>, Error<'src>>)
        requires
            old(self).wf(),
        ensures
            final(self).wf(),
            match next_token(old(self).stream()).0 {
                Ok(x) => r matches Ok(st) && st@ == x && final(self).stream() == next_token(old(self).stream()).1,
                Err(e) => r matches Err(err) && err@ == ErrorView::Compound(start, Box::new(ErrorView::TokenizeError(e))),
            },
    {
        proof {
            reveal_with_fuel(error_view, 2);
        }
        match self.next() {
            Ok(t) => Ok(t),
            Err(e) => Err(Error::Compound(start, Box::new(Error::TokenizeError(e)))),
        }
    }

    fn parse_operation(&mut self, kind_span: Span, kind: OperationKind) -> (r: Result<Operation<'src>, Error<'src>>)
        requires
            old(self).wf(),
        ensures
            final(self).wf(),
            parsed(
                match r {
                    Ok(op) => Ok(Variant::Operation(Box::new(op))),
                    Err(e) => Err(e),
                },
                final(self).stream(),
            ) == spec_operation(old(self).stream(), kind_span, kind),
            r is Ok ==> final(self).stream().len() <= old(self).stream().len(),
        decreases old(self).stream().len(), 0int, 2int,
    {
        let ghost ts0 = self.stream();
        let token = match self.take_operation_token(kind_span) {
            Ok(t) => t,
            Err(e) => {
                return Err(e);
            },
        };
        if !matches!(token.token, Token::OpenParen) {
            return Err(Error::MissingOpenParen(kind_span, token));
        }
        let mut token = match self.take_operation_token(kind_span) {
            Ok(t) => t,
            Err(e) => {
                return Err(e);
            },
        };
        let mut arguments: Vec<Variant<'src>> = Vec::new();
        let mut expecting_item = true;
        proof {
            assert(variants_view(arguments@) =~= seq![]);
        }
        loop
            invariant
                self.wf(),
                ts0 == old(self).stream(),
                spec_operation(ts0, kind_span, kind) == spec_operation_items(self.stream(), token.token@, token.span, kind_span, kind, variants_view(arguments@), expecting_item),
                self.stream().len() < ts0.len(),
            decreases self.stream().len(), rank(token.token@),
        {
            if matches!(token.token, Token::CloseParen) {
                let op = Operation { span: Span { start: kind_span.start, end: token.span.end }, kind_span, kind, arguments };
                proof {
                    lemma_operation_view(op);
                }
                return Ok(op);
            }
            if !expecting_item {
                return Err(Error::MissingOperationComma(kind_span, token));
            }
            let next = match self.operation_step(kind_span, kind, token, &mut arguments) {
                Ok(next) => next,
                Err(e) => {
                    return Err(e);
                },
            };
            token = next.0;
            expecting_item = next.1;
        }
    }

    /// Parses the argument that `token` starts, then takes the token after it, and the one
    /// after that where the first is a comma.
    fn operation_step(
        &mut self,
        kind_span: Span,
        kind: OperationKind,
        token: SpannedToken<'src>,
        arguments: &mut Vec<Variant<'src>>,
    ) -> (r: Result<(SpannedToken<'src>, bool), Error<'src>>)
        requires
            old(self).wf(),
            !(token.token@ is CloseParen),
        ensures
            final(self).wf(),
            match r {
                Ok((t, expecting)) => spec_operation_items(old(self).stream(), token.token@, token.span, kind_span, kind, variants_view(old(arguments)@), true)
                    == spec_operation_items(final(self).stream(), t.token@, t.span, kind_span, kind, variants_view(final(arguments)@), expecting)
                    && !(token.token@ is Eof) && advanced(final(self).stream(), t.token@, old(self).stream()),
                Err(e) => spec_operation_items(old(self).stream(), token.token@, token.span, kind_span, kind, variants_view(old(arguments)@), true)
                    == Err::<(VariantView, Seq<TokenEntry>), ErrorView>(e@),
            },
        decreases old(self).stream().len(), rank(token.token@), 1int,
    {
        proof {
            reveal_with_fuel(error_view, 2);
        }
        let item = match self.parse_token_variant(token) {
            Ok(v) => v,
            Err(e) => {
                return Err(Error::Operation(kind_span, Box::new(e)));
            },
        };
        let ghost before = arguments@;
        arguments.push(item);
        proof {
            assert(variants_view(arguments@) =~= variants_view(before).push(item@));
        }
        match self.take_continue() {
            Ok(next) => Ok(next),
            Err(e) => Err(Error::Operation(kind_span, Box::new(Error::TokenizeError(e)))),
        }
    }

    fn take_operation_token(&mut self, kind_span: Span) -> (r: Result<SpannedToken<'src>, Error<'src>>)
        requires
            old(self).wf(),
        ensures
            final(self).wf(),
            match next_token(old(self).stream()).0 {
                Ok(x) => r matches Ok(st) && st@ == x && final(self).stream() == next_token(old(self).stream()).1,
                Err(e) => r matches Err(err) && err@ == ErrorView::Operation(kind_span, Box::new(ErrorView::TokenizeError(e))),
            },
    {
        proof {
            reveal_with_fuel(error_view, 2);
        }
        match self.next() {
            Ok(t) => Ok(t),
            Err(e) => Err(Error::Operation(kind_span, Box::new(Error::TokenizeError(e)))),
        }
    }

    /// Takes the next token, and fails unless `predicate` holds of it.
    pub fn expect_token<F: FnOnce(&SpannedToken<'src>) -> bool>(&mut self, predicate: F) -> (r: Result<SpannedToken<'src>, Error<'src>>)
        requires
            old(self).wf(),
            forall|t: &SpannedToken<'src>| #[trigger] predicate.requires((t,)),
        ensures
            final(self).wf(),
            match next_token(old(self).stream()).0 {
                Err(e) => r matches Err(err) && err@ == ErrorView::TokenizeError(e),
                Ok(x) => match r {
                    Ok(st) => st@ == x && predicate.ensures((&st,), true) && final(self).stream() == next_token(old(self).stream()).1,
                    Err(Error::UnexpectedToken(st)) => st@ == x && predicate.ensures((&st,), false),
                    Err(_) => false,
                },
            },
    {
        let token = match self.next() {
            Ok(t) => t,
            Err(e) => {
                return Err(Error::TokenizeError(e));
            },
        };
        if predicate(&token) {
            Ok(token)
        } else {
            Err(Error::UnexpectedToken(token))
        }
    }
}

} // verus!
