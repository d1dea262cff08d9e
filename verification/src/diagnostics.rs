//! Labelled source spans that explain why SNBT text could not be read.
use vstd::prelude::*;
use crate::snbt::read::{SourcePosition, Span};
use crate::snbt::read::parse::{self, ErrorView, error_view};
use crate::snbt::read::tokenize;
use crate::snbt::read::tokenize::number::{IntType, FloatType};
use crate::snbt::read::convert::{self, ConvErrorView, conv_error_view, push_str, variant_span};
use crate::snbt::write::{decimal, push_decimal};

verus! {

/// A message attached to a span of the source text.
#[derive(Debug, Clone, PartialEq)]
pub struct Label {
    pub span: Span,
    pub text: String,
}

pub open spec fn label_view(l: Label) -> (Span, Seq<char>) {
    (l.span, l.text@)
}

pub open spec fn labels_view(ls: Seq<Label>) -> Seq<(Span, Seq<char>)> {
    ls.map_values(|l: Label| label_view(l))
}

/// The empty span at `p`.
pub open spec fn at(p: SourcePosition) -> Span {
    Span { start: p, end: p }
}

/// The label of a tokenizer error.
pub open spec fn token_label(e: tokenize::Error) -> (Span, Seq<char>) {
    match e {
        tokenize::Error::InvalidToken(p) => (at(p), "invalid token"@),
        tokenize::Error::UnclosedEscape(p) => (at(p), "unclosed string escape sequence"@),
        tokenize::Error::UnknownEscape(p) => (at(p), "unknown string escape sequence"@),
        tokenize::Error::EscapeNonDigits(p) => (
            at(p),
            "non-digits present in string escape sequence requiring only digits"@,
        ),
        tokenize::Error::InvalidEscapeChar(p) => (at(p), "escaped character is not a valid character"@),
        tokenize::Error::InvalidNumber(p) => (at(p), "number token was malformed"@),
        tokenize::Error::InvalidUtf8(p) => (at(p), "string contains invalid utf-8"@),
    }
}

/// The labels of a parse error: the enclosing constructs first, outermost first, then the
/// place where parsing failed.
pub open spec fn parse_labels(e: ErrorView) -> Seq<(Span, Seq<char>)>
    decreases e,
{
    match e {
        ErrorView::TokenizeError(t) => seq![token_label(t)],
        ErrorView::UnexpectedToken((_, sp)) => seq![(sp, "unexpected token"@)],
        ErrorView::List(p, inner) => seq![(at(p), "while parsing this list"@)] + parse_labels(*inner),
        ErrorView::MissingListComma(p, (_, sp)) => seq![
            (at(p), "while parsing this list"@),
            (sp, "expected a comma, but found this"@),
        ],
        ErrorView::Compound(p, inner) => seq![(at(p), "while parsing this compound"@)] + parse_labels(*inner),
        ErrorView::MissingCompoundComma(p, (_, sp)) => seq![
            (at(p), "while parsing this compound"@),
            (sp, "expected a comma"@),
        ],
        ErrorView::NonStringKey(p, v) => seq![
            (at(p), "while parsing this compound"@),
            (variant_span(v), "only string keys are allowed"@),
        ],
        ErrorView::MissingColon(p, (_, sp)) => seq![
            (at(p), "while parsing this compound"@),
            (sp, "expected a colon between key and value"@),
        ],
        ErrorView::UnexpectedNonInteger(p, v) => seq![
            (at(p), "while parsing this integer array"@),
            (variant_span(v), "expected an integer"@),
        ],
        ErrorView::MissingOpenParen(osp, (_, sp)) => seq![
            (osp, "while parsing this operation"@),
            (sp, "expected an open parenthesis"@),
        ],
        ErrorView::Operation(osp, inner) => seq![(osp, "while parsing this operation"@)] + parse_labels(*inner),
        ErrorView::MissingOperationComma(osp, (_, sp)) => seq![
            (osp, "while parsing this operation"@),
            (sp, "expected a comma"@),
        ],
    }
}

fn label(span: Span, text: &str) -> (l: Label)
    ensures
        label_view(l) == (span, text@),
{
    Label { span, text: text.to_owned() }
}

fn point(p: SourcePosition) -> (sp: Span)
    ensures
        sp == at(p),
{
    Span { start: p, end: p }
}

fn token_error_label(e: tokenize::Error) -> (l: Label)
    ensures
        label_view(l) == token_label(e),
{
    match e {
        tokenize::Error::InvalidToken(p) => label(point(p), "invalid token"),
        tokenize::Error::UnclosedEscape(p) => label(point(p), "unclosed string escape sequence"),
        tokenize::Error::UnknownEscape(p) => label(point(p), "unknown string escape sequence"),
        tokenize::Error::EscapeNonDigits(p) => label(
            point(p),
            "non-digits present in string escape sequence requiring only digits",
        ),
        tokenize::Error::InvalidEscapeChar(p) => label(point(p), "escaped character is not a valid character"),
        tokenize::Error::InvalidNumber(p) => label(point(p), "number token was malformed"),
        tokenize::Error::InvalidUtf8(p) => label(point(p), "string contains invalid utf-8"),
    }
}

/// Two labels.
fn pair(a: Label, b: Label) -> (ls: Vec<Label>)
    ensures
        labels_view(ls@) == seq![label_view(a), label_view(b)],
{
    let mut ls = Vec::new();
    ls.push(a);
    ls.push(b);
    assert(labels_view(ls@) =~= seq![label_view(a), label_view(b)]);
    ls
}

/// One label followed by others.
fn prepend(a: Label, rest: Vec<Label>) -> (ls: Vec<Label>)
    ensures
        labels_view(ls@) == seq![label_view(a)] + labels_view(rest@),
{
    let mut ls = Vec::new();
    ls.push(a);
    let mut rest = rest;
    let ghost r = rest@;
    ls.append(&mut rest);
    assert(labels_view(ls@) =~= seq![label_view(a)] + labels_view(r));
    ls
}

/// The labels that explain a parse error, outermost construct first.
pub fn parse_error_into_labels(error: parse::Error) -> (ls: Vec<Label>)
    ensures
        labels_view(ls@) == parse_labels(error_view(error)),
    decreases error,
{
    match error {
        parse::Error::TokenizeError(e) => {
            let mut ls = Vec::new();
            ls.push(token_error_label(e));
            assert(labels_view(ls@) =~= parse_labels(error_view(error)));
            ls
        },
        parse::Error::UnexpectedToken(token) => {
            let mut ls = Vec::new();
            ls.push(label(token.span, "unexpected token"));
            assert(labels_view(ls@) =~= parse_labels(error_view(error)));
            ls
        },
        parse::Error::List(p, inner) => prepend(
            label(point(p), "while parsing this list"),
            parse_error_into_labels(*inner),
        ),
        parse::Error::MissingListComma(p, token) => pair(
            label(point(p), "while parsing this list"),
            label(token.span, "expected a comma, but found this"),
        ),
        parse::Error::Compound(p, inner) => prepend(
            label(point(p), "while parsing this compound"),
            parse_error_into_labels(*inner),
        ),
        parse::Error::MissingCompoundComma(p, token) => pair(
            label(point(p), "while parsing this compound"),
            label(token.span, "expected a comma"),
        ),
        parse::Error::NonStringKey(p, v) => pair(
            label(point(p), "while parsing this compound"),
            label(v.span(), "only string keys are allowed"),
        ),
        parse::Error::MissingColon(p, token) => pair(
            label(point(p), "while parsing this compound"),
            label(token.span, "expected a colon between key and value"),
        ),
        parse::Error::UnexpectedNonInteger(p, v) => pair(
            label(point(p), "while parsing this integer array"),
            label(v.span(), "expected an integer"),
        ),
        parse::Error::MissingOpenParen(sp, token) => pair(
            label(sp, "while parsing this operation"),
            label(token.span, "expected an open parenthesis"),
        ),
        parse::Error::Operation(sp, inner) => prepend(
            label(sp, "while parsing this operation"),
            parse_error_into_labels(*inner),
        ),
        parse::Error::MissingOperationComma(sp, token) => pair(
            label(sp, "while parsing this operation"),
            label(token.span, "expected a comma"),
        ),
    }
}

/// The text that `Debug` writes for a string: quoted, with special characters escaped.
pub uninterp spec fn debug_text(s: Seq<char>) -> Seq<char>;

/// `format!("{s:?}")`, the `Debug` form of a string; its result is the name `debug_text`
/// of `s`, and nothing more of it is stated.
#[verifier::external_body]
fn debug_string(s: &str) -> (r: String)
    ensures
        r@ == debug_text(s@),
{
    format!("{s:?}")
}

/// The name of an integer type, as its `Debug` form writes it.
pub open spec fn int_type_name(t: IntType) -> Seq<char> {
    match t {
        IntType::Int8 => "Int8"@,
        IntType::Int16 => "Int16"@,
        IntType::Int32 => "Int32"@,
        IntType::Int64 => "Int64"@,
    }
}

/// The name of a floating-point type, as its `Debug` form writes it.
pub open spec fn float_type_name(t: FloatType) -> Seq<char> {
    match t {
        FloatType::Float32 => "Float32"@,
        FloatType::Float64 => "Float64"@,
    }
}

/// The labels of a conversion error: the enclosing operations first, outermost first.
pub open spec fn convert_labels(e: ConvErrorView) -> Seq<(Span, Seq<char>)>
    decreases e,
{
    match e {
        ConvErrorView::DuplicateField { key, values, compound_span } => duplicate_labels_of(
            debug_text(key),
            values,
            compound_span,
        ),
        ConvErrorView::DowncastInvalid { integer, result_type } => seq![
            (integer.0, "integer cannot be upcast into "@ + int_type_name(result_type)),
        ],
        ConvErrorView::IntegerTooLarge { integer, result_type } => seq![
            (integer.0, "integer is too large to fit into "@ + int_type_name(result_type)),
        ],
        ConvErrorView::NegativeUnsignedInteger { integer, result_type: _ } => seq![
            (integer.0, "integers cannot be both unsigned and negative"@),
        ],
        ConvErrorView::FloatTooLarge { float, result_type } => seq![
            (float.0, "float is too large to fit into "@ + float_type_name(result_type)),
        ],
        ConvErrorView::ArgumentError { operation_span, operation_kind_span: _, error } => seq![
            (operation_span, "while converting this operation"@),
        ] + convert_labels(*error),
        ConvErrorView::OperationArityError {
            operation_span,
            operation_kind: _,
            operation_kind_span,
            expected_arity,
            found_arity,
        } => seq![
            (
                operation_span,
                "found "@ + decimal(found_arity) + " arguments but expected "@ + decimal(expected_arity),
            ),
            (operation_kind_span, "operation takes "@ + decimal(expected_arity) + " arguments"@),
        ],
        ConvErrorView::OperationTypeError { operation_span, .. } => seq![
            (operation_span, "found arguments of incorrect type"@),
        ],
        ConvErrorView::ParseUuidError { operation_span, .. } => seq![
            (operation_span, "failed to parse UUID"@),
        ],
    }
}

fn int_type_text(t: IntType) -> (r: &'static str)
    ensures
        r@ == int_type_name(t),
{
    match t {
        IntType::Int8 => "Int8",
        IntType::Int16 => "Int16",
        IntType::Int32 => "Int32",
        IntType::Int64 => "Int64",
    }
}

fn float_type_text(t: FloatType) -> (r: &'static str)
    ensures
        r@ == float_type_name(t),
{
    match t {
        FloatType::Float32 => "Float32",
        FloatType::Float64 => "Float64",
    }
}

/// A label whose text is `a` followed by `b`.
fn label2(span: Span, a: &str, b: &str) -> (l: Label)
    ensures
        label_view(l) == (span, a@ + b@),
{
    let mut text = a.to_owned();
    push_str(&mut text, b);
    Label { span, text }
}

/// One label.
fn single(a: Label) -> (ls: Vec<Label>)
    ensures
        labels_view(ls@) == seq![label_view(a)],
{
    let mut ls = Vec::new();
    ls.push(a);
    assert(labels_view(ls@) =~= seq![label_view(a)]);
    ls
}

/// The labels of a duplicate field, given `shown`, the quoted form of its key: the compound,
/// then each instance of the key.
pub open spec fn duplicate_labels_of(shown: Seq<char>, values: Seq<parse::VariantView>, compound_span: Span) -> Seq<(Span, Seq<char>)> {
    seq![(compound_span, "compound has duplicate field "@ + shown)] + values.map_values(
        |v: parse::VariantView| (variant_span(v), "instance of "@ + shown),
    )
}

/// The labels of a duplicate field whose key is shown as `shown`: the compound, then each
/// instance of the key, in the order of the values.
pub fn duplicate_field_labels(shown: &str, values: &Vec<parse::Variant>, compound_span: Span) -> (ls: Vec<Label>)
    ensures
        labels_view(ls@) == duplicate_labels_of(shown@, parse::variants_view(values@), compound_span),
{
    let mut ls = Vec::new();
    ls.push(label2(compound_span, "compound has duplicate field ", shown));
    let ghost instances = parse::variants_view(values@).map_values(
        |v: parse::VariantView| (variant_span(v), "instance of "@ + shown@),
    );
    let mut i: usize = 0;
    while i < values.len()
        invariant
            i <= values@.len(),
            instances == parse::variants_view(values@).map_values(
                |v: parse::VariantView| (variant_span(v), "instance of "@ + shown@),
            ),
            labels_view(ls@) == seq![(compound_span, "compound has duplicate field "@ + shown@)]
                + instances.take(i as int),
        decreases values@.len() - i,
    {
        let ghost before = ls@;
        let l = label2(values[i].span(), "instance of ", shown);
        assert(instances[i as int] == label_view(l));
        ls.push(l);
        assert(ls@ =~= before.push(l));
        assert(labels_view(ls@) =~= labels_view(before).push(label_view(l)));
        assert(instances.take(i + 1) =~= instances.take(i as int).push(instances[i as int]));
        assert(labels_view(ls@) =~= seq![(compound_span, "compound has duplicate field "@ + shown@)]
            + instances.take(i + 1));
        i = i + 1;
    }
    assert(instances.take(i as int) =~= instances);
    ls
}

/// The labels that explain a conversion error, outermost operation first.
pub fn convert_error_into_labels(error: convert::Error) -> (ls: Vec<Label>)
    ensures
        labels_view(ls@) == convert_labels(conv_error_view(error)),
    decreases error,
{
    match error {
        convert::Error::DuplicateField { key, values, compound_span } => {
            let shown = debug_string(key.as_str());
            duplicate_field_labels(shown.as_str(), &values, compound_span)
        },
        convert::Error::DowncastInvalid { integer, result_type } => single(
            label2(integer.span, "integer cannot be upcast into ", int_type_text(result_type)),
        ),
        convert::Error::IntegerTooLarge { integer, result_type } => single(
            label2(integer.span, "integer is too large to fit into ", int_type_text(result_type)),
        ),
        convert::Error::NegativeUnsignedInteger { integer, result_type: _ } => single(
            label(integer.span, "integers cannot be both unsigned and negative"),
        ),
        convert::Error::FloatTooLarge { float, result_type } => single(
            label2(float.span, "float is too large to fit into ", float_type_text(result_type)),
        ),
        convert::Error::ArgumentError { operation_span, operation_kind_span: _, error } => prepend(
            label(operation_span, "while converting this operation"),
            convert_error_into_labels(*error),
        ),
        convert::Error::OperationArityError {
            operation_span,
            operation_kind: _,
            operation_kind_span,
            expected_arity,
            found_arity,
        } => {
            let mut found = "found ".to_owned();
            push_decimal(&mut found, found_arity as u64);
            push_str(&mut found, " arguments but expected ");
            push_decimal(&mut found, expected_arity as u64);
            let mut takes = "operation takes ".to_owned();
            push_decimal(&mut takes, expected_arity as u64);
            push_str(&mut takes, " arguments");
            pair(Label { span: operation_span, text: found }, Label { span: operation_kind_span, text: takes })
        },
        convert::Error::OperationTypeError { operation_span, .. } => single(
            label(operation_span, "found arguments of incorrect type"),
        ),
        convert::Error::ParseUuidError { operation_span, .. } => single(
            label(operation_span, "failed to parse UUID"),
        ),
    }
}

} // verus!
