//! Converting a syntax tree into NBT values.
use vstd::prelude::*;
use crate::snbt::read::Span;
use crate::snbt::read::parse::{self, OperationKind, SpannedInt, SpannedFloat, VariantView, ListHeaderKind};
use crate::snbt::read::tokenize::PieceView;
use crate::snbt::read::tokenize::number::{IntType, FloatType, IntView, FloatView};
use crate::snbt::read::convert::number::{spec_int_value, IntErrorKind, int_value, make_int_error, type_range};
use crate::binary::TypeTag;
use crate::compound::{key_lt, key_less};
use crate::{NbtValue, Variant, Compound, List, ListVariant};
use crate::snbt::read::parse::{variants_view, ints_view, fields_view, variant_view, lemma_list_view, lemma_compound_view, lemma_operation_view};
use crate::snbt::read::tokenize::{StringContentToken, pieces_view};
use vstd::slice::slice_subrange;
use crate::snbt::read::convert::list::pack_list;
use crate::list_model;
use crate::compound_model;
use uuid::Error as UuidError;

pub mod list;
pub mod number;
pub mod wellformed;
pub mod laws;

verus! {

#[verifier::external_type_specification]
#[verifier::external_body]
pub struct ExUuidError(UuidError);

/// A conversion error.
#[derive(Debug, PartialEq)]
pub enum Error<'src> {
    /// A key stands more than once in a compound.
    DuplicateField { key: String, values: Vec<parse::Variant<'src>>, compound_span: Span },
    /// An integer of a wider type stands in a list of a narrower one.
    DowncastInvalid { integer: SpannedInt<'src>, result_type: IntType },
    /// An integer does not fit the type it is read as.
    IntegerTooLarge { integer: SpannedInt<'src>, result_type: IntType },
    /// An integer is both negative and unsigned.
    NegativeUnsignedInteger { integer: SpannedInt<'src>, result_type: IntType },
    /// A part of a floating-point literal is too large to compute.
    FloatTooLarge { float: SpannedFloat<'src>, result_type: FloatType },
    /// An argument of an operation does not convert.
    ArgumentError { operation_span: Span, operation_kind_span: Span, error: Box<Error<'src>> },
    /// An operation has other than one argument.
    OperationArityError {
        operation_span: Span,
        operation_kind: OperationKind,
        operation_kind_span: Span,
        expected_arity: usize,
        found_arity: usize,
    },
    /// An operation's argument is of a kind that it does not take.
    OperationTypeError {
        operation_span: Span,
        operation_kind: OperationKind,
        operation_kind_span: Span,
        arguments: Vec<crate::Variant>,
    },
    /// The argument of `uuid(..)` spells no UUID.
    ParseUuidError { operation_span: Span, operation_kind_span: Span, error: UuidError },
}

/// A conversion error as a mathematical value.
pub enum ConvErrorView {
    DuplicateField { key: Seq<char>, values: Seq<VariantView>, compound_span: Span },
    DowncastInvalid { integer: (Span, IntView), result_type: IntType },
    IntegerTooLarge { integer: (Span, IntView), result_type: IntType },
    NegativeUnsignedInteger { integer: (Span, IntView), result_type: IntType },
    FloatTooLarge { float: (Span, FloatView), result_type: FloatType },
    ArgumentError { operation_span: Span, operation_kind_span: Span, error: Box<ConvErrorView> },
    OperationArityError {
        operation_span: Span,
        operation_kind: OperationKind,
        operation_kind_span: Span,
        expected_arity: nat,
        found_arity: nat,
    },
    OperationTypeError {
        operation_span: Span,
        operation_kind: OperationKind,
        operation_kind_span: Span,
        arguments: Seq<NbtValue>,
    },
    ParseUuidError { operation_span: Span, operation_kind_span: Span },
}

/// The bytes of the UUID that `s` spells out, as `uuid::Uuid::try_parse` reads it, where it
/// is one.
pub uninterp spec fn uuid_bytes(s: Seq<char>) -> Option<Seq<u8>>;

/// `uuid::Uuid::try_parse` followed by `into_bytes`: the bytes of the UUID that `s` spells
/// out, and an error where it spells out none; the bytes are the name `uuid_bytes` of `s`.
#[verifier::external_body]
fn uuid_try_parse(s: &str) -> (r: Result<[u8; 16], UuidError>)
    ensures
        r is Ok <==> uuid_bytes(s@) is Some,
        r matches Ok(b) ==> uuid_bytes(s@) == Some(b@),
{
    match uuid::Uuid::try_parse(s) {
        Ok(u) => Ok(u.into_bytes()),
        Err(e) => Err(e),
    }
}

/// The characters of a string's pieces; a named escape stands for no character.
pub open spec fn string_of(pieces: Seq<PieceView>) -> Seq<char>
    decreases pieces.len(),
{
    if pieces.len() == 0 {
        seq![]
    } else {
        string_of(pieces.drop_last()) + match pieces.last() {
            PieceView::Literal(cs) => cs,
            PieceView::Escaped(c) => seq![c],
            PieceView::Named(_) => seq![],
        }
    }
}

/// The pieces hold no named escape, which is not supported.
pub open spec fn no_named(pieces: Seq<PieceView>) -> bool {
    forall|i: int| 0 <= i < pieces.len() ==> !(#[trigger] pieces[i] is Named)
}

pub open spec fn int_tag(t: IntType) -> TypeTag {
    match t {
        IntType::Int8 => TypeTag::Int8,
        IntType::Int16 => TypeTag::Int16,
        IntType::Int32 => TypeTag::Int32,
        IntType::Int64 => TypeTag::Int64,
    }
}

/// The tag of the value that a node converts to.
pub open spec fn type_tag(v: VariantView) -> TypeTag {
    match v {
        VariantView::Int(_, i) => int_tag(i.ty),
        VariantView::Float(_, f) => match f.ty {
            FloatType::Float32 => TypeTag::Float32,
            FloatType::Float64 => TypeTag::Float64,
        },
        VariantView::String(_, _) => TypeTag::String,
        VariantView::Compound(_, _) => TypeTag::Compound,
        VariantView::IntList(_, h, _) => match h.kind {
            ListHeaderKind::Int8 => TypeTag::Int8List,
            ListHeaderKind::Int32 => TypeTag::Int32List,
            ListHeaderKind::Int64 => TypeTag::Int64List,
        },
        VariantView::Operation(_, _, kind, _) => match kind {
            OperationKind::Uuid => TypeTag::Int32List,
            OperationKind::Bool => TypeTag::Int8,
        },
        VariantView::Bool(_, _) => TypeTag::Int8,
        VariantView::List(_, _) => TypeTag::List,
    }
}

/// The element tag of a list: the end tag where it is empty, the tag of its elements where
/// they all have one, and the compound tag where they differ.
pub open spec fn list_tag(items: Seq<VariantView>) -> TypeTag {
    if items.len() == 0 {
        TypeTag::EndCompound
    } else if forall|i: int| 0 <= i < items.len() ==> type_tag(#[trigger] items[i]) == type_tag(items[0]) {
        type_tag(items[0])
    } else {
        TypeTag::Compound
    }
}

/// The node converts directly to an element of a list of tag `t`.
pub open spec fn fits_tag(v: VariantView, t: TypeTag) -> bool {
    match t {
        TypeTag::Int8 | TypeTag::Int16 | TypeTag::Int32 | TypeTag::Int64 => v is Int,
        TypeTag::Float32 | TypeTag::Float64 => v is Float,
        TypeTag::String => v is String,
        TypeTag::Int8List | TypeTag::Int32List | TypeTag::Int64List => v is IntList,
        TypeTag::List => v is List,
        _ => true,
    }
}

/// The floating-point literals of a node, in the order of the source.
pub open spec fn floats_in(v: VariantView) -> Seq<(Span, FloatView)>
    decreases v, 0int,
{
    match v {
        VariantView::Float(sp, f) => seq![(sp, f)],
        VariantView::Compound(_, fields) => fields_floats(fields, fields.len() as int),
        VariantView::List(_, items) => items_floats(items, items.len() as int),
        VariantView::Operation(_, _, _, args) => items_floats(args, args.len() as int),
        _ => seq![],
    }
}

/// The floating-point literals of the first `n` nodes.
pub open spec fn items_floats(items: Seq<VariantView>, n: int) -> Seq<(Span, FloatView)>
    decreases items, n,
{
    if n <= 0 || n > items.len() {
        seq![]
    } else {
        items_floats(items, n - 1) + floats_in(items[n - 1])
    }
}

/// The floating-point literals of the values of the first `n` fields.
pub open spec fn fields_floats(fields: Seq<(Span, Seq<PieceView>, VariantView)>, n: int) -> Seq<(Span, FloatView)>
    decreases fields, n,
{
    if n <= 0 || n > fields.len() {
        seq![]
    } else {
        fields_floats(fields, n - 1) + floats_in(fields[n - 1].2)
    }
}

/// The node converts without reaching an unsupported case: a named escape, or an element of
/// a list whose tag it has but whose kind does not hold elements of that tag.
pub open spec fn convertible(v: VariantView) -> bool
    decreases v, 0int,
{
    match v {
        VariantView::String(_, pieces) => no_named(pieces),
        VariantView::Compound(_, fields) => fields_convertible(fields, fields.len() as int),
        VariantView::List(_, items) => items_convertible(items, items.len() as int)
            && forall|i: int| 0 <= i < items.len() ==> fits_tag(#[trigger] items[i], list_tag(items)),
        VariantView::Operation(_, _, _, args) => items_convertible(args, args.len() as int),
        _ => true,
    }
}

pub open spec fn items_convertible(items: Seq<VariantView>, n: int) -> bool
    decreases items, n,
{
    if n <= 0 || n > items.len() {
        true
    } else {
        items_convertible(items, n - 1) && convertible(items[n - 1])
    }
}

pub open spec fn fields_convertible(fields: Seq<(Span, Seq<PieceView>, VariantView)>, n: int) -> bool
    decreases fields, n,
{
    if n <= 0 || n > fields.len() {
        true
    } else {
        fields_convertible(fields, n - 1) && no_named(fields[n - 1].1) && convertible(fields[n - 1].2)
    }
}

/// The error of an integer conversion.
pub open spec fn int_error_view(kind: IntErrorKind, sp: Span, i: IntView, t: IntType) -> ConvErrorView {
    match kind {
        IntErrorKind::Downcast => ConvErrorView::DowncastInvalid { integer: (sp, i), result_type: t },
        IntErrorKind::TooLarge => ConvErrorView::IntegerTooLarge { integer: (sp, i), result_type: t },
        IntErrorKind::Negative => ConvErrorView::NegativeUnsignedInteger { integer: (sp, i), result_type: t },
    }
}

/// The value of an integer literal read as its own type.
pub open spec fn spec_int(sp: Span, i: IntView) -> Result<NbtValue, ConvErrorView> {
    match spec_int_value(i, i.ty) {
        Err(k) => Err(int_error_view(k, sp, i, i.ty)),
        Ok(x) => Ok(match i.ty {
            IntType::Int8 => NbtValue::Int8(x as u8),
            IntType::Int16 => NbtValue::Int16(x as u16),
            IntType::Int32 => NbtValue::Int32(x as u32),
            IntType::Int64 => NbtValue::Int64(x as u64),
        }),
    }
}

/// The results in order, or the first error among them.
pub open spec fn collect(results: Seq<Result<NbtValue, ConvErrorView>>) -> Result<Seq<NbtValue>, ConvErrorView>
    decreases results.len(),
{
    if results.len() == 0 {
        Ok(seq![])
    } else {
        match collect(results.drop_last()) {
            Err(e) => Err(e),
            Ok(xs) => match results.last() {
                Err(e) => Err(e),
                Ok(x) => Ok(xs.push(x)),
            },
        }
    }
}

/// The results of converting the first `n` nodes, each with its own floating-point values.
pub open spec fn item_results(items: Seq<VariantView>, fl: Seq<Option<u64>>, n: int) -> Seq<Result<NbtValue, ConvErrorView>>
    decreases items, n,
{
    if n <= 0 || n > items.len() {
        seq![]
    } else {
        item_results(items, fl, n - 1).push(
            spec_convert(
                items[n - 1],
                fl.subrange(items_floats(items, n - 1).len() as int, items_floats(items, n).len() as int),
            ),
        )
    }
}

/// The results of converting the values of the first `n` fields.
pub open spec fn field_results(
    fields: Seq<(Span, Seq<PieceView>, VariantView)>,
    fl: Seq<Option<u64>>,
    n: int,
) -> Seq<Result<NbtValue, ConvErrorView>>
    decreases fields, n,
{
    if n <= 0 || n > fields.len() {
        seq![]
    } else {
        field_results(fields, fl, n - 1).push(
            spec_convert(
                fields[n - 1].2,
                fl.subrange(fields_floats(fields, n - 1).len() as int, fields_floats(fields, n).len() as int),
            ),
        )
    }
}

/// The element of a list of tag `t` for a node that converted to `r`: a compound list holds
/// a value that is not a compound as the entry of the empty key.
pub open spec fn list_element(t: TypeTag, v: VariantView, r: Result<NbtValue, ConvErrorView>) -> Result<NbtValue, ConvErrorView> {
    if t == TypeTag::Compound && !(v is Compound) {
        match r {
            Ok(x) => Ok(NbtValue::Compound(seq![(Seq::<char>::empty(), x)])),
            Err(e) => Err(e),
        }
    } else {
        r
    }
}

/// The elements of a list of tag `t` for its nodes and their results.
pub open spec fn list_elements(t: TypeTag, items: Seq<VariantView>, rs: Seq<Result<NbtValue, ConvErrorView>>) -> Seq<
    Result<NbtValue, ConvErrorView>,
> {
    Seq::new(items.len(), |i: int| list_element(t, items[i], rs[i]))
}

/// The keys of fields.
pub open spec fn keys_of(fields: Seq<(Span, Seq<PieceView>, VariantView)>) -> Seq<Seq<char>> {
    fields.map_values(|f: (Span, Seq<PieceView>, VariantView)| string_of(f.1))
}

/// The values of the fields at `idx`.
pub open spec fn field_values(fields: Seq<(Span, Seq<PieceView>, VariantView)>, idx: Seq<int>) -> Seq<VariantView> {
    idx.map_values(|j: int| fields[j].2)
}

/// The value of a list of nodes.
pub open spec fn spec_list(items: Seq<VariantView>, fl: Seq<Option<u64>>) -> Result<NbtValue, ConvErrorView> {
    let t = list_tag(items);
    let rs = item_results(items, fl, items.len() as int);
    match collect(list_elements(t, items, rs)) {
        Ok(xs) => Ok(NbtValue::List(t, xs)),
        Err(e) => Err(e),
    }
}

/// The keys of the fields grouped: in increasing order, each with the indices of the fields
/// that have it, in the order of the source.
pub open spec fn build_groups(keys: Seq<Seq<char>>, n: int) -> Seq<(Seq<char>, Seq<int>)>
    decreases n,
{
    if n <= 0 {
        seq![]
    } else {
        insert_group(build_groups(keys, n - 1), keys[n - 1], n - 1)
    }
}

/// The number of leading groups whose keys come before `k`, counting from the end while the
/// keys do not.
pub open spec fn group_place(gs: Seq<(Seq<char>, Seq<int>)>, k: Seq<char>) -> int
    decreases gs.len(),
{
    if gs.len() == 0 {
        0
    } else if key_lt(gs.last().0, k) {
        gs.len() as int
    } else {
        group_place(gs.drop_last(), k)
    }
}

pub open spec fn insert_group(gs: Seq<(Seq<char>, Seq<int>)>, k: Seq<char>, j: int) -> Seq<(Seq<char>, Seq<int>)> {
    let p = group_place(gs, k);
    if p < gs.len() && gs[p].0 == k {
        gs.update(p, (k, gs[p].1.push(j)))
    } else {
        gs.insert(p, (k, seq![j]))
    }
}

/// The entries for the first `n` groups, or the error of the first group that has more than
/// one field or whose value does not convert.
pub open spec fn group_entries(
    gs: Seq<(Seq<char>, Seq<int>)>,
    rs: Seq<Result<NbtValue, ConvErrorView>>,
    fields: Seq<(Span, Seq<PieceView>, VariantView)>,
    sp: Span,
    n: int,
) -> Result<Seq<(Seq<char>, NbtValue)>, ConvErrorView>
    decreases n,
{
    if n <= 0 {
        Ok(seq![])
    } else {
        match group_entries(gs, rs, fields, sp, n - 1) {
            Err(e) => Err(e),
            Ok(es) => {
                let (k, idx) = gs[n - 1];
                if idx.len() > 1 {
                    Err(
                        ConvErrorView::DuplicateField {
                            key: k,
                            values: field_values(fields, idx),
                            compound_span: sp,
                        },
                    )
                } else {
                    match rs[idx[0]] {
                        Err(e) => Err(e),
                        Ok(x) => Ok(es.push((k, x))),
                    }
                }
            },
        }
    }
}

/// The entries of a compound.
pub open spec fn spec_compound(
    sp: Span,
    fields: Seq<(Span, Seq<PieceView>, VariantView)>,
    fl: Seq<Option<u64>>,
) -> Result<Seq<(Seq<char>, NbtValue)>, ConvErrorView> {
    let gs = build_groups(keys_of(fields), fields.len() as int);
    group_entries(gs, field_results(fields, fl, fields.len() as int), fields, sp, gs.len() as int)
}

/// The four big-endian words of sixteen bytes, as `uuid(..)` stores a UUID.
pub open spec fn words(b: Seq<u8>) -> Seq<u32> {
    Seq::new(
        4,
        |i: int| (b[4 * i] * 0x100_0000 + b[4 * i + 1] * 0x1_0000 + b[4 * i + 2] * 0x100 + b[4 * i + 3]) as u32,
    )
}

/// `bool(x)`: one integer, read as zero or one.
pub open spec fn truth(x: int) -> NbtValue {
    NbtValue::Int8(if x == 0 {
        0
    } else {
        1
    })
}

/// The value of an operation, given its converted arguments.
pub open spec fn spec_operation(sp: Span, ksp: Span, kind: OperationKind, args: Seq<NbtValue>) -> Result<NbtValue, ConvErrorView> {
    if args.len() != 1 {
        Err(
            ConvErrorView::OperationArityError {
                operation_span: sp,
                operation_kind: kind,
                operation_kind_span: ksp,
                expected_arity: 1,
                found_arity: args.len(),
            },
        )
    } else {
        match (kind, args[0]) {
            (OperationKind::Bool, NbtValue::Int8(x)) => Ok(truth(x as int)),
            (OperationKind::Bool, NbtValue::Int16(x)) => Ok(truth(x as int)),
            (OperationKind::Bool, NbtValue::Int32(x)) => Ok(truth(x as int)),
            (OperationKind::Bool, NbtValue::Int64(x)) => Ok(truth(x as int)),
            (OperationKind::Uuid, NbtValue::String(s)) => match uuid_bytes(s) {
                Some(b) => Ok(NbtValue::Int32List(words(b))),
                None => Err(ConvErrorView::ParseUuidError { operation_span: sp, operation_kind_span: ksp }),
            },
            _ => Err(
                ConvErrorView::OperationTypeError {
                    operation_span: sp,
                    operation_kind: kind,
                    operation_kind_span: ksp,
                    arguments: args,
                },
            ),
        }
    }
}

/// The integers of an integer list read as `t`, or the first error among them.
pub open spec fn int_list_values(ints: Seq<(Span, IntView)>, t: IntType) -> Result<Seq<int>, ConvErrorView>
    decreases ints.len(),
{
    if ints.len() == 0 {
        Ok(seq![])
    } else {
        match int_list_values(ints.drop_last(), t) {
            Err(e) => Err(e),
            Ok(xs) => match spec_int_value(ints.last().1, t) {
                Err(k) => Err(int_error_view(k, ints.last().0, ints.last().1, t)),
                Ok(x) => Ok(xs.push(x)),
            },
        }
    }
}

pub open spec fn spec_int_list(kind: ListHeaderKind, ints: Seq<(Span, IntView)>) -> Result<NbtValue, ConvErrorView> {
    match kind {
        ListHeaderKind::Int8 => match int_list_values(ints, IntType::Int8) {
            Ok(xs) => Ok(NbtValue::Int8List(xs.map_values(|x: int| x as u8))),
            Err(e) => Err(e),
        },
        ListHeaderKind::Int32 => match int_list_values(ints, IntType::Int32) {
            Ok(xs) => Ok(NbtValue::Int32List(xs.map_values(|x: int| x as u32))),
            Err(e) => Err(e),
        },
        ListHeaderKind::Int64 => match int_list_values(ints, IntType::Int64) {
            Ok(xs) => Ok(NbtValue::Int64List(xs.map_values(|x: int| x as u64))),
            Err(e) => Err(e),
        },
    }
}

/// The value of a syntax tree, with `fl` the values of its floating-point literals in the
/// order of the source (`None` for one too large).
pub open spec fn spec_convert(v: VariantView, fl: Seq<Option<u64>>) -> Result<NbtValue, ConvErrorView>
    decreases v, 0int,
{
    match v {
        VariantView::Int(sp, i) => spec_int(sp, i),
        VariantView::Float(sp, f) => match f.ty {
            FloatType::Float32 => match fl[0] {
                Some(b) => Ok(NbtValue::Float32(b as u32)),
                None => Err(ConvErrorView::FloatTooLarge { float: (sp, f), result_type: FloatType::Float32 }),
            },
            FloatType::Float64 => match fl[0] {
                Some(b) => Ok(NbtValue::Float64(b)),
                None => Err(ConvErrorView::FloatTooLarge { float: (sp, f), result_type: FloatType::Float64 }),
            },
        },
        VariantView::String(_, pieces) => Ok(NbtValue::String(string_of(pieces))),
        VariantView::Compound(sp, fields) => {
            let gs = build_groups(keys_of(fields), fields.len() as int);
            match group_entries(gs, field_results(fields, fl, fields.len() as int), fields, sp, gs.len() as int) {
                Ok(es) => Ok(NbtValue::Compound(es)),
                Err(e) => Err(e),
            }
        },
        VariantView::List(_, items) => {
            let t = list_tag(items);
            let rs = item_results(items, fl, items.len() as int);
            match collect(list_elements(t, items, rs)) {
                Ok(xs) => Ok(NbtValue::List(t, xs)),
                Err(e) => Err(e),
            }
        },
        VariantView::IntList(_, h, ints) => spec_int_list(h.kind, ints),
        VariantView::Operation(sp, ksp, kind, args) => match collect(item_results(args, fl, args.len() as int)) {
            Err(e) => Err(ConvErrorView::ArgumentError { operation_span: sp, operation_kind_span: ksp, error: Box::new(e) }),
            Ok(xs) => spec_operation(sp, ksp, kind, xs),
        },
        VariantView::Bool(_, b) => Ok(NbtValue::Int8(if b {
            1
        } else {
            0
        })),
    }
}

/// `String::push_str`: appends `t`.
#[verifier::external_body]
pub(crate) fn push_str(s: &mut String, t: &str)
    ensures
        final(s)@ == old(s)@ + t@,
{
    s.push_str(t)
}

/// `String::push`: appends `c`.
#[verifier::external_body]
pub(crate) fn push_char(s: &mut String, c: char)
    ensures
        final(s)@ == old(s)@.push(c),
{
    s.push(c)
}

pub open spec fn conv_error_view(e: Error) -> ConvErrorView
    decreases e,
{
    match e {
        Error::DuplicateField { key, values, compound_span } => ConvErrorView::DuplicateField {
            key: key@,
            values: variants_view(values@),
            compound_span,
        },
        Error::DowncastInvalid { integer, result_type } => ConvErrorView::DowncastInvalid {
            integer: (integer.span, integer.integer@),
            result_type,
        },
        Error::IntegerTooLarge { integer, result_type } => ConvErrorView::IntegerTooLarge {
            integer: (integer.span, integer.integer@),
            result_type,
        },
        Error::NegativeUnsignedInteger { integer, result_type } => ConvErrorView::NegativeUnsignedInteger {
            integer: (integer.span, integer.integer@),
            result_type,
        },
        Error::FloatTooLarge { float, result_type } => ConvErrorView::FloatTooLarge {
            float: (float.span, float.float@),
            result_type,
        },
        Error::ArgumentError { operation_span, operation_kind_span, error } => ConvErrorView::ArgumentError {
            operation_span,
            operation_kind_span,
            error: Box::new(conv_error_view(*error)),
        },
        Error::OperationArityError { operation_span, operation_kind, operation_kind_span, expected_arity, found_arity } =>
            ConvErrorView::OperationArityError {
            operation_span,
            operation_kind,
            operation_kind_span,
            expected_arity: expected_arity as nat,
            found_arity: found_arity as nat,
        },
        Error::OperationTypeError { operation_span, operation_kind, operation_kind_span, arguments } =>
            ConvErrorView::OperationTypeError {
            operation_span,
            operation_kind,
            operation_kind_span,
            arguments: values_of(arguments@),
        },
        Error::ParseUuidError { operation_span, operation_kind_span, error: _ } => ConvErrorView::ParseUuidError {
            operation_span,
            operation_kind_span,
        },
    }
}

/// The values of NBT values.
pub open spec fn values_of(xs: Seq<Variant>) -> Seq<NbtValue> {
    xs.map_values(|x: Variant| x@)
}

impl<'src> View for Error<'src> {
    type V = ConvErrorView;

    open spec fn view(&self) -> ConvErrorView {
        conv_error_view(*self)
    }
}

/// A conversion result as the specifications state it.
pub open spec fn converted(r: Result<Variant, Error>) -> Result<NbtValue, ConvErrorView> {
    match r {
        Ok(x) => Ok(x@),
        Err(e) => Err(e@),
    }
}

/// The text of a string token: its literal pieces and its escaped characters.
pub fn convert_string(string: &parse::SpannedString) -> (r: String)
    requires
        no_named(pieces_view(string.content@)),
    ensures
        r@ == string_of(pieces_view(string.content@)),
{
    let mut result = String::new();
    let ghost pv = pieces_view(string.content@);
    let mut i: usize = 0;
    while i < string.content.len()
        invariant
            i <= string.content@.len(),
            pv == pieces_view(string.content@),
            no_named(pv),
            result@ == string_of(pv.take(i as int)),
        decreases string.content@.len() - i,
    {
        proof {
            assert(pv.take(i as int + 1).drop_last() =~= pv.take(i as int));
            assert(pv[i as int] == string.content@[i as int]@);
        }
        match &string.content[i] {
            StringContentToken::Literal(content) => push_str(&mut result, content),
            StringContentToken::Escaped(ch) => push_char(&mut result, *ch),
            StringContentToken::Named(_) => {
                proof {
                    assert(pv[i as int] is Named);
                }
            },
        }
        i = i + 1;
    }
    proof {
        assert(pv.take(pv.len() as int) =~= pv);
    }
    result
}

impl<'src> parse::Variant<'src> {
    /// The tag of the value that the node converts to.
    pub fn type_tag(&self) -> (t: TypeTag)
        ensures
            t == type_tag(self@),
    {
        match self {
            parse::Variant::Int(integer) => match integer.integer.ty {
                IntType::Int8 => TypeTag::Int8,
                IntType::Int16 => TypeTag::Int16,
                IntType::Int32 => TypeTag::Int32,
                IntType::Int64 => TypeTag::Int64,
            },
            parse::Variant::Float(float) => match float.float.ty {
                FloatType::Float32 => TypeTag::Float32,
                FloatType::Float64 => TypeTag::Float64,
            },
            parse::Variant::String(_) => TypeTag::String,
            parse::Variant::Compound(_) => TypeTag::Compound,
            parse::Variant::IntList(int_list) => match int_list.header.kind {
                ListHeaderKind::Int8 => TypeTag::Int8List,
                ListHeaderKind::Int32 => TypeTag::Int32List,
                ListHeaderKind::Int64 => TypeTag::Int64List,
            },
            parse::Variant::Operation(operation) => match operation.kind {
                OperationKind::Uuid => TypeTag::Int32List,
                OperationKind::Bool => TypeTag::Int8,
            },
            parse::Variant::Bool(_, _) => TypeTag::Int8,
            parse::Variant::List(_) => TypeTag::List,
        }
    }

    /// The span of source text that the node covers.
    pub fn span(&self) -> (sp: Span)
        ensures
            sp == variant_span(self@),
    {
        match self {
            parse::Variant::Int(i) => i.span,
            parse::Variant::Float(f) => f.span,
            parse::Variant::String(s) => s.span,
            parse::Variant::Compound(c) => c.span,
            parse::Variant::List(l) => l.span,
            parse::Variant::IntList(l) => l.span,
            parse::Variant::Operation(op) => op.span,
            parse::Variant::Bool(sp, _) => *sp,
        }
    }
}

pub open spec fn variant_span(v: VariantView) -> Span {
    match v {
        VariantView::Int(sp, _) => sp,
        VariantView::Float(sp, _) => sp,
        VariantView::String(sp, _) => sp,
        VariantView::Compound(sp, _) => sp,
        VariantView::List(sp, _) => sp,
        VariantView::IntList(sp, _, _) => sp,
        VariantView::Operation(sp, _, _, _) => sp,
        VariantView::Bool(sp, _) => sp,
    }
}

impl<'src> parse::List<'src> {
    /// The element tag of the list, as [`list_tag`] states it.
    pub fn type_tag(&self) -> (t: TypeTag)
        ensures
            t == list_tag(variants_view(self.list@)),
    {
        let ghost items = variants_view(self.list@);
        if self.list.len() == 0 {
            return TypeTag::EndCompound;
        }
        let first = self.list[0].type_tag();
        let mut i: usize = 1;
        while i < self.list.len()
            invariant
                1 <= i <= self.list@.len(),
                items == variants_view(self.list@),
                first == type_tag(items[0]),
                forall|k: int| 0 <= k < i ==> type_tag(#[trigger] items[k]) == first,
            decreases self.list@.len() - i,
        {
            if self.list[i].type_tag() != first {
                proof {
                    assert(items[i as int] == self.list@[i as int]@);
                    assert(type_tag(items[i as int]) != type_tag(items[0]));
                }
                return TypeTag::Compound;
            }
            i = i + 1;
        }
        first
    }
}

/// The views of floating-point literals.
pub open spec fn floats_view(fs: Seq<&SpannedFloat>) -> Seq<(Span, FloatView)> {
    fs.map_values(|f: &SpannedFloat| (f.span, f.float@))
}

/// The floating-point literals of a syntax tree, in the order of the source: the values that
/// [`convert_variant`] takes.
pub fn float_literals<'a, 'src>(variant: &'a parse::Variant<'src>) -> (r: Vec<&'a SpannedFloat<'src>>)
    ensures
        floats_view(r@) == floats_in(variant@),
    decreases variant,
{
    match variant {
        parse::Variant::Float(f) => {
            let r = vec![f];
            assert(floats_view(r@) =~= seq![(f.span, f.float@)]);
            r
        },
        parse::Variant::List(l) => {
            proof {
                lemma_list_view(*l);
            }
            items_float_literals(&l.list)
        },
        parse::Variant::Operation(op) => {
            proof {
                lemma_operation_view(**op);
            }
            items_float_literals(&op.arguments)
        },
        parse::Variant::Compound(c) => {
            proof {
                lemma_compound_view(*c);
            }
            fields_float_literals(&c.fields)
        },
        _ => {
            let r = Vec::new();
            assert(floats_view(r@) =~= seq![]);
            r
        },
    }
}

fn fields_float_literals<'a, 'src>(fields: &'a Vec<parse::Field<'src>>) -> (r: Vec<&'a SpannedFloat<'src>>)
    ensures
        floats_view(r@) == fields_floats(fields_view(fields@), fields@.len() as int),
    decreases fields,
{
    let ghost fv = fields_view(fields@);
    let mut r: Vec<&'a SpannedFloat<'src>> = Vec::new();
    let mut i: usize = 0;
    assert(floats_view(r@) =~= fields_floats(fv, 0));
    while i < fields.len()
        invariant
            i <= fields@.len(),
            fv == fields_view(fields@),
            floats_view(r@) == fields_floats(fv, i as int),
        decreases fields@.len() - i,
    {
        let mut sub = float_literals(&fields[i].value);
        let ghost before = r@;
        let ghost added = sub@;
        r.append(&mut sub);
        proof {
            assert(fv[i as int].2 == variant_view(fields@[i as int].value));
            assert(floats_view(r@) =~= floats_view(before) + floats_view(added));
        }
        i = i + 1;
    }
    r
}

fn items_float_literals<'a, 'src>(items: &'a Vec<parse::Variant<'src>>) -> (r: Vec<&'a SpannedFloat<'src>>)
    ensures
        floats_view(r@) == items_floats(variants_view(items@), items@.len() as int),
    decreases items,
{
    let ghost iv = variants_view(items@);
    let mut r: Vec<&'a SpannedFloat<'src>> = Vec::new();
    let mut i: usize = 0;
    assert(floats_view(r@) =~= items_floats(iv, 0));
    while i < items.len()
        invariant
            i <= items@.len(),
            iv == variants_view(items@),
            floats_view(r@) == items_floats(iv, i as int),
        decreases items@.len() - i,
    {
        let mut sub = float_literals(&items[i]);
        let ghost before = r@;
        let ghost added = sub@;
        r.append(&mut sub);
        proof {
            assert(iv[i as int] == variant_view(items@[i as int]));
            assert(floats_view(r@) =~= floats_view(before) + floats_view(added));
        }
        i = i + 1;
    }
    r
}

pub proof fn lemma_items_floats_prefix(items: Seq<VariantView>, k: int, n: int)
    requires
        0 <= k <= n <= items.len(),
    ensures
        items_floats(items, k).len() <= items_floats(items, n).len(),
        items_floats(items, n) == items_floats(items, k) + items_floats(items, n).subrange(
            items_floats(items, k).len() as int,
            items_floats(items, n).len() as int,
        ),
    decreases n - k,
{
    if k < n {
        lemma_items_floats_prefix(items, k, n - 1);
        assert(items_floats(items, n) == items_floats(items, n - 1) + floats_in(items[n - 1]));
        assert(items_floats(items, n) =~= items_floats(items, k) + items_floats(items, n).subrange(
            items_floats(items, k).len() as int,
            items_floats(items, n).len() as int,
        ));
    } else {
        assert(items_floats(items, n) =~= items_floats(items, k) + items_floats(items, n).subrange(
            items_floats(items, k).len() as int,
            items_floats(items, n).len() as int,
        ));
    }
}

pub proof fn lemma_fields_floats_prefix(fields: Seq<(Span, Seq<PieceView>, VariantView)>, k: int, n: int)
    requires
        0 <= k <= n <= fields.len(),
    ensures
        fields_floats(fields, k).len() <= fields_floats(fields, n).len(),
    decreases n - k,
{
    if k < n {
        lemma_fields_floats_prefix(fields, k, n - 1);
    }
}

pub proof fn lemma_item_results(items: Seq<VariantView>, fl: Seq<Option<u64>>, n: int)
    requires
        0 <= n <= items.len(),
    ensures
        item_results(items, fl, n).len() == n,
        forall|i: int|
            0 <= i < n ==> #[trigger] item_results(items, fl, n)[i] == spec_convert(
                items[i],
                fl.subrange(items_floats(items, i).len() as int, items_floats(items, i + 1).len() as int),
            ),
    decreases n,
{
    if n > 0 {
        lemma_item_results(items, fl, n - 1);
    }
}

pub proof fn lemma_field_results(fields: Seq<(Span, Seq<PieceView>, VariantView)>, fl: Seq<Option<u64>>, n: int)
    requires
        0 <= n <= fields.len(),
    ensures
        field_results(fields, fl, n).len() == n,
        forall|i: int|
            0 <= i < n ==> #[trigger] field_results(fields, fl, n)[i] == spec_convert(
                fields[i].2,
                fl.subrange(fields_floats(fields, i).len() as int, fields_floats(fields, i + 1).len() as int),
            ),
    decreases n,
{
    if n > 0 {
        lemma_field_results(fields, fl, n - 1);
    }
}

/// An error among the first `k` results is the error of them all.
pub proof fn lemma_collect_prefix(xs: Seq<Result<NbtValue, ConvErrorView>>, k: int)
    requires
        0 <= k <= xs.len(),
        collect(xs.take(k)) is Err,
    ensures
        collect(xs) == collect(xs.take(k)),
    decreases xs.len() - k,
{
    if k < xs.len() {
        assert(xs.take(k + 1).drop_last() =~= xs.take(k));
        lemma_collect_prefix(xs, k + 1);
    } else {
        assert(xs.take(k) =~= xs);
    }
}

pub proof fn lemma_int_list_prefix(ints: Seq<(Span, IntView)>, t: IntType, k: int)
    requires
        0 <= k <= ints.len(),
        int_list_values(ints.take(k), t) is Err,
    ensures
        int_list_values(ints, t) == int_list_values(ints.take(k), t),
    decreases ints.len() - k,
{
    if k < ints.len() {
        assert(ints.take(k + 1).drop_last() =~= ints.take(k));
        lemma_int_list_prefix(ints, t, k + 1);
    } else {
        assert(ints.take(k) =~= ints);
    }
}

/// A node converts to a value of the tag that [`type_tag`] gives it.
pub proof fn lemma_convert_tag(v: VariantView, fl: Seq<Option<u64>>)
    ensures
        spec_convert(v, fl) matches Ok(x) ==> x.tag() == type_tag(v),
{
    match v {
        VariantView::Operation(sp, ksp, kind, args) => {
            match collect(item_results(args, fl, args.len() as int)) {
                Ok(xs) => {
                    if xs.len() == 1 {
                        match (kind, xs[0]) {
                            (OperationKind::Uuid, NbtValue::String(s)) => {},
                            _ => {},
                        }
                    }
                },
                Err(_) => {},
            }
        },
        VariantView::IntList(_, h, ints) => {},
        _ => {},
    }
}

fn convert_int<'src>(integer: SpannedInt<'src>) -> (r: Result<Variant, Error<'src>>)
    ensures
        converted(r) == spec_int(integer.span, integer.integer@),
{
    match integer.integer.ty {
        IntType::Int8 => match u8::try_from(integer) {
            Ok(x) => Ok(Variant::Int8(x)),
            Err(e) => Err(e),
        },
        IntType::Int16 => match u16::try_from(integer) {
            Ok(x) => Ok(Variant::Int16(x)),
            Err(e) => Err(e),
        },
        IntType::Int32 => match u32::try_from(integer) {
            Ok(x) => Ok(Variant::Int32(x)),
            Err(e) => Err(e),
        },
        IntType::Int64 => match u64::try_from(integer) {
            Ok(x) => Ok(Variant::Int64(x)),
            Err(e) => Err(e),
        },
    }
}

fn convert_float<'src>(float: SpannedFloat<'src>, floats: &[Option<u64>]) -> (r: Result<Variant, Error<'src>>)
    requires
        floats@.len() == 1,
    ensures
        converted(r) == spec_convert(VariantView::Float(float.span, float.float@), floats@),
{
    match float.float.ty {
        FloatType::Float32 => match floats[0] {
            Some(bits) => Ok(Variant::Float32(bits as u32)),
            None => Err(Error::FloatTooLarge { float, result_type: FloatType::Float32 }),
        },
        FloatType::Float64 => match floats[0] {
            Some(bits) => Ok(Variant::Float64(bits)),
            None => Err(Error::FloatTooLarge { float, result_type: FloatType::Float64 }),
        },
    }
}

/// The integers of a list read as `t`, or the first error.
fn int_list_ints<'src>(ints: &Vec<SpannedInt<'src>>, t: IntType) -> (r: Result<Vec<u64>, Error<'src>>)
    ensures
        match r {
            Ok(vs) => int_list_values(ints_view(ints@), t) == Ok::<Seq<int>, ConvErrorView>(vs@.map_values(|x: u64| x as int))
                && forall|k: int| 0 <= k < vs@.len() ==> #[trigger] vs@[k] < type_range(t),
            Err(e) => int_list_values(ints_view(ints@), t) == Err::<Seq<int>, ConvErrorView>(e@),
        },
{
    let ghost iv = ints_view(ints@);
    let mut values: Vec<u64> = Vec::new();
    let mut i: usize = 0;
    assert(iv.take(0) =~= Seq::<(Span, IntView)>::empty());
    assert(values@.map_values(|x: u64| x as int) =~= Seq::<int>::empty());
    while i < ints.len()
        invariant
            i <= ints@.len(),
            iv == ints_view(ints@),
            int_list_values(iv.take(i as int), t) == Ok::<Seq<int>, ConvErrorView>(values@.map_values(|x: u64| x as int)),
            forall|k: int| 0 <= k < values@.len() ==> #[trigger] values@[k] < type_range(t),
        decreases ints@.len() - i,
    {
        proof {
            assert(iv.take(i as int + 1).drop_last() =~= iv.take(i as int));
            assert(iv[i as int] == (ints@[i as int].span, ints@[i as int].integer@));
        }
        match int_value(&ints[i], t) {
            Ok(x) => {
                proof {
                    lemma_int_value_range(ints@[i as int].integer@, t);
                }
                let ghost before = values@;
                values.push(x);
                assert(values@.map_values(|x: u64| x as int) =~= before.map_values(|x: u64| x as int).push(x as int));
            },
            Err(k) => {
                proof {
                    lemma_int_list_prefix(iv, t, i as int + 1);
                }
                return Err(make_int_error(k, ints[i], t));
            },
        }
        i = i + 1;
    }
    proof {
        assert(iv.take(i as int) =~= iv);
    }
    Ok(values)
}

pub proof fn lemma_int_value_range(i: IntView, t: IntType)
    ensures
        spec_int_value(i, t) matches Ok(x) ==> 0 <= x < type_range(t),
{
}

/// The value of an integer list: each integer read as the list's type.
pub fn convert_int_list<'src>(list: parse::IntList<'src>) -> (r: Result<Variant, Error<'src>>)
    ensures
        converted(r) == spec_int_list(list.header.kind, ints_view(list.list@)),
{
    let kind = list.header.kind;
    let t = match kind {
        ListHeaderKind::Int8 => IntType::Int8,
        ListHeaderKind::Int32 => IntType::Int32,
        ListHeaderKind::Int64 => IntType::Int64,
    };
    let values = match int_list_ints(&list.list, t) {
        Ok(vs) => vs,
        Err(e) => {
            return Err(e);
        },
    };
    let ghost xs = values@.map_values(|x: u64| x as int);
    match kind {
        ListHeaderKind::Int8 => {
            let mut out: Vec<u8> = Vec::new();
            let mut j: usize = 0;
            while j < values.len()
                invariant
                    j <= values@.len(),
                    out@ =~= values@.take(j as int).map_values(|x: u64| x as u8),
                    forall|k: int| 0 <= k < values@.len() ==> #[trigger] values@[k] < 0x100,
                decreases values@.len() - j,
            {
                let ghost before = out@;
                out.push(values[j] as u8);
                assert(values@.take(j as int + 1).map_values(|x: u64| x as u8) =~= before.push(values@[j as int] as u8));
                j = j + 1;
            }
            assert(values@.take(j as int) =~= values@);
            assert(xs.map_values(|x: int| x as u8) =~= out@);
            Ok(Variant::Int8List(ListVariant(out)))
        },
        ListHeaderKind::Int32 => {
            let mut out: Vec<u32> = Vec::new();
            let mut j: usize = 0;
            while j < values.len()
                invariant
                    j <= values@.len(),
                    out@ =~= values@.take(j as int).map_values(|x: u64| x as u32),
                    forall|k: int| 0 <= k < values@.len() ==> #[trigger] values@[k] < 0x1_0000_0000,
                decreases values@.len() - j,
            {
                let ghost before = out@;
                out.push(values[j] as u32);
                assert(values@.take(j as int + 1).map_values(|x: u64| x as u32) =~= before.push(values@[j as int] as u32));
                j = j + 1;
            }
            assert(values@.take(j as int) =~= values@);
            assert(xs.map_values(|x: int| x as u32) =~= out@);
            Ok(Variant::Int32List(ListVariant(out)))
        },
        ListHeaderKind::Int64 => {
            assert(xs.map_values(|x: int| x as u64) =~= values@);
            Ok(Variant::Int64List(ListVariant(values)))
        },
    }
}

pub proof fn lemma_items_convertible(items: Seq<VariantView>, n: int, i: int)
    requires
        0 <= i < n <= items.len(),
        items_convertible(items, n),
    ensures
        convertible(items[i]),
    decreases n,
{
    if i < n - 1 {
        lemma_items_convertible(items, n - 1, i);
    }
}

pub proof fn lemma_fields_convertible(fields: Seq<(Span, Seq<PieceView>, VariantView)>, n: int, i: int)
    requires
        0 <= i < n <= fields.len(),
        fields_convertible(fields, n),
    ensures
        convertible(fields[i].2),
        no_named(fields[i].1),
    decreases n,
{
    if i < n - 1 {
        lemma_fields_convertible(fields, n - 1, i);
    }
}

/// The facts about node `k` of a sequence that its conversion needs.
pub proof fn lemma_item_step(items: Seq<VariantView>, fl: Seq<Option<u64>>, n: int, k: int)
    requires
        0 <= k < n == items.len(),
        items_convertible(items, n),
        fl.len() == items_floats(items, n).len(),
    ensures
        convertible(items[k]),
        items_floats(items, k + 1).len() == items_floats(items, k).len() + floats_in(items[k]).len(),
        items_floats(items, k + 1).len() <= fl.len(),
        item_results(items, fl, n).len() == n,
        item_results(items, fl, n)[k] == spec_convert(
            items[k],
            fl.subrange(items_floats(items, k).len() as int, items_floats(items, k + 1).len() as int),
        ),
{
    lemma_items_convertible(items, n, k);
    lemma_items_floats_prefix(items, k + 1, n);
    lemma_item_results(items, fl, n);
}

pub proof fn lemma_field_step(fields: Seq<(Span, Seq<PieceView>, VariantView)>, fl: Seq<Option<u64>>, n: int, k: int)
    requires
        0 <= k < n == fields.len(),
        fields_convertible(fields, n),
        fl.len() == fields_floats(fields, n).len(),
    ensures
        convertible(fields[k].2),
        no_named(fields[k].1),
        fields_floats(fields, k + 1).len() == fields_floats(fields, k).len() + floats_in(fields[k].2).len(),
        fields_floats(fields, k + 1).len() <= fl.len(),
        field_results(fields, fl, n).len() == n,
        field_results(fields, fl, n)[k] == spec_convert(
            fields[k].2,
            fl.subrange(fields_floats(fields, k).len() as int, fields_floats(fields, k + 1).len() as int),
        ),
{
    lemma_fields_convertible(fields, n, k);
    lemma_fields_floats_prefix(fields, k + 1, n);
    lemma_field_results(fields, fl, n);
}

/// No piece of the string is a named escape.
fn has_no_named(content: &Vec<StringContentToken>) -> (r: bool)
    ensures
        r == no_named(pieces_view(content@)),
{
    let ghost pv = pieces_view(content@);
    let mut i: usize = 0;
    while i < content.len()
        invariant
            i <= content@.len(),
            pv == pieces_view(content@),
            forall|j: int| 0 <= j < i ==> !(#[trigger] pv[j] is Named),
        decreases content@.len() - i,
    {
        assert(pv[i as int] == content@[i as int]@);
        if let StringContentToken::Named(_) = &content[i] {
            return false;
        }
        i = i + 1;
    }
    true
}

/// The node converts directly to an element of a list of tag `t`.
fn fits(v: &parse::Variant, t: TypeTag) -> (r: bool)
    ensures
        r == fits_tag(v@, t),
{
    match t {
        TypeTag::Int8 | TypeTag::Int16 | TypeTag::Int32 | TypeTag::Int64 => matches!(v, parse::Variant::Int(_)),
        TypeTag::Float32 | TypeTag::Float64 => matches!(v, parse::Variant::Float(_)),
        TypeTag::String => matches!(v, parse::Variant::String(_)),
        TypeTag::Int8List | TypeTag::Int32List | TypeTag::Int64List => matches!(v, parse::Variant::IntList(_)),
        TypeTag::List => matches!(v, parse::Variant::List(_)),
        _ => true,
    }
}

/// Whether the syntax tree converts without reaching a case that conversion does not
/// support (see [`convertible`]); [`convert_variant`] requires it.
pub fn is_convertible(variant: &parse::Variant) -> (r: bool)
    ensures
        r == convertible(variant@),
    decreases variant,
{
    match variant {
        parse::Variant::String(string) => has_no_named(&string.content),
        parse::Variant::List(l) => {
            proof {
                lemma_list_view(*l);
            }
            let ghost iv = variants_view(l.list@);
            if !items_are_convertible(&l.list) {
                return false;
            }
            let t = l.type_tag();
            let mut i: usize = 0;
            while i < l.list.len()
                invariant
                    i <= l.list@.len(),
                    iv == variants_view(l.list@),
                    variant@ == VariantView::List(l.span, iv),
                    items_convertible(iv, iv.len() as int),
                    t == list_tag(iv),
                    forall|j: int| 0 <= j < i ==> fits_tag(#[trigger] iv[j], t),
                decreases l.list@.len() - i,
            {
                assert(iv[i as int] == l.list@[i as int]@);
                if !fits(&l.list[i], t) {
                    return false;
                }
                i = i + 1;
            }
            true
        },
        parse::Variant::Operation(op) => {
            proof {
                lemma_operation_view(**op);
            }
            items_are_convertible(&op.arguments)
        },
        parse::Variant::Compound(c) => {
            proof {
                lemma_compound_view(*c);
            }
            fields_are_convertible(&c.fields)
        },
        _ => true,
    }
}

fn items_are_convertible(items: &Vec<parse::Variant>) -> (r: bool)
    ensures
        r == items_convertible(variants_view(items@), items@.len() as int),
    decreases items,
{
    let ghost iv = variants_view(items@);
    let mut i: usize = 0;
    while i < items.len()
        invariant
            i <= items@.len(),
            iv == variants_view(items@),
            items_convertible(iv, i as int),
        decreases items@.len() - i,
    {
        assert(iv[i as int] == items@[i as int]@);
        if !is_convertible(&items[i]) {
            proof {
                if items_convertible(iv, items@.len() as int) {
                    lemma_items_convertible(iv, items@.len() as int, i as int);
                }
            }
            return false;
        }
        i = i + 1;
    }
    true
}

fn fields_are_convertible(fields: &Vec<parse::Field>) -> (r: bool)
    ensures
        r == fields_convertible(fields_view(fields@), fields@.len() as int),
    decreases fields,
{
    let ghost fv = fields_view(fields@);
    let mut i: usize = 0;
    while i < fields.len()
        invariant
            i <= fields@.len(),
            fv == fields_view(fields@),
            fields_convertible(fv, i as int),
        decreases fields@.len() - i,
    {
        assert(fv[i as int].2 == variant_view(fields@[i as int].value));
        assert(fv[i as int].1 == pieces_view(fields@[i as int].key.content@));
        if !has_no_named(&fields[i].key.content) || !is_convertible(&fields[i].value) {
            proof {
                if fields_convertible(fv, fields@.len() as int) {
                    lemma_fields_convertible(fv, fields@.len() as int, i as int);
                }
            }
            return false;
        }
        i = i + 1;
    }
    true
}

/// The value of a syntax tree; `floats` holds the values of its floating-point literals, in
/// the order in which [`float_literals`] gives them (`None` for one too large for its type).
pub fn convert_variant<'src>(variant: parse::Variant<'src>, floats: &[Option<u64>]) -> (r: Result<Variant, Error<'src>>)
    requires
        convertible(variant@),
        floats@.len() == floats_in(variant@).len(),
    ensures
        converted(r) == spec_convert(variant@, floats@),
    decreases variant, 0int,
{
    match variant {
        parse::Variant::Int(integer) => convert_int(integer),
        parse::Variant::Float(float) => convert_float(float, floats),
        parse::Variant::String(string) => Ok(Variant::String(convert_string(&string))),
        parse::Variant::Compound(compound) => {
            proof {
                lemma_compound_view(compound);
            }
            match convert_compound(compound, floats) {
                Ok(c) => Ok(Variant::Compound(c)),
                Err(e) => Err(e),
            }
        },
        parse::Variant::List(list) => {
            proof {
                lemma_list_view(list);
            }
            match convert_list(list, floats) {
                Ok(l) => Ok(Variant::List(l)),
                Err(e) => Err(e),
            }
        },
        parse::Variant::IntList(int_list) => convert_int_list(int_list),
        parse::Variant::Operation(operation) => {
            proof {
                lemma_operation_view(*operation);
            }
            convert_operation(*operation, floats)
        },
        parse::Variant::Bool(_, value) => Ok(Variant::Int8(if value {
            1
        } else {
            0
        })),
    }
}

/// Converts a node whose floating-point values stand at `off` in `floats`.
fn convert_item<'src>(item: parse::Variant<'src>, floats: &[Option<u64>], off: usize, count: usize) -> (r: Result<
    Variant,
    Error<'src>,
>)
    requires
        convertible(item@),
        count == floats_in(item@).len(),
        off + count <= floats@.len(),
    ensures
        converted(r) == spec_convert(item@, floats@.subrange(off as int, off + count)),
    decreases item, 1int,
{
    let total = floats.len();
    assert(off + count <= total);
    convert_variant(item, slice_subrange(floats, off, off + count))
}

/// The value of a list: its elements converted, under the tag that [`list_tag`] gives.
pub fn convert_list<'src>(list: parse::List<'src>, floats: &[Option<u64>]) -> (r: Result<List, Error<'src>>)
    requires
        items_convertible(variants_view(list.list@), list.list@.len() as int),
        forall|i: int|
            0 <= i < list.list@.len() ==> fits_tag(
                #[trigger] variants_view(list.list@)[i],
                list_tag(variants_view(list.list@)),
            ),
        floats@.len() == items_floats(variants_view(list.list@), list.list@.len() as int).len(),
    ensures
        match r {
            Ok(l) => spec_list(variants_view(list.list@), floats@) == Ok::<NbtValue, ConvErrorView>(list_model(l)),
            Err(e) => spec_list(variants_view(list.list@), floats@) == Err::<NbtValue, ConvErrorView>(e@),
        },
    decreases list, 0int,
{
    let tag = list.type_tag();
    let ghost orig = list.list@;
    let ghost iv = variants_view(orig);
    let ghost n = orig.len() as int;
    let ghost rs = item_results(iv, floats@, n);
    let ghost es = list_elements(tag, iv, rs);
    let total = list.list.len();
    let flen = floats.len();
    let mut items = list.list;
    let mut elems: Vec<Variant> = Vec::new();
    let mut off: usize = 0;
    let mut k: usize = 0;
    assert(es.take(0) =~= Seq::<Result<NbtValue, ConvErrorView>>::empty());
    assert(values_of(elems@) =~= Seq::<NbtValue>::empty());
    while items.len() > 0
        invariant
            total == n,
            n == orig.len(),
            k + items@.len() == n,
            items@ == orig.subrange(k as int, n),
            orig == list.list@,
            iv == variants_view(orig),
            tag == list_tag(iv),
            rs == item_results(iv, floats@, n),
            es == list_elements(tag, iv, rs),
            items_convertible(iv, n),
            forall|i: int| 0 <= i < n ==> fits_tag(#[trigger] iv[i], tag),
            floats@.len() == items_floats(iv, n).len(),
            floats@.len() == flen,
            off == items_floats(iv, k as int).len(),
            collect(es.take(k as int)) == Ok::<Seq<NbtValue>, ConvErrorView>(values_of(elems@)),
            forall|i: int| 0 <= i < elems@.len() ==> (#[trigger] elems@[i])@.tag() == tag,
            elems@.len() == k,
        decreases items@.len(),
    {
        let item = items.remove(0);
        proof {
            assert(item == orig[k as int]);
            assert(iv[k as int] == item@);
            lemma_item_step(iv, floats@, n, k as int);
            assert(es.take(k as int + 1).drop_last() =~= es.take(k as int));
        }
        let is_compound = matches!(item, parse::Variant::Compound(_));
        let count = float_literals(&item).len();
        let ghost sub = floats@.subrange(off as int, off + count);
        proof {
            lemma_convert_tag(iv[k as int], sub);
        }
        let x = match convert_item(item, floats, off, count) {
            Ok(x) => x,
            Err(e) => {
                proof {
                    lemma_collect_prefix(es, k as int + 1);
                }
                return Err(e);
            },
        };
        let ghost x0 = x@;
        let x = if tag == TypeTag::Compound && !is_compound {
            let mut c = Compound::new();
            let empty = String::new();
            let ghost e = empty@;
            c.insert(empty, x);
            proof {
                assert(e =~= Seq::<char>::empty());
                assert(c@ =~= seq![(Seq::<char>::empty(), x0)]);
            }
            Variant::Compound(c)
        } else {
            x
        };
        proof {
            assert(es[k as int] == Ok::<NbtValue, ConvErrorView>(x@));
        }
        let ghost before = elems@;
        elems.push(x);
        proof {
            assert(values_of(elems@) =~= values_of(before).push(x@));
        }
        off = off + count;
        k = k + 1;
        assert(items@ =~= orig.subrange(k as int, n));
    }
    proof {
        assert(es.take(k as int) =~= es);
    }
    Ok(pack_list(tag, elems))
}

/// The four big-endian words of sixteen bytes, as `uuid(..)` stores a UUID.
pub fn big_endian_words(bytes: &[u8; 16]) -> (r: Vec<u32>)
    ensures
        r@ == words(bytes@),
{
    let mut r: Vec<u32> = Vec::new();
    let mut i: usize = 0;
    while i < 4
        invariant
            i <= 4,
            bytes@.len() == 16,
            r@ =~= words(bytes@).take(i as int),
        decreases 4 - i,
    {
        let w = (bytes[4 * i] as u32) * 0x100_0000 + (bytes[4 * i + 1] as u32) * 0x1_0000 + (bytes[4 * i + 2] as u32)
            * 0x100 + (bytes[4 * i + 3] as u32);
        r.push(w);
        i = i + 1;
    }
    assert(words(bytes@).take(4) =~= words(bytes@));
    r
}

/// Converts the arguments of an operation, in order; the first error stops it.
fn convert_arguments<'src>(arguments: Vec<parse::Variant<'src>>, floats: &[Option<u64>]) -> (r: Result<
    Vec<Variant>,
    Error<'src>,
>)
    requires
        items_convertible(variants_view(arguments@), arguments@.len() as int),
        floats@.len() == items_floats(variants_view(arguments@), arguments@.len() as int).len(),
    ensures
        match r {
            Ok(xs) => collect(item_results(variants_view(arguments@), floats@, arguments@.len() as int)) == Ok::<
                Seq<NbtValue>,
                ConvErrorView,
            >(values_of(xs@)),
            Err(e) => collect(item_results(variants_view(arguments@), floats@, arguments@.len() as int)) == Err::<
                Seq<NbtValue>,
                ConvErrorView,
            >(e@),
        },
    decreases arguments, 0int,
{
    let ghost orig = arguments@;
    let ghost iv = variants_view(orig);
    let ghost n = orig.len() as int;
    let ghost rs = item_results(iv, floats@, n);
    let total = arguments.len();
    let flen = floats.len();
    let mut items = arguments;
    let mut out: Vec<Variant> = Vec::new();
    let mut off: usize = 0;
    let mut k: usize = 0;
    proof {
        lemma_item_results(iv, floats@, n);
    }
    assert(rs.take(0) =~= Seq::<Result<NbtValue, ConvErrorView>>::empty());
    assert(values_of(out@) =~= Seq::<NbtValue>::empty());
    while items.len() > 0
        invariant
            total == n,
            n == orig.len(),
            k + items@.len() == n,
            items@ == orig.subrange(k as int, n),
            orig == arguments@,
            iv == variants_view(orig),
            rs == item_results(iv, floats@, n),
            rs.len() == n,
            items_convertible(iv, n),
            floats@.len() == items_floats(iv, n).len(),
            floats@.len() == flen,
            off == items_floats(iv, k as int).len(),
            collect(rs.take(k as int)) == Ok::<Seq<NbtValue>, ConvErrorView>(values_of(out@)),
        decreases items@.len(),
    {
        let item = items.remove(0);
        proof {
            assert(item == orig[k as int]);
            assert(iv[k as int] == item@);
            lemma_item_step(iv, floats@, n, k as int);
            assert(rs.take(k as int + 1).drop_last() =~= rs.take(k as int));
        }
        let count = float_literals(&item).len();
        let x = match convert_item(item, floats, off, count) {
            Ok(x) => x,
            Err(e) => {
                proof {
                    lemma_collect_prefix(rs, k as int + 1);
                }
                return Err(e);
            },
        };
        let ghost before = out@;
        out.push(x);
        proof {
            assert(values_of(out@) =~= values_of(before).push(x@));
        }
        off = off + count;
        k = k + 1;
        assert(items@ =~= orig.subrange(k as int, n));
    }
    proof {
        assert(rs.take(k as int) =~= rs);
    }
    Ok(out)
}

/// The value of an operation: its arguments converted, then `bool` or `uuid` applied.
pub fn convert_operation<'src>(operation: parse::Operation<'src>, floats: &[Option<u64>]) -> (r: Result<Variant, Error<'src>>)
    requires
        items_convertible(variants_view(operation.arguments@), operation.arguments@.len() as int),
        floats@.len() == items_floats(variants_view(operation.arguments@), operation.arguments@.len() as int).len(),
    ensures
        converted(r) == spec_convert(
            VariantView::Operation(operation.span, operation.kind_span, operation.kind, variants_view(operation.arguments@)),
            floats@,
        ),
    decreases operation, 0int,
{
    let sp = operation.span;
    let ksp = operation.kind_span;
    let kind = operation.kind;
    let arguments = match convert_arguments(operation.arguments, floats) {
        Ok(xs) => xs,
        Err(e) => {
            return Err(Error::ArgumentError { operation_span: sp, operation_kind_span: ksp, error: Box::new(e) });
        },
    };
    if arguments.len() != 1 {
        let found_arity = arguments.len();
        return Err(
            Error::OperationArityError {
                operation_span: sp,
                operation_kind: kind,
                operation_kind_span: ksp,
                expected_arity: 1,
                found_arity,
            },
        );
    }
    let outcome: Option<Result<Variant, Error<'src>>> = match (kind, &arguments[0]) {
        (OperationKind::Bool, Variant::Int8(x)) => Some(Ok(Variant::Int8(if *x == 0 { 0 } else { 1 }))),
        (OperationKind::Bool, Variant::Int16(x)) => Some(Ok(Variant::Int8(if *x == 0 { 0 } else { 1 }))),
        (OperationKind::Bool, Variant::Int32(x)) => Some(Ok(Variant::Int8(if *x == 0 { 0 } else { 1 }))),
        (OperationKind::Bool, Variant::Int64(x)) => Some(Ok(Variant::Int8(if *x == 0 { 0 } else { 1 }))),
        (OperationKind::Uuid, Variant::String(string)) => match uuid_try_parse(string.as_str()) {
            Ok(bytes) => Some(Ok(Variant::Int32List(ListVariant(big_endian_words(&bytes))))),
            Err(error) => Some(Err(Error::ParseUuidError { operation_span: sp, operation_kind_span: ksp, error })),
        },
        _ => None,
    };
    match outcome {
        Some(r) => r,
        None => Err(
            Error::OperationTypeError { operation_span: sp, operation_kind: kind, operation_kind_span: ksp, arguments },
        ),
    }
}

/// A field waiting in its group: its index among the fields, its value, and where its
/// floating-point values start and how many there are.
pub type GroupItem<'src> = (usize, parse::Variant<'src>, usize, usize);

pub open spec fn groups_view(gs: Seq<(String, Vec<GroupItem>)>) -> Seq<(Seq<char>, Seq<int>)> {
    gs.map_values(|g: (String, Vec<GroupItem>)| (g.0@, g.1@.map_values(|it: GroupItem| it.0 as int)))
}

/// The item stands for field `it.0` of `fields`, whose floating-point values `fv` locates.
pub open spec fn item_ok(it: GroupItem, fields: Seq<parse::Field>, fv: Seq<(Span, Seq<PieceView>, VariantView)>) -> bool {
    &&& 0 <= it.0 < fields.len()
    &&& it.1 == fields[it.0 as int].value
    &&& it.2 == fields_floats(fv, it.0 as int).len()
    &&& it.3 == floats_in(fv[it.0 as int].2).len()
}

pub open spec fn groups_ok(gs: Seq<(String, Vec<GroupItem>)>, fields: Seq<parse::Field>, fv: Seq<(Span, Seq<PieceView>, VariantView)>) -> bool {
    forall|g: int, p: int|
        0 <= g < gs.len() && 0 <= p < gs[g].1@.len() ==> #[trigger] item_ok(gs[g].1@[p], fields, fv)
}

pub open spec fn groups_nonempty(gs: Seq<(String, Vec<GroupItem>)>) -> bool {
    forall|g: int| 0 <= g < gs.len() ==> (#[trigger] gs[g]).1@.len() >= 1
}

pub open spec fn entries_view(es: Seq<(String, Variant)>) -> Seq<(Seq<char>, NbtValue)> {
    es.map_values(|e: (String, Variant)| (e.0@, e.1@))
}

pub proof fn lemma_group_place_range(gs: Seq<(Seq<char>, Seq<int>)>, k: Seq<char>)
    ensures
        0 <= group_place(gs, k) <= gs.len(),
    decreases gs.len(),
{
    if gs.len() > 0 && !key_lt(gs.last().0, k) {
        lemma_group_place_range(gs.drop_last(), k);
    }
}

/// The place of `key` among the groups, as [`group_place`] gives it.
fn find_group(groups: &Vec<(String, Vec<GroupItem>)>, key: &String) -> (p: usize)
    ensures
        p as int == group_place(groups_view(groups@), key@),
{
    let ghost gv = groups_view(groups@);
    let mut i: usize = groups.len();
    assert(gv.take(i as int) =~= gv);
    while i > 0 && !key_less(&groups[i - 1].0, key)
        invariant
            i <= groups@.len(),
            gv == groups_view(groups@),
            gv.len() == groups@.len(),
            group_place(gv, key@) == group_place(gv.take(i as int), key@),
        decreases i,
    {
        proof {
            let t = gv.take(i as int);
            assert(t.drop_last() =~= gv.take(i - 1));
            assert(t.last().0 == groups@[i - 1].0@);
        }
        i = i - 1;
    }
    proof {
        if i > 0 {
            let t = gv.take(i as int);
            assert(t.last().0 == groups@[i - 1].0@);
        }
    }
    i
}

/// Puts `item`, which stands for one of `fields`, into the group of `key`; the group is made
/// where there is none.
fn add_to_group<'src>(
    groups: &mut Vec<(String, Vec<GroupItem<'src>>)>,
    key: String,
    item: GroupItem<'src>,
    Ghost(fields): Ghost<Seq<parse::Field<'src>>>,
    Ghost(fv): Ghost<Seq<(Span, Seq<PieceView>, VariantView)>>,
)
    requires
        groups_ok(old(groups)@, fields, fv),
        groups_nonempty(old(groups)@),
        item_ok(item, fields, fv),
    ensures
        groups_view(final(groups)@) == insert_group(groups_view(old(groups)@), key@, item.0 as int),
        groups_ok(final(groups)@, fields, fv),
        groups_nonempty(final(groups)@),
{
    let ghost old_groups = groups@;
    let ghost gv = groups_view(groups@);
    let p = find_group(groups, &key);
    proof {
        lemma_group_place_range(gv, key@);
    }
    if p < groups.len() && groups[p].0 == key {
        let mut group = groups.remove(p);
        let ghost gp = group;
        group.1.push(item);
        groups.insert(p, group);
        proof {
            assert(groups@ =~= old_groups.update(p as int, group));
            assert(group.1@.map_values(|it: GroupItem| it.0 as int) =~= gp.1@.map_values(|it: GroupItem| it.0 as int).push(
                item.0 as int,
            ));
            assert(gv[p as int] == (gp.0@, gp.1@.map_values(|it: GroupItem| it.0 as int)));
            assert(groups_view(groups@) =~= gv.update(p as int, (key@, gv[p as int].1.push(item.0 as int))));
            assert forall|g: int, q: int| 0 <= g < groups@.len() && 0 <= q < groups@[g].1@.len() implies #[trigger] item_ok(
                groups@[g].1@[q],
                fields,
                fv,
            ) by {
                if g == p as int {
                    if q < gp.1@.len() {
                        assert(groups@[g].1@[q] == old_groups[g].1@[q]);
                    }
                } else {
                    assert(groups@[g].1@[q] == old_groups[g].1@[q]);
                }
            }
        }
    } else {
        let items = vec![item];
        groups.insert(p, (key, items));
        proof {
            assert(items@.map_values(|it: GroupItem| it.0 as int) =~= seq![item.0 as int]);
            assert(groups_view(groups@) =~= gv.insert(p as int, (key@, seq![item.0 as int])));
            assert forall|g: int, q: int| 0 <= g < groups@.len() && 0 <= q < groups@[g].1@.len() implies #[trigger] item_ok(
                groups@[g].1@[q],
                fields,
                fv,
            ) by {
                if g < p as int {
                    assert(groups@[g] == old_groups[g]);
                } else if g > p as int {
                    assert(groups@[g] == old_groups[g - 1]);
                }
            }
        }
    }
}

/// Moves the values out of a group's items.
fn take_values<'src>(items: Vec<GroupItem<'src>>) -> (r: Vec<parse::Variant<'src>>)
    ensures
        r@ == items@.map_values(|it: GroupItem<'src>| it.1),
{
    let ghost its = items@;
    let total = items.len();
    let mut items = items;
    let mut values: Vec<parse::Variant<'src>> = Vec::new();
    let mut q: usize = 0;
    while items.len() > 0
        invariant
            total == its.len(),
            q + items@.len() == its.len(),
            items@ == its.subrange(q as int, its.len() as int),
            values@ =~= its.take(q as int).map_values(|it: GroupItem<'src>| it.1),
        decreases items@.len(),
    {
        let it = items.remove(0);
        assert(it == its[q as int]);
        values.push(it.1);
        assert(its.take(q as int + 1).map_values(|it: GroupItem<'src>| it.1) =~= its.take(q as int).map_values(
            |it: GroupItem<'src>| it.1,
        ).push(it.1));
        q = q + 1;
        assert(items@ =~= its.subrange(q as int, its.len() as int));
    }
    assert(its.take(q as int) =~= its);
    values
}

/// Groups the fields by key, in the order of the keys.
fn group_fields<'src>(fields: Vec<parse::Field<'src>>, floats: &[Option<u64>]) -> (groups: Vec<(String, Vec<GroupItem<'src>>)>)
    requires
        fields_convertible(fields_view(fields@), fields@.len() as int),
        floats@.len() == fields_floats(fields_view(fields@), fields@.len() as int).len(),
    ensures
        groups_view(groups@) == build_groups(
            keys_of(fields_view(fields@)),
            fields@.len() as int,
        ),
        groups_ok(groups@, fields@, fields_view(fields@)),
        groups_nonempty(groups@),
{
    let ghost orig = fields@;
    let ghost fv = fields_view(orig);
    let ghost n = orig.len() as int;
    let ghost keys = keys_of(fv);
    let total = fields.len();
    let flen = floats.len();
    let mut fields = fields;
    let mut groups: Vec<(String, Vec<GroupItem<'src>>)> = Vec::new();
    let mut off: usize = 0;
    let mut j: usize = 0;
    assert(groups_view(groups@) =~= Seq::<(Seq<char>, Seq<int>)>::empty());
    while fields.len() > 0
        invariant
            total == n,
            n == orig.len(),
            j + fields@.len() == n,
            fields@ == orig.subrange(j as int, n),
            fv == fields_view(orig),
            keys == keys_of(fv),
            fields_convertible(fv, n),
            floats@.len() == fields_floats(fv, n).len(),
            floats@.len() == flen,
            off == fields_floats(fv, j as int).len(),
            groups_view(groups@) == build_groups(keys, j as int),
            groups_ok(groups@, orig, fv),
            groups_nonempty(groups@),
        decreases fields@.len(),
    {
        let field = fields.remove(0);
        proof {
            assert(field == orig[j as int]);
            assert(fv[j as int] == (field.key.span, pieces_view(field.key.content@), field.value@));
            lemma_field_step(fv, floats@, n, j as int);
        }
        let key = convert_string(&field.key);
        let count = float_literals(&field.value).len();
        let item: GroupItem<'src> = (j, field.value, off, count);
        proof {
            assert(keys[j as int] == key@);
        }
        add_to_group(&mut groups, key, item, Ghost(orig), Ghost(fv));
        off = off + count;
        j = j + 1;
        assert(fields@ =~= orig.subrange(j as int, n));
    }
    groups
}

/// The value of a compound: the fields grouped by key in the order of the keys; the first key
/// in that order that has more than one field, or whose value does not convert, gives the
/// error.
pub fn convert_compound<'src>(compound: parse::Compound<'src>, floats: &[Option<u64>]) -> (r: Result<Compound, Error<'src>>)
    requires
        fields_convertible(fields_view(compound.fields@), compound.fields@.len() as int),
        floats@.len() == fields_floats(fields_view(compound.fields@), compound.fields@.len() as int).len(),
    ensures
        match r {
            Ok(c) => spec_compound(compound.span, fields_view(compound.fields@), floats@) == Ok::<
                Seq<(Seq<char>, NbtValue)>,
                ConvErrorView,
            >(c@),
            Err(e) => spec_compound(compound.span, fields_view(compound.fields@), floats@) == Err::<
                Seq<(Seq<char>, NbtValue)>,
                ConvErrorView,
            >(e@),
        },
    decreases compound, 0int,
{
    let sp = compound.span;
    let ghost orig = compound.fields@;
    let ghost fv = fields_view(orig);
    let ghost n = orig.len() as int;
    let ghost keys = keys_of(fv);
    let mut groups = group_fields(compound.fields, floats);
    let ghost gs = groups_view(groups@);
    let ghost all = groups@;
    let ghost rs = field_results(fv, floats@, n);
    let total = groups.len();
    let mut entries: Vec<(String, Variant)> = Vec::new();
    let mut g: usize = 0;
    assert(entries_view(entries@) =~= Seq::<(Seq<char>, NbtValue)>::empty());
    while groups.len() > 0
        invariant
            total == all.len(),
            g + groups@.len() == all.len(),
            groups@ == all.subrange(g as int, all.len() as int),
            gs == groups_view(all),
            gs == build_groups(keys_of(fv), n),
            sp == compound.span,
            orig == compound.fields@,
            n == orig.len(),
            fv == fields_view(orig),
            fields_convertible(fv, n),
            floats@.len() == fields_floats(fv, n).len(),
            groups_ok(all, orig, fv),
            groups_nonempty(all),
            rs == field_results(fv, floats@, n),
            group_entries(gs, rs, fv, sp, g as int) == Ok::<Seq<(Seq<char>, NbtValue)>, ConvErrorView>(entries_view(entries@)),
        decreases groups@.len(),
    {
        let group = groups.remove(0);
        proof {
            assert(group == all[g as int]);
            assert(gs[g as int] == (group.0@, group.1@.map_values(|it: GroupItem| it.0 as int)));
            assert(group.1@.len() >= 1);
        }
        let key = group.0;
        let mut items = group.1;
        if items.len() > 1 {
            let ghost its = items@;
            let values = take_values(items);
            proof {
                let idx = gs[g as int].1;
                assert forall|q: int| 0 <= q < its.len() implies #[trigger] variants_view(values@)[q] == field_values(
                    fv,
                    idx,
                )[q] by {
                    assert(item_ok(all[g as int].1@[q], orig, fv));
                }
                assert(variants_view(values@) =~= field_values(fv, idx));
                assert(group_entries(gs, rs, fv, sp, g as int + 1) is Err);
                lemma_group_entries_prefix(gs, rs, fv, sp, g as int + 1);
            }
            return Err(Error::DuplicateField { key, values, compound_span: sp });
        }
        let ghost its = items@;
        let it = items.remove(0);
        proof {
            assert(it == its[0]);
            assert(gs[g as int].1[0] == it.0 as int);
            assert(gs[g as int].1.len() == 1);
            assert(item_ok(all[g as int].1@[0], orig, fv));
            lemma_field_step(fv, floats@, n, it.0 as int);
            assert(fv[it.0 as int].2 == it.1@);
        }
        let x = match convert_item(it.1, floats, it.2, it.3) {
            Ok(x) => x,
            Err(e) => {
                proof {
                    lemma_group_entries_prefix(gs, rs, fv, sp, g as int + 1);
                }
                return Err(e);
            },
        };
        let ghost before = entries@;
        entries.push((key, x));
        proof {
            assert(entries_view(entries@) =~= entries_view(before).push((key@, x@)));
        }
        g = g + 1;
        assert(groups@ =~= all.subrange(g as int, all.len() as int));
    }
    proof {
        assert(gs.len() == g);
        assert(compound_model(Compound(entries)) =~= entries_view(entries@));
        crate::snbt::read::convert::wellformed::lemma_build_groups(keys_of(fv), n);
        crate::snbt::read::convert::wellformed::lemma_group_entries(gs, rs, fv, sp, g as int);
        let es = entries_view(entries@);
        assert forall|a: int, b: int| 0 <= a < b < es.len() implies key_lt(#[trigger] es[a].0, #[trigger] es[b].0) by {
            assert(es[a].0 == gs[a].0 && es[b].0 == gs[b].0);
        }
    }
    let c = Compound(entries);
    proof {
        assert(c@ =~= entries_view(entries@));
    }
    Ok(c)
}

/// An error for the first `k` groups is the error for them all.
pub proof fn lemma_group_entries_prefix(
    gs: Seq<(Seq<char>, Seq<int>)>,
    rs: Seq<Result<NbtValue, ConvErrorView>>,
    fields: Seq<(Span, Seq<PieceView>, VariantView)>,
    sp: Span,
    k: int,
)
    requires
        0 <= k <= gs.len(),
        group_entries(gs, rs, fields, sp, k) is Err,
    ensures
        group_entries(gs, rs, fields, sp, gs.len() as int) == group_entries(gs, rs, fields, sp, k),
    decreases gs.len() - k,
{
    if k < gs.len() {
        lemma_group_entries_prefix(gs, rs, fields, sp, k + 1);
    }
}

} // verus!
