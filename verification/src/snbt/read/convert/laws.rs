//! What the conversion of operations and compounds gives, stated field by field.
use vstd::prelude::*;
use vstd::arithmetic::div_mod::lemma_fundamental_div_mod_converse;
use crate::NbtValue;
use crate::binary::TypeTag;
use crate::snbt::read::Span;
use crate::snbt::read::parse::{OperationKind, VariantView, spec_token_variant, ListHeader, ListHeaderKind};
use crate::snbt::read::tokenize::number::{IntType, IntView};
use crate::snbt::read::convert::number::spec_int_value;
use crate::snbt::read::convert::int_list_values;
use crate::snbt::read::tokenize::{TokenView, TokenEntry};
use crate::compound::{key_lt, lemma_key_lt_irreflexive, entries_sorted, lookup, lemma_lookup_at};
use crate::snbt::read::tokenize::PieceView;
use crate::snbt::read::convert::wellformed::{
    lemma_build_groups, lemma_group_place_sorted, lemma_group_entries,
};
use crate::snbt::read::convert::{
    build_groups, group_place, insert_group, group_entries, field_results, fields_floats,
    field_values, keys_of, lemma_field_results,
    ConvErrorView, spec_convert, collect, item_results, list_tag, type_tag, list_elements, list_element, items_floats, truth, uuid_bytes, words,
    lemma_item_results, lemma_collect_prefix,
};

verus! {

/// Results that are all values collect to those values.
pub proof fn lemma_collect_all_ok(rs: Seq<Result<NbtValue, ConvErrorView>>)
    requires
        forall|i: int| 0 <= i < rs.len() ==> #[trigger] rs[i] is Ok,
    ensures
        collect(rs) is Ok,
        collect(rs)->Ok_0.len() == rs.len(),
        forall|i: int| 0 <= i < rs.len() ==> #[trigger] collect(rs)->Ok_0[i] == rs[i]->Ok_0,
    decreases rs.len(),
{
    if rs.len() > 0 {
        let d = rs.drop_last();
        assert forall|i: int| 0 <= i < d.len() implies #[trigger] d[i] is Ok by {
            assert(d[i] == rs[i]);
        }
        lemma_collect_all_ok(d);
        assert(rs[rs.len() - 1] is Ok);
        assert forall|i: int| 0 <= i < rs.len() implies #[trigger] collect(rs)->Ok_0[i] == rs[i]->Ok_0 by {
            if i < rs.len() - 1 {
                assert(d[i] == rs[i]);
            }
        }
    }
}

/// The first error among results is the error of them all.
pub proof fn lemma_collect_first_error(rs: Seq<Result<NbtValue, ConvErrorView>>, i: int)
    requires
        0 <= i < rs.len(),
        rs[i] is Err,
        forall|j: int| 0 <= j < i ==> #[trigger] rs[j] is Ok,
    ensures
        collect(rs) == Err::<Seq<NbtValue>, ConvErrorView>(rs[i]->Err_0),
{
    let pre = rs.take(i);
    assert forall|j: int| 0 <= j < pre.len() implies #[trigger] pre[j] is Ok by {
        assert(pre[j] == rs[j]);
    }
    lemma_collect_all_ok(pre);
    assert(rs.take(i + 1).drop_last() =~= pre);
    lemma_collect_prefix(rs, i + 1);
}

/// The floating-point values that belong to argument `i` of `args`.
pub open spec fn argument_floats(args: Seq<VariantView>, fl: Seq<Option<u64>>, i: int) -> Seq<Option<u64>> {
    fl.subrange(items_floats(args, i).len() as int, items_floats(args, i + 1).len() as int)
}

/// An operation converts its arguments in order. The first argument that fails gives an
/// argument error around its error. Where all convert, an operation with other than one
/// argument gives an arity error that expects one and counts those found; `bool` of an
/// integer gives the byte one, or zero for zero; `uuid` of a string gives the four big-endian
/// words of the UUID's bytes, or a UUID error where the string spells none; any other
/// argument gives a type error that carries the converted arguments.
pub proof fn law_operation_conversion(
    sp: Span,
    ksp: Span,
    kind: OperationKind,
    args: Seq<VariantView>,
    fl: Seq<Option<u64>>,
)
    ensures
        ({
            let r = spec_convert(VariantView::Operation(sp, ksp, kind, args), fl);
            let conv = |i: int| spec_convert(args[i], argument_floats(args, fl, i));
            &&& forall|i: int|
                0 <= i < args.len() && (#[trigger] conv(i)) is Err && (forall|j: int| 0 <= j < i ==> (#[trigger] conv(j)) is Ok)
                    ==> r == Err::<NbtValue, ConvErrorView>(ConvErrorView::ArgumentError {
                        operation_span: sp,
                        operation_kind_span: ksp,
                        error: Box::new(conv(i)->Err_0),
                    })
            &&& (forall|i: int| 0 <= i < args.len() ==> (#[trigger] conv(i)) is Ok) ==> {
                let xs = Seq::new(args.len(), |i: int| conv(i)->Ok_0);
                if args.len() != 1 {
                    r == Err::<NbtValue, ConvErrorView>(ConvErrorView::OperationArityError {
                        operation_span: sp,
                        operation_kind: kind,
                        operation_kind_span: ksp,
                        expected_arity: 1,
                        found_arity: args.len(),
                    })
                } else {
                    r == match (kind, xs[0]) {
                        (OperationKind::Bool, NbtValue::Int8(x)) => Ok(truth(x as int)),
                        (OperationKind::Bool, NbtValue::Int16(x)) => Ok(truth(x as int)),
                        (OperationKind::Bool, NbtValue::Int32(x)) => Ok(truth(x as int)),
                        (OperationKind::Bool, NbtValue::Int64(x)) => Ok(truth(x as int)),
                        (OperationKind::Uuid, NbtValue::String(s)) => match uuid_bytes(s) {
                            Some(b) => Ok(NbtValue::Int32List(words(b))),
                            None => Err(ConvErrorView::ParseUuidError { operation_span: sp, operation_kind_span: ksp }),
                        },
                        _ => Err(ConvErrorView::OperationTypeError {
                            operation_span: sp,
                            operation_kind: kind,
                            operation_kind_span: ksp,
                            arguments: xs,
                        }),
                    }
                }
            }
        }),
{
    let n = args.len() as int;
    let rs = item_results(args, fl, n);
    lemma_item_results(args, fl, n);
    let conv = |i: int| spec_convert(args[i], argument_floats(args, fl, i));
    assert forall|i: int| 0 <= i < n implies #[trigger] rs[i] == conv(i) by {}
    assert forall|i: int|
        0 <= i < args.len() && (#[trigger] conv(i)) is Err && (forall|j: int| 0 <= j < i ==> (#[trigger] conv(j)) is Ok)
        implies spec_convert(VariantView::Operation(sp, ksp, kind, args), fl) == Err::<NbtValue, ConvErrorView>(
            ConvErrorView::ArgumentError { operation_span: sp, operation_kind_span: ksp, error: Box::new(conv(i)->Err_0) },
        ) by {
        assert forall|j: int| 0 <= j < i implies #[trigger] rs[j] is Ok by {
            assert(rs[j] == conv(j));
        }
        lemma_collect_first_error(rs, i);
    }
    if forall|i: int| 0 <= i < args.len() ==> (#[trigger] conv(i)) is Ok {
        assert forall|i: int| 0 <= i < rs.len() implies #[trigger] rs[i] is Ok by {
            assert(rs[i] == conv(i));
        }
        lemma_collect_all_ok(rs);
        let xs = Seq::new(args.len(), |i: int| conv(i)->Ok_0);
        assert(collect(rs)->Ok_0 =~= xs);
    }
}

/// The indices below `n` of the keys equal to `k`, in increasing order.
pub open spec fn indices_of(keys: Seq<Seq<char>>, k: Seq<char>, n: int) -> Seq<int>
    decreases n,
{
    if n <= 0 {
        seq![]
    } else if keys[n - 1] == k {
        indices_of(keys, k, n - 1).push(n - 1)
    } else {
        indices_of(keys, k, n - 1)
    }
}

/// Every index in [`indices_of`] is one of a key equal to `k`, and every such index is in it.
pub proof fn lemma_indices_of(keys: Seq<Seq<char>>, k: Seq<char>, n: int)
    requires
        0 <= n <= keys.len(),
    ensures
        forall|t: int| 0 <= t < indices_of(keys, k, n).len() ==> {
            let i = #[trigger] indices_of(keys, k, n)[t];
            0 <= i < n && keys[i] == k
        },
        forall|i: int| 0 <= i < n && keys[i] == k ==> exists|t: int|
            0 <= t < indices_of(keys, k, n).len() && #[trigger] indices_of(keys, k, n)[t] == i,
        forall|a: int, b: int| 0 <= a < b < indices_of(keys, k, n).len() ==> indices_of(keys, k, n)[a] < indices_of(keys, k, n)[b],
    decreases n,
{
    if n > 0 {
        lemma_indices_of(keys, k, n - 1);
        let prev = indices_of(keys, k, n - 1);
        let cur = indices_of(keys, k, n);
        assert forall|i: int| 0 <= i < n && keys[i] == k implies exists|t: int|
            0 <= t < cur.len() && #[trigger] cur[t] == i by {
            if i == n - 1 {
                assert(cur[cur.len() - 1] == i);
            } else {
                let t = choose|t: int| 0 <= t < prev.len() && #[trigger] prev[t] == i;
                assert(cur[t] == prev[t]);
            }
        }
        assert forall|t: int| 0 <= t < cur.len() implies {
            let i = #[trigger] cur[t];
            0 <= i < n && keys[i] == k
        } by {
            if t < prev.len() {
                assert(cur[t] == prev[t]);
            }
        }
        assert forall|a: int, b: int| 0 <= a < b < cur.len() implies cur[a] < cur[b] by {
            if b < prev.len() {
                assert(cur[a] == prev[a] && cur[b] == prev[b]);
            } else {
                assert(cur[a] == prev[a]);
            }
        }
    }
}

/// The groups of the first `n` keys: each group holds the indices of its key, and every key
/// has a group.
pub proof fn lemma_groups_hold_indices(keys: Seq<Seq<char>>, n: int)
    requires
        0 <= n <= keys.len(),
    ensures
        forall|g: int| 0 <= g < build_groups(keys, n).len() ==>
            (#[trigger] build_groups(keys, n)[g]).1 == indices_of(keys, build_groups(keys, n)[g].0, n),
        forall|i: int| #![trigger keys[i]] 0 <= i < n ==> exists|g: int|
            0 <= g < build_groups(keys, n).len() && (#[trigger] build_groups(keys, n)[g]).0 == keys[i],
    decreases n,
{
    if n > 0 {
        let gs = build_groups(keys, n - 1);
        lemma_groups_hold_indices(keys, n - 1);
        lemma_build_groups(keys, n - 1);
        let k = keys[n - 1];
        lemma_group_place_sorted(gs, k);
        let p = group_place(gs, k);
        let r = insert_group(gs, k, n - 1);
        assert(r == build_groups(keys, n));
        if p < gs.len() && gs[p].0 == k {
            assert forall|g: int| 0 <= g < r.len() implies (#[trigger] r[g]).1 == indices_of(keys, r[g].0, n) by {
                if g != p {
                    assert(r[g] == gs[g]);
                    if g < p {
                        assert(key_lt(gs[g].0, gs[p].0));
                    } else {
                        assert(key_lt(gs[p].0, gs[g].0));
                    }
                    lemma_key_lt_irreflexive(k);
                }
            }
            assert forall|i: int| #![trigger keys[i]] 0 <= i < n implies exists|g: int|
                0 <= g < r.len() && (#[trigger] r[g]).0 == keys[i] by {
                if i == n - 1 {
                    assert(r[p].0 == keys[i]);
                } else {
                    let g = choose|g: int| 0 <= g < gs.len() && (#[trigger] gs[g]).0 == keys[i];
                    assert(r[g].0 == gs[g].0);
                }
            }
        } else {
            assert forall|g: int| 0 <= g < gs.len() implies (#[trigger] gs[g]).0 != k by {
                if g < p {
                    lemma_key_lt_irreflexive(k);
                } else if g > p {
                    assert(key_lt(gs[p].0, gs[g].0));
                    lemma_key_lt_irreflexive(k);
                    if gs[g].0 == k {
                        assert(!key_lt(gs[p].0, k));
                    }
                }
            }
            lemma_indices_of(keys, k, n - 1);
            assert(indices_of(keys, k, n - 1) =~= Seq::<int>::empty()) by {
                if indices_of(keys, k, n - 1).len() > 0 {
                    let i = indices_of(keys, k, n - 1)[0];
                    let g = choose|g: int| 0 <= g < gs.len() && (#[trigger] gs[g]).0 == keys[i];
                    assert(gs[g].0 == k);
                }
            }
            assert forall|g: int| 0 <= g < r.len() implies (#[trigger] r[g]).1 == indices_of(keys, r[g].0, n) by {
                if g < p {
                    assert(r[g] == gs[g]);
                } else if g > p {
                    assert(r[g] == gs[g - 1]);
                } else {
                    assert(indices_of(keys, k, n) =~= seq![n - 1]);
                }
            }
            assert forall|i: int| #![trigger keys[i]] 0 <= i < n implies exists|g: int|
                0 <= g < r.len() && (#[trigger] r[g]).0 == keys[i] by {
                if i == n - 1 {
                    assert(r[p].0 == keys[i]);
                } else {
                    let g = choose|g: int| 0 <= g < gs.len() && (#[trigger] gs[g]).0 == keys[i];
                    if g < p {
                        assert(r[g] == gs[g]);
                    } else {
                        assert(r[g + 1] == gs[g]);
                    }
                }
            }
        }
    }
}

/// The error that group `j` gives: a duplicate field where it holds more than one field,
/// otherwise the error of its field's value, if any.
pub open spec fn group_error(
    gs: Seq<(Seq<char>, Seq<int>)>,
    rs: Seq<Result<NbtValue, ConvErrorView>>,
    fields: Seq<(Span, Seq<PieceView>, VariantView)>,
    sp: Span,
    j: int,
) -> Option<ConvErrorView> {
    let (k, idx) = gs[j];
    if idx.len() > 1 {
        Some(ConvErrorView::DuplicateField { key: k, values: field_values(fields, idx), compound_span: sp })
    } else {
        match rs[idx[0]] {
            Err(e) => Some(e),
            Ok(_) => None,
        }
    }
}

pub proof fn lemma_group_entries_result(
    gs: Seq<(Seq<char>, Seq<int>)>,
    rs: Seq<Result<NbtValue, ConvErrorView>>,
    fields: Seq<(Span, Seq<PieceView>, VariantView)>,
    sp: Span,
    m: int,
)
    requires
        0 <= m <= gs.len(),
    ensures
        group_entries(gs, rs, fields, sp, m) is Ok <==> forall|j: int| 0 <= j < m ==> (#[trigger] group_error(gs, rs, fields, sp, j)) is None,
        group_entries(gs, rs, fields, sp, m) matches Err(e) ==> exists|j: int|
            0 <= j < m && #[trigger] group_error(gs, rs, fields, sp, j) == Some(e),
    decreases m,
{
    if m > 0 {
        lemma_group_entries_result(gs, rs, fields, sp, m - 1);
        if group_entries(gs, rs, fields, sp, m - 1) is Ok {
            assert(group_entries(gs, rs, fields, sp, m) is Ok <==> group_error(gs, rs, fields, sp, m - 1) is None);
        } else {
            let j = choose|j: int| 0 <= j < m - 1 && (#[trigger] group_error(gs, rs, fields, sp, j)) is Some;
        }
    }
}

/// The floating-point values that belong to the value of field `i`.
pub open spec fn field_floats(
    fields: Seq<(Span, Seq<PieceView>, VariantView)>,
    fl: Seq<Option<u64>>,
    i: int,
) -> Seq<Option<u64>> {
    fl.subrange(fields_floats(fields, i).len() as int, fields_floats(fields, i + 1).len() as int)
}

/// A compound converts exactly when its keys differ from one another and each value converts.
/// Then its entries are in key order, each key has the value its field converts to, and no
/// other key stands in it. Where it fails, the error is that of one of its values, or a
/// duplicate field that names a key, carries the values of all fields with that key in source
/// order (at least two) and the compound's span; where every value converts, it is the latter.
pub proof fn law_compound_conversion(sp: Span, fields: Seq<(Span, Seq<PieceView>, VariantView)>, fl: Seq<Option<u64>>)
    ensures
        ({
            let r = spec_convert(VariantView::Compound(sp, fields), fl);
            let n = fields.len() as int;
            let keys = keys_of(fields);
            let conv = |i: int| spec_convert(fields[i].2, field_floats(fields, fl, i));
            let distinct = forall|i: int, j: int| 0 <= i < j < n ==> #[trigger] keys[i] != #[trigger] keys[j];
            let all_convert = forall|i: int| 0 <= i < n ==> (#[trigger] conv(i)) is Ok;
            &&& r is Ok <==> distinct && all_convert
            &&& r matches Ok(NbtValue::Compound(es)) ==> {
                &&& entries_sorted(es)
                &&& forall|i: int| 0 <= i < n ==> lookup(es, #[trigger] keys[i]) == Some(conv(i)->Ok_0)
                &&& forall|j: int| 0 <= j < es.len() ==> exists|i: int| 0 <= i < n && (#[trigger] es[j]).0 == keys[i]
            }
            &&& r matches Err(e) ==> {
                ||| exists|i: int| 0 <= i < n && #[trigger] conv(i) == Err::<NbtValue, ConvErrorView>(e)
                ||| exists|key: Seq<char>| #[trigger] indices_of(keys, key, n).len() >= 2
                    && e == ConvErrorView::DuplicateField {
                        key,
                        values: field_values(fields, indices_of(keys, key, n)),
                        compound_span: sp,
                    }
            }
            &&& all_convert && !distinct ==> (r is Err && r->Err_0 is DuplicateField && r->Err_0->compound_span == sp)
        }),
{
    let n = fields.len() as int;
    let keys = keys_of(fields);
    let gs = build_groups(keys, n);
    let rs = field_results(fields, fl, n);
    let conv = |i: int| spec_convert(fields[i].2, field_floats(fields, fl, i));
    lemma_field_results(fields, fl, n);
    assert forall|i: int| 0 <= i < n implies #[trigger] rs[i] == conv(i) by {}
    lemma_build_groups(keys, n);
    lemma_groups_hold_indices(keys, n);
    lemma_group_entries_result(gs, rs, fields, sp, gs.len() as int);
    let r = spec_convert(VariantView::Compound(sp, fields), fl);
    let distinct = forall|i: int, j: int| 0 <= i < j < n ==> #[trigger] keys[i] != #[trigger] keys[j];
    let all_convert = forall|i: int| 0 <= i < n ==> (#[trigger] conv(i)) is Ok;
    // Each field's index is the only one of its group where the compound converts.
    if r is Ok {
        assert forall|j: int| 0 <= j < gs.len() implies (#[trigger] group_error(gs, rs, fields, sp, j)) is None by {}
        assert forall|i: int, j: int| 0 <= i < j < n implies #[trigger] keys[i] != #[trigger] keys[j] by {
            if keys[i] == keys[j] {
                let g = choose|g: int| 0 <= g < gs.len() && (#[trigger] gs[g]).0 == keys[i];
                let idx = indices_of(keys, keys[i], n);
                lemma_indices_of(keys, keys[i], n);
                let ti = choose|t: int| 0 <= t < idx.len() && #[trigger] idx[t] == i;
                let tj = choose|t: int| 0 <= t < idx.len() && #[trigger] idx[t] == j;
                assert(group_error(gs, rs, fields, sp, g) is None);
                assert(idx.len() >= 2);
            }
        }
        assert forall|i: int| 0 <= i < n implies (#[trigger] conv(i)) is Ok by {
            let g = choose|g: int| 0 <= g < gs.len() && (#[trigger] gs[g]).0 == keys[i];
            let idx = indices_of(keys, keys[i], n);
            lemma_indices_of(keys, keys[i], n);
            let t = choose|t: int| 0 <= t < idx.len() && #[trigger] idx[t] == i;
            assert(group_error(gs, rs, fields, sp, g) is None);
            assert(gs[g].1 == idx);
            assert(rs[i] == conv(i));
        }
        lemma_group_entries(gs, rs, fields, sp, gs.len() as int);
        let es = group_entries(gs, rs, fields, sp, gs.len() as int)->Ok_0;
        assert(entries_sorted(es)) by {
            assert forall|a: int, b: int| 0 <= a < b < es.len() implies key_lt(#[trigger] es[a].0, #[trigger] es[b].0) by {
                assert(es[a].0 == gs[a].0 && es[b].0 == gs[b].0);
            }
        }
        assert forall|i: int| 0 <= i < n implies lookup(es, #[trigger] keys[i]) == Some(conv(i)->Ok_0) by {
            let g = choose|g: int| 0 <= g < gs.len() && (#[trigger] gs[g]).0 == keys[i];
            let idx = indices_of(keys, keys[i], n);
            lemma_indices_of(keys, keys[i], n);
            let t = choose|t: int| 0 <= t < idx.len() && #[trigger] idx[t] == i;
            assert(group_error(gs, rs, fields, sp, g) is None);
            assert(gs[g].1 == idx);
            assert(rs[i] == conv(i));
            assert(es[g].0 == keys[i]);
            lemma_lookup_at(es, g);
        }
        assert forall|j: int| 0 <= j < es.len() implies exists|i: int| 0 <= i < n && (#[trigger] es[j]).0 == keys[i] by {
            let idx = gs[j].1;
            lemma_indices_of(keys, gs[j].0, n);
            assert(idx.len() >= 1);
            assert(0 <= idx[0] < n);
            assert(idx == indices_of(keys, gs[j].0, n));
            assert(keys[idx[0]] == gs[j].0);
        }
    }
    if distinct && all_convert {
        assert forall|j: int| 0 <= j < gs.len() implies (#[trigger] group_error(gs, rs, fields, sp, j)) is None by {
            let idx = gs[j].1;
            lemma_indices_of(keys, gs[j].0, n);
            assert(idx == indices_of(keys, gs[j].0, n));
            assert(idx.len() >= 1);
            if idx.len() > 1 {
                assert(idx[0] < idx[1]);
                assert(keys[idx[0]] == gs[j].0 && keys[idx[1]] == gs[j].0);
            }
            assert(0 <= idx[0] < n);
            assert(rs[idx[0]] == conv(idx[0]));
        }
    }
    if r is Err {
        let e = r->Err_0;
        let j = choose|j: int| 0 <= j < gs.len() && #[trigger] group_error(gs, rs, fields, sp, j) == Some(e);
        let idx = gs[j].1;
        lemma_indices_of(keys, gs[j].0, n);
        assert(idx == indices_of(keys, gs[j].0, n));
        if idx.len() > 1 {
            assert(indices_of(keys, gs[j].0, n).len() >= 2);
        } else {
            assert(0 <= idx[0] < n);
            assert(rs[idx[0]] == conv(idx[0]));
            assert(conv(idx[0]) == Err::<NbtValue, ConvErrorView>(e));
            if all_convert {
                assert(conv(idx[0]) is Ok);
            }
        }
    }
}

/// `bool(x)` of an integer `x`, of any width, is the byte 1 where `x` is not zero and the
/// byte 0 where it is; of any other value it is a type error.
pub proof fn law_bool_operation(sp: Span, ksp: Span, arg: VariantView, fl: Seq<Option<u64>>)
    ensures
        ({
            let r = spec_convert(VariantView::Operation(sp, ksp, OperationKind::Bool, seq![arg]), fl);
            let a = spec_convert(arg, argument_floats(seq![arg], fl, 0));
            &&& a matches Ok(NbtValue::Int8(x)) ==> r == Ok::<NbtValue, ConvErrorView>(NbtValue::Int8(if x == 0 { 0 } else { 1 }))
            &&& a matches Ok(NbtValue::Int16(x)) ==> r == Ok::<NbtValue, ConvErrorView>(NbtValue::Int8(if x == 0 { 0 } else { 1 }))
            &&& a matches Ok(NbtValue::Int32(x)) ==> r == Ok::<NbtValue, ConvErrorView>(NbtValue::Int8(if x == 0 { 0 } else { 1 }))
            &&& a matches Ok(NbtValue::Int64(x)) ==> r == Ok::<NbtValue, ConvErrorView>(NbtValue::Int8(if x == 0 { 0 } else { 1 }))
            &&& (a is Ok && !(a->Ok_0 is Int8 || a->Ok_0 is Int16 || a->Ok_0 is Int32 || a->Ok_0 is Int64))
                ==> (r is Err && r->Err_0 is OperationTypeError)
        }),
{
    law_operation_conversion(sp, ksp, OperationKind::Bool, seq![arg], fl);
    let a = spec_convert(arg, argument_floats(seq![arg], fl, 0));
    if a is Ok {
        let conv = |i: int| spec_convert(seq![arg][i], argument_floats(seq![arg], fl, i));
        assert(conv(0) == a);
        assert forall|i: int| 0 <= i < 1 implies (#[trigger] conv(i)) is Ok by {}
        let xs = Seq::new(1, |i: int| conv(i)->Ok_0);
        assert(xs[0] == a->Ok_0);
    }
}

/// The words `true` and `false` are the bytes 1 and 0: the token `true` is read as a boolean
/// node that converts to the byte 1, and `false` as one that converts to the byte 0.
pub proof fn law_true_false(ts: Seq<TokenEntry>, sp: Span, fl: Seq<Option<u64>>)
    ensures
        spec_token_variant(ts, TokenView::True, sp) matches Ok((v, rest))
            && rest == ts && spec_convert(v, fl) == Ok::<NbtValue, ConvErrorView>(NbtValue::Int8(1)),
        spec_token_variant(ts, TokenView::False, sp) matches Ok((v, rest))
            && rest == ts && spec_convert(v, fl) == Ok::<NbtValue, ConvErrorView>(NbtValue::Int8(0)),
{
}

/// The bytes of a big-endian word: the highest first.
pub proof fn lemma_word_bytes(a: int, b: int, c: int, d: int)
    requires
        0 <= a < 256,
        0 <= b < 256,
        0 <= c < 256,
        0 <= d < 256,
    ensures
        ({
            let w = a * 0x100_0000 + b * 0x1_0000 + c * 0x100 + d;
            &&& w / 0x100_0000 == a
            &&& (w / 0x1_0000) % 256 == b
            &&& (w / 0x100) % 256 == c
            &&& w % 256 == d
        }),
{
    let w = a * 0x100_0000 + b * 0x1_0000 + c * 0x100 + d;
    lemma_fundamental_div_mod_converse(w, 0x100_0000, a, b * 0x1_0000 + c * 0x100 + d);
    lemma_fundamental_div_mod_converse(w, 0x1_0000, a * 256 + b, c * 0x100 + d);
    lemma_fundamental_div_mod_converse(a * 256 + b, 256, a, b);
    lemma_fundamental_div_mod_converse(w, 0x100, a * 0x1_0000 + b * 256 + c, d);
    lemma_fundamental_div_mod_converse(a * 0x1_0000 + b * 256 + c, 256, a * 256 + b, c);
}

/// The four words that `uuid(..)` gives hold the sixteen bytes of the UUID in order, each word
/// most significant byte first.
pub proof fn law_uuid_words(b: Seq<u8>)
    requires
        b.len() == 16,
    ensures
        words(b).len() == 4,
        forall|i: int| 0 <= i < 4 ==> {
            &&& (#[trigger] words(b)[i]) as int / 0x100_0000 == b[4 * i]
            &&& (words(b)[i] as int / 0x1_0000) % 256 == b[4 * i + 1]
            &&& (words(b)[i] as int / 0x100) % 256 == b[4 * i + 2]
            &&& words(b)[i] as int % 256 == b[4 * i + 3]
        },
{
    assert forall|i: int| 0 <= i < 4 implies {
        &&& (#[trigger] words(b)[i]) as int / 0x100_0000 == b[4 * i]
        &&& (words(b)[i] as int / 0x1_0000) % 256 == b[4 * i + 1]
        &&& (words(b)[i] as int / 0x100) % 256 == b[4 * i + 2]
        &&& words(b)[i] as int % 256 == b[4 * i + 3]
    } by {
        let (x0, x1, x2, x3) = (b[4 * i] as int, b[4 * i + 1] as int, b[4 * i + 2] as int, b[4 * i + 3] as int);
        lemma_word_bytes(x0, x1, x2, x3);
        assert(x0 * 0x100_0000 + x1 * 0x1_0000 + x2 * 0x100 + x3 < 0x1_0000_0000);
        assert(words(b)[i] as int == x0 * 0x100_0000 + x1 * 0x1_0000 + x2 * 0x100 + x3);
    }
}

/// The integers of an integer list, each read as `t`: values in order where all convert.
pub proof fn lemma_int_list_values(ints: Seq<(Span, IntView)>, t: IntType)
    ensures
        int_list_values(ints, t) is Ok <==> forall|i: int| 0 <= i < ints.len() ==> (#[trigger] spec_int_value(ints[i].1, t)) is Ok,
        int_list_values(ints, t) matches Ok(xs) ==> xs.len() == ints.len() && forall|i: int|
            0 <= i < ints.len() ==> xs[i] == (#[trigger] spec_int_value(ints[i].1, t))->Ok_0,
    decreases ints.len(),
{
    if ints.len() > 0 {
        let d = ints.drop_last();
        lemma_int_list_values(d, t);
        assert forall|i: int| 0 <= i < d.len() implies d[i] == ints[i] by {}
        if int_list_values(ints, t) is Ok {
            let xs = int_list_values(ints, t)->Ok_0;
            assert forall|i: int| 0 <= i < ints.len() implies xs[i] == (#[trigger] spec_int_value(ints[i].1, t))->Ok_0 by {
                if i < d.len() {
                    assert(d[i] == ints[i]);
                }
            }
        }
        if forall|i: int| 0 <= i < ints.len() ==> (#[trigger] spec_int_value(ints[i].1, t)) is Ok {
            assert forall|i: int| 0 <= i < d.len() implies (#[trigger] spec_int_value(d[i].1, t)) is Ok by {
                assert(d[i] == ints[i]);
            }
            assert(spec_int_value(ints[ints.len() - 1].1, t) is Ok);
        }
        if int_list_values(ints, t) is Ok {
            assert forall|i: int| 0 <= i < ints.len() implies (#[trigger] spec_int_value(ints[i].1, t)) is Ok by {
                if i < d.len() {
                    assert(d[i] == ints[i]);
                }
            }
        }
    }
}

/// An integer array `[B; ..]`, `[I; ..]` or `[L; ..]` converts to an array of bytes, ints or
/// longs, each element its integer read as that type, exactly when every integer converts.
pub proof fn law_int_arrays(sp: Span, h: ListHeader, ints: Seq<(Span, IntView)>, fl: Seq<Option<u64>>)
    ensures
        h.kind == ListHeaderKind::Int8 ==> {
            let r = spec_convert(VariantView::IntList(sp, h, ints), fl);
            &&& r is Ok <==> forall|i: int| 0 <= i < ints.len() ==> (#[trigger] spec_int_value(ints[i].1, IntType::Int8)) is Ok
            &&& r is Ok ==> r->Ok_0 is Int8List && r->Ok_0->Int8List_0.len() == ints.len()
            &&& r is Ok ==> forall|i: int| 0 <= i < ints.len()
                ==> r->Ok_0->Int8List_0[i] as int == (#[trigger] spec_int_value(ints[i].1, IntType::Int8))->Ok_0
        },
        h.kind == ListHeaderKind::Int32 ==> {
            let r = spec_convert(VariantView::IntList(sp, h, ints), fl);
            &&& r is Ok <==> forall|i: int| 0 <= i < ints.len() ==> (#[trigger] spec_int_value(ints[i].1, IntType::Int32)) is Ok
            &&& r is Ok ==> r->Ok_0 is Int32List && r->Ok_0->Int32List_0.len() == ints.len()
            &&& r is Ok ==> forall|i: int| 0 <= i < ints.len()
                ==> r->Ok_0->Int32List_0[i] as int == (#[trigger] spec_int_value(ints[i].1, IntType::Int32))->Ok_0
        },
        h.kind == ListHeaderKind::Int64 ==> {
            let r = spec_convert(VariantView::IntList(sp, h, ints), fl);
            &&& r is Ok <==> forall|i: int| 0 <= i < ints.len() ==> (#[trigger] spec_int_value(ints[i].1, IntType::Int64)) is Ok
            &&& r is Ok ==> r->Ok_0 is Int64List && r->Ok_0->Int64List_0.len() == ints.len()
            &&& r is Ok ==> forall|i: int| 0 <= i < ints.len()
                ==> r->Ok_0->Int64List_0[i] as int == (#[trigger] spec_int_value(ints[i].1, IntType::Int64))->Ok_0
        },
{
    match h.kind {
        ListHeaderKind::Int8 => {
            lemma_int_list_values(ints, IntType::Int8);
            if int_list_values(ints, IntType::Int8) is Ok {
                let xs = int_list_values(ints, IntType::Int8)->Ok_0;
                let ys = xs.map_values(|x: int| x as u8);
                assert forall|i: int| 0 <= i < ints.len() implies ys[i] as int == (#[trigger] spec_int_value(ints[i].1, IntType::Int8))->Ok_0 by {
                    crate::snbt::read::convert::lemma_int_value_range(ints[i].1, IntType::Int8);
                }
            }
        },
        ListHeaderKind::Int32 => {
            lemma_int_list_values(ints, IntType::Int32);
            if int_list_values(ints, IntType::Int32) is Ok {
                let xs = int_list_values(ints, IntType::Int32)->Ok_0;
                let ys = xs.map_values(|x: int| x as u32);
                assert forall|i: int| 0 <= i < ints.len() implies ys[i] as int == (#[trigger] spec_int_value(ints[i].1, IntType::Int32))->Ok_0 by {
                    crate::snbt::read::convert::lemma_int_value_range(ints[i].1, IntType::Int32);
                }
            }
        },
        ListHeaderKind::Int64 => {
            lemma_int_list_values(ints, IntType::Int64);
            if int_list_values(ints, IntType::Int64) is Ok {
                let xs = int_list_values(ints, IntType::Int64)->Ok_0;
                let ys = xs.map_values(|x: int| x as u64);
                assert forall|i: int| 0 <= i < ints.len() implies ys[i] as int == (#[trigger] spec_int_value(ints[i].1, IntType::Int64))->Ok_0 by {
                    crate::snbt::read::convert::lemma_int_value_range(ints[i].1, IntType::Int64);
                }
            }
        },
    }
}

/// `uuid(s)` of a string is the four words of the UUID that `s` spells, or a UUID error where
/// it spells none; of any other value it is a type error.
pub proof fn law_uuid_operation(sp: Span, ksp: Span, arg: VariantView, fl: Seq<Option<u64>>)
    ensures
        ({
            let r = spec_convert(VariantView::Operation(sp, ksp, OperationKind::Uuid, seq![arg]), fl);
            let a = spec_convert(arg, argument_floats(seq![arg], fl, 0));
            &&& a matches Ok(NbtValue::String(t)) ==> (match uuid_bytes(t) {
                Some(b) => r == Ok::<NbtValue, ConvErrorView>(NbtValue::Int32List(words(b))),
                None => r == Err::<NbtValue, ConvErrorView>(ConvErrorView::ParseUuidError { operation_span: sp, operation_kind_span: ksp }),
            })
            &&& (a is Ok && !(a->Ok_0 is String)) ==> (r is Err && r->Err_0 is OperationTypeError)
        }),
{
    law_operation_conversion(sp, ksp, OperationKind::Uuid, seq![arg], fl);
    let a = spec_convert(arg, argument_floats(seq![arg], fl, 0));
    if a is Ok {
        let conv = |i: int| spec_convert(seq![arg][i], argument_floats(seq![arg], fl, i));
        assert(conv(0) == a);
        assert forall|i: int| 0 <= i < 1 implies (#[trigger] conv(i)) is Ok by {}
        let xs = Seq::new(1, |i: int| conv(i)->Ok_0);
        assert(xs[0] == a->Ok_0);
    }
}

/// A list converts its elements in order, and the first that fails gives the error. Where all
/// convert: an empty list has the end tag; a list whose elements all convert to one kind has
/// that kind's tag and the converted elements; a list of mixed kinds is a list of compounds, in
/// which each element that is not a compound stands as the only entry, under the empty key, of
/// a compound of its own.
pub proof fn law_list_conversion(sp: Span, items: Seq<VariantView>, fl: Seq<Option<u64>>)
    ensures
        ({
            let r = spec_convert(VariantView::List(sp, items), fl);
            let conv = |i: int| spec_convert(items[i], argument_floats(items, fl, i));
            let same = forall|i: int| 0 <= i < items.len() ==> type_tag(#[trigger] items[i]) == type_tag(items[0]);
            &&& forall|i: int|
                0 <= i < items.len() && (#[trigger] conv(i)) is Err && (forall|j: int| 0 <= j < i ==> (#[trigger] conv(j)) is Ok)
                    ==> r == Err::<NbtValue, ConvErrorView>(conv(i)->Err_0)
            &&& (forall|i: int| 0 <= i < items.len() ==> (#[trigger] conv(i)) is Ok) ==> {
                &&& r is Ok && r->Ok_0 is List
                &&& r->Ok_0->List_1.len() == items.len()
                &&& items.len() == 0 ==> r->Ok_0->List_0 == TypeTag::EndCompound
                &&& (items.len() > 0 && same) ==> r->Ok_0->List_0 == type_tag(items[0])
                    && forall|i: int| 0 <= i < items.len() ==> #[trigger] r->Ok_0->List_1[i] == conv(i)->Ok_0
                &&& (items.len() > 0 && !same) ==> r->Ok_0->List_0 == TypeTag::Compound
                    && forall|i: int| 0 <= i < items.len() ==> #[trigger] r->Ok_0->List_1[i] == (if items[i] is Compound {
                        conv(i)->Ok_0
                    } else {
                        NbtValue::Compound(seq![(Seq::<char>::empty(), conv(i)->Ok_0)])
                    })
            }
        }),
{
    let n = items.len() as int;
    let rs = item_results(items, fl, n);
    lemma_item_results(items, fl, n);
    let t = list_tag(items);
    let les = list_elements(t, items, rs);
    let conv = |i: int| spec_convert(items[i], argument_floats(items, fl, i));
    assert forall|i: int| 0 <= i < n implies #[trigger] rs[i] == conv(i) by {}
    assert forall|i: int| 0 <= i < n implies #[trigger] les[i] == list_element(t, items[i], conv(i)) by {}
    assert forall|i: int|
        0 <= i < items.len() && (#[trigger] conv(i)) is Err && (forall|j: int| 0 <= j < i ==> (#[trigger] conv(j)) is Ok)
        implies spec_convert(VariantView::List(sp, items), fl) == Err::<NbtValue, ConvErrorView>(conv(i)->Err_0) by {
        assert forall|j: int| 0 <= j < i implies #[trigger] les[j] is Ok by {
            assert(les[j] == list_element(t, items[j], conv(j)));
        }
        assert(les[i] == list_element(t, items[i], conv(i)));
        lemma_collect_first_error(les, i);
    }
    if forall|i: int| 0 <= i < items.len() ==> (#[trigger] conv(i)) is Ok {
        assert forall|i: int| 0 <= i < les.len() implies #[trigger] les[i] is Ok by {
            assert(les[i] == list_element(t, items[i], conv(i)));
        }
        lemma_collect_all_ok(les);
        let xs = collect(les)->Ok_0;
        let same = forall|i: int| 0 <= i < items.len() ==> type_tag(#[trigger] items[i]) == type_tag(items[0]);
        if items.len() > 0 && same {
            assert forall|i: int| 0 <= i < items.len() implies #[trigger] xs[i] == conv(i)->Ok_0 by {
                assert(les[i] == list_element(t, items[i], conv(i)));
                if t == TypeTag::Compound {
                    assert(type_tag(items[i]) == TypeTag::Compound);
                    assert(items[i] is Compound);
                }
            }
        }
        if items.len() > 0 && !same {
            assert(t == TypeTag::Compound);
            assert forall|i: int| 0 <= i < items.len() implies #[trigger] xs[i] == (if items[i] is Compound {
                conv(i)->Ok_0
            } else {
                NbtValue::Compound(seq![(Seq::<char>::empty(), conv(i)->Ok_0)])
            }) by {
                assert(les[i] == list_element(t, items[i], conv(i)));
            }
        }
    }
}

} // verus!
