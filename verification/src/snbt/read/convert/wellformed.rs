//! What conversion produces is well formed: every list holds elements of its own tag, and the
//! keys of every compound strictly increase.
use vstd::prelude::*;
use crate::NbtValue;
use crate::binary::TypeTag;
use crate::binary::roundtrip::{well_formed, items_well_formed, entries_well_formed};
use crate::compound::{key_lt, entries_sorted, lemma_key_lt_transitive, lemma_key_lt_total};
use crate::snbt::read::Span;
use crate::snbt::read::parse::VariantView;
use crate::snbt::read::tokenize::PieceView;
use crate::snbt::read::convert::{
    ConvErrorView, spec_convert, collect, item_results, field_results, list_element, list_elements,
    list_tag, type_tag, keys_of, build_groups, group_place, insert_group, group_entries, items_floats,
    fields_floats, spec_operation, spec_int_list, lemma_item_results, lemma_field_results,
    lemma_convert_tag, lemma_group_place_range,
};

verus! {

/// The keys of the groups strictly increase.
pub open spec fn groups_sorted(gs: Seq<(Seq<char>, Seq<int>)>) -> bool {
    forall|i: int, j: int| 0 <= i < j < gs.len() ==> key_lt(#[trigger] gs[i].0, #[trigger] gs[j].0)
}

/// Every group holds at least one index, and every index is below `n`.
pub open spec fn groups_indexed(gs: Seq<(Seq<char>, Seq<int>)>, n: int) -> bool {
    forall|g: int| 0 <= g < gs.len() ==> (#[trigger] gs[g]).1.len() >= 1
        && forall|p: int| 0 <= p < gs[g].1.len() ==> 0 <= #[trigger] gs[g].1[p] < n
}

pub proof fn lemma_group_place_sorted(gs: Seq<(Seq<char>, Seq<int>)>, k: Seq<char>)
    requires
        groups_sorted(gs),
    ensures
        0 <= group_place(gs, k) <= gs.len(),
        forall|j: int| 0 <= j < group_place(gs, k) ==> key_lt(#[trigger] gs[j].0, k),
        forall|j: int| group_place(gs, k) <= j < gs.len() ==> !key_lt(#[trigger] gs[j].0, k),
    decreases gs.len(),
{
    if gs.len() > 0 {
        let last = gs.len() - 1;
        if key_lt(gs.last().0, k) {
            assert forall|j: int| 0 <= j < gs.len() implies key_lt(#[trigger] gs[j].0, k) by {
                if j < last {
                    lemma_key_lt_transitive(gs[j].0, gs[last].0, k);
                }
            }
        } else {
            let d = gs.drop_last();
            assert forall|i: int, j: int| 0 <= i < j < d.len() implies key_lt(#[trigger] d[i].0, #[trigger] d[j].0) by {
                assert(d[i] == gs[i] && d[j] == gs[j]);
            }
            lemma_group_place_sorted(d, k);
            assert forall|j: int| 0 <= j < group_place(gs, k) implies key_lt(#[trigger] gs[j].0, k) by {
                assert(d[j] == gs[j]);
            }
            assert forall|j: int| group_place(gs, k) <= j < gs.len() implies !key_lt(#[trigger] gs[j].0, k) by {
                if j < last {
                    assert(d[j] == gs[j]);
                }
            }
        }
    }
}

/// Grouping keeps the groups in strictly increasing key order, each with indices of fields.
pub proof fn lemma_build_groups(keys: Seq<Seq<char>>, n: int)
    requires
        0 <= n <= keys.len(),
    ensures
        groups_sorted(build_groups(keys, n)),
        groups_indexed(build_groups(keys, n), n),
    decreases n,
{
    if n > 0 {
        let gs = build_groups(keys, n - 1);
        lemma_build_groups(keys, n - 1);
        let k = keys[n - 1];
        let j = n - 1;
        lemma_group_place_sorted(gs, k);
        let p = group_place(gs, k);
        let r = insert_group(gs, k, j);
        assert(r == build_groups(keys, n));
        if p < gs.len() && gs[p].0 == k {
            assert forall|a: int, b: int| 0 <= a < b < r.len() implies key_lt(#[trigger] r[a].0, #[trigger] r[b].0) by {
                assert(r[a].0 == gs[a].0 && r[b].0 == gs[b].0);
            }
            assert forall|g: int| 0 <= g < r.len() implies (#[trigger] r[g]).1.len() >= 1
                && forall|q: int| 0 <= q < r[g].1.len() ==> 0 <= #[trigger] r[g].1[q] < n by {
                if g != p {
                    assert(r[g] == gs[g]);
                } else {
                    assert forall|q: int| 0 <= q < r[g].1.len() implies 0 <= #[trigger] r[g].1[q] < n by {
                        if q < gs[p].1.len() {
                            assert(r[g].1[q] == gs[p].1[q]);
                        }
                    }
                }
            }
        } else {
            assert forall|i: int| p <= i < gs.len() implies key_lt(k, #[trigger] gs[i].0) by {
                if gs[i].0 == k {
                    if i > p {
                        assert(key_lt(gs[p].0, gs[i].0));
                    }
                } else {
                    lemma_key_lt_total(gs[i].0, k);
                }
            }
            assert forall|a: int, b: int| 0 <= a < b < r.len() implies key_lt(#[trigger] r[a].0, #[trigger] r[b].0) by {
                if b < p {
                    assert(r[a] == gs[a] && r[b] == gs[b]);
                } else if b == p {
                    assert(r[a] == gs[a]);
                } else if a < p {
                    assert(r[a] == gs[a] && r[b] == gs[b - 1]);
                    lemma_key_lt_transitive(gs[a].0, k, gs[b - 1].0);
                } else if a == p {
                    assert(r[b] == gs[b - 1]);
                } else {
                    assert(r[a] == gs[a - 1] && r[b] == gs[b - 1]);
                }
            }
            assert forall|g: int| 0 <= g < r.len() implies (#[trigger] r[g]).1.len() >= 1
                && forall|q: int| 0 <= q < r[g].1.len() ==> 0 <= #[trigger] r[g].1[q] < n by {
                if g < p {
                    assert(r[g] == gs[g]);
                } else if g > p {
                    assert(r[g] == gs[g - 1]);
                }
            }
        }
    }
}

/// The entries that grouping gives: one per group, with the group's key and the value of its
/// only field, where it has one.
pub proof fn lemma_group_entries(
    gs: Seq<(Seq<char>, Seq<int>)>,
    rs: Seq<Result<NbtValue, ConvErrorView>>,
    fields: Seq<(Span, Seq<PieceView>, VariantView)>,
    sp: Span,
    n: int,
)
    requires
        0 <= n <= gs.len(),
        group_entries(gs, rs, fields, sp, n) is Ok,
    ensures
        group_entries(gs, rs, fields, sp, n)->Ok_0.len() == n,
        forall|i: int| 0 <= i < n ==> {
            &&& (#[trigger] group_entries(gs, rs, fields, sp, n)->Ok_0[i]).0 == gs[i].0
            &&& gs[i].1.len() <= 1
            &&& rs[gs[i].1[0]] == Ok::<NbtValue, ConvErrorView>(group_entries(gs, rs, fields, sp, n)->Ok_0[i].1)
        },
    decreases n,
{
    if n > 0 {
        lemma_group_entries(gs, rs, fields, sp, n - 1);
        let prev = group_entries(gs, rs, fields, sp, n - 1)->Ok_0;
        let es = group_entries(gs, rs, fields, sp, n)->Ok_0;
        let (k, idx) = gs[n - 1];
        assert(es == prev.push((k, rs[idx[0]]->Ok_0)));
        assert forall|i: int| 0 <= i < n implies {
            &&& (#[trigger] group_entries(gs, rs, fields, sp, n)->Ok_0[i]).0 == gs[i].0
            &&& gs[i].1.len() <= 1
            &&& rs[gs[i].1[0]] == Ok::<NbtValue, ConvErrorView>(group_entries(gs, rs, fields, sp, n)->Ok_0[i].1)
        } by {
            if i < n - 1 {
                assert(es[i] == prev[i]);
            }
        }
    }
}

/// The results in order, where none is an error.
pub proof fn lemma_collect_ok(rs: Seq<Result<NbtValue, ConvErrorView>>)
    requires
        collect(rs) is Ok,
    ensures
        collect(rs)->Ok_0.len() == rs.len(),
        forall|i: int| 0 <= i < rs.len() ==> #[trigger] rs[i] == Ok::<NbtValue, ConvErrorView>(collect(rs)->Ok_0[i]),
    decreases rs.len(),
{
    if rs.len() > 0 {
        lemma_collect_ok(rs.drop_last());
        assert forall|i: int| 0 <= i < rs.len() implies #[trigger] rs[i] == Ok::<NbtValue, ConvErrorView>(collect(rs)->Ok_0[i]) by {
            if i < rs.len() - 1 {
                assert(rs.drop_last()[i] == rs[i]);
            }
        }
    }
}

/// Each of the first `n` nodes that converts, converts to a well-formed value.
pub proof fn lemma_items_well_formed(items: Seq<VariantView>, fl: Seq<Option<u64>>, n: int)
    requires
        0 <= n <= items.len(),
    ensures
        forall|i: int| 0 <= i < n ==> (#[trigger] item_results(items, fl, items.len() as int)[i] matches Ok(x) ==> well_formed(x)),
    decreases items, n,
{
    lemma_item_results(items, fl, items.len() as int);
    if n > 0 {
        lemma_items_well_formed(items, fl, n - 1);
        let sub = fl.subrange(items_floats(items, n - 1).len() as int, items_floats(items, n).len() as int);
        if spec_convert(items[n - 1], sub) is Ok {
            law_converted_well_formed(items[n - 1], sub);
        }
    }
}

/// Each of the values of the first `n` fields that converts, converts to a well-formed value.
pub proof fn lemma_fields_well_formed(fields: Seq<(Span, Seq<PieceView>, VariantView)>, fl: Seq<Option<u64>>, n: int)
    requires
        0 <= n <= fields.len(),
    ensures
        forall|i: int| 0 <= i < n ==> (#[trigger] field_results(fields, fl, fields.len() as int)[i] matches Ok(x) ==> well_formed(x)),
    decreases fields, n,
{
    lemma_field_results(fields, fl, fields.len() as int);
    if n > 0 {
        lemma_fields_well_formed(fields, fl, n - 1);
        let sub = fl.subrange(fields_floats(fields, n - 1).len() as int, fields_floats(fields, n).len() as int);
        if spec_convert(fields[n - 1].2, sub) is Ok {
            law_converted_well_formed(fields[n - 1].2, sub);
        }
    }
}

/// Whatever an SNBT syntax tree converts to is well formed: each list holds elements of its
/// own element tag (and a list of end tags is empty), and the keys of each compound strictly
/// increase. So it can be written out in the binary format and read back as it is.
pub proof fn law_converted_well_formed(v: VariantView, fl: Seq<Option<u64>>)
    requires
        spec_convert(v, fl) is Ok,
    ensures
        well_formed(spec_convert(v, fl)->Ok_0),
    decreases v, 0int,
{
    match v {
        VariantView::List(_, items) => {
            let t = list_tag(items);
            let rs = item_results(items, fl, items.len() as int);
            let les = list_elements(t, items, rs);
            lemma_item_results(items, fl, items.len() as int);
            lemma_items_well_formed(items, fl, items.len() as int);
            lemma_collect_ok(les);
            let xs = collect(les)->Ok_0;
            assert forall|i: int| 0 <= i < xs.len() implies (#[trigger] xs[i]).tag() == t && well_formed(xs[i]) by {
                assert(les[i] == list_element(t, items[i], rs[i]));
                let sub = fl.subrange(items_floats(items, i).len() as int, items_floats(items, i + 1).len() as int);
                lemma_convert_tag(items[i], sub);
                if t == TypeTag::Compound && !(items[i] is Compound) {
                    let x = rs[i]->Ok_0;
                    let single = seq![(Seq::<char>::empty(), x)];
                    assert(xs[i] == NbtValue::Compound(single));
                    assert(entries_well_formed(single)) by {
                        assert forall|j: int| 0 <= j < single.len() implies well_formed(#[trigger] single[j].1) by {
                            assert(single[j].1 == x);
                        }
                    }
                } else {
                    assert(items[i] == items[i]);
                    if items.len() > 0 && !(forall|j: int| 0 <= j < items.len() ==> type_tag(#[trigger] items[j]) == type_tag(items[0])) {
                        assert(t == TypeTag::Compound);
                    }
                }
            }
            assert(items_well_formed(t, xs));
        },
        VariantView::Compound(sp, fields) => {
            let keys = keys_of(fields);
            let gs = build_groups(keys, fields.len() as int);
            let rs = field_results(fields, fl, fields.len() as int);
            lemma_build_groups(keys, fields.len() as int);
            lemma_field_results(fields, fl, fields.len() as int);
            lemma_fields_well_formed(fields, fl, fields.len() as int);
            lemma_group_entries(gs, rs, fields, sp, gs.len() as int);
            let es = group_entries(gs, rs, fields, sp, gs.len() as int)->Ok_0;
            assert forall|a: int, b: int| 0 <= a < b < es.len() implies key_lt(#[trigger] es[a].0, #[trigger] es[b].0) by {
                assert(es[a].0 == gs[a].0 && es[b].0 == gs[b].0);
            }
            assert forall|i: int| 0 <= i < es.len() implies well_formed(#[trigger] es[i].1) by {
                let j = gs[i].1[0];
                assert(0 <= j < fields.len());
                assert(rs[j] == Ok::<NbtValue, ConvErrorView>(es[i].1));
            }
            assert(entries_sorted(es));
        },
        _ => {},
    }
}

} // verus!
