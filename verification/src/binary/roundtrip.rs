//! Reading back what was written.
use vstd::prelude::*;
use vstd::utf8::*;
use crate::NbtValue;
use crate::binary::{
    Endianness, TypeTag, tag_of_byte, uint_bytes, uint_value, pow256, lemma_uint_roundtrip,
    lemma_uint_bytes_len, lemma_pow256_facts, lemma_tag_byte_roundtrip,
};
use crate::binary::read::{
    ReadError, decode_uint, decode_string, decode_payload, decode_elements, decode_entries,
    decode_named, int8s_of, int32s_of, int64s_of, lemma_int8s_of, lemma_int32s_of, lemma_int64s_of,
};
use crate::binary::write::{
    encode_string, string_fits, encode_payload, encode_items, encode_entries, encode_named,
    encode_entry, encodable, lemma_compound_encodable, lemma_items_int8, lemma_items_int32,
    lemma_items_int64, encode_u32s, encode_u64s,
};
use crate::compound::{key_lt, entries_sorted, lower_bound, insert_entry};
use crate::{int8_values, int32_values, int64_values};

verus! {

/// `bytes` holds `s` from `pos` on.
pub open spec fn holds_at(bytes: Seq<u8>, pos: int, s: Seq<u8>) -> bool {
    0 <= pos && pos + s.len() <= bytes.len() && bytes.subrange(pos, pos + s.len()) == s
}

pub proof fn lemma_holds_at_split(bytes: Seq<u8>, pos: int, a: Seq<u8>, b: Seq<u8>)
    requires
        holds_at(bytes, pos, a + b),
    ensures
        holds_at(bytes, pos, a),
        holds_at(bytes, pos + a.len(), b),
{
    assert(bytes.subrange(pos, pos + a.len()) =~= (a + b).subrange(0, a.len() as int));
    assert(bytes.subrange(pos + a.len(), pos + a.len() + b.len()) =~= (a + b).subrange(
        a.len() as int,
        (a + b).len() as int,
    ));
    assert((a + b).subrange(0, a.len() as int) =~= a);
    assert((a + b).subrange(a.len() as int, (a + b).len() as int) =~= b);
}

pub proof fn lemma_decode_uint_at(bytes: Seq<u8>, pos: int, x: nat, n: nat, e: Endianness)
    requires
        x < pow256(n),
        holds_at(bytes, pos, uint_bytes(x, n, e)),
    ensures
        decode_uint(bytes, pos, n, e) == Ok::<(nat, int), crate::binary::read::ReadError>((x, pos + n)),
{
    lemma_uint_bytes_len(x, n, e);
    lemma_uint_roundtrip(x, n, e);
}

pub proof fn lemma_decode_string_at(bytes: Seq<u8>, pos: int, s: Seq<char>, e: Endianness)
    requires
        string_fits(s),
        holds_at(bytes, pos, encode_string(s, e)),
    ensures
        decode_string(bytes, pos, e) == Ok::<(Seq<char>, int), crate::binary::read::ReadError>(
            (s, pos + encode_string(s, e).len()),
        ),
{
    let u = encode_utf8(s);
    lemma_pow256_facts();
    lemma_uint_bytes_len(u.len(), 2, e);
    lemma_holds_at_split(bytes, pos, uint_bytes(u.len(), 2, e), u);
    lemma_decode_uint_at(bytes, pos, u.len(), 2, e);
    encode_utf8_valid_utf8(s);
    encode_utf8_decode_utf8(s);
}


/// The structure that the binary format relies on: the elements of a list carry its element
/// tag (and a list of end tags is empty), and the keys of each compound strictly increase.
pub open spec fn well_formed(v: NbtValue) -> bool
    decreases v,
{
    match v {
        NbtValue::List(t, items) => (t == TypeTag::EndCompound ==> items.len() == 0)
            && items_well_formed(t, items),
        NbtValue::Compound(entries) => entries_sorted(entries) && entries_well_formed(entries),
        _ => true,
    }
}

/// Every item has the tag `t` and is well formed.
pub open spec fn items_well_formed(t: TypeTag, items: Seq<NbtValue>) -> bool
    decreases items,
{
    forall|i: int|
        #![trigger items[i]]
        0 <= i < items.len() ==> items[i].tag() == t && well_formed(items[i])
}

/// Every value of `entries` is well formed.
pub open spec fn entries_well_formed(entries: Seq<(Seq<char>, NbtValue)>) -> bool
    decreases entries,
{
    forall|i: int| #![trigger entries[i]] 0 <= i < entries.len() ==> well_formed(entries[i].1)
}

pub proof fn lemma_well_formed_list(t: TypeTag, items: Seq<NbtValue>)
    ensures
        well_formed(NbtValue::List(t, items)) <==> (t == TypeTag::EndCompound ==> items.len() == 0)
            && forall|i: int|
            #![trigger items[i]]
            0 <= i < items.len() ==> items[i].tag() == t && well_formed(items[i]),
{
    reveal_with_fuel(well_formed, 2);
    reveal_with_fuel(items_well_formed, 2);
}

pub proof fn lemma_well_formed_compound(entries: Seq<(Seq<char>, NbtValue)>)
    ensures
        well_formed(NbtValue::Compound(entries)) <==> entries_sorted(entries) && forall|i: int|
            #![trigger entries[i]]
            0 <= i < entries.len() ==> well_formed(entries[i].1),
{
    reveal_with_fuel(well_formed, 2);
    reveal_with_fuel(entries_well_formed, 2);
}

pub proof fn lemma_encodable_list(t: TypeTag, items: Seq<NbtValue>)
    ensures
        encodable(NbtValue::List(t, items)) <==> items.len() <= u32::MAX && forall|i: int|
            0 <= i < items.len() ==> encodable(#[trigger] items[i]),
{
}

pub proof fn lemma_encode_items_front(items: Seq<NbtValue>, e: Endianness)
    requires
        items.len() > 0,
    ensures
        encode_items(items, e) == encode_payload(items[0], e) + encode_items(items.drop_first(), e),
    decreases items.len(),
{
    if items.len() > 1 {
        lemma_encode_items_front(items.drop_last(), e);
        assert(items.drop_last().drop_first() =~= items.drop_first().drop_last());
        assert(items.drop_first().last() == items.last());
        assert(encode_items(items.drop_first(), e) == encode_items(items.drop_first().drop_last(), e)
            + encode_payload(items.drop_first().last(), e));
        assert(encode_items(items, e) =~= encode_payload(items[0], e) + encode_items(items.drop_first(), e));
    } else {
        assert(items.drop_last().len() == 0);
        assert(items.drop_first().len() == 0);
        assert(encode_items(items, e) == encode_items(items.drop_last(), e) + encode_payload(items.last(), e));
        assert(encode_items(items, e) =~= encode_payload(items[0], e) + encode_items(items.drop_first(), e));
    }
}

pub proof fn lemma_encode_entries_front(entries: Seq<(Seq<char>, NbtValue)>, e: Endianness)
    requires
        entries.len() > 0,
    ensures
        encode_entries(entries, e) == encode_entry(entries[0].0, entries[0].1, e) + encode_entries(
            entries.drop_first(),
            e,
        ),
    decreases entries.len(),
{
    if entries.len() > 1 {
        lemma_encode_entries_front(entries.drop_last(), e);
        assert(entries.drop_last().drop_first() =~= entries.drop_first().drop_last());
        assert(entries.drop_first().last() == entries.last());
        assert(encode_entries(entries, e) =~= encode_entry(entries[0].0, entries[0].1, e)
            + encode_entries(entries.drop_first(), e));
    } else {
        assert(entries.drop_last().len() == 0);
        assert(entries.drop_first().len() == 0);
        assert(encode_entries(entries, e) == encode_entries(entries.drop_last(), e) + (seq![entries.last().1.tag().spec_byte()]
            + encode_string(entries.last().0, e) + encode_payload(entries.last().1, e)));
        assert(encode_entries(entries, e) =~= encode_entry(entries[0].0, entries[0].1, e)
            + encode_entries(entries.drop_first(), e));
    }
}


pub proof fn lemma_one_byte(x: u8, e: Endianness)
    ensures
        uint_bytes(x as nat, 1, e) == seq![x],
{
    reveal_with_fuel(crate::binary::le_bytes, 2);
    assert(crate::binary::le_bytes(x as nat, 1) =~= seq![x]);
    assert(seq![x].reverse() =~= seq![x]);
}

/// A one-number payload is read back from its bytes.
pub proof fn lemma_scalar_roundtrip(v: NbtValue, bytes: Seq<u8>, pos: int, e: Endianness)
    requires
        v is Int8 || v is Int16 || v is Int32 || v is Int64 || v is Float32 || v is Float64,
        holds_at(bytes, pos, encode_payload(v, e)),
    ensures
        decode_payload(v.tag(), bytes, pos, e) == Ok::<(NbtValue, int), ReadError>(
            (v, pos + encode_payload(v, e).len()),
        ),
{
    lemma_pow256_facts();
    match v {
        NbtValue::Int8(x) => {
            lemma_one_byte(x, e);
            lemma_decode_uint_at(bytes, pos, x as nat, 1, e);
        },
        NbtValue::Int16(x) => {
            lemma_uint_bytes_len(x as nat, 2, e);
            lemma_decode_uint_at(bytes, pos, x as nat, 2, e);
        },
        NbtValue::Int32(x) => {
            lemma_uint_bytes_len(x as nat, 4, e);
            lemma_decode_uint_at(bytes, pos, x as nat, 4, e);
        },
        NbtValue::Int64(x) => {
            lemma_uint_bytes_len(x as nat, 8, e);
            lemma_decode_uint_at(bytes, pos, x as nat, 8, e);
        },
        NbtValue::Float32(x) => {
            lemma_uint_bytes_len(x as nat, 4, e);
            lemma_decode_uint_at(bytes, pos, x as nat, 4, e);
        },
        NbtValue::Float64(x) => {
            lemma_uint_bytes_len(x as nat, 8, e);
            lemma_decode_uint_at(bytes, pos, x as nat, 8, e);
        },
        _ => {},
    }
}

/// One-number items of kind `t` are read back from their bytes, after those already read.
pub proof fn lemma_scalar_elements_roundtrip(
    t: TypeTag,
    items: Seq<NbtValue>,
    bytes: Seq<u8>,
    pos: int,
    acc: Seq<NbtValue>,
    e: Endianness,
)
    requires
        forall|i: int|
            0 <= i < items.len() ==> (#[trigger] items[i]).tag() == t && (items[i] is Int8
                || items[i] is Int32 || items[i] is Int64),
        holds_at(bytes, pos, encode_items(items, e)),
    ensures
        decode_elements(t, items.len(), bytes, pos, acc, e) == Ok::<(Seq<NbtValue>, int), ReadError>(
            (acc + items, pos + encode_items(items, e).len()),
        ),
    decreases items.len(),
{
    if items.len() == 0 {
        assert(acc + items =~= acc);
    } else {
        let first = items[0];
        let rest = items.drop_first();
        lemma_encode_items_front(items, e);
        lemma_holds_at_split(bytes, pos, encode_payload(first, e), encode_items(rest, e));
        lemma_scalar_roundtrip(first, bytes, pos, e);
        let q = pos + encode_payload(first, e).len();
        assert forall|i: int| 0 <= i < rest.len() implies (#[trigger] rest[i]).tag() == t
            && (rest[i] is Int8 || rest[i] is Int32 || rest[i] is Int64) by {
            assert(rest[i] == items[i + 1]);
        }
        lemma_scalar_elements_roundtrip(t, rest, bytes, q, acc.push(first), e);
        assert(acc.push(first) + rest =~= acc + items);
    }
}

/// A well-formed, encodable payload is read back from its bytes, wherever they stand.
pub proof fn lemma_payload_roundtrip(v: NbtValue, bytes: Seq<u8>, pos: int, e: Endianness)
    requires
        encodable(v),
        well_formed(v),
        holds_at(bytes, pos, encode_payload(v, e)),
    ensures
        decode_payload(v.tag(), bytes, pos, e) == Ok::<(NbtValue, int), ReadError>(
            (v, pos + encode_payload(v, e).len()),
        ),
    decreases v, 1nat,
{
    lemma_pow256_facts();
    match v {
        NbtValue::Int8(_) | NbtValue::Int16(_) | NbtValue::Int32(_) | NbtValue::Int64(_)
        | NbtValue::Float32(_) | NbtValue::Float64(_) => {
            lemma_scalar_roundtrip(v, bytes, pos, e);
        },
        NbtValue::String(s) => {
            lemma_decode_string_at(bytes, pos, s, e);
        },
        NbtValue::List(t, items) => {
            lemma_well_formed_list(t, items);
            lemma_encodable_list(t, items);
            let head = seq![t.spec_byte()];
            let len_bytes = uint_bytes(items.len(), 4, e);
            let body = encode_items(items, e);
            assert(encode_payload(v, e) == head + len_bytes + body);
            lemma_uint_bytes_len(items.len(), 4, e);
            lemma_holds_at_split(bytes, pos, head + len_bytes, body);
            lemma_holds_at_split(bytes, pos, head, len_bytes);
            assert(bytes[pos] == bytes.subrange(pos, pos + 1)[0]);
            lemma_tag_byte_roundtrip(t);
            lemma_decode_uint_at(bytes, pos + 1, items.len(), 4, e);
            if t == TypeTag::EndCompound {
                assert(items =~= Seq::<NbtValue>::empty());
                assert(body.len() == 0);
            } else {
                lemma_elements_roundtrip(t, items, bytes, pos + 5, Seq::empty(), e);
                assert(Seq::<NbtValue>::empty() + items =~= items);
            }
        },
        NbtValue::Compound(entries) => {
            lemma_well_formed_compound(entries);
            lemma_compound_encodable(entries);
            lemma_entries_roundtrip(entries, bytes, pos, Seq::empty(), e);
            assert(Seq::<(Seq<char>, NbtValue)>::empty() + entries =~= entries);
        },
        NbtValue::Int8List(xs) => {
            let items = int8_values(xs);
            lemma_items_int8(xs, e);
            lemma_int8s_of(xs);
            lemma_uint_bytes_len(xs.len(), 4, e);
            lemma_holds_at_split(bytes, pos, uint_bytes(xs.len(), 4, e), xs);
            lemma_decode_uint_at(bytes, pos, xs.len(), 4, e);
            assert forall|i: int| 0 <= i < items.len() implies (#[trigger] items[i]).tag()
                == TypeTag::Int8 && (items[i] is Int8 || items[i] is Int32 || items[i] is Int64) by {}
            lemma_scalar_elements_roundtrip(TypeTag::Int8, items, bytes, pos + 4, Seq::empty(), e);
            assert(Seq::<NbtValue>::empty() + items =~= items);
        },
        NbtValue::Int32List(xs) => {
            let items = int32_values(xs);
            lemma_items_int32(xs, e);
            lemma_int32s_of(xs);
            lemma_uint_bytes_len(xs.len(), 4, e);
            lemma_holds_at_split(bytes, pos, uint_bytes(xs.len(), 4, e), encode_u32s(xs, e));
            lemma_decode_uint_at(bytes, pos, xs.len(), 4, e);
            assert forall|i: int| 0 <= i < items.len() implies (#[trigger] items[i]).tag()
                == TypeTag::Int32 && (items[i] is Int8 || items[i] is Int32 || items[i] is Int64) by {}
            lemma_scalar_elements_roundtrip(TypeTag::Int32, items, bytes, pos + 4, Seq::empty(), e);
            assert(Seq::<NbtValue>::empty() + items =~= items);
        },
        NbtValue::Int64List(xs) => {
            let items = int64_values(xs);
            lemma_items_int64(xs, e);
            lemma_int64s_of(xs);
            lemma_uint_bytes_len(xs.len(), 4, e);
            lemma_holds_at_split(bytes, pos, uint_bytes(xs.len(), 4, e), encode_u64s(xs, e));
            lemma_decode_uint_at(bytes, pos, xs.len(), 4, e);
            assert forall|i: int| 0 <= i < items.len() implies (#[trigger] items[i]).tag()
                == TypeTag::Int64 && (items[i] is Int8 || items[i] is Int32 || items[i] is Int64) by {}
            lemma_scalar_elements_roundtrip(TypeTag::Int64, items, bytes, pos + 4, Seq::empty(), e);
            assert(Seq::<NbtValue>::empty() + items =~= items);
        },
    }
}

/// Items of kind `t` are read back from their bytes, after those already read.
pub proof fn lemma_elements_roundtrip(
    t: TypeTag,
    items: Seq<NbtValue>,
    bytes: Seq<u8>,
    pos: int,
    acc: Seq<NbtValue>,
    e: Endianness,
)
    requires
        forall|i: int|
            0 <= i < items.len() ==> (#[trigger] items[i]).tag() == t && well_formed(items[i])
                && encodable(items[i]),
        holds_at(bytes, pos, encode_items(items, e)),
    ensures
        decode_elements(t, items.len(), bytes, pos, acc, e) == Ok::<(Seq<NbtValue>, int), ReadError>(
            (acc + items, pos + encode_items(items, e).len()),
        ),
    decreases items, 0nat,
{
    if items.len() == 0 {
        assert(acc + items =~= acc);
    } else {
        let first = items[0];
        let rest = items.drop_first();
        lemma_encode_items_front(items, e);
        lemma_holds_at_split(bytes, pos, encode_payload(first, e), encode_items(rest, e));
        lemma_payload_roundtrip(first, bytes, pos, e);
        let q = pos + encode_payload(first, e).len();
        assert forall|i: int| 0 <= i < rest.len() implies (#[trigger] rest[i]).tag() == t
            && well_formed(rest[i]) && encodable(rest[i]) by {
            assert(rest[i] == items[i + 1]);
        }
        lemma_elements_roundtrip(t, rest, bytes, q, acc.push(first), e);
        assert(acc.push(first) + rest =~= acc + items);
        assert(items.len() - 1 == rest.len());
    }
}

/// After the first of sorted entries is set into entries with smaller keys, it stands last,
/// and the rest of the entries still come after everything read.
pub proof fn lemma_entries_next(
    entries: Seq<(Seq<char>, NbtValue)>,
    acc: Seq<(Seq<char>, NbtValue)>,
)
    requires
        entries.len() > 0,
        entries_sorted(entries),
        entries_sorted(acc),
        forall|i: int, j: int|
            0 <= i < acc.len() && 0 <= j < entries.len() ==> key_lt(
                #[trigger] acc[i].0,
                #[trigger] entries[j].0,
            ),
    ensures
        insert_entry(acc, entries[0].0, entries[0].1) == acc.push(entries[0]),
        entries_sorted(acc.push(entries[0])),
        entries_sorted(entries.drop_first()),
        forall|i: int, j: int|
            0 <= i < acc.push(entries[0]).len() && 0 <= j < entries.drop_first().len() ==> key_lt(
                #[trigger] acc.push(entries[0])[i].0,
                #[trigger] entries.drop_first()[j].0,
            ),
{
    let (k, v) = entries[0];
    let rest = entries.drop_first();
    let acc2 = acc.push((k, v));
    if acc.len() > 0 {
        assert(key_lt(acc[acc.len() - 1].0, entries[0].0));
    }
    assert(lower_bound(acc, k) == acc.len());
    assert(insert_entry(acc, k, v) =~= acc2);
    assert forall|i: int, j: int| 0 <= i < j < acc2.len() implies key_lt(
        #[trigger] acc2[i].0,
        #[trigger] acc2[j].0,
    ) by {
        if j == acc.len() {
            assert(key_lt(acc[i].0, entries[0].0));
        } else {
            assert(key_lt(acc[i].0, acc[j].0));
        }
    }
    assert forall|i: int, j: int| 0 <= i < acc2.len() && 0 <= j < rest.len() implies key_lt(
        #[trigger] acc2[i].0,
        #[trigger] rest[j].0,
    ) by {
        assert(rest[j] == entries[j + 1]);
        if i == acc.len() {
            assert(key_lt(entries[0].0, entries[j + 1].0));
        } else {
            assert(key_lt(acc[i].0, entries[j + 1].0));
        }
    }
    assert forall|i: int, j: int| 0 <= i < j < rest.len() implies key_lt(
        #[trigger] rest[i].0,
        #[trigger] rest[j].0,
    ) by {
        assert(rest[i] == entries[i + 1]);
        assert(rest[j] == entries[j + 1]);
        assert(key_lt(entries[i + 1].0, entries[j + 1].0));
    }
}

/// The parts of one entry are read back from its bytes.
pub proof fn lemma_entry_roundtrip(k: Seq<char>, v: NbtValue, bytes: Seq<u8>, pos: int, e: Endianness)
    requires
        string_fits(k),
        encodable(v),
        well_formed(v),
        holds_at(bytes, pos, encode_entry(k, v, e)),
    ensures
        0 <= pos < bytes.len(),
        bytes[pos] != 0,
        tag_of_byte(bytes[pos]) == Some(v.tag()),
        decode_string(bytes, pos + 1, e) == Ok::<(Seq<char>, int), ReadError>(
            (k, pos + 1 + encode_string(k, e).len()),
        ),
        decode_payload(v.tag(), bytes, pos + 1 + encode_string(k, e).len(), e) == Ok::<
            (NbtValue, int),
            ReadError,
        >((v, pos + encode_entry(k, v, e).len())),
    decreases v, 2nat,
{
    let tb = seq![v.tag().spec_byte()];
    let ks = encode_string(k, e);
    let vs = encode_payload(v, e);
    assert(encode_entry(k, v, e) == tb + ks + vs);
    lemma_holds_at_split(bytes, pos, tb + ks, vs);
    lemma_holds_at_split(bytes, pos, tb, ks);
    assert(bytes[pos] == bytes.subrange(pos, pos + 1)[0]);
    lemma_tag_byte_roundtrip(v.tag());
    lemma_decode_string_at(bytes, pos + 1, k, e);
    lemma_payload_roundtrip(v, bytes, pos + 1 + ks.len(), e);
}

pub proof fn lemma_entries_one(
    bytes: Seq<u8>,
    pos: int,
    acc: Seq<(Seq<char>, NbtValue)>,
    k: Seq<char>,
    v: NbtValue,
    p1: int,
    p2: int,
    e: Endianness,
)
    requires
        0 <= pos < bytes.len(),
        pos < p2 <= bytes.len(),
        bytes[pos] != 0,
        tag_of_byte(bytes[pos]) == Some(v.tag()),
        decode_string(bytes, pos + 1, e) == Ok::<(Seq<char>, int), ReadError>((k, p1)),
        decode_payload(v.tag(), bytes, p1, e) == Ok::<(NbtValue, int), ReadError>((v, p2)),
    ensures
        decode_entries(bytes, pos, acc, e) == decode_entries(bytes, p2, insert_entry(acc, k, v), e),
{
    crate::binary::read::lemma_entries_step(bytes, pos, acc, e);
}

/// Sorted entries are read back from their bytes, after already read entries with smaller
/// keys.
#[verifier::spinoff_prover]
#[verifier::rlimit(40)]
pub proof fn lemma_entries_roundtrip(
    entries: Seq<(Seq<char>, NbtValue)>,
    bytes: Seq<u8>,
    pos: int,
    acc: Seq<(Seq<char>, NbtValue)>,
    e: Endianness,
)
    requires
        entries_sorted(entries),
        entries_sorted(acc),
        forall|i: int, j: int|
            0 <= i < acc.len() && 0 <= j < entries.len() ==> key_lt(
                #[trigger] acc[i].0,
                #[trigger] entries[j].0,
            ),
        forall|i: int|
            #![trigger entries[i]]
            0 <= i < entries.len() ==> string_fits(entries[i].0) && encodable(entries[i].1)
                && well_formed(entries[i].1),
        holds_at(bytes, pos, encode_entries(entries, e) + seq![0u8]),
    ensures
        decode_entries(bytes, pos, acc, e) == Ok::<(Seq<(Seq<char>, NbtValue)>, int), ReadError>(
            (acc + entries, pos + encode_entries(entries, e).len() + 1),
        ),
    decreases entries, 0nat,
{
    if entries.len() == 0 {
        assert(encode_entries(entries, e).len() == 0);
        assert(bytes[pos] == bytes.subrange(pos, pos + 1)[0]);
        assert(acc + entries =~= acc);
    } else {
        let (k, v) = entries[0];
        let rest = entries.drop_first();
        lemma_encode_entries_front(entries, e);
        let first = encode_entry(k, v, e);
        let tail = encode_entries(rest, e) + seq![0u8];
        assert(encode_entries(entries, e) + seq![0u8] =~= first + tail);
        lemma_holds_at_split(bytes, pos, first, tail);
        lemma_entry_roundtrip(k, v, bytes, pos, e);
        let p2 = pos + first.len();
        lemma_entries_next(entries, acc);
        let acc2 = acc.push((k, v));
        assert(entries[0] == (k, v));
        lemma_holds_at_split(bytes, p2, encode_entries(rest, e), seq![0u8]);
        lemma_entries_one(bytes, pos, acc, k, v, pos + 1 + encode_string(k, e).len(), p2, e);
        assert forall|i: int| #![trigger rest[i]] 0 <= i < rest.len() implies string_fits(rest[i].0)
            && encodable(rest[i].1) && well_formed(rest[i].1) by {
            assert(rest[i] == entries[i + 1]);
        }
        lemma_entries_roundtrip(rest, bytes, p2, acc2, e);
        assert(acc2 + rest =~= acc + entries);
    }
}

/// A named tag is read back from the bytes written for it.
pub proof fn lemma_named_roundtrip(name: Seq<char>, v: NbtValue, bytes: Seq<u8>, pos: int, e: Endianness)
    requires
        string_fits(name),
        encodable(v),
        well_formed(v),
        holds_at(bytes, pos, encode_named(name, v, e)),
    ensures
        decode_named(bytes, pos, e) == Ok::<((Seq<char>, NbtValue), int), ReadError>(
            ((name, v), pos + encode_named(name, v, e).len()),
        ),
{
    let tb = seq![v.tag().spec_byte()];
    let ks = encode_string(name, e);
    let vs = encode_payload(v, e);
    assert(encode_named(name, v, e) == tb + ks + vs);
    lemma_holds_at_split(bytes, pos, tb + ks, vs);
    lemma_holds_at_split(bytes, pos, tb, ks);
    assert(bytes[pos] == bytes.subrange(pos, pos + 1)[0]);
    lemma_tag_byte_roundtrip(v.tag());
    lemma_decode_string_at(bytes, pos + 1, name, e);
    lemma_payload_roundtrip(v, bytes, pos + 1 + ks.len(), e);
}

/// What is written for a named tag reads back as that named tag: the bytes of a
/// well-formed, encodable named tag, followed by anything, decode to the same name and value
/// and end where its bytes end.
pub proof fn law_named_tag_roundtrip(name: Seq<char>, v: NbtValue, e: Endianness, rest: Seq<u8>)
    requires
        string_fits(name),
        encodable(v),
        well_formed(v),
    ensures
        decode_named(encode_named(name, v, e) + rest, 0, e) == Ok::<
            ((Seq<char>, NbtValue), int),
            ReadError,
        >(((name, v), encode_named(name, v, e).len() as int)),
{
    let bytes = encode_named(name, v, e) + rest;
    assert(bytes.subrange(0, encode_named(name, v, e).len() as int) =~= encode_named(name, v, e));
    lemma_named_roundtrip(name, v, bytes, 0, e);
}

/// Setting a well-formed value into sorted, well-formed entries keeps them so.
pub proof fn lemma_insert_well_formed(entries: Seq<(Seq<char>, NbtValue)>, k: Seq<char>, v: NbtValue)
    requires
        entries_sorted(entries),
        entries_well_formed(entries),
        well_formed(v),
    ensures
        entries_sorted(insert_entry(entries, k, v)),
        entries_well_formed(insert_entry(entries, k, v)),
{
    crate::compound::law_insert_keeps_order(entries, k, v);
    crate::compound::lemma_lower_bound_range(entries, k);
    let i = lower_bound(entries, k);
    let r = insert_entry(entries, k, v);
    assert forall|j: int| 0 <= j < r.len() implies well_formed(#[trigger] r[j].1) by {
        if j != i {
            if i < entries.len() && entries[i].0 == k {
                assert(r[j] == entries[j]);
            } else if j < i {
                assert(r[j] == entries[j]);
            } else {
                assert(r[j] == entries[j - 1]);
            }
        }
    }
}

/// A payload read from bytes is well formed and has the kind it was read as.
pub proof fn lemma_decoded_payload(tag: TypeTag, bytes: Seq<u8>, pos: int, e: Endianness)
    requires
        decode_payload(tag, bytes, pos, e) is Ok,
    ensures
        well_formed(decode_payload(tag, bytes, pos, e)->Ok_0.0),
        decode_payload(tag, bytes, pos, e)->Ok_0.0.tag() == tag,
    decreases bytes.len() - pos, 0nat, 2nat,
{
    match tag {
        TypeTag::List => {
            let t = tag_of_byte(bytes[pos]).unwrap();
            let (n, p) = decode_uint(bytes, pos + 1, 4, e)->Ok_0;
            if t != TypeTag::EndCompound {
                lemma_decoded_elements(t, n, bytes, p, Seq::empty(), e);
            }
        },
        TypeTag::Compound => {
            lemma_decoded_entries(bytes, pos, Seq::empty(), e);
        },
        _ => {},
    }
}

/// Items read from bytes, after well-formed items of kind `tag`, are well formed and of that
/// kind.
pub proof fn lemma_decoded_elements(
    tag: TypeTag,
    n: nat,
    bytes: Seq<u8>,
    pos: int,
    acc: Seq<NbtValue>,
    e: Endianness,
)
    requires
        items_well_formed(tag, acc),
        decode_elements(tag, n, bytes, pos, acc, e) is Ok,
    ensures
        items_well_formed(tag, decode_elements(tag, n, bytes, pos, acc, e)->Ok_0.0),
    decreases bytes.len() - pos, n, 0nat,
{
    if n > 0 {
        lemma_decoded_payload(tag, bytes, pos, e);
        let (v, q) = decode_payload(tag, bytes, pos, e)->Ok_0;
        let acc2 = acc.push(v);
        assert forall|i: int| 0 <= i < acc2.len() implies (#[trigger] acc2[i]).tag() == tag && well_formed(acc2[i]) by {
            if i < acc.len() {
                assert(acc2[i] == acc[i]);
            }
        }
        lemma_decoded_elements(tag, (n - 1) as nat, bytes, q, acc2, e);
    }
}

/// Entries read from bytes, set into sorted, well-formed entries, leave them sorted and well
/// formed.
pub proof fn lemma_decoded_entries(bytes: Seq<u8>, pos: int, acc: Seq<(Seq<char>, NbtValue)>, e: Endianness)
    requires
        entries_sorted(acc),
        entries_well_formed(acc),
        decode_entries(bytes, pos, acc, e) is Ok,
    ensures
        entries_sorted(decode_entries(bytes, pos, acc, e)->Ok_0.0),
        entries_well_formed(decode_entries(bytes, pos, acc, e)->Ok_0.0),
    decreases bytes.len() - pos, 0nat, 1nat,
{
    if bytes[pos] != 0 {
        let t = tag_of_byte(bytes[pos]).unwrap();
        let (name, p1) = decode_string(bytes, pos + 1, e)->Ok_0;
        lemma_decoded_payload(t, bytes, p1, e);
        let (v, p2) = decode_payload(t, bytes, p1, e)->Ok_0;
        lemma_insert_well_formed(acc, name, v);
        lemma_decoded_entries(bytes, p2, insert_entry(acc, name, v), e);
    }
}

/// Whatever is read as a named tag is well formed: the elements of each list carry the list's
/// element tag, and the keys of each compound strictly increase. So it can be written out and
/// read back as it is.
pub proof fn law_read_well_formed(bytes: Seq<u8>, pos: int, e: Endianness)
    requires
        decode_named(bytes, pos, e) is Ok,
    ensures
        well_formed(decode_named(bytes, pos, e)->Ok_0.0.1),
{
    let t = tag_of_byte(bytes[pos]).unwrap();
    let (name, p1) = decode_string(bytes, pos + 1, e)->Ok_0;
    lemma_decoded_payload(t, bytes, p1, e);
}

} // verus!
