//! Writing NBT values in the binary format.
use vstd::prelude::*;
use vstd::utf8::*;
use crate::binary::{Endianness, TypeTag, uint_bytes, uint_value, push_uint, lemma_pow256_facts, pow256};
use crate::{
    BedrockHeader, Compound, List, ListVariant, NamedTag, NbtValue, Variant, int8_values,
    int16_values, int32_values, int64_values, float32_values, float64_values, string_values,
    int8_list_values, int32_list_values, int64_list_values, list_model, compound_model, list_values,
    compound_values,
};
use crate::binary::roundtrip::{well_formed, holds_at, lemma_named_roundtrip};
use crate::binary::read::{ReadError, decode_named};
use crate::compound::entries_sorted;

verus! {

/// A list of values that hold no compound or list is well formed, and so is a list of lists
/// or of compounds whose elements are.
pub proof fn lemma_list_well_formed(l: List)
    requires
        l matches List::List(lv) ==> forall|i: int| 0 <= i < lv.0@.len() ==> well_formed(#[trigger] list_model(lv.0@[i])),
        l matches List::Compound(lv) ==> forall|i: int|
            0 <= i < lv.0@.len() ==> well_formed(NbtValue::Compound(#[trigger] compound_model(lv.0@[i]))),
    ensures
        well_formed(list_model(l)),
{
    match l {
        List::List(lv) => {
            let items = list_values(lv.0@);
            assert(list_model(l) == NbtValue::List(TypeTag::List, items));
            assert forall|i: int| 0 <= i < items.len() implies (#[trigger] items[i]).tag() == TypeTag::List && well_formed(items[i]) by {
                assert(items[i] == list_model(lv.0@[i]));
                assert(well_formed(list_model(lv.0@[i])));
            }
            assert(crate::binary::roundtrip::items_well_formed(TypeTag::List, items));
            assert(well_formed(NbtValue::List(TypeTag::List, items)));
        },
        List::Compound(lv) => {
            let items = compound_values(lv.0@);
            assert(list_model(l) == NbtValue::List(TypeTag::Compound, items));
            assert forall|i: int| 0 <= i < items.len() implies (#[trigger] items[i]).tag() == TypeTag::Compound && well_formed(items[i]) by {
                assert(items[i] == NbtValue::Compound(compound_model(lv.0@[i])));
                assert(well_formed(NbtValue::Compound(compound_model(lv.0@[i]))));
            }
            assert(crate::binary::roundtrip::items_well_formed(TypeTag::Compound, items));
        },
        List::Int8(lv) => {
            let items = int8_values(lv.0@);
            assert forall|i: int| 0 <= i < items.len() implies (#[trigger] items[i]).tag() == TypeTag::Int8 && well_formed(items[i]) by {
                assert(items[i] == NbtValue::Int8(lv.0@[i]));
            }
        },
        List::Int16(lv) => {
            let items = int16_values(lv.0@);
            assert forall|i: int| 0 <= i < items.len() implies (#[trigger] items[i]).tag() == TypeTag::Int16 && well_formed(items[i]) by {
                assert(items[i] == NbtValue::Int16(lv.0@[i]));
            }
        },
        List::Int32(lv) => {
            let items = int32_values(lv.0@);
            assert forall|i: int| 0 <= i < items.len() implies (#[trigger] items[i]).tag() == TypeTag::Int32 && well_formed(items[i]) by {
                assert(items[i] == NbtValue::Int32(lv.0@[i]));
            }
        },
        List::Int64(lv) => {
            let items = int64_values(lv.0@);
            assert forall|i: int| 0 <= i < items.len() implies (#[trigger] items[i]).tag() == TypeTag::Int64 && well_formed(items[i]) by {
                assert(items[i] == NbtValue::Int64(lv.0@[i]));
            }
        },
        List::Float32(lv) => {
            let items = float32_values(lv.0@);
            assert forall|i: int| 0 <= i < items.len() implies (#[trigger] items[i]).tag() == TypeTag::Float32 && well_formed(items[i]) by {
                assert(items[i] == NbtValue::Float32(lv.0@[i]));
            }
        },
        List::Float64(lv) => {
            let items = float64_values(lv.0@);
            assert forall|i: int| 0 <= i < items.len() implies (#[trigger] items[i]).tag() == TypeTag::Float64 && well_formed(items[i]) by {
                assert(items[i] == NbtValue::Float64(lv.0@[i]));
            }
        },
        List::String(lv) => {
            let items = string_values(lv.0@);
            assert forall|i: int| 0 <= i < items.len() implies (#[trigger] items[i]).tag() == TypeTag::String && well_formed(items[i]) by {
                assert(items[i] == NbtValue::String(lv.0@[i]@));
            }
        },
        List::Int8List(lv) => {
            let items = int8_list_values(lv.0@);
            assert forall|i: int| 0 <= i < items.len() implies (#[trigger] items[i]).tag() == TypeTag::Int8List && well_formed(items[i]) by {
                assert(items[i] == NbtValue::Int8List(lv.0@[i].0@));
            }
        },
        List::Int32List(lv) => {
            let items = int32_list_values(lv.0@);
            assert forall|i: int| 0 <= i < items.len() implies (#[trigger] items[i]).tag() == TypeTag::Int32List && well_formed(items[i]) by {
                assert(items[i] == NbtValue::Int32List(lv.0@[i].0@));
            }
        },
        List::Int64List(lv) => {
            let items = int64_list_values(lv.0@);
            assert forall|i: int| 0 <= i < items.len() implies (#[trigger] items[i]).tag() == TypeTag::Int64List && well_formed(items[i]) by {
                assert(items[i] == NbtValue::Int64List(lv.0@[i].0@));
            }
        },
        List::Empty => {},
    }
}

/// A string or list too long for its length field.
#[derive(Debug, Clone, Copy, PartialEq, Eq, Structural)]
pub enum WriteError {
    LengthOverflow,
}

/// A string: its UTF-8 length in two bytes, then its UTF-8 bytes.
pub open spec fn encode_string(s: Seq<char>, e: Endianness) -> Seq<u8> {
    uint_bytes(encode_utf8(s).len(), 2, e) + encode_utf8(s)
}

/// The UTF-8 form of `s` fits the two-byte length field.
pub open spec fn string_fits(s: Seq<char>) -> bool {
    encode_utf8(s).len() <= u16::MAX
}

/// The bytes of a payload, without its tag.
pub open spec fn encode_payload(v: NbtValue, e: Endianness) -> Seq<u8>
    decreases v,
{
    match v {
        NbtValue::Int8(x) => seq![x],
        NbtValue::Int16(x) => uint_bytes(x as nat, 2, e),
        NbtValue::Int32(x) => uint_bytes(x as nat, 4, e),
        NbtValue::Int64(x) => uint_bytes(x as nat, 8, e),
        NbtValue::Float32(x) => uint_bytes(x as nat, 4, e),
        NbtValue::Float64(x) => uint_bytes(x as nat, 8, e),
        NbtValue::String(s) => encode_string(s, e),
        NbtValue::List(t, items) => seq![t.spec_byte()] + uint_bytes(items.len(), 4, e)
            + encode_items(items, e),
        NbtValue::Compound(entries) => encode_entries(entries, e) + seq![0u8],
        NbtValue::Int8List(xs) => uint_bytes(xs.len(), 4, e) + xs,
        NbtValue::Int32List(xs) => uint_bytes(xs.len(), 4, e) + encode_u32s(xs, e),
        NbtValue::Int64List(xs) => uint_bytes(xs.len(), 4, e) + encode_u64s(xs, e),
    }
}

/// Two-byte numbers, one after the other.
pub open spec fn encode_u16s(xs: Seq<u16>, e: Endianness) -> Seq<u8>
    decreases xs.len(),
{
    if xs.len() == 0 {
        Seq::empty()
    } else {
        encode_u16s(xs.drop_last(), e) + uint_bytes(xs.last() as nat, 2, e)
    }
}

/// Four-byte numbers, one after the other.
pub open spec fn encode_u32s(xs: Seq<u32>, e: Endianness) -> Seq<u8>
    decreases xs.len(),
{
    if xs.len() == 0 {
        Seq::empty()
    } else {
        encode_u32s(xs.drop_last(), e) + uint_bytes(xs.last() as nat, 4, e)
    }
}

/// Eight-byte numbers, one after the other.
pub open spec fn encode_u64s(xs: Seq<u64>, e: Endianness) -> Seq<u8>
    decreases xs.len(),
{
    if xs.len() == 0 {
        Seq::empty()
    } else {
        encode_u64s(xs.drop_last(), e) + uint_bytes(xs.last() as nat, 8, e)
    }
}

/// The payloads of `items`, one after the other.
pub open spec fn encode_items(items: Seq<NbtValue>, e: Endianness) -> Seq<u8>
    decreases items,
{
    if items.len() == 0 {
        Seq::empty()
    } else {
        encode_items(items.drop_last(), e) + encode_payload(items.last(), e)
    }
}

/// One entry of a compound: the value's tag, the key, then the value.
pub open spec fn encode_entry(key: Seq<char>, v: NbtValue, e: Endianness) -> Seq<u8> {
    seq![v.tag().spec_byte()] + encode_string(key, e) + encode_payload(v, e)
}

/// The entries of a compound, one after the other (without the end tag).
pub open spec fn encode_entries(entries: Seq<(Seq<char>, NbtValue)>, e: Endianness) -> Seq<u8>
    decreases entries,
{
    if entries.len() == 0 {
        Seq::empty()
    } else {
        encode_entries(entries.drop_last(), e) + (seq![entries.last().1.tag().spec_byte()]
            + encode_string(entries.last().0, e) + encode_payload(entries.last().1, e))
    }
}

/// A named tag: the value's tag, the name, then the value.
pub open spec fn encode_named(name: Seq<char>, v: NbtValue, e: Endianness) -> Seq<u8> {
    encode_entry(name, v, e)
}

/// Every string and list in `v` fits its length field.
pub open spec fn encodable(v: NbtValue) -> bool
    decreases v,
{
    match v {
        NbtValue::String(s) => string_fits(s),
        NbtValue::List(_, items) => items.len() <= u32::MAX && forall|i: int|
            0 <= i < items.len() ==> encodable(#[trigger] items[i]),
        NbtValue::Compound(entries) => entries_encodable(entries),
        NbtValue::Int8List(xs) => xs.len() <= u32::MAX,
        NbtValue::Int32List(xs) => xs.len() <= u32::MAX,
        NbtValue::Int64List(xs) => xs.len() <= u32::MAX,
        _ => true,
    }
}

/// Every key and value of `entries` fits its length fields.
pub open spec fn entries_encodable(entries: Seq<(Seq<char>, NbtValue)>) -> bool
    decreases entries,
{
    forall|i: int|
        #![trigger entries[i]]
        0 <= i < entries.len() ==> string_fits(entries[i].0) && encodable(entries[i].1)
}

/// What it takes for a compound to be encodable.
pub proof fn lemma_compound_encodable(entries: Seq<(Seq<char>, NbtValue)>)
    ensures
        encodable(NbtValue::Compound(entries)) <==> forall|i: int|
            #![trigger entries[i]]
            0 <= i < entries.len() ==> string_fits(entries[i].0) && encodable(entries[i].1),
{
    reveal_with_fuel(encodable, 2);
    reveal_with_fuel(entries_encodable, 2);
}

pub proof fn lemma_encode_items_push(items: Seq<NbtValue>, v: NbtValue, e: Endianness)
    ensures
        encode_items(items.push(v), e) == encode_items(items, e) + encode_payload(v, e),
{
    assert(items.push(v).drop_last() =~= items);
}

pub proof fn lemma_encode_items_take(items: Seq<NbtValue>, i: int, e: Endianness)
    requires
        0 <= i < items.len(),
    ensures
        encode_items(items.take(i + 1), e) == encode_items(items.take(i), e) + encode_payload(
            items[i],
            e,
        ),
{
    assert(items.take(i + 1) =~= items.take(i).push(items[i]));
    lemma_encode_items_push(items.take(i), items[i], e);
}

pub proof fn lemma_encode_entries_take(
    entries: Seq<(Seq<char>, NbtValue)>,
    i: int,
    e: Endianness,
)
    requires
        0 <= i < entries.len(),
    ensures
        encode_entries(entries.take(i + 1), e) == encode_entries(entries.take(i), e)
            + encode_entry(entries[i].0, entries[i].1, e),
{
    assert(entries.take(i + 1).drop_last() =~= entries.take(i));
}

/// Appends a string with its length.
pub fn write_string(s: &String, out: &mut Vec<u8>, e: Endianness) -> (r: Result<(), WriteError>)
    ensures
        r is Ok <==> string_fits(s@),
        r is Ok ==> final(out)@ == old(out)@ + encode_string(s@, e),
        r is Err ==> final(out)@ == old(out)@,
{
    let bytes = s.as_str().as_bytes();
    let n = bytes.len();
    if n > 65535 {
        return Err(WriteError::LengthOverflow);
    }
    proof {
        lemma_pow256_facts();
    }
    push_uint(out, n as u64, 2, e);
    let ghost start = out@;
    let mut i: usize = 0;
    while i < n
        invariant
            i <= n,
            n == bytes@.len(),
            out@ == start + bytes@.subrange(0, i as int),
        decreases n - i,
    {
        out.push(bytes[i]);
        i = i + 1;
        assert(out@ =~= start + bytes@.subrange(0, i as int));
    }
    assert(bytes@.subrange(0, n as int) =~= bytes@);
    Ok(())
}


pub proof fn lemma_items_int8(xs: Seq<u8>, e: Endianness)
    ensures
        encode_items(int8_values(xs), e) == xs,
    decreases xs.len(),
{
    if xs.len() > 0 {
        assert(int8_values(xs).drop_last() =~= int8_values(xs.drop_last()));
        assert(int8_values(xs).last() == NbtValue::Int8(xs.last()));
        lemma_items_int8(xs.drop_last(), e);
        assert(int8_values(xs).len() > 0);
        assert(encode_items(int8_values(xs), e) == encode_items(int8_values(xs).drop_last(), e) + encode_payload(int8_values(xs).last(), e));
        assert(encode_payload(NbtValue::Int8(xs.last()), e) == seq![xs.last()]);
        assert(xs.drop_last() + seq![xs.last()] =~= xs);
    } else {
        assert(int8_values(xs).len() == 0);
        assert(encode_items(int8_values(xs), e) == Seq::<u8>::empty());
        assert(xs =~= Seq::<u8>::empty());
    }
}

pub proof fn lemma_items_int16(xs: Seq<u16>, e: Endianness)
    ensures
        encode_items(int16_values(xs), e) == encode_u16s(xs, e),
    decreases xs.len(),
{
    if xs.len() > 0 {
        assert(int16_values(xs).drop_last() =~= int16_values(xs.drop_last()));
        assert(int16_values(xs).last() == NbtValue::Int16(xs.last()));
        lemma_items_int16(xs.drop_last(), e);
        assert(encode_items(int16_values(xs), e) == encode_items(int16_values(xs).drop_last(), e) + encode_payload(int16_values(xs).last(), e));
    } else {
        assert(encode_items(int16_values(xs), e) == Seq::<u8>::empty());
    }
}

pub proof fn lemma_items_int32(xs: Seq<u32>, e: Endianness)
    ensures
        encode_items(int32_values(xs), e) == encode_u32s(xs, e),
        encode_items(float32_values(xs), e) == encode_u32s(xs, e),
    decreases xs.len(),
{
    if xs.len() > 0 {
        assert(int32_values(xs).drop_last() =~= int32_values(xs.drop_last()));
        assert(int32_values(xs).last() == NbtValue::Int32(xs.last()));
        assert(float32_values(xs).drop_last() =~= float32_values(xs.drop_last()));
        assert(float32_values(xs).last() == NbtValue::Float32(xs.last()));
        lemma_items_int32(xs.drop_last(), e);
        assert(encode_items(int32_values(xs), e) == encode_items(int32_values(xs).drop_last(), e) + encode_payload(int32_values(xs).last(), e));
        assert(encode_items(float32_values(xs), e) == encode_items(float32_values(xs).drop_last(), e) + encode_payload(float32_values(xs).last(), e));
    } else {
        assert(encode_items(int32_values(xs), e) == Seq::<u8>::empty());
        assert(encode_items(float32_values(xs), e) == Seq::<u8>::empty());
    }
}

pub proof fn lemma_items_int64(xs: Seq<u64>, e: Endianness)
    ensures
        encode_items(int64_values(xs), e) == encode_u64s(xs, e),
        encode_items(float64_values(xs), e) == encode_u64s(xs, e),
    decreases xs.len(),
{
    if xs.len() > 0 {
        assert(int64_values(xs).drop_last() =~= int64_values(xs.drop_last()));
        assert(int64_values(xs).last() == NbtValue::Int64(xs.last()));
        assert(float64_values(xs).drop_last() =~= float64_values(xs.drop_last()));
        assert(float64_values(xs).last() == NbtValue::Float64(xs.last()));
        lemma_items_int64(xs.drop_last(), e);
        assert(encode_items(int64_values(xs), e) == encode_items(int64_values(xs).drop_last(), e) + encode_payload(int64_values(xs).last(), e));
        assert(encode_items(float64_values(xs), e) == encode_items(float64_values(xs).drop_last(), e) + encode_payload(float64_values(xs).last(), e));
    } else {
        assert(encode_items(int64_values(xs), e) == Seq::<u8>::empty());
        assert(encode_items(float64_values(xs), e) == Seq::<u8>::empty());
    }
}

/// Appends a tag byte.
pub fn write_tag(t: TypeTag, out: &mut Vec<u8>)
    ensures
        final(out)@ == old(out)@.push(t.spec_byte()),
{
    out.push(t.byte());
}

/// Appends a list length, if it fits in four bytes.
fn write_length(n: usize, out: &mut Vec<u8>, e: Endianness) -> (r: Result<(), WriteError>)
    ensures
        r is Ok <==> n <= u32::MAX,
        r is Ok ==> final(out)@ == old(out)@ + uint_bytes(n as nat, 4, e),
        r is Err ==> final(out)@ == old(out)@,
{
    if n > 0xffff_ffff {
        return Err(WriteError::LengthOverflow);
    }
    proof {
        lemma_pow256_facts();
    }
    push_uint(out, n as u64, 4, e);
    Ok(())
}

fn write_u8s(xs: &Vec<u8>, out: &mut Vec<u8>)
    ensures
        final(out)@ == old(out)@ + xs@,
{
    let mut i: usize = 0;
    while i < xs.len()
        invariant
            i <= xs@.len(),
            out@ == old(out)@ + xs@.take(i as int),
        decreases xs@.len() - i,
    {
        out.push(xs[i]);
        i = i + 1;
        assert(out@ =~= old(out)@ + xs@.take(i as int));
    }
    assert(xs@.take(xs@.len() as int) =~= xs@);
}

fn write_u16s(xs: &Vec<u16>, out: &mut Vec<u8>, e: Endianness)
    ensures
        final(out)@ == old(out)@ + encode_u16s(xs@, e),
{
    proof {
        lemma_pow256_facts();
    }
    let mut i: usize = 0;
    while i < xs.len()
        invariant
            i <= xs@.len(),
            out@ == old(out)@ + encode_u16s(xs@.take(i as int), e),
            pow256(2) == 0x1_0000,
        decreases xs@.len() - i,
    {
        proof {
            assert(xs@.take(i + 1).drop_last() =~= xs@.take(i as int));
        }
        push_uint(out, xs[i] as u64, 2, e);
        i = i + 1;
        assert(out@ =~= old(out)@ + encode_u16s(xs@.take(i as int), e));
    }
    assert(xs@.take(xs@.len() as int) =~= xs@);
}

fn write_u32s(xs: &Vec<u32>, out: &mut Vec<u8>, e: Endianness)
    ensures
        final(out)@ == old(out)@ + encode_u32s(xs@, e),
{
    proof {
        lemma_pow256_facts();
    }
    let mut i: usize = 0;
    while i < xs.len()
        invariant
            i <= xs@.len(),
            out@ == old(out)@ + encode_u32s(xs@.take(i as int), e),
            pow256(4) == 0x1_0000_0000,
        decreases xs@.len() - i,
    {
        proof {
            assert(xs@.take(i + 1).drop_last() =~= xs@.take(i as int));
        }
        push_uint(out, xs[i] as u64, 4, e);
        i = i + 1;
        assert(out@ =~= old(out)@ + encode_u32s(xs@.take(i as int), e));
    }
    assert(xs@.take(xs@.len() as int) =~= xs@);
}

fn write_u64s(xs: &Vec<u64>, out: &mut Vec<u8>, e: Endianness)
    ensures
        final(out)@ == old(out)@ + encode_u64s(xs@, e),
{
    proof {
        lemma_pow256_facts();
    }
    let mut i: usize = 0;
    while i < xs.len()
        invariant
            i <= xs@.len(),
            out@ == old(out)@ + encode_u64s(xs@.take(i as int), e),
            pow256(8) == 0x1_0000_0000_0000_0000,
        decreases xs@.len() - i,
    {
        proof {
            assert(xs@.take(i + 1).drop_last() =~= xs@.take(i as int));
        }
        push_uint(out, xs[i], 8, e);
        i = i + 1;
        assert(out@ =~= old(out)@ + encode_u64s(xs@.take(i as int), e));
    }
    assert(xs@.take(xs@.len() as int) =~= xs@);
}


/// Appends an array of one-byte numbers: its length, then its elements.
pub fn write_int8_array(lv: &ListVariant<u8>, out: &mut Vec<u8>, e: Endianness) -> (r: Result<
    (),
    WriteError,
>)
    ensures
        r is Ok <==> encodable(NbtValue::Int8List(lv.0@)),
        r is Ok ==> final(out)@ == old(out)@ + encode_payload(NbtValue::Int8List(lv.0@), e),
        r is Err ==> final(out)@ == old(out)@,
{
    write_length(lv.0.len(), out, e)?;
    write_u8s(&lv.0, out);
    Ok(())
}

/// Appends an array of four-byte numbers: its length, then its elements.
pub fn write_int32_array(lv: &ListVariant<u32>, out: &mut Vec<u8>, e: Endianness) -> (r: Result<
    (),
    WriteError,
>)
    ensures
        r is Ok <==> encodable(NbtValue::Int32List(lv.0@)),
        r is Ok ==> final(out)@ == old(out)@ + encode_payload(NbtValue::Int32List(lv.0@), e),
        r is Err ==> final(out)@ == old(out)@,
{
    write_length(lv.0.len(), out, e)?;
    write_u32s(&lv.0, out, e);
    Ok(())
}

/// Appends an array of eight-byte numbers: its length, then its elements.
pub fn write_int64_array(lv: &ListVariant<u64>, out: &mut Vec<u8>, e: Endianness) -> (r: Result<
    (),
    WriteError,
>)
    ensures
        r is Ok <==> encodable(NbtValue::Int64List(lv.0@)),
        r is Ok ==> final(out)@ == old(out)@ + encode_payload(NbtValue::Int64List(lv.0@), e),
        r is Err ==> final(out)@ == old(out)@,
{
    write_length(lv.0.len(), out, e)?;
    write_u64s(&lv.0, out, e);
    Ok(())
}

impl Variant {
    /// The tag under which this value is stored.
    pub fn type_tag(&self) -> (t: TypeTag)
        ensures
            t == self@.tag(),
    {
        match self {
            Variant::Int8(_) => TypeTag::Int8,
            Variant::Int16(_) => TypeTag::Int16,
            Variant::Int32(_) => TypeTag::Int32,
            Variant::Int64(_) => TypeTag::Int64,
            Variant::Float32(_) => TypeTag::Float32,
            Variant::Float64(_) => TypeTag::Float64,
            Variant::String(_) => TypeTag::String,
            Variant::List(_) => TypeTag::List,
            Variant::Compound(_) => TypeTag::Compound,
            Variant::Int8List(_) => TypeTag::Int8List,
            Variant::Int32List(_) => TypeTag::Int32List,
            Variant::Int64List(_) => TypeTag::Int64List,
        }
    }
}

/// The tag of the elements of a list value.
pub open spec fn element_tag(v: NbtValue) -> TypeTag {
    match v {
        NbtValue::List(t, _) => t,
        _ => TypeTag::EndCompound,
    }
}

impl List {
    /// The tag of the list's elements; the end tag for an empty list.
    pub fn type_tag(&self) -> (t: TypeTag)
        ensures
            t == element_tag(self@),
            self@ is List,
    {
        match self {
            List::Int8(_) => TypeTag::Int8,
            List::Int16(_) => TypeTag::Int16,
            List::Int32(_) => TypeTag::Int32,
            List::Int64(_) => TypeTag::Int64,
            List::Float32(_) => TypeTag::Float32,
            List::Float64(_) => TypeTag::Float64,
            List::String(_) => TypeTag::String,
            List::List(_) => TypeTag::List,
            List::Compound(_) => TypeTag::Compound,
            List::Int8List(_) => TypeTag::Int8List,
            List::Int32List(_) => TypeTag::Int32List,
            List::Int64List(_) => TypeTag::Int64List,
            List::Empty => TypeTag::EndCompound,
        }
    }
}

/// Appends the payload of a value.
pub fn write_payload(v: &Variant, out: &mut Vec<u8>, e: Endianness) -> (r: Result<(), WriteError>)
    ensures
        r is Ok <==> encodable(v@),
        r is Ok ==> well_formed(v@),
        r is Ok ==> final(out)@ == old(out)@ + encode_payload(v@, e),
        r is Err ==> final(out)@ == old(out)@,
    decreases v,
{
    proof {
        lemma_pow256_facts();
    }
    match v {
        Variant::Int8(x) => {
            out.push(*x);
            Ok(())
        },
        Variant::Int16(x) => {
            push_uint(out, *x as u64, 2, e);
            Ok(())
        },
        Variant::Int32(x) => {
            push_uint(out, *x as u64, 4, e);
            Ok(())
        },
        Variant::Int64(x) => {
            push_uint(out, *x, 8, e);
            Ok(())
        },
        Variant::Float32(x) => {
            push_uint(out, *x as u64, 4, e);
            Ok(())
        },
        Variant::Float64(x) => {
            push_uint(out, *x, 8, e);
            Ok(())
        },
        Variant::String(s) => write_string(s, out, e),
        Variant::List(l) => write_list(l, out, e),
        Variant::Compound(c) => write_compound(c, out, e),
        Variant::Int8List(lv) => write_int8_array(lv, out, e),
        Variant::Int32List(lv) => write_int32_array(lv, out, e),
        Variant::Int64List(lv) => write_int64_array(lv, out, e),
    }
}

/// Appends the payload of a compound: its entries, then the end tag.
#[verifier::rlimit(40)]
pub fn write_compound(c: &Compound, out: &mut Vec<u8>, e: Endianness) -> (r: Result<
    (),
    WriteError,
>)
    ensures
        r is Ok <==> encodable(NbtValue::Compound(c@)),
        r is Ok ==> final(out)@ == old(out)@ + encode_payload(NbtValue::Compound(c@), e),
        r is Ok ==> well_formed(NbtValue::Compound(c@)),
        r is Err ==> final(out)@ == old(out)@,
    decreases c,
{
    proof {
        use_type_invariant(c);
    }
    let ghost entries = c@;
    let start = out.len();
    let n = c.0.len();
    let mut i: usize = 0;
    while i < n
        invariant
            n == c.0@.len(),
            entries == c@,
            entries.len() == n,
            i <= n,
            start == old(out)@.len(),
            out@ == old(out)@ + encode_entries(entries.take(i as int), e),
            forall|j: int|
                0 <= j < i ==> string_fits(#[trigger] entries[j].0) && encodable(entries[j].1),
            forall|j: int| 0 <= j < i ==> well_formed(#[trigger] entries[j].1),
            entries_sorted(entries),
        decreases n - i,
    {
        let entry = &c.0[i];
        proof {
            lemma_encode_entries_take(entries, i as int, e);
            assert(entries[i as int] == (entry.0@, entry.1@));
        }
        let ghost before = out@;
        write_tag(entry.1.type_tag(), out);
        match write_string(&entry.0, out, e) {
            Ok(()) => {},
            Err(err) => {
                out.truncate(start);
                assert(out@ =~= old(out)@);
                assert(!(string_fits(entries[i as int].0) && encodable(entries[i as int].1)));
                proof {
                    lemma_compound_encodable(entries);
                }
                assert(!encodable(NbtValue::Compound(entries)));
                return Err(err);
            },
        }
        match write_payload(&entry.1, out, e) {
            Ok(()) => {},
            Err(err) => {
                out.truncate(start);
                assert(out@ =~= old(out)@);
                assert(!(string_fits(entries[i as int].0) && encodable(entries[i as int].1)));
                proof {
                    lemma_compound_encodable(entries);
                }
                assert(!encodable(NbtValue::Compound(entries)));
                return Err(err);
            },
        }
        assert(string_fits(entries[i as int].0) && encodable(entries[i as int].1));
        assert(well_formed(entries[i as int].1));
        assert forall|j: int| 0 <= j < i + 1 implies well_formed(#[trigger] entries[j].1) by {}
        assert forall|j: int| 0 <= j < i + 1 implies string_fits(#[trigger] entries[j].0) && encodable(entries[j].1) by {}
        i = i + 1;
        assert(out@ =~= old(out)@ + encode_entries(entries.take(i as int), e));
    }
    write_tag(TypeTag::EndCompound, out);
    proof {
        lemma_compound_encodable(entries);
    }
    assert(entries.take(n as int) =~= entries);
    assert(out@ =~= old(out)@ + encode_payload(NbtValue::Compound(entries), e));
    Ok(())
}

/// Appends the payload of a list: the element tag, the length, then the elements.
pub fn write_list(l: &List, out: &mut Vec<u8>, e: Endianness) -> (r: Result<(), WriteError>)
    ensures
        r is Ok <==> encodable(l@),
        r is Ok ==> well_formed(l@),
        r is Ok ==> final(out)@ == old(out)@ + encode_payload(l@, e),
        r is Err ==> final(out)@ == old(out)@,
    decreases l,
{
    proof {
        lemma_pow256_facts();
    }
    let start = out.len();
    write_tag(l.type_tag(), out);
    match l {
        List::Int8(lv) => {
            if let Err(err) = write_int8_items(&lv.0, out, e) {
                out.truncate(start);
                assert(out@ =~= old(out)@);
                return Err(err);
            }
        },
        List::Int16(lv) => {
            if let Err(err) = write_int16_items(&lv.0, out, e) {
                out.truncate(start);
                assert(out@ =~= old(out)@);
                return Err(err);
            }
        },
        List::Int32(lv) => {
            if let Err(err) = write_int32_items(&lv.0, out, e) {
                out.truncate(start);
                assert(out@ =~= old(out)@);
                return Err(err);
            }
        },
        List::Int64(lv) => {
            if let Err(err) = write_int64_items(&lv.0, out, e) {
                out.truncate(start);
                assert(out@ =~= old(out)@);
                return Err(err);
            }
        },
        List::Float32(lv) => {
            if let Err(err) = write_float32_items(&lv.0, out, e) {
                out.truncate(start);
                assert(out@ =~= old(out)@);
                return Err(err);
            }
        },
        List::Float64(lv) => {
            if let Err(err) = write_float64_items(&lv.0, out, e) {
                out.truncate(start);
                assert(out@ =~= old(out)@);
                return Err(err);
            }
        },
        List::String(lv) => {
            if let Err(err) = write_strings(&lv.0, out, e) {
                out.truncate(start);
                assert(out@ =~= old(out)@);
                return Err(err);
            }
        },
        List::List(lv) => {
            if let Err(err) = write_lists(&lv.0, out, e) {
                out.truncate(start);
                assert(out@ =~= old(out)@);
                return Err(err);
            }
        },
        List::Compound(lv) => {
            if let Err(err) = write_compounds(&lv.0, out, e) {
                out.truncate(start);
                assert(out@ =~= old(out)@);
                return Err(err);
            }
        },
        List::Int8List(lv) => {
            if let Err(err) = write_int8_arrays(&lv.0, out, e) {
                out.truncate(start);
                assert(out@ =~= old(out)@);
                return Err(err);
            }
        },
        List::Int32List(lv) => {
            if let Err(err) = write_int32_arrays(&lv.0, out, e) {
                out.truncate(start);
                assert(out@ =~= old(out)@);
                return Err(err);
            }
        },
        List::Int64List(lv) => {
            if let Err(err) = write_int64_arrays(&lv.0, out, e) {
                out.truncate(start);
                assert(out@ =~= old(out)@);
                return Err(err);
            }
        },
        List::Empty => {
            push_uint(out, 0, 4, e);
        },
    }
    proof {
        lemma_list_well_formed(*l);
    }
    Ok(())
}


/// Appends the length of a list of strings and then their payloads.
fn write_strings(xs: &Vec<String>, out: &mut Vec<u8>, e: Endianness) -> (r: Result<(), WriteError>)
    ensures
        r is Ok <==> encodable(NbtValue::List(TypeTag::String, string_values(xs@))),
        r is Ok ==> final(out)@ == old(out)@ + uint_bytes(xs@.len(), 4, e) + encode_items(
            string_values(xs@),
            e,
        ),
        r is Err ==> final(out)@ == old(out)@,
{
    let ghost items = string_values(xs@);
    let start = out.len();
    write_length(xs.len(), out, e)?;
    let ghost head = out@;
    let n = xs.len();
    let mut i: usize = 0;
    while i < n
        invariant
            n == xs@.len(),
            items == string_values(xs@),
            items.len() == n,
            i <= n,
            start == old(out)@.len(),
            head == old(out)@ + uint_bytes(n as nat, 4, e),
            out@ == head + encode_items(items.take(i as int), e),
            forall|j: int| 0 <= j < i ==> encodable(#[trigger] items[j]),
        decreases n - i,
    {
        proof {
            lemma_encode_items_take(items, i as int, e);
            assert(items[i as int] == NbtValue::String(xs@[i as int]@));
        }
        if let Err(err) = write_string(&xs[i], out, e) {
            out.truncate(start);
            assert(out@ =~= old(out)@);
            assert(!encodable(items[i as int]));
            return Err(err);
        }
        i = i + 1;
    }
    assert(items.take(n as int) =~= items);
    Ok(())
}

/// Appends the length of a list of lists and then their payloads.
fn write_lists(xs: &Vec<List>, out: &mut Vec<u8>, e: Endianness) -> (r: Result<(), WriteError>)
    ensures
        r is Ok <==> encodable(NbtValue::List(TypeTag::List, list_values(xs@))),
        r is Ok ==> forall|i: int| 0 <= i < xs@.len() ==> well_formed(#[trigger] list_model(xs@[i])),
        r is Ok ==> final(out)@ == old(out)@ + uint_bytes(xs@.len(), 4, e) + encode_items(
            list_values(xs@),
            e,
        ),
        r is Err ==> final(out)@ == old(out)@,
    decreases xs,
{
    let ghost items = list_values(xs@);
    let start = out.len();
    write_length(xs.len(), out, e)?;
    let ghost head = out@;
    let n = xs.len();
    let mut i: usize = 0;
    while i < n
        invariant
            n == xs@.len(),
            items == list_values(xs@),
            items.len() == n,
            i <= n,
            start == old(out)@.len(),
            head == old(out)@ + uint_bytes(n as nat, 4, e),
            out@ == head + encode_items(items.take(i as int), e),
            forall|j: int| 0 <= j < i ==> encodable(#[trigger] items[j]) && well_formed(items[j]),
            forall|j: int| 0 <= j < n ==> #[trigger] items[j] == list_model(xs@[j]),
        decreases n - i,
    {
        proof {
            lemma_encode_items_take(items, i as int, e);
            assert(items[i as int] == xs@[i as int]@);
        }
        if let Err(err) = write_list(&xs[i], out, e) {
            out.truncate(start);
            assert(out@ =~= old(out)@);
            assert(!encodable(items[i as int]));
            return Err(err);
        }
        i = i + 1;
    }
    assert(items.take(n as int) =~= items);
    assert forall|j: int| 0 <= j < xs@.len() implies well_formed(#[trigger] list_model(xs@[j])) by {
        assert(items[j] == list_model(xs@[j]));
    }
    Ok(())
}

/// Appends the length of a list of compounds and then their payloads.
fn write_compounds(xs: &Vec<Compound>, out: &mut Vec<u8>, e: Endianness) -> (r: Result<(), WriteError>)
    ensures
        r is Ok <==> encodable(NbtValue::List(TypeTag::Compound, compound_values(xs@))),
        r is Ok ==> forall|i: int| 0 <= i < xs@.len() ==> well_formed(NbtValue::Compound(#[trigger] compound_model(xs@[i]))),
        r is Ok ==> final(out)@ == old(out)@ + uint_bytes(xs@.len(), 4, e) + encode_items(
            compound_values(xs@),
            e,
        ),
        r is Err ==> final(out)@ == old(out)@,
    decreases xs,
{
    let ghost items = compound_values(xs@);
    let start = out.len();
    write_length(xs.len(), out, e)?;
    let ghost head = out@;
    let n = xs.len();
    let mut i: usize = 0;
    while i < n
        invariant
            n == xs@.len(),
            items == compound_values(xs@),
            items.len() == n,
            i <= n,
            start == old(out)@.len(),
            head == old(out)@ + uint_bytes(n as nat, 4, e),
            out@ == head + encode_items(items.take(i as int), e),
            forall|j: int| 0 <= j < i ==> encodable(#[trigger] items[j]) && well_formed(items[j]),
            forall|j: int| 0 <= j < n ==> #[trigger] items[j] == NbtValue::Compound(compound_model(xs@[j])),
        decreases n - i,
    {
        proof {
            lemma_encode_items_take(items, i as int, e);
            assert(items[i as int] == NbtValue::Compound(xs@[i as int]@));
        }
        if let Err(err) = write_compound(&xs[i], out, e) {
            out.truncate(start);
            assert(out@ =~= old(out)@);
            assert(!encodable(items[i as int]));
            return Err(err);
        }
        i = i + 1;
    }
    assert(items.take(n as int) =~= items);
    assert forall|j: int| 0 <= j < xs@.len() implies well_formed(NbtValue::Compound(#[trigger] compound_model(xs@[j]))) by {
        assert(items[j] == NbtValue::Compound(compound_model(xs@[j])));
    }
    Ok(())
}

/// Appends the length of a list of one-byte arrays and then their payloads.
fn write_int8_arrays(xs: &Vec<ListVariant<u8>>, out: &mut Vec<u8>, e: Endianness) -> (r: Result<(), WriteError>)
    ensures
        r is Ok <==> encodable(NbtValue::List(TypeTag::Int8List, int8_list_values(xs@))),
        r is Ok ==> final(out)@ == old(out)@ + uint_bytes(xs@.len(), 4, e) + encode_items(
            int8_list_values(xs@),
            e,
        ),
        r is Err ==> final(out)@ == old(out)@,
{
    let ghost items = int8_list_values(xs@);
    let start = out.len();
    write_length(xs.len(), out, e)?;
    let ghost head = out@;
    let n = xs.len();
    let mut i: usize = 0;
    while i < n
        invariant
            n == xs@.len(),
            items == int8_list_values(xs@),
            items.len() == n,
            i <= n,
            start == old(out)@.len(),
            head == old(out)@ + uint_bytes(n as nat, 4, e),
            out@ == head + encode_items(items.take(i as int), e),
            forall|j: int| 0 <= j < i ==> encodable(#[trigger] items[j]),
        decreases n - i,
    {
        proof {
            lemma_encode_items_take(items, i as int, e);
            assert(items[i as int] == NbtValue::Int8List(xs@[i as int].0@));
        }
        if let Err(err) = write_int8_array(&xs[i], out, e) {
            out.truncate(start);
            assert(out@ =~= old(out)@);
            assert(!encodable(items[i as int]));
            return Err(err);
        }
        i = i + 1;
    }
    assert(items.take(n as int) =~= items);
    Ok(())
}

/// Appends the length of a list of four-byte arrays and then their payloads.
fn write_int32_arrays(xs: &Vec<ListVariant<u32>>, out: &mut Vec<u8>, e: Endianness) -> (r: Result<(), WriteError>)
    ensures
        r is Ok <==> encodable(NbtValue::List(TypeTag::Int32List, int32_list_values(xs@))),
        r is Ok ==> final(out)@ == old(out)@ + uint_bytes(xs@.len(), 4, e) + encode_items(
            int32_list_values(xs@),
            e,
        ),
        r is Err ==> final(out)@ == old(out)@,
{
    let ghost items = int32_list_values(xs@);
    let start = out.len();
    write_length(xs.len(), out, e)?;
    let ghost head = out@;
    let n = xs.len();
    let mut i: usize = 0;
    while i < n
        invariant
            n == xs@.len(),
            items == int32_list_values(xs@),
            items.len() == n,
            i <= n,
            start == old(out)@.len(),
            head == old(out)@ + uint_bytes(n as nat, 4, e),
            out@ == head + encode_items(items.take(i as int), e),
            forall|j: int| 0 <= j < i ==> encodable(#[trigger] items[j]),
        decreases n - i,
    {
        proof {
            lemma_encode_items_take(items, i as int, e);
            assert(items[i as int] == NbtValue::Int32List(xs@[i as int].0@));
        }
        if let Err(err) = write_int32_array(&xs[i], out, e) {
            out.truncate(start);
            assert(out@ =~= old(out)@);
            assert(!encodable(items[i as int]));
            return Err(err);
        }
        i = i + 1;
    }
    assert(items.take(n as int) =~= items);
    Ok(())
}

/// Appends the length of a list of eight-byte arrays and then their payloads.
fn write_int64_arrays(xs: &Vec<ListVariant<u64>>, out: &mut Vec<u8>, e: Endianness) -> (r: Result<(), WriteError>)
    ensures
        r is Ok <==> encodable(NbtValue::List(TypeTag::Int64List, int64_list_values(xs@))),
        r is Ok ==> final(out)@ == old(out)@ + uint_bytes(xs@.len(), 4, e) + encode_items(
            int64_list_values(xs@),
            e,
        ),
        r is Err ==> final(out)@ == old(out)@,
{
    let ghost items = int64_list_values(xs@);
    let start = out.len();
    write_length(xs.len(), out, e)?;
    let ghost head = out@;
    let n = xs.len();
    let mut i: usize = 0;
    while i < n
        invariant
            n == xs@.len(),
            items == int64_list_values(xs@),
            items.len() == n,
            i <= n,
            start == old(out)@.len(),
            head == old(out)@ + uint_bytes(n as nat, 4, e),
            out@ == head + encode_items(items.take(i as int), e),
            forall|j: int| 0 <= j < i ==> encodable(#[trigger] items[j]),
        decreases n - i,
    {
        proof {
            lemma_encode_items_take(items, i as int, e);
            assert(items[i as int] == NbtValue::Int64List(xs@[i as int].0@));
        }
        if let Err(err) = write_int64_array(&xs[i], out, e) {
            out.truncate(start);
            assert(out@ =~= old(out)@);
            assert(!encodable(items[i as int]));
            return Err(err);
        }
        i = i + 1;
    }
    assert(items.take(n as int) =~= items);
    Ok(())
}


/// Appends the length of a list of one-byte numbers and then the numbers.
fn write_int8_items(xs: &Vec<u8>, out: &mut Vec<u8>, e: Endianness) -> (r: Result<(), WriteError>)
    ensures
        r is Ok <==> encodable(NbtValue::List(TypeTag::Int8, int8_values(xs@))),
        r is Ok ==> final(out)@ == old(out)@ + uint_bytes(xs@.len(), 4, e) + encode_items(
            int8_values(xs@),
            e,
        ),
        r is Err ==> final(out)@ == old(out)@,
{
    write_length(xs.len(), out, e)?;
    write_u8s(xs, out);
    proof {
        assert forall|i: int| 0 <= i < xs@.len() implies encodable(#[trigger] int8_values(xs@)[i]) by {}
        lemma_items_int8(xs@, e);
    }
    Ok(())
}

/// Appends the length of a list of two-byte numbers and then the numbers.
fn write_int16_items(xs: &Vec<u16>, out: &mut Vec<u8>, e: Endianness) -> (r: Result<(), WriteError>)
    ensures
        r is Ok <==> encodable(NbtValue::List(TypeTag::Int16, int16_values(xs@))),
        r is Ok ==> final(out)@ == old(out)@ + uint_bytes(xs@.len(), 4, e) + encode_items(
            int16_values(xs@),
            e,
        ),
        r is Err ==> final(out)@ == old(out)@,
{
    write_length(xs.len(), out, e)?;
    write_u16s(xs, out, e);
    proof {
        assert forall|i: int| 0 <= i < xs@.len() implies encodable(#[trigger] int16_values(xs@)[i]) by {}
        lemma_items_int16(xs@, e);
    }
    Ok(())
}

/// Appends the length of a list of four-byte numbers and then the numbers.
fn write_int32_items(xs: &Vec<u32>, out: &mut Vec<u8>, e: Endianness) -> (r: Result<(), WriteError>)
    ensures
        r is Ok <==> encodable(NbtValue::List(TypeTag::Int32, int32_values(xs@))),
        r is Ok ==> final(out)@ == old(out)@ + uint_bytes(xs@.len(), 4, e) + encode_items(
            int32_values(xs@),
            e,
        ),
        r is Err ==> final(out)@ == old(out)@,
{
    write_length(xs.len(), out, e)?;
    write_u32s(xs, out, e);
    proof {
        assert forall|i: int| 0 <= i < xs@.len() implies encodable(#[trigger] int32_values(xs@)[i]) by {}
        lemma_items_int32(xs@, e);
    }
    Ok(())
}

/// Appends the length of a list of eight-byte numbers and then the numbers.
fn write_int64_items(xs: &Vec<u64>, out: &mut Vec<u8>, e: Endianness) -> (r: Result<(), WriteError>)
    ensures
        r is Ok <==> encodable(NbtValue::List(TypeTag::Int64, int64_values(xs@))),
        r is Ok ==> final(out)@ == old(out)@ + uint_bytes(xs@.len(), 4, e) + encode_items(
            int64_values(xs@),
            e,
        ),
        r is Err ==> final(out)@ == old(out)@,
{
    write_length(xs.len(), out, e)?;
    write_u64s(xs, out, e);
    proof {
        assert forall|i: int| 0 <= i < xs@.len() implies encodable(#[trigger] int64_values(xs@)[i]) by {}
        lemma_items_int64(xs@, e);
    }
    Ok(())
}

/// Appends the length of a list of four-byte floating-point bit patterns and then the numbers.
fn write_float32_items(xs: &Vec<u32>, out: &mut Vec<u8>, e: Endianness) -> (r: Result<(), WriteError>)
    ensures
        r is Ok <==> encodable(NbtValue::List(TypeTag::Float32, float32_values(xs@))),
        r is Ok ==> final(out)@ == old(out)@ + uint_bytes(xs@.len(), 4, e) + encode_items(
            float32_values(xs@),
            e,
        ),
        r is Err ==> final(out)@ == old(out)@,
{
    write_length(xs.len(), out, e)?;
    write_u32s(xs, out, e);
    proof {
        assert forall|i: int| 0 <= i < xs@.len() implies encodable(#[trigger] float32_values(xs@)[i]) by {}
        lemma_items_int32(xs@, e);
    }
    Ok(())
}

/// Appends the length of a list of eight-byte floating-point bit patterns and then the numbers.
fn write_float64_items(xs: &Vec<u64>, out: &mut Vec<u8>, e: Endianness) -> (r: Result<(), WriteError>)
    ensures
        r is Ok <==> encodable(NbtValue::List(TypeTag::Float64, float64_values(xs@))),
        r is Ok ==> final(out)@ == old(out)@ + uint_bytes(xs@.len(), 4, e) + encode_items(
            float64_values(xs@),
            e,
        ),
        r is Err ==> final(out)@ == old(out)@,
{
    write_length(xs.len(), out, e)?;
    write_u64s(xs, out, e);
    proof {
        assert forall|i: int| 0 <= i < xs@.len() implies encodable(#[trigger] float64_values(xs@)[i]) by {}
        lemma_items_int64(xs@, e);
    }
    Ok(())
}


/// Four-byte numbers take four bytes each.
pub proof fn lemma_encode_u32s_len(xs: Seq<u32>, e: Endianness)
    ensures
        encode_u32s(xs, e).len() == 4 * xs.len(),
    decreases xs.len(),
{
    if xs.len() > 0 {
        lemma_encode_u32s_len(xs.drop_last(), e);
        crate::binary::lemma_uint_bytes_len(xs.last() as nat, 4, e);
    }
}

/// Eight-byte numbers take eight bytes each.
pub proof fn lemma_encode_u64s_len(xs: Seq<u64>, e: Endianness)
    ensures
        encode_u64s(xs, e).len() == 8 * xs.len(),
    decreases xs.len(),
{
    if xs.len() > 0 {
        lemma_encode_u64s_len(xs.drop_last(), e);
        crate::binary::lemma_uint_bytes_len(xs.last() as nat, 8, e);
    }
}

/// The layout of the payloads that have lengths: a string is its UTF-8 length in two bytes,
/// then its UTF-8 bytes; a byte array its count in four bytes, then its bytes; an int array
/// and a long array their counts in four bytes, then four or eight bytes an element; a list
/// its element tag's byte, then its count in four bytes; a compound ends with a zero byte.
pub proof fn law_payload_layout(v: NbtValue, e: Endianness)
    requires
        encodable(v),
    ensures
        v matches NbtValue::String(t) ==> encode_payload(v, e).len() == 2 + encode_utf8(t).len()
            && uint_value(encode_payload(v, e).take(2), e) == encode_utf8(t).len()
            && encode_payload(v, e).skip(2) == encode_utf8(t),
        v matches NbtValue::Int8List(xs) ==> encode_payload(v, e).len() == 4 + xs.len()
            && uint_value(encode_payload(v, e).take(4), e) == xs.len()
            && encode_payload(v, e).skip(4) == xs,
        v matches NbtValue::Int32List(xs) ==> encode_payload(v, e).len() == 4 + 4 * xs.len()
            && uint_value(encode_payload(v, e).take(4), e) == xs.len(),
        v matches NbtValue::Int64List(xs) ==> encode_payload(v, e).len() == 4 + 8 * xs.len()
            && uint_value(encode_payload(v, e).take(4), e) == xs.len(),
        v matches NbtValue::List(t, items) ==> encode_payload(v, e)[0] == t.spec_byte()
            && uint_value(encode_payload(v, e).subrange(1, 5), e) == items.len(),
        v is Compound ==> encode_payload(v, e).last() == 0,
{
    crate::binary::lemma_pow256_facts();
    let p = encode_payload(v, e);
    match v {
        NbtValue::String(t) => {
            let n = encode_utf8(t).len();
            crate::binary::lemma_uint_bytes_len(n, 2, e);
            crate::binary::lemma_uint_roundtrip(n, 2, e);
            assert(p.take(2) =~= uint_bytes(n, 2, e));
            assert(p.skip(2) =~= encode_utf8(t));
        },
        NbtValue::Int8List(xs) => {
            crate::binary::lemma_uint_bytes_len(xs.len(), 4, e);
            crate::binary::lemma_uint_roundtrip(xs.len(), 4, e);
            assert(p.take(4) =~= uint_bytes(xs.len(), 4, e));
            assert(p.skip(4) =~= xs);
        },
        NbtValue::Int32List(xs) => {
            crate::binary::lemma_uint_bytes_len(xs.len(), 4, e);
            crate::binary::lemma_uint_roundtrip(xs.len(), 4, e);
            lemma_encode_u32s_len(xs, e);
            assert(p.take(4) =~= uint_bytes(xs.len(), 4, e));
        },
        NbtValue::Int64List(xs) => {
            crate::binary::lemma_uint_bytes_len(xs.len(), 4, e);
            crate::binary::lemma_uint_roundtrip(xs.len(), 4, e);
            lemma_encode_u64s_len(xs, e);
            assert(p.take(4) =~= uint_bytes(xs.len(), 4, e));
        },
        NbtValue::List(t, items) => {
            crate::binary::lemma_uint_bytes_len(items.len(), 4, e);
            crate::binary::lemma_uint_roundtrip(items.len(), 4, e);
            assert(p.subrange(1, 5) =~= uint_bytes(items.len(), 4, e));
        },
        _ => {},
    }
}

/// A named tag is written starting with the byte of its value's kind: 1 for a byte, 2 for a
/// short, 3 for an int, 4 for a long, 5 for a float, 6 for a double, 7 for a byte array, 8 for
/// a string, 9 for a list, 10 for a compound, 11 for an int array and 12 for a long array; the
/// name's two-byte length follows. A float's payload is its four bytes and a double's its eight.
pub proof fn law_named_tag_bytes(name: Seq<char>, v: NbtValue, e: Endianness)
    ensures
        encode_named(name, v, e).len() >= 3,
        encode_named(name, v, e)[0] == match v {
            NbtValue::Int8(_) => 1u8,
            NbtValue::Int16(_) => 2u8,
            NbtValue::Int32(_) => 3u8,
            NbtValue::Int64(_) => 4u8,
            NbtValue::Float32(_) => 5u8,
            NbtValue::Float64(_) => 6u8,
            NbtValue::Int8List(_) => 7u8,
            NbtValue::String(_) => 8u8,
            NbtValue::List(_, _) => 9u8,
            NbtValue::Compound(_) => 10u8,
            NbtValue::Int32List(_) => 11u8,
            NbtValue::Int64List(_) => 12u8,
        },
        v matches NbtValue::Float32(x) ==> encode_payload(v, e) == uint_bytes(x as nat, 4, e)
            && uint_bytes(x as nat, 4, e).len() == 4,
        v matches NbtValue::Float64(x) ==> encode_payload(v, e) == uint_bytes(x as nat, 8, e)
            && uint_bytes(x as nat, 8, e).len() == 8,
{
    crate::binary::lemma_uint_bytes_len(encode_utf8(name).len(), 2, e);
    if let NbtValue::Float32(x) = v {
        crate::binary::lemma_uint_bytes_len(x as nat, 4, e);
    }
    if let NbtValue::Float64(x) = v {
        crate::binary::lemma_uint_bytes_len(x as nat, 8, e);
    }
}

/// Appends a named tag: the value's tag, the name, then the value. What it writes reads back
/// as the same name and value, ending where the written bytes end: every compound keeps its
/// keys in order, which is the type's invariant, and every list holds elements of its kind.
pub fn write_named_tag(t: &NamedTag, out: &mut Vec<u8>, e: Endianness) -> (r: Result<(), WriteError>)
    ensures
        r is Ok <==> string_fits(t.0@) && encodable(t.1@),
        r is Ok ==> final(out)@ == old(out)@ + encode_named(t.0@, t.1@, e),
        r is Err ==> final(out)@ == old(out)@,
        r is Ok ==> well_formed(t.1@),
        r is Ok ==> decode_named(final(out)@, old(out)@.len() as int, e) == Ok::<
            ((Seq<char>, NbtValue), int),
            ReadError,
        >(((t.0@, t.1@), final(out)@.len() as int)),
{
    let start = out.len();
    write_tag(t.1.type_tag(), out);
    if let Err(err) = write_string(&t.0, out, e) {
        out.truncate(start);
        assert(out@ =~= old(out)@);
        return Err(err);
    }
    if let Err(err) = write_payload(&t.1, out, e) {
        out.truncate(start);
        assert(out@ =~= old(out)@);
        return Err(err);
    }
    assert(out@ =~= old(out)@ + encode_named(t.0@, t.1@, e));
    proof {
        let start_pos = old(out)@.len() as int;
        assert(out@.subrange(start_pos, start_pos + encode_named(t.0@, t.1@, e).len()) =~= encode_named(t.0@, t.1@, e));
        assert(holds_at(out@, start_pos, encode_named(t.0@, t.1@, e)));
        lemma_named_roundtrip(t.0@, t.1@, out@, start_pos, e);
    }
    Ok(())
}

/// The bytes of a Bedrock header: the version, then the size.
pub open spec fn encode_header(version: u32, size: u32, e: Endianness) -> Seq<u8> {
    uint_bytes(version as nat, 4, e) + uint_bytes(size as nat, 4, e)
}

/// Appends a Bedrock header.
pub fn write_bedrock_header(h: &BedrockHeader, out: &mut Vec<u8>, e: Endianness)
    ensures
        final(out)@ == old(out)@ + encode_header(h.version, h.size, e),
{
    proof {
        lemma_pow256_facts();
    }
    push_uint(out, h.version as u64, 4, e);
    push_uint(out, h.size as u64, 4, e);
    assert(out@ =~= old(out)@ + encode_header(h.version, h.size, e));
}

/// Types that can be written in the binary format.
pub trait WriteNbt {
    /// Appends the value to `out`.
    fn write_nbt(&self, out: &mut Vec<u8>, endianness: Endianness) -> Result<(), WriteError>;
}

impl WriteNbt for BedrockHeader {
    fn write_nbt(&self, out: &mut Vec<u8>, endianness: Endianness) -> (r: Result<(), WriteError>)
        ensures
            r is Ok,
            final(out)@ == old(out)@ + encode_header(self.version, self.size, endianness),
    {
        write_bedrock_header(self, out, endianness);
        Ok(())
    }
}

impl WriteNbt for NamedTag {
    fn write_nbt(&self, out: &mut Vec<u8>, endianness: Endianness) -> (r: Result<(), WriteError>)
        ensures
            r is Ok <==> string_fits(self.0@) && encodable(self.1@),
            r is Ok ==> final(out)@ == old(out)@ + encode_named(self.0@, self.1@, endianness),
            r is Err ==> final(out)@ == old(out)@,
            r is Ok ==> decode_named(final(out)@, old(out)@.len() as int, endianness) == Ok::<
                ((Seq<char>, NbtValue), int),
                ReadError,
            >(((self.0@, self.1@), final(out)@.len() as int)),
    {
        write_named_tag(self, out, endianness)
    }
}

impl WriteNbt for String {
    fn write_nbt(&self, out: &mut Vec<u8>, endianness: Endianness) -> (r: Result<(), WriteError>)
        ensures
            r is Ok <==> string_fits(self@),
            r is Ok ==> final(out)@ == old(out)@ + encode_string(self@, endianness),
            r is Err ==> final(out)@ == old(out)@,
    {
        write_string(self, out, endianness)
    }
}

impl WriteNbt for TypeTag {
    fn write_nbt(&self, out: &mut Vec<u8>, endianness: Endianness) -> (r: Result<(), WriteError>)
        ensures
            r is Ok,
            final(out)@ == old(out)@.push(self.spec_byte()),
    {
        write_tag(*self, out);
        Ok(())
    }
}

impl WriteNbt for Variant {
    fn write_nbt(&self, out: &mut Vec<u8>, endianness: Endianness) -> (r: Result<(), WriteError>)
        ensures
            r is Ok <==> encodable(self@),
            r is Ok ==> final(out)@ == old(out)@ + encode_payload(self@, endianness),
            r is Err ==> final(out)@ == old(out)@,
    {
        write_payload(self, out, endianness)
    }
}

impl WriteNbt for List {
    fn write_nbt(&self, out: &mut Vec<u8>, endianness: Endianness) -> (r: Result<(), WriteError>)
        ensures
            r is Ok <==> encodable(self@),
            r is Ok ==> final(out)@ == old(out)@ + encode_payload(self@, endianness),
            r is Err ==> final(out)@ == old(out)@,
    {
        write_list(self, out, endianness)
    }
}

impl WriteNbt for Compound {
    fn write_nbt(&self, out: &mut Vec<u8>, endianness: Endianness) -> (r: Result<(), WriteError>)
        ensures
            r is Ok <==> encodable(NbtValue::Compound(self@)),
            r is Ok ==> final(out)@ == old(out)@ + encode_payload(NbtValue::Compound(self@), endianness),
            r is Err ==> final(out)@ == old(out)@,
    {
        write_compound(self, out, endianness)
    }
}

} // verus!
