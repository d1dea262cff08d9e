//! Lists of converted values, packed by the tag of their elements.
use vstd::prelude::*;
use crate::binary::TypeTag;
use crate::snbt::read::convert::values_of;
use crate::{
    Compound, List, ListVariant, NbtValue, Variant, list_model, int8_values, int16_values, int32_values,
    int64_values, float32_values, float64_values, string_values, list_values, compound_values,
    int8_list_values, int32_list_values, int64_list_values,
};

verus! {

fn take_int8(elems: &Vec<Variant>) -> (r: Vec<u8>)
    requires
        forall|i: int| 0 <= i < elems@.len() ==> (#[trigger] elems@[i])@.tag() == TypeTag::Int8,
    ensures
        int8_values(r@) == values_of(elems@),
{
    let mut r: Vec<u8> = Vec::new();
    let mut i: usize = 0;
    while i < elems.len()
        invariant
            i <= elems@.len(),
            forall|k: int| 0 <= k < elems@.len() ==> (#[trigger] elems@[k])@.tag() == TypeTag::Int8,
            int8_values(r@) =~= values_of(elems@).take(i as int),
        decreases elems@.len() - i,
    {
        assert(elems@[i as int]@.tag() == TypeTag::Int8);
        match &elems[i] {
            Variant::Int8(x) => {
                let ghost before = r@;
                r.push(*x);
                assert(int8_values(r@) =~= int8_values(before).push(NbtValue::Int8(*x)));
            },
            _ => {},
        }
        assert(values_of(elems@).take(i as int + 1) =~= values_of(elems@).take(i as int).push(elems@[i as int]@));
        i = i + 1;
    }
    assert(values_of(elems@).take(i as int) =~= values_of(elems@));
    r
}

fn take_int16(elems: &Vec<Variant>) -> (r: Vec<u16>)
    requires
        forall|i: int| 0 <= i < elems@.len() ==> (#[trigger] elems@[i])@.tag() == TypeTag::Int16,
    ensures
        int16_values(r@) == values_of(elems@),
{
    let mut r: Vec<u16> = Vec::new();
    let mut i: usize = 0;
    while i < elems.len()
        invariant
            i <= elems@.len(),
            forall|k: int| 0 <= k < elems@.len() ==> (#[trigger] elems@[k])@.tag() == TypeTag::Int16,
            int16_values(r@) =~= values_of(elems@).take(i as int),
        decreases elems@.len() - i,
    {
        assert(elems@[i as int]@.tag() == TypeTag::Int16);
        match &elems[i] {
            Variant::Int16(x) => {
                let ghost before = r@;
                r.push(*x);
                assert(int16_values(r@) =~= int16_values(before).push(NbtValue::Int16(*x)));
            },
            _ => {},
        }
        assert(values_of(elems@).take(i as int + 1) =~= values_of(elems@).take(i as int).push(elems@[i as int]@));
        i = i + 1;
    }
    assert(values_of(elems@).take(i as int) =~= values_of(elems@));
    r
}

fn take_int32(elems: &Vec<Variant>) -> (r: Vec<u32>)
    requires
        forall|i: int| 0 <= i < elems@.len() ==> (#[trigger] elems@[i])@.tag() == TypeTag::Int32,
    ensures
        int32_values(r@) == values_of(elems@),
{
    let mut r: Vec<u32> = Vec::new();
    let mut i: usize = 0;
    while i < elems.len()
        invariant
            i <= elems@.len(),
            forall|k: int| 0 <= k < elems@.len() ==> (#[trigger] elems@[k])@.tag() == TypeTag::Int32,
            int32_values(r@) =~= values_of(elems@).take(i as int),
        decreases elems@.len() - i,
    {
        assert(elems@[i as int]@.tag() == TypeTag::Int32);
        match &elems[i] {
            Variant::Int32(x) => {
                let ghost before = r@;
                r.push(*x);
                assert(int32_values(r@) =~= int32_values(before).push(NbtValue::Int32(*x)));
            },
            _ => {},
        }
        assert(values_of(elems@).take(i as int + 1) =~= values_of(elems@).take(i as int).push(elems@[i as int]@));
        i = i + 1;
    }
    assert(values_of(elems@).take(i as int) =~= values_of(elems@));
    r
}

fn take_int64(elems: &Vec<Variant>) -> (r: Vec<u64>)
    requires
        forall|i: int| 0 <= i < elems@.len() ==> (#[trigger] elems@[i])@.tag() == TypeTag::Int64,
    ensures
        int64_values(r@) == values_of(elems@),
{
    let mut r: Vec<u64> = Vec::new();
    let mut i: usize = 0;
    while i < elems.len()
        invariant
            i <= elems@.len(),
            forall|k: int| 0 <= k < elems@.len() ==> (#[trigger] elems@[k])@.tag() == TypeTag::Int64,
            int64_values(r@) =~= values_of(elems@).take(i as int),
        decreases elems@.len() - i,
    {
        assert(elems@[i as int]@.tag() == TypeTag::Int64);
        match &elems[i] {
            Variant::Int64(x) => {
                let ghost before = r@;
                r.push(*x);
                assert(int64_values(r@) =~= int64_values(before).push(NbtValue::Int64(*x)));
            },
            _ => {},
        }
        assert(values_of(elems@).take(i as int + 1) =~= values_of(elems@).take(i as int).push(elems@[i as int]@));
        i = i + 1;
    }
    assert(values_of(elems@).take(i as int) =~= values_of(elems@));
    r
}

fn take_float32(elems: &Vec<Variant>) -> (r: Vec<u32>)
    requires
        forall|i: int| 0 <= i < elems@.len() ==> (#[trigger] elems@[i])@.tag() == TypeTag::Float32,
    ensures
        float32_values(r@) == values_of(elems@),
{
    let mut r: Vec<u32> = Vec::new();
    let mut i: usize = 0;
    while i < elems.len()
        invariant
            i <= elems@.len(),
            forall|k: int| 0 <= k < elems@.len() ==> (#[trigger] elems@[k])@.tag() == TypeTag::Float32,
            float32_values(r@) =~= values_of(elems@).take(i as int),
        decreases elems@.len() - i,
    {
        assert(elems@[i as int]@.tag() == TypeTag::Float32);
        match &elems[i] {
            Variant::Float32(x) => {
                let ghost before = r@;
                r.push(*x);
                assert(float32_values(r@) =~= float32_values(before).push(NbtValue::Float32(*x)));
            },
            _ => {},
        }
        assert(values_of(elems@).take(i as int + 1) =~= values_of(elems@).take(i as int).push(elems@[i as int]@));
        i = i + 1;
    }
    assert(values_of(elems@).take(i as int) =~= values_of(elems@));
    r
}

fn take_float64(elems: &Vec<Variant>) -> (r: Vec<u64>)
    requires
        forall|i: int| 0 <= i < elems@.len() ==> (#[trigger] elems@[i])@.tag() == TypeTag::Float64,
    ensures
        float64_values(r@) == values_of(elems@),
{
    let mut r: Vec<u64> = Vec::new();
    let mut i: usize = 0;
    while i < elems.len()
        invariant
            i <= elems@.len(),
            forall|k: int| 0 <= k < elems@.len() ==> (#[trigger] elems@[k])@.tag() == TypeTag::Float64,
            float64_values(r@) =~= values_of(elems@).take(i as int),
        decreases elems@.len() - i,
    {
        assert(elems@[i as int]@.tag() == TypeTag::Float64);
        match &elems[i] {
            Variant::Float64(x) => {
                let ghost before = r@;
                r.push(*x);
                assert(float64_values(r@) =~= float64_values(before).push(NbtValue::Float64(*x)));
            },
            _ => {},
        }
        assert(values_of(elems@).take(i as int + 1) =~= values_of(elems@).take(i as int).push(elems@[i as int]@));
        i = i + 1;
    }
    assert(values_of(elems@).take(i as int) =~= values_of(elems@));
    r
}

fn take_string(elems: Vec<Variant>) -> (r: Vec<String>)
    requires
        forall|i: int| 0 <= i < elems@.len() ==> (#[trigger] elems@[i])@.tag() == TypeTag::String,
    ensures
        string_values(r@) == values_of(elems@),
{
    let ghost orig = elems@;
    let total = elems.len();
    let mut elems = elems;
    let mut r: Vec<String> = Vec::new();
    let mut i: usize = 0;
    while elems.len() > 0
        invariant
            i + elems@.len() == orig.len(),
            orig.len() == total,
            elems@ == orig.subrange(i as int, orig.len() as int),
            forall|k: int| 0 <= k < orig.len() ==> (#[trigger] orig[k])@.tag() == TypeTag::String,
            string_values(r@) =~= values_of(orig).take(i as int),
        decreases elems@.len(),
    {
        assert(orig[i as int]@.tag() == TypeTag::String);
        let x = elems.remove(0);
        assert(x == orig[i as int]);
        match x {
            Variant::String(y) => {
                let ghost before = r@;
                r.push(y);
                assert(string_values(r@) =~= string_values(before).push(x@));
            },
            _ => {},
        }
        assert(values_of(orig).take(i as int + 1) =~= values_of(orig).take(i as int).push(orig[i as int]@));
        assert(elems@ =~= orig.subrange(i as int + 1, orig.len() as int));
        i = i + 1;
    }
    assert(values_of(orig).take(i as int) =~= values_of(orig));
    r
}

fn take_list(elems: Vec<Variant>) -> (r: Vec<List>)
    requires
        forall|i: int| 0 <= i < elems@.len() ==> (#[trigger] elems@[i])@.tag() == TypeTag::List,
    ensures
        list_values(r@) == values_of(elems@),
{
    let ghost orig = elems@;
    let total = elems.len();
    let mut elems = elems;
    let mut r: Vec<List> = Vec::new();
    let mut i: usize = 0;
    while elems.len() > 0
        invariant
            i + elems@.len() == orig.len(),
            orig.len() == total,
            elems@ == orig.subrange(i as int, orig.len() as int),
            forall|k: int| 0 <= k < orig.len() ==> (#[trigger] orig[k])@.tag() == TypeTag::List,
            list_values(r@) =~= values_of(orig).take(i as int),
        decreases elems@.len(),
    {
        assert(orig[i as int]@.tag() == TypeTag::List);
        let x = elems.remove(0);
        assert(x == orig[i as int]);
        match x {
            Variant::List(y) => {
                let ghost before = r@;
                r.push(y);
                assert(list_values(r@) =~= list_values(before).push(x@));
            },
            _ => {},
        }
        assert(values_of(orig).take(i as int + 1) =~= values_of(orig).take(i as int).push(orig[i as int]@));
        assert(elems@ =~= orig.subrange(i as int + 1, orig.len() as int));
        i = i + 1;
    }
    assert(values_of(orig).take(i as int) =~= values_of(orig));
    r
}

fn take_compound(elems: Vec<Variant>) -> (r: Vec<Compound>)
    requires
        forall|i: int| 0 <= i < elems@.len() ==> (#[trigger] elems@[i])@.tag() == TypeTag::Compound,
    ensures
        compound_values(r@) == values_of(elems@),
{
    let ghost orig = elems@;
    let total = elems.len();
    let mut elems = elems;
    let mut r: Vec<Compound> = Vec::new();
    let mut i: usize = 0;
    while elems.len() > 0
        invariant
            i + elems@.len() == orig.len(),
            orig.len() == total,
            elems@ == orig.subrange(i as int, orig.len() as int),
            forall|k: int| 0 <= k < orig.len() ==> (#[trigger] orig[k])@.tag() == TypeTag::Compound,
            compound_values(r@) =~= values_of(orig).take(i as int),
        decreases elems@.len(),
    {
        assert(orig[i as int]@.tag() == TypeTag::Compound);
        let x = elems.remove(0);
        assert(x == orig[i as int]);
        match x {
            Variant::Compound(y) => {
                let ghost before = r@;
                r.push(y);
                assert(compound_values(r@) =~= compound_values(before).push(x@));
            },
            _ => {},
        }
        assert(values_of(orig).take(i as int + 1) =~= values_of(orig).take(i as int).push(orig[i as int]@));
        assert(elems@ =~= orig.subrange(i as int + 1, orig.len() as int));
        i = i + 1;
    }
    assert(values_of(orig).take(i as int) =~= values_of(orig));
    r
}

fn take_int8list(elems: Vec<Variant>) -> (r: Vec<ListVariant<u8>>)
    requires
        forall|i: int| 0 <= i < elems@.len() ==> (#[trigger] elems@[i])@.tag() == TypeTag::Int8List,
    ensures
        int8_list_values(r@) == values_of(elems@),
{
    let ghost orig = elems@;
    let total = elems.len();
    let mut elems = elems;
    let mut r: Vec<ListVariant<u8>> = Vec::new();
    let mut i: usize = 0;
    while elems.len() > 0
        invariant
            i + elems@.len() == orig.len(),
            orig.len() == total,
            elems@ == orig.subrange(i as int, orig.len() as int),
            forall|k: int| 0 <= k < orig.len() ==> (#[trigger] orig[k])@.tag() == TypeTag::Int8List,
            int8_list_values(r@) =~= values_of(orig).take(i as int),
        decreases elems@.len(),
    {
        assert(orig[i as int]@.tag() == TypeTag::Int8List);
        let x = elems.remove(0);
        assert(x == orig[i as int]);
        match x {
            Variant::Int8List(y) => {
                let ghost before = r@;
                r.push(y);
                assert(int8_list_values(r@) =~= int8_list_values(before).push(x@));
            },
            _ => {},
        }
        assert(values_of(orig).take(i as int + 1) =~= values_of(orig).take(i as int).push(orig[i as int]@));
        assert(elems@ =~= orig.subrange(i as int + 1, orig.len() as int));
        i = i + 1;
    }
    assert(values_of(orig).take(i as int) =~= values_of(orig));
    r
}

fn take_int32list(elems: Vec<Variant>) -> (r: Vec<ListVariant<u32>>)
    requires
        forall|i: int| 0 <= i < elems@.len() ==> (#[trigger] elems@[i])@.tag() == TypeTag::Int32List,
    ensures
        int32_list_values(r@) == values_of(elems@),
{
    let ghost orig = elems@;
    let total = elems.len();
    let mut elems = elems;
    let mut r: Vec<ListVariant<u32>> = Vec::new();
    let mut i: usize = 0;
    while elems.len() > 0
        invariant
            i + elems@.len() == orig.len(),
            orig.len() == total,
            elems@ == orig.subrange(i as int, orig.len() as int),
            forall|k: int| 0 <= k < orig.len() ==> (#[trigger] orig[k])@.tag() == TypeTag::Int32List,
            int32_list_values(r@) =~= values_of(orig).take(i as int),
        decreases elems@.len(),
    {
        assert(orig[i as int]@.tag() == TypeTag::Int32List);
        let x = elems.remove(0);
        assert(x == orig[i as int]);
        match x {
            Variant::Int32List(y) => {
                let ghost before = r@;
                r.push(y);
                assert(int32_list_values(r@) =~= int32_list_values(before).push(x@));
            },
            _ => {},
        }
        assert(values_of(orig).take(i as int + 1) =~= values_of(orig).take(i as int).push(orig[i as int]@));
        assert(elems@ =~= orig.subrange(i as int + 1, orig.len() as int));
        i = i + 1;
    }
    assert(values_of(orig).take(i as int) =~= values_of(orig));
    r
}

fn take_int64list(elems: Vec<Variant>) -> (r: Vec<ListVariant<u64>>)
    requires
        forall|i: int| 0 <= i < elems@.len() ==> (#[trigger] elems@[i])@.tag() == TypeTag::Int64List,
    ensures
        int64_list_values(r@) == values_of(elems@),
{
    let ghost orig = elems@;
    let total = elems.len();
    let mut elems = elems;
    let mut r: Vec<ListVariant<u64>> = Vec::new();
    let mut i: usize = 0;
    while elems.len() > 0
        invariant
            i + elems@.len() == orig.len(),
            orig.len() == total,
            elems@ == orig.subrange(i as int, orig.len() as int),
            forall|k: int| 0 <= k < orig.len() ==> (#[trigger] orig[k])@.tag() == TypeTag::Int64List,
            int64_list_values(r@) =~= values_of(orig).take(i as int),
        decreases elems@.len(),
    {
        assert(orig[i as int]@.tag() == TypeTag::Int64List);
        let x = elems.remove(0);
        assert(x == orig[i as int]);
        match x {
            Variant::Int64List(y) => {
                let ghost before = r@;
                r.push(y);
                assert(int64_list_values(r@) =~= int64_list_values(before).push(x@));
            },
            _ => {},
        }
        assert(values_of(orig).take(i as int + 1) =~= values_of(orig).take(i as int).push(orig[i as int]@));
        assert(elems@ =~= orig.subrange(i as int + 1, orig.len() as int));
        i = i + 1;
    }
    assert(values_of(orig).take(i as int) =~= values_of(orig));
    r
}

/// The list of tag `tag` that holds `elems`.
pub fn pack_list(tag: TypeTag, elems: Vec<Variant>) -> (l: List)
    requires
        forall|i: int| 0 <= i < elems@.len() ==> (#[trigger] elems@[i])@.tag() == tag,
        tag == TypeTag::EndCompound ==> elems@.len() == 0,
    ensures
        list_model(l) == NbtValue::List(tag, values_of(elems@)),
{
    match tag {
        TypeTag::EndCompound => {
            assert(values_of(elems@) =~= Seq::<NbtValue>::empty());
            List::Empty
        },
        TypeTag::Int8 => List::Int8(ListVariant(take_int8(&elems))),
        TypeTag::Int16 => List::Int16(ListVariant(take_int16(&elems))),
        TypeTag::Int32 => List::Int32(ListVariant(take_int32(&elems))),
        TypeTag::Int64 => List::Int64(ListVariant(take_int64(&elems))),
        TypeTag::Float32 => List::Float32(ListVariant(take_float32(&elems))),
        TypeTag::Float64 => List::Float64(ListVariant(take_float64(&elems))),
        TypeTag::String => List::String(ListVariant(take_string(elems))),
        TypeTag::List => List::List(ListVariant(take_list(elems))),
        TypeTag::Compound => List::Compound(ListVariant(take_compound(elems))),
        TypeTag::Int8List => List::Int8List(ListVariant(take_int8list(elems))),
        TypeTag::Int32List => List::Int32List(ListVariant(take_int32list(elems))),
        TypeTag::Int64List => List::Int64List(ListVariant(take_int64list(elems))),
    }
}

} // verus!
