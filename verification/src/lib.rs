//! Named Binary Tag (NBT) data: the value tree, its binary encodings and the
//! textual SNBT syntax.
use vstd::prelude::*;

pub mod binary;
pub mod compound;
pub mod diagnostics;
pub mod snbt;
pub mod structures;

use crate::binary::TypeTag;

verus! {

/// A tagged NBT value.
///
/// Floating-point payloads are held as their IEEE-754 bit patterns, which is
/// exactly what the binary format stores.
#[derive(Debug, PartialEq)]
pub enum Variant {
    Int8(u8),
    Int16(u16),
    Int32(u32),
    Int64(u64),
    Float32(u32),
    Float64(u64),
    String(String),
    List(List),
    Compound(Compound),
    Int8List(ListVariant<u8>),
    Int32List(ListVariant<u32>),
    Int64List(ListVariant<u64>),
}

/// A homogeneous list of NBT payloads; `Empty` is a list whose element tag is
/// the end tag.
#[derive(Debug, PartialEq)]
pub enum List {
    Int8(ListVariant<u8>),
    Int16(ListVariant<u16>),
    Int32(ListVariant<u32>),
    Int64(ListVariant<u64>),
    Float32(ListVariant<u32>),
    Float64(ListVariant<u64>),
    String(ListVariant<String>),
    List(ListVariant<List>),
    Compound(ListVariant<Compound>),
    Int8List(ListVariant<ListVariant<u8>>),
    Int32List(ListVariant<ListVariant<u32>>),
    Int64List(ListVariant<ListVariant<u64>>),
    Empty,
}

#[derive(Debug, PartialEq)]
pub struct ListVariant<T>(pub Vec<T>);

/// A map from names to values.  The entries are kept in strictly increasing order of
/// the UTF-8 bytes of their keys, the order in which they are written out: that is the type's
/// invariant ([`Compound::keys_ascending`]), kept by [`Compound::new`] and
/// [`Compound::insert`].
#[derive(Debug, PartialEq)]
pub struct Compound(Vec<(String, Variant)>);

#[derive(Debug, PartialEq)]
pub struct NamedTag(pub String, pub Variant);

#[derive(Debug, PartialEq)]
pub struct BedrockHeader {
    pub version: u32,
    pub size: u32,
}

/// The mathematical value of an NBT tree.  A list is the tag of its elements
/// together with the elements' values; a compound is its sequence of entries.
pub enum NbtValue {
    Int8(u8),
    Int16(u16),
    Int32(u32),
    Int64(u64),
    Float32(u32),
    Float64(u64),
    String(Seq<char>),
    List(TypeTag, Seq<NbtValue>),
    Compound(Seq<(Seq<char>, NbtValue)>),
    Int8List(Seq<u8>),
    Int32List(Seq<u32>),
    Int64List(Seq<u64>),
}

impl NbtValue {
    /// The tag under which this value is stored.
    pub open spec fn tag(self) -> TypeTag {
        match self {
            NbtValue::Int8(_) => TypeTag::Int8,
            NbtValue::Int16(_) => TypeTag::Int16,
            NbtValue::Int32(_) => TypeTag::Int32,
            NbtValue::Int64(_) => TypeTag::Int64,
            NbtValue::Float32(_) => TypeTag::Float32,
            NbtValue::Float64(_) => TypeTag::Float64,
            NbtValue::String(_) => TypeTag::String,
            NbtValue::List(_, _) => TypeTag::List,
            NbtValue::Compound(_) => TypeTag::Compound,
            NbtValue::Int8List(_) => TypeTag::Int8List,
            NbtValue::Int32List(_) => TypeTag::Int32List,
            NbtValue::Int64List(_) => TypeTag::Int64List,
        }
    }
}

pub open spec fn int8_values(xs: Seq<u8>) -> Seq<NbtValue> {
    xs.map_values(|x: u8| NbtValue::Int8(x))
}

pub open spec fn int16_values(xs: Seq<u16>) -> Seq<NbtValue> {
    xs.map_values(|x: u16| NbtValue::Int16(x))
}

pub open spec fn int32_values(xs: Seq<u32>) -> Seq<NbtValue> {
    xs.map_values(|x: u32| NbtValue::Int32(x))
}

pub open spec fn int64_values(xs: Seq<u64>) -> Seq<NbtValue> {
    xs.map_values(|x: u64| NbtValue::Int64(x))
}

pub open spec fn float32_values(xs: Seq<u32>) -> Seq<NbtValue> {
    xs.map_values(|x: u32| NbtValue::Float32(x))
}

pub open spec fn float64_values(xs: Seq<u64>) -> Seq<NbtValue> {
    xs.map_values(|x: u64| NbtValue::Float64(x))
}

pub open spec fn string_values(xs: Seq<String>) -> Seq<NbtValue> {
    xs.map_values(|x: String| NbtValue::String(x@))
}

pub open spec fn int8_list_values(xs: Seq<ListVariant<u8>>) -> Seq<NbtValue> {
    xs.map_values(|x: ListVariant<u8>| NbtValue::Int8List(x.0@))
}

pub open spec fn int32_list_values(xs: Seq<ListVariant<u32>>) -> Seq<NbtValue> {
    xs.map_values(|x: ListVariant<u32>| NbtValue::Int32List(x.0@))
}

pub open spec fn int64_list_values(xs: Seq<ListVariant<u64>>) -> Seq<NbtValue> {
    xs.map_values(|x: ListVariant<u64>| NbtValue::Int64List(x.0@))
}

pub open spec fn variant_model(v: Variant) -> NbtValue
    decreases v,
{
    match v {
        Variant::Int8(x) => NbtValue::Int8(x),
        Variant::Int16(x) => NbtValue::Int16(x),
        Variant::Int32(x) => NbtValue::Int32(x),
        Variant::Int64(x) => NbtValue::Int64(x),
        Variant::Float32(x) => NbtValue::Float32(x),
        Variant::Float64(x) => NbtValue::Float64(x),
        Variant::String(s) => NbtValue::String(s@),
        Variant::List(l) => list_model(l),
        Variant::Compound(c) => NbtValue::Compound(compound_model(c)),
        Variant::Int8List(l) => NbtValue::Int8List(l.0@),
        Variant::Int32List(l) => NbtValue::Int32List(l.0@),
        Variant::Int64List(l) => NbtValue::Int64List(l.0@),
    }
}

pub open spec fn list_model(l: List) -> NbtValue
    decreases l,
{
    match l {
        List::Int8(lv) => NbtValue::List(TypeTag::Int8, int8_values(lv.0@)),
        List::Int16(lv) => NbtValue::List(TypeTag::Int16, int16_values(lv.0@)),
        List::Int32(lv) => NbtValue::List(TypeTag::Int32, int32_values(lv.0@)),
        List::Int64(lv) => NbtValue::List(TypeTag::Int64, int64_values(lv.0@)),
        List::Float32(lv) => NbtValue::List(TypeTag::Float32, float32_values(lv.0@)),
        List::Float64(lv) => NbtValue::List(TypeTag::Float64, float64_values(lv.0@)),
        List::String(lv) => NbtValue::List(TypeTag::String, string_values(lv.0@)),
        List::List(lv) => NbtValue::List(TypeTag::List, list_values(lv.0@)),
        List::Compound(lv) => NbtValue::List(TypeTag::Compound, compound_values(lv.0@)),
        List::Int8List(lv) => NbtValue::List(TypeTag::Int8List, int8_list_values(lv.0@)),
        List::Int32List(lv) => NbtValue::List(TypeTag::Int32List, int32_list_values(lv.0@)),
        List::Int64List(lv) => NbtValue::List(TypeTag::Int64List, int64_list_values(lv.0@)),
        List::Empty => NbtValue::List(TypeTag::EndCompound, Seq::empty()),
    }
}

/// The values of a sequence of lists.
pub open spec fn list_values(ls: Seq<List>) -> Seq<NbtValue>
    decreases ls,
{
    Seq::new(
        ls.len(),
        |i: int|
            if 0 <= i < ls.len() {
                list_model(ls[i])
            } else {
                NbtValue::Int8(0)
            },
    )
}

/// The values of a sequence of compounds.
pub open spec fn compound_values(cs: Seq<Compound>) -> Seq<NbtValue>
    decreases cs,
{
    Seq::new(
        cs.len(),
        |i: int|
            if 0 <= i < cs.len() {
                NbtValue::Compound(compound_model(cs[i]))
            } else {
                NbtValue::Int8(0)
            },
    )
}

pub open(crate) spec fn compound_model(c: Compound) -> Seq<(Seq<char>, NbtValue)>
    decreases c,
{
    Seq::new(
        c.0@.len(),
        |i: int|
            if 0 <= i < c.0@.len() {
                (c.0@[i].0@, variant_model(c.0@[i].1))
            } else {
                (Seq::empty(), NbtValue::Int8(0))
            },
    )
}

impl View for Variant {
    type V = NbtValue;

    open spec fn view(&self) -> NbtValue {
        variant_model(*self)
    }
}

impl View for List {
    type V = NbtValue;

    open spec fn view(&self) -> NbtValue {
        list_model(*self)
    }
}

impl View for Compound {
    type V = Seq<(Seq<char>, NbtValue)>;

    open spec fn view(&self) -> Seq<(Seq<char>, NbtValue)> {
        compound_model(*self)
    }
}

impl Compound {
    /// The keys of the entries strictly increase.
    #[verifier::type_invariant]
    pub open spec fn keys_ascending(self) -> bool {
        crate::compound::entries_sorted(compound_model(self))
    }
}

impl View for NamedTag {
    type V = (Seq<char>, NbtValue);

    open spec fn view(&self) -> (Seq<char>, NbtValue) {
        (self.0@, self.1@)
    }
}

} // verus!
