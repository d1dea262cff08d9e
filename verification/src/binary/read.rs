//! Reading NBT values from their binary form.
use vstd::prelude::*;
use vstd::utf8::*;
use vstd::slice::{slice_subrange, slice_to_vec};
use crate::binary::{
    Endianness, TypeTag, UnknownTagError, tag_of_byte, uint_value, uint_at, pow256,
    lemma_pow256_facts, lemma_uint_value_bound,
};
use crate::compound::insert_entry;
use crate::{
    BedrockHeader, Compound, List, ListVariant, NamedTag, NbtValue, Variant, int8_values,
    int16_values, int32_values, int64_values, float32_values, float64_values, string_values,
    int8_list_values, int32_list_values, int64_list_values, list_model, compound_model,
    list_values, compound_values,
};

verus! {

/// Why bytes could not be read as NBT.
#[derive(Debug, Clone, Copy, PartialEq, Eq, Structural)]
pub enum ReadError {
    /// The input ended before the value did.
    Io,
    UnknownTag(UnknownTagError),
    InvalidUtf8,
    UnexpectedEndTag,
}

/// A number of `n` bytes at `pos`, and the position after it.
pub open spec fn decode_uint(bytes: Seq<u8>, pos: int, n: nat, e: Endianness) -> Result<
    (nat, int),
    ReadError,
> {
    if 0 <= pos && pos + n <= bytes.len() {
        Ok((uint_value(bytes.subrange(pos, pos + n), e), pos + n))
    } else {
        Err(ReadError::Io)
    }
}

/// A string at `pos`: its two-byte length, then that many bytes of UTF-8.
pub open spec fn decode_string(bytes: Seq<u8>, pos: int, e: Endianness) -> Result<
    (Seq<char>, int),
    ReadError,
> {
    match decode_uint(bytes, pos, 2, e) {
        Err(err) => Err(err),
        Ok((len, p)) => if p + len <= bytes.len() {
            if valid_utf8(bytes.subrange(p, p + len)) {
                Ok((decode_utf8(bytes.subrange(p, p + len)), p + len))
            } else {
                Err(ReadError::InvalidUtf8)
            }
        } else {
            Err(ReadError::Io)
        },
    }
}

/// The numbers of a sequence of one-byte values.
pub open spec fn int8s_of(items: Seq<NbtValue>) -> Seq<u8> {
    items.map_values(
        |v: NbtValue|
            match v {
                NbtValue::Int8(x) => x,
                _ => 0,
            },
    )
}

/// The numbers of a sequence of four-byte values.
pub open spec fn int32s_of(items: Seq<NbtValue>) -> Seq<u32> {
    items.map_values(
        |v: NbtValue|
            match v {
                NbtValue::Int32(x) => x,
                _ => 0,
            },
    )
}

/// The numbers of a sequence of eight-byte values.
pub open spec fn int64s_of(items: Seq<NbtValue>) -> Seq<u64> {
    items.map_values(
        |v: NbtValue|
            match v {
                NbtValue::Int64(x) => x,
                _ => 0,
            },
    )
}

/// The payload of kind `tag` at `pos`, and the position after it.
pub open spec fn decode_payload(tag: TypeTag, bytes: Seq<u8>, pos: int, e: Endianness) -> Result<
    (NbtValue, int),
    ReadError,
>
    decreases bytes.len() - pos, 0nat, 2nat,
{
    match tag {
        TypeTag::EndCompound => Err(ReadError::UnexpectedEndTag),
        TypeTag::Int8 => match decode_uint(bytes, pos, 1, e) {
            Ok((x, p)) => Ok((NbtValue::Int8(x as u8), p)),
            Err(err) => Err(err),
        },
        TypeTag::Int16 => match decode_uint(bytes, pos, 2, e) {
            Ok((x, p)) => Ok((NbtValue::Int16(x as u16), p)),
            Err(err) => Err(err),
        },
        TypeTag::Int32 => match decode_uint(bytes, pos, 4, e) {
            Ok((x, p)) => Ok((NbtValue::Int32(x as u32), p)),
            Err(err) => Err(err),
        },
        TypeTag::Int64 => match decode_uint(bytes, pos, 8, e) {
            Ok((x, p)) => Ok((NbtValue::Int64(x as u64), p)),
            Err(err) => Err(err),
        },
        TypeTag::Float32 => match decode_uint(bytes, pos, 4, e) {
            Ok((x, p)) => Ok((NbtValue::Float32(x as u32), p)),
            Err(err) => Err(err),
        },
        TypeTag::Float64 => match decode_uint(bytes, pos, 8, e) {
            Ok((x, p)) => Ok((NbtValue::Float64(x as u64), p)),
            Err(err) => Err(err),
        },
        TypeTag::String => match decode_string(bytes, pos, e) {
            Ok((s, p)) => Ok((NbtValue::String(s), p)),
            Err(err) => Err(err),
        },
        TypeTag::List => if 0 <= pos < bytes.len() {
            match tag_of_byte(bytes[pos]) {
                None => Err(ReadError::UnknownTag(UnknownTagError(bytes[pos]))),
                Some(t) => match decode_uint(bytes, pos + 1, 4, e) {
                    Err(err) => Err(err),
                    Ok((n, p)) => if t == TypeTag::EndCompound {
                        Ok((NbtValue::List(TypeTag::EndCompound, Seq::empty()), p))
                    } else {
                        match decode_elements(t, n, bytes, p, Seq::empty(), e) {
                            Ok((items, q)) => Ok((NbtValue::List(t, items), q)),
                            Err(err) => Err(err),
                        }
                    },
                },
            }
        } else {
            Err(ReadError::Io)
        },
        TypeTag::Compound => match decode_entries(bytes, pos, Seq::empty(), e) {
            Ok((entries, q)) => Ok((NbtValue::Compound(entries), q)),
            Err(err) => Err(err),
        },
        TypeTag::Int8List => match decode_uint(bytes, pos, 4, e) {
            Err(err) => Err(err),
            Ok((n, p)) => match decode_elements(TypeTag::Int8, n, bytes, p, Seq::empty(), e) {
                Ok((items, q)) => Ok((NbtValue::Int8List(int8s_of(items)), q)),
                Err(err) => Err(err),
            },
        },
        TypeTag::Int32List => match decode_uint(bytes, pos, 4, e) {
            Err(err) => Err(err),
            Ok((n, p)) => match decode_elements(TypeTag::Int32, n, bytes, p, Seq::empty(), e) {
                Ok((items, q)) => Ok((NbtValue::Int32List(int32s_of(items)), q)),
                Err(err) => Err(err),
            },
        },
        TypeTag::Int64List => match decode_uint(bytes, pos, 4, e) {
            Err(err) => Err(err),
            Ok((n, p)) => match decode_elements(TypeTag::Int64, n, bytes, p, Seq::empty(), e) {
                Ok((items, q)) => Ok((NbtValue::Int64List(int64s_of(items)), q)),
                Err(err) => Err(err),
            },
        },
    }
}

/// `n` more payloads of kind `tag` from `pos`, after those in `acc`.
pub open spec fn decode_elements(
    tag: TypeTag,
    n: nat,
    bytes: Seq<u8>,
    pos: int,
    acc: Seq<NbtValue>,
    e: Endianness,
) -> Result<(Seq<NbtValue>, int), ReadError>
    decreases bytes.len() - pos, n, 0nat,
{
    if n == 0 {
        Ok((acc, pos))
    } else {
        match decode_payload(tag, bytes, pos, e) {
            Err(err) => Err(err),
            Ok((v, q)) => if pos <= q <= bytes.len() {
                decode_elements(tag, (n - 1) as nat, bytes, q, acc.push(v), e)
            } else {
                Err(ReadError::Io)
            },
        }
    }
}

/// The entries of a compound from `pos` up to its end tag, set one by one into `acc`.
pub open spec fn decode_entries(
    bytes: Seq<u8>,
    pos: int,
    acc: Seq<(Seq<char>, NbtValue)>,
    e: Endianness,
) -> Result<(Seq<(Seq<char>, NbtValue)>, int), ReadError>
    decreases bytes.len() - pos, 0nat, 1nat,
{
    if 0 <= pos < bytes.len() {
        if bytes[pos] == 0 {
            Ok((acc, pos + 1))
        } else {
            match tag_of_byte(bytes[pos]) {
                None => Err(ReadError::UnknownTag(UnknownTagError(bytes[pos]))),
                Some(t) => match decode_string(bytes, pos + 1, e) {
                    Err(err) => Err(err),
                    Ok((name, p1)) => match decode_payload(t, bytes, p1, e) {
                        Err(err) => Err(err),
                        Ok((v, p2)) => if pos < p2 <= bytes.len() {
                            decode_entries(bytes, p2, insert_entry(acc, name, v), e)
                        } else {
                            Err(ReadError::Io)
                        },
                    },
                },
            }
        }
    } else {
        Err(ReadError::Io)
    }
}

/// A named tag at `pos`: its tag byte, its name, then its payload.
pub open spec fn decode_named(bytes: Seq<u8>, pos: int, e: Endianness) -> Result<
    ((Seq<char>, NbtValue), int),
    ReadError,
> {
    if 0 <= pos < bytes.len() {
        match tag_of_byte(bytes[pos]) {
            None => Err(ReadError::UnknownTag(UnknownTagError(bytes[pos]))),
            Some(t) => match decode_string(bytes, pos + 1, e) {
                Err(err) => Err(err),
                Ok((name, p1)) => match decode_payload(t, bytes, p1, e) {
                    Err(err) => Err(err),
                    Ok((v, p2)) => Ok(((name, v), p2)),
                },
            },
        }
    } else {
        Err(ReadError::Io)
    }
}

/// `r` is what the specification `s` gives, with positions as integers.
pub open spec fn reads_as<T, V>(r: Result<(T, usize), ReadError>, s: Result<(V, int), ReadError>, view: spec_fn(T) -> V) -> bool {
    match r {
        Ok((v, q)) => s == Ok::<(V, int), ReadError>((view(v), q as int)),
        Err(err) => s == Err::<(V, int), ReadError>(err),
    }
}

/// Wraps `String::from_utf8`: the string whose UTF-8 form is `bytes`, or `None` where `bytes`
/// is not UTF-8. The contract states the standard library's documented behaviour over vstd's
/// model of UTF-8.
#[verifier::external_body]
fn string_from_utf8(bytes: Vec<u8>) -> (r: Option<String>)
    ensures
        r is Some <==> valid_utf8(bytes@),
        r matches Some(s) ==> s@ == decode_utf8(bytes@),
{
    String::from_utf8(bytes).ok()
}

/// Reads a number of `n` bytes at `pos`.
pub fn read_uint(bytes: &[u8], pos: usize, n: usize, e: Endianness) -> (r: Result<
    (u64, usize),
    ReadError,
>)
    requires
        n <= 8,
    ensures
        reads_as(r, decode_uint(bytes@, pos as int, n as nat, e), |x: u64| x as nat),
        r matches Ok((x, _)) ==> (x as nat) < pow256(n as nat),
{
    if n > bytes.len() || pos > bytes.len() - n {
        return Err(ReadError::Io);
    }
    let v = uint_at(bytes, pos, n, e);
    Ok((v, pos + n))
}

/// Reads a string with its length at `pos`.
pub fn read_string(bytes: &[u8], pos: usize, e: Endianness) -> (r: Result<
    (String, usize),
    ReadError,
>)
    ensures
        reads_as(r, decode_string(bytes@, pos as int, e), |s: String| s@),
{
    let (len, p) = match read_uint(bytes, pos, 2, e) {
        Ok(x) => x,
        Err(err) => return Err(err),
    };
    proof {
        lemma_pow256_facts();
    }
    let len = len as usize;
    if len > bytes.len() || p > bytes.len() - len {
        return Err(ReadError::Io);
    }
    let raw = slice_to_vec(slice_subrange(bytes, p, p + len));
    match string_from_utf8(raw) {
        Some(s) => Ok((s, p + len)),
        None => Err(ReadError::InvalidUtf8),
    }
}


pub proof fn lemma_elements_step(
    tag: TypeTag,
    k: nat,
    bytes: Seq<u8>,
    p: int,
    acc: Seq<NbtValue>,
    e: Endianness,
)
    requires
        k > 0,
    ensures
        decode_elements(tag, k, bytes, p, acc, e) == match decode_payload(tag, bytes, p, e) {
            Err(err) => Err(err),
            Ok((v, q)) => if p <= q <= bytes.len() {
                decode_elements(tag, (k - 1) as nat, bytes, q, acc.push(v), e)
            } else {
                Err(ReadError::Io)
            },
        },
{
}

pub proof fn lemma_elements_done(tag: TypeTag, bytes: Seq<u8>, p: int, acc: Seq<NbtValue>, e: Endianness)
    ensures
        decode_elements(tag, 0, bytes, p, acc, e) == Ok::<(Seq<NbtValue>, int), ReadError>((acc, p)),
{
}

pub proof fn lemma_int8s_of(xs: Seq<u8>)
    ensures
        int8s_of(int8_values(xs)) == xs,
{
    assert(int8s_of(int8_values(xs)) =~= xs);
}

pub proof fn lemma_int32s_of(xs: Seq<u32>)
    ensures
        int32s_of(int32_values(xs)) == xs,
{
    assert(int32s_of(int32_values(xs)) =~= xs);
}

pub proof fn lemma_int64s_of(xs: Seq<u64>)
    ensures
        int64s_of(int64_values(xs)) == xs,
{
    assert(int64s_of(int64_values(xs)) =~= xs);
}

/// Reads one payload of one-byte numbers at `pos`.
fn read_int8(bytes: &[u8], pos: usize, e: Endianness) -> (r: Result<(u8, usize), ReadError>)
    requires
        pos <= bytes@.len(),
    ensures
        reads_as(r, decode_payload(TypeTag::Int8, bytes@, pos as int, e), |x: u8| NbtValue::Int8(x)),
        r matches Ok((_, q)) ==> pos <= q <= bytes@.len(),
{
    proof {
        lemma_pow256_facts();
    }
    match read_uint(bytes, pos, 1, e) {
        Ok((x, q)) => Ok((x as u8, q)),
        Err(err) => Err(err),
    }
}

/// Reads one payload of two-byte numbers at `pos`.
fn read_int16(bytes: &[u8], pos: usize, e: Endianness) -> (r: Result<(u16, usize), ReadError>)
    requires
        pos <= bytes@.len(),
    ensures
        reads_as(r, decode_payload(TypeTag::Int16, bytes@, pos as int, e), |x: u16| NbtValue::Int16(x)),
        r matches Ok((_, q)) ==> pos <= q <= bytes@.len(),
{
    proof {
        lemma_pow256_facts();
    }
    match read_uint(bytes, pos, 2, e) {
        Ok((x, q)) => Ok((x as u16, q)),
        Err(err) => Err(err),
    }
}

/// Reads one payload of four-byte numbers at `pos`.
fn read_int32(bytes: &[u8], pos: usize, e: Endianness) -> (r: Result<(u32, usize), ReadError>)
    requires
        pos <= bytes@.len(),
    ensures
        reads_as(r, decode_payload(TypeTag::Int32, bytes@, pos as int, e), |x: u32| NbtValue::Int32(x)),
        r matches Ok((_, q)) ==> pos <= q <= bytes@.len(),
{
    proof {
        lemma_pow256_facts();
    }
    match read_uint(bytes, pos, 4, e) {
        Ok((x, q)) => Ok((x as u32, q)),
        Err(err) => Err(err),
    }
}

/// Reads one payload of eight-byte numbers at `pos`.
fn read_int64(bytes: &[u8], pos: usize, e: Endianness) -> (r: Result<(u64, usize), ReadError>)
    requires
        pos <= bytes@.len(),
    ensures
        reads_as(r, decode_payload(TypeTag::Int64, bytes@, pos as int, e), |x: u64| NbtValue::Int64(x)),
        r matches Ok((_, q)) ==> pos <= q <= bytes@.len(),
{
    proof {
        lemma_pow256_facts();
    }
    match read_uint(bytes, pos, 8, e) {
        Ok((x, q)) => Ok((x as u64, q)),
        Err(err) => Err(err),
    }
}

/// Reads one payload of four-byte floating-point bit patterns at `pos`.
fn read_float32(bytes: &[u8], pos: usize, e: Endianness) -> (r: Result<(u32, usize), ReadError>)
    requires
        pos <= bytes@.len(),
    ensures
        reads_as(r, decode_payload(TypeTag::Float32, bytes@, pos as int, e), |x: u32| NbtValue::Float32(x)),
        r matches Ok((_, q)) ==> pos <= q <= bytes@.len(),
{
    proof {
        lemma_pow256_facts();
    }
    match read_uint(bytes, pos, 4, e) {
        Ok((x, q)) => Ok((x as u32, q)),
        Err(err) => Err(err),
    }
}

/// Reads one payload of eight-byte floating-point bit patterns at `pos`.
fn read_float64(bytes: &[u8], pos: usize, e: Endianness) -> (r: Result<(u64, usize), ReadError>)
    requires
        pos <= bytes@.len(),
    ensures
        reads_as(r, decode_payload(TypeTag::Float64, bytes@, pos as int, e), |x: u64| NbtValue::Float64(x)),
        r matches Ok((_, q)) ==> pos <= q <= bytes@.len(),
{
    proof {
        lemma_pow256_facts();
    }
    match read_uint(bytes, pos, 8, e) {
        Ok((x, q)) => Ok((x as u64, q)),
        Err(err) => Err(err),
    }
}

/// Reads `n` payloads of one-byte numbers from `pos`.
fn read_int8_items(bytes: &[u8], pos: usize, n: u64, e: Endianness) -> (r: Result<(Vec<u8>, usize), ReadError>)
    requires
        pos <= bytes@.len(),
    ensures
        reads_as(
            r,
            decode_elements(TypeTag::Int8, n as nat, bytes@, pos as int, Seq::empty(), e),
            |v: Vec<u8>| int8_values(v@),
        ),
        r matches Ok((_, q)) ==> pos <= q <= bytes@.len(),
{
    let ghost whole = decode_elements(TypeTag::Int8, n as nat, bytes@, pos as int, Seq::empty(), e);
    let mut items: Vec<u8> = Vec::new();
    let mut p: usize = pos;
    let mut i: u64 = 0;
    assert(int8_values(items@) =~= Seq::<NbtValue>::empty());
    while i < n
        invariant
            i <= n,
            pos <= p <= bytes@.len(),
            whole == decode_elements(TypeTag::Int8, n as nat, bytes@, pos as int, Seq::empty(), e),
            whole == decode_elements(TypeTag::Int8, (n - i) as nat, bytes@, p as int, int8_values(items@), e),
        decreases n - i,
    {
        proof {
            lemma_elements_step(TypeTag::Int8, (n - i) as nat, bytes@, p as int, int8_values(items@), e);
        }
        let (x, q) = match read_int8(bytes, p, e) {
            Ok(r) => r,
            Err(err) => return Err(err),
        };
        proof {
            assert(int8_values(items@.push(x)) =~= int8_values(items@).push(NbtValue::Int8(x)));
        }
        items.push(x);
        p = q;
        i = i + 1;
    }
    proof {
        lemma_elements_done(TypeTag::Int8, bytes@, p as int, int8_values(items@), e);
    }
    Ok((items, p))
}

/// Reads `n` payloads of two-byte numbers from `pos`.
fn read_int16_items(bytes: &[u8], pos: usize, n: u64, e: Endianness) -> (r: Result<(Vec<u16>, usize), ReadError>)
    requires
        pos <= bytes@.len(),
    ensures
        reads_as(
            r,
            decode_elements(TypeTag::Int16, n as nat, bytes@, pos as int, Seq::empty(), e),
            |v: Vec<u16>| int16_values(v@),
        ),
        r matches Ok((_, q)) ==> pos <= q <= bytes@.len(),
{
    let ghost whole = decode_elements(TypeTag::Int16, n as nat, bytes@, pos as int, Seq::empty(), e);
    let mut items: Vec<u16> = Vec::new();
    let mut p: usize = pos;
    let mut i: u64 = 0;
    assert(int16_values(items@) =~= Seq::<NbtValue>::empty());
    while i < n
        invariant
            i <= n,
            pos <= p <= bytes@.len(),
            whole == decode_elements(TypeTag::Int16, n as nat, bytes@, pos as int, Seq::empty(), e),
            whole == decode_elements(TypeTag::Int16, (n - i) as nat, bytes@, p as int, int16_values(items@), e),
        decreases n - i,
    {
        proof {
            lemma_elements_step(TypeTag::Int16, (n - i) as nat, bytes@, p as int, int16_values(items@), e);
        }
        let (x, q) = match read_int16(bytes, p, e) {
            Ok(r) => r,
            Err(err) => return Err(err),
        };
        proof {
            assert(int16_values(items@.push(x)) =~= int16_values(items@).push(NbtValue::Int16(x)));
        }
        items.push(x);
        p = q;
        i = i + 1;
    }
    proof {
        lemma_elements_done(TypeTag::Int16, bytes@, p as int, int16_values(items@), e);
    }
    Ok((items, p))
}

/// Reads `n` payloads of four-byte numbers from `pos`.
fn read_int32_items(bytes: &[u8], pos: usize, n: u64, e: Endianness) -> (r: Result<(Vec<u32>, usize), ReadError>)
    requires
        pos <= bytes@.len(),
    ensures
        reads_as(
            r,
            decode_elements(TypeTag::Int32, n as nat, bytes@, pos as int, Seq::empty(), e),
            |v: Vec<u32>| int32_values(v@),
        ),
        r matches Ok((_, q)) ==> pos <= q <= bytes@.len(),
{
    let ghost whole = decode_elements(TypeTag::Int32, n as nat, bytes@, pos as int, Seq::empty(), e);
    let mut items: Vec<u32> = Vec::new();
    let mut p: usize = pos;
    let mut i: u64 = 0;
    assert(int32_values(items@) =~= Seq::<NbtValue>::empty());
    while i < n
        invariant
            i <= n,
            pos <= p <= bytes@.len(),
            whole == decode_elements(TypeTag::Int32, n as nat, bytes@, pos as int, Seq::empty(), e),
            whole == decode_elements(TypeTag::Int32, (n - i) as nat, bytes@, p as int, int32_values(items@), e),
        decreases n - i,
    {
        proof {
            lemma_elements_step(TypeTag::Int32, (n - i) as nat, bytes@, p as int, int32_values(items@), e);
        }
        let (x, q) = match read_int32(bytes, p, e) {
            Ok(r) => r,
            Err(err) => return Err(err),
        };
        proof {
            assert(int32_values(items@.push(x)) =~= int32_values(items@).push(NbtValue::Int32(x)));
        }
        items.push(x);
        p = q;
        i = i + 1;
    }
    proof {
        lemma_elements_done(TypeTag::Int32, bytes@, p as int, int32_values(items@), e);
    }
    Ok((items, p))
}

/// Reads `n` payloads of eight-byte numbers from `pos`.
fn read_int64_items(bytes: &[u8], pos: usize, n: u64, e: Endianness) -> (r: Result<(Vec<u64>, usize), ReadError>)
    requires
        pos <= bytes@.len(),
    ensures
        reads_as(
            r,
            decode_elements(TypeTag::Int64, n as nat, bytes@, pos as int, Seq::empty(), e),
            |v: Vec<u64>| int64_values(v@),
        ),
        r matches Ok((_, q)) ==> pos <= q <= bytes@.len(),
{
    let ghost whole = decode_elements(TypeTag::Int64, n as nat, bytes@, pos as int, Seq::empty(), e);
    let mut items: Vec<u64> = Vec::new();
    let mut p: usize = pos;
    let mut i: u64 = 0;
    assert(int64_values(items@) =~= Seq::<NbtValue>::empty());
    while i < n
        invariant
            i <= n,
            pos <= p <= bytes@.len(),
            whole == decode_elements(TypeTag::Int64, n as nat, bytes@, pos as int, Seq::empty(), e),
            whole == decode_elements(TypeTag::Int64, (n - i) as nat, bytes@, p as int, int64_values(items@), e),
        decreases n - i,
    {
        proof {
            lemma_elements_step(TypeTag::Int64, (n - i) as nat, bytes@, p as int, int64_values(items@), e);
        }
        let (x, q) = match read_int64(bytes, p, e) {
            Ok(r) => r,
            Err(err) => return Err(err),
        };
        proof {
            assert(int64_values(items@.push(x)) =~= int64_values(items@).push(NbtValue::Int64(x)));
        }
        items.push(x);
        p = q;
        i = i + 1;
    }
    proof {
        lemma_elements_done(TypeTag::Int64, bytes@, p as int, int64_values(items@), e);
    }
    Ok((items, p))
}

/// Reads `n` payloads of four-byte floating-point bit patterns from `pos`.
fn read_float32_items(bytes: &[u8], pos: usize, n: u64, e: Endianness) -> (r: Result<(Vec<u32>, usize), ReadError>)
    requires
        pos <= bytes@.len(),
    ensures
        reads_as(
            r,
            decode_elements(TypeTag::Float32, n as nat, bytes@, pos as int, Seq::empty(), e),
            |v: Vec<u32>| float32_values(v@),
        ),
        r matches Ok((_, q)) ==> pos <= q <= bytes@.len(),
{
    let ghost whole = decode_elements(TypeTag::Float32, n as nat, bytes@, pos as int, Seq::empty(), e);
    let mut items: Vec<u32> = Vec::new();
    let mut p: usize = pos;
    let mut i: u64 = 0;
    assert(float32_values(items@) =~= Seq::<NbtValue>::empty());
    while i < n
        invariant
            i <= n,
            pos <= p <= bytes@.len(),
            whole == decode_elements(TypeTag::Float32, n as nat, bytes@, pos as int, Seq::empty(), e),
            whole == decode_elements(TypeTag::Float32, (n - i) as nat, bytes@, p as int, float32_values(items@), e),
        decreases n - i,
    {
        proof {
            lemma_elements_step(TypeTag::Float32, (n - i) as nat, bytes@, p as int, float32_values(items@), e);
        }
        let (x, q) = match read_float32(bytes, p, e) {
            Ok(r) => r,
            Err(err) => return Err(err),
        };
        proof {
            assert(float32_values(items@.push(x)) =~= float32_values(items@).push(NbtValue::Float32(x)));
        }
        items.push(x);
        p = q;
        i = i + 1;
    }
    proof {
        lemma_elements_done(TypeTag::Float32, bytes@, p as int, float32_values(items@), e);
    }
    Ok((items, p))
}

/// Reads `n` payloads of eight-byte floating-point bit patterns from `pos`.
fn read_float64_items(bytes: &[u8], pos: usize, n: u64, e: Endianness) -> (r: Result<(Vec<u64>, usize), ReadError>)
    requires
        pos <= bytes@.len(),
    ensures
        reads_as(
            r,
            decode_elements(TypeTag::Float64, n as nat, bytes@, pos as int, Seq::empty(), e),
            |v: Vec<u64>| float64_values(v@),
        ),
        r matches Ok((_, q)) ==> pos <= q <= bytes@.len(),
{
    let ghost whole = decode_elements(TypeTag::Float64, n as nat, bytes@, pos as int, Seq::empty(), e);
    let mut items: Vec<u64> = Vec::new();
    let mut p: usize = pos;
    let mut i: u64 = 0;
    assert(float64_values(items@) =~= Seq::<NbtValue>::empty());
    while i < n
        invariant
            i <= n,
            pos <= p <= bytes@.len(),
            whole == decode_elements(TypeTag::Float64, n as nat, bytes@, pos as int, Seq::empty(), e),
            whole == decode_elements(TypeTag::Float64, (n - i) as nat, bytes@, p as int, float64_values(items@), e),
        decreases n - i,
    {
        proof {
            lemma_elements_step(TypeTag::Float64, (n - i) as nat, bytes@, p as int, float64_values(items@), e);
        }
        let (x, q) = match read_float64(bytes, p, e) {
            Ok(r) => r,
            Err(err) => return Err(err),
        };
        proof {
            assert(float64_values(items@.push(x)) =~= float64_values(items@).push(NbtValue::Float64(x)));
        }
        items.push(x);
        p = q;
        i = i + 1;
    }
    proof {
        lemma_elements_done(TypeTag::Float64, bytes@, p as int, float64_values(items@), e);
    }
    Ok((items, p))
}

/// Reads `n` payloads of strings from `pos`.
fn read_strings(bytes: &[u8], pos: usize, n: u64, e: Endianness) -> (r: Result<(Vec<String>, usize), ReadError>)
    requires
        pos <= bytes@.len(),
    ensures
        reads_as(
            r,
            decode_elements(TypeTag::String, n as nat, bytes@, pos as int, Seq::empty(), e),
            |v: Vec<String>| string_values(v@),
        ),
        r matches Ok((_, q)) ==> pos <= q <= bytes@.len(),
{
    let ghost whole = decode_elements(TypeTag::String, n as nat, bytes@, pos as int, Seq::empty(), e);
    let mut items: Vec<String> = Vec::new();
    let mut p: usize = pos;
    let mut i: u64 = 0;
    assert(string_values(items@) =~= Seq::<NbtValue>::empty());
    while i < n
        invariant
            i <= n,
            pos <= p <= bytes@.len(),
            whole == decode_elements(TypeTag::String, n as nat, bytes@, pos as int, Seq::empty(), e),
            whole == decode_elements(TypeTag::String, (n - i) as nat, bytes@, p as int, string_values(items@), e),
        decreases n - i,
    {
        proof {
            lemma_elements_step(TypeTag::String, (n - i) as nat, bytes@, p as int, string_values(items@), e);
        }
        let (x, q) = match read_string_payload(bytes, p, e) {
            Ok(r) => r,
            Err(err) => return Err(err),
        };
        proof {
            assert(string_values(items@.push(x)) =~= string_values(items@).push(NbtValue::String(x@)));
        }
        items.push(x);
        p = q;
        i = i + 1;
    }
    proof {
        lemma_elements_done(TypeTag::String, bytes@, p as int, string_values(items@), e);
    }
    Ok((items, p))
}

/// Reads `n` payloads of lists from `pos`.
fn read_lists(bytes: &[u8], pos: usize, n: u64, e: Endianness) -> (r: Result<(Vec<List>, usize), ReadError>)
    requires
        pos <= bytes@.len(),
    ensures
        reads_as(
            r,
            decode_elements(TypeTag::List, n as nat, bytes@, pos as int, Seq::empty(), e),
            |v: Vec<List>| list_values(v@),
        ),
        r matches Ok((_, q)) ==> pos <= q <= bytes@.len(),
    decreases bytes@.len() - pos, 0nat, 3nat,
{
    let ghost whole = decode_elements(TypeTag::List, n as nat, bytes@, pos as int, Seq::empty(), e);
    let mut items: Vec<List> = Vec::new();
    let mut p: usize = pos;
    let mut i: u64 = 0;
    assert(list_values(items@) =~= Seq::<NbtValue>::empty());
    while i < n
        invariant
            i <= n,
            pos <= p <= bytes@.len(),
            whole == decode_elements(TypeTag::List, n as nat, bytes@, pos as int, Seq::empty(), e),
            whole == decode_elements(TypeTag::List, (n - i) as nat, bytes@, p as int, list_values(items@), e),
        decreases n - i,
    {
        proof {
            lemma_elements_step(TypeTag::List, (n - i) as nat, bytes@, p as int, list_values(items@), e);
        }
        let (x, q) = match read_list(bytes, p, e) {
            Ok(r) => r,
            Err(err) => return Err(err),
        };
        proof {
            assert(list_values(items@.push(x)) =~= list_values(items@).push(x@));
        }
        items.push(x);
        p = q;
        i = i + 1;
    }
    proof {
        lemma_elements_done(TypeTag::List, bytes@, p as int, list_values(items@), e);
    }
    Ok((items, p))
}

/// Reads `n` payloads of compounds from `pos`.
fn read_compounds(bytes: &[u8], pos: usize, n: u64, e: Endianness) -> (r: Result<(Vec<Compound>, usize), ReadError>)
    requires
        pos <= bytes@.len(),
    ensures
        reads_as(
            r,
            decode_elements(TypeTag::Compound, n as nat, bytes@, pos as int, Seq::empty(), e),
            |v: Vec<Compound>| compound_values(v@),
        ),
        r matches Ok((_, q)) ==> pos <= q <= bytes@.len(),
    decreases bytes@.len() - pos, 0nat, 3nat,
{
    let ghost whole = decode_elements(TypeTag::Compound, n as nat, bytes@, pos as int, Seq::empty(), e);
    let mut items: Vec<Compound> = Vec::new();
    let mut p: usize = pos;
    let mut i: u64 = 0;
    assert(compound_values(items@) =~= Seq::<NbtValue>::empty());
    while i < n
        invariant
            i <= n,
            pos <= p <= bytes@.len(),
            whole == decode_elements(TypeTag::Compound, n as nat, bytes@, pos as int, Seq::empty(), e),
            whole == decode_elements(TypeTag::Compound, (n - i) as nat, bytes@, p as int, compound_values(items@), e),
        decreases n - i,
    {
        proof {
            lemma_elements_step(TypeTag::Compound, (n - i) as nat, bytes@, p as int, compound_values(items@), e);
        }
        let (x, q) = match read_compound(bytes, p, e) {
            Ok(r) => r,
            Err(err) => return Err(err),
        };
        proof {
            assert(compound_values(items@.push(x)) =~= compound_values(items@).push(NbtValue::Compound(x@)));
        }
        items.push(x);
        p = q;
        i = i + 1;
    }
    proof {
        lemma_elements_done(TypeTag::Compound, bytes@, p as int, compound_values(items@), e);
    }
    Ok((items, p))
}

/// Reads `n` payloads of one-byte arrays from `pos`.
fn read_int8_arrays(bytes: &[u8], pos: usize, n: u64, e: Endianness) -> (r: Result<(Vec<ListVariant<u8>>, usize), ReadError>)
    requires
        pos <= bytes@.len(),
    ensures
        reads_as(
            r,
            decode_elements(TypeTag::Int8List, n as nat, bytes@, pos as int, Seq::empty(), e),
            |v: Vec<ListVariant<u8>>| int8_list_values(v@),
        ),
        r matches Ok((_, q)) ==> pos <= q <= bytes@.len(),
{
    let ghost whole = decode_elements(TypeTag::Int8List, n as nat, bytes@, pos as int, Seq::empty(), e);
    let mut items: Vec<ListVariant<u8>> = Vec::new();
    let mut p: usize = pos;
    let mut i: u64 = 0;
    assert(int8_list_values(items@) =~= Seq::<NbtValue>::empty());
    while i < n
        invariant
            i <= n,
            pos <= p <= bytes@.len(),
            whole == decode_elements(TypeTag::Int8List, n as nat, bytes@, pos as int, Seq::empty(), e),
            whole == decode_elements(TypeTag::Int8List, (n - i) as nat, bytes@, p as int, int8_list_values(items@), e),
        decreases n - i,
    {
        proof {
            lemma_elements_step(TypeTag::Int8List, (n - i) as nat, bytes@, p as int, int8_list_values(items@), e);
        }
        let (x, q) = match read_int8_array(bytes, p, e) {
            Ok(r) => r,
            Err(err) => return Err(err),
        };
        proof {
            assert(int8_list_values(items@.push(x)) =~= int8_list_values(items@).push(NbtValue::Int8List(x.0@)));
        }
        items.push(x);
        p = q;
        i = i + 1;
    }
    proof {
        lemma_elements_done(TypeTag::Int8List, bytes@, p as int, int8_list_values(items@), e);
    }
    Ok((items, p))
}

/// Reads `n` payloads of four-byte arrays from `pos`.
fn read_int32_arrays(bytes: &[u8], pos: usize, n: u64, e: Endianness) -> (r: Result<(Vec<ListVariant<u32>>, usize), ReadError>)
    requires
        pos <= bytes@.len(),
    ensures
        reads_as(
            r,
            decode_elements(TypeTag::Int32List, n as nat, bytes@, pos as int, Seq::empty(), e),
            |v: Vec<ListVariant<u32>>| int32_list_values(v@),
        ),
        r matches Ok((_, q)) ==> pos <= q <= bytes@.len(),
{
    let ghost whole = decode_elements(TypeTag::Int32List, n as nat, bytes@, pos as int, Seq::empty(), e);
    let mut items: Vec<ListVariant<u32>> = Vec::new();
    let mut p: usize = pos;
    let mut i: u64 = 0;
    assert(int32_list_values(items@) =~= Seq::<NbtValue>::empty());
    while i < n
        invariant
            i <= n,
            pos <= p <= bytes@.len(),
            whole == decode_elements(TypeTag::Int32List, n as nat, bytes@, pos as int, Seq::empty(), e),
            whole == decode_elements(TypeTag::Int32List, (n - i) as nat, bytes@, p as int, int32_list_values(items@), e),
        decreases n - i,
    {
        proof {
            lemma_elements_step(TypeTag::Int32List, (n - i) as nat, bytes@, p as int, int32_list_values(items@), e);
        }
        let (x, q) = match read_int32_array(bytes, p, e) {
            Ok(r) => r,
            Err(err) => return Err(err),
        };
        proof {
            assert(int32_list_values(items@.push(x)) =~= int32_list_values(items@).push(NbtValue::Int32List(x.0@)));
        }
        items.push(x);
        p = q;
        i = i + 1;
    }
    proof {
        lemma_elements_done(TypeTag::Int32List, bytes@, p as int, int32_list_values(items@), e);
    }
    Ok((items, p))
}

/// Reads `n` payloads of eight-byte arrays from `pos`.
fn read_int64_arrays(bytes: &[u8], pos: usize, n: u64, e: Endianness) -> (r: Result<(Vec<ListVariant<u64>>, usize), ReadError>)
    requires
        pos <= bytes@.len(),
    ensures
        reads_as(
            r,
            decode_elements(TypeTag::Int64List, n as nat, bytes@, pos as int, Seq::empty(), e),
            |v: Vec<ListVariant<u64>>| int64_list_values(v@),
        ),
        r matches Ok((_, q)) ==> pos <= q <= bytes@.len(),
{
    let ghost whole = decode_elements(TypeTag::Int64List, n as nat, bytes@, pos as int, Seq::empty(), e);
    let mut items: Vec<ListVariant<u64>> = Vec::new();
    let mut p: usize = pos;
    let mut i: u64 = 0;
    assert(int64_list_values(items@) =~= Seq::<NbtValue>::empty());
    while i < n
        invariant
            i <= n,
            pos <= p <= bytes@.len(),
            whole == decode_elements(TypeTag::Int64List, n as nat, bytes@, pos as int, Seq::empty(), e),
            whole == decode_elements(TypeTag::Int64List, (n - i) as nat, bytes@, p as int, int64_list_values(items@), e),
        decreases n - i,
    {
        proof {
            lemma_elements_step(TypeTag::Int64List, (n - i) as nat, bytes@, p as int, int64_list_values(items@), e);
        }
        let (x, q) = match read_int64_array(bytes, p, e) {
            Ok(r) => r,
            Err(err) => return Err(err),
        };
        proof {
            assert(int64_list_values(items@.push(x)) =~= int64_list_values(items@).push(NbtValue::Int64List(x.0@)));
        }
        items.push(x);
        p = q;
        i = i + 1;
    }
    proof {
        lemma_elements_done(TypeTag::Int64List, bytes@, p as int, int64_list_values(items@), e);
    }
    Ok((items, p))
}

/// Reads a string payload at `pos`.
fn read_string_payload(bytes: &[u8], pos: usize, e: Endianness) -> (r: Result<(String, usize), ReadError>)
    requires
        pos <= bytes@.len(),
    ensures
        reads_as(r, decode_payload(TypeTag::String, bytes@, pos as int, e), |s: String| NbtValue::String(s@)),
        r matches Ok((_, q)) ==> pos <= q <= bytes@.len(),
{
    read_string(bytes, pos, e)
}

/// Reads an array of one-byte numbers at `pos`: its length, then its elements.
fn read_int8_array(bytes: &[u8], pos: usize, e: Endianness) -> (r: Result<(ListVariant<u8>, usize), ReadError>)
    requires
        pos <= bytes@.len(),
    ensures
        reads_as(r, decode_payload(TypeTag::Int8List, bytes@, pos as int, e), |x: ListVariant<u8>| NbtValue::Int8List(x.0@)),
        r matches Ok((_, q)) ==> pos <= q <= bytes@.len(),
{
    let (n, p) = match read_uint(bytes, pos, 4, e) {
        Ok(r) => r,
        Err(err) => return Err(err),
    };
    match read_int8_items(bytes, p, n, e) {
        Ok((xs, q)) => {
            proof {
                lemma_int8s_of(xs@);
            }
            Ok((ListVariant(xs), q))
        },
        Err(err) => Err(err),
    }
}

/// Reads an array of four-byte numbers at `pos`: its length, then its elements.
fn read_int32_array(bytes: &[u8], pos: usize, e: Endianness) -> (r: Result<(ListVariant<u32>, usize), ReadError>)
    requires
        pos <= bytes@.len(),
    ensures
        reads_as(r, decode_payload(TypeTag::Int32List, bytes@, pos as int, e), |x: ListVariant<u32>| NbtValue::Int32List(x.0@)),
        r matches Ok((_, q)) ==> pos <= q <= bytes@.len(),
{
    let (n, p) = match read_uint(bytes, pos, 4, e) {
        Ok(r) => r,
        Err(err) => return Err(err),
    };
    match read_int32_items(bytes, p, n, e) {
        Ok((xs, q)) => {
            proof {
                lemma_int32s_of(xs@);
            }
            Ok((ListVariant(xs), q))
        },
        Err(err) => Err(err),
    }
}

/// Reads an array of eight-byte numbers at `pos`: its length, then its elements.
fn read_int64_array(bytes: &[u8], pos: usize, e: Endianness) -> (r: Result<(ListVariant<u64>, usize), ReadError>)
    requires
        pos <= bytes@.len(),
    ensures
        reads_as(r, decode_payload(TypeTag::Int64List, bytes@, pos as int, e), |x: ListVariant<u64>| NbtValue::Int64List(x.0@)),
        r matches Ok((_, q)) ==> pos <= q <= bytes@.len(),
{
    let (n, p) = match read_uint(bytes, pos, 4, e) {
        Ok(r) => r,
        Err(err) => return Err(err),
    };
    match read_int64_items(bytes, p, n, e) {
        Ok((xs, q)) => {
            proof {
                lemma_int64s_of(xs@);
            }
            Ok((ListVariant(xs), q))
        },
        Err(err) => Err(err),
    }
}

/// Reads the payload of a list at `pos`: the element tag, the length, then the elements.
pub fn read_list(bytes: &[u8], pos: usize, e: Endianness) -> (r: Result<(List, usize), ReadError>)
    requires
        pos <= bytes@.len(),
    ensures
        reads_as(r, decode_payload(TypeTag::List, bytes@, pos as int, e), |l: List| l@),
        r matches Ok((_, q)) ==> pos <= q <= bytes@.len(),
    decreases bytes@.len() - pos, 0nat, 1nat,
{
    if pos >= bytes.len() {
        return Err(ReadError::Io);
    }
    let b = bytes[pos];
    let t = match TypeTag::try_from(b) {
        Ok(t) => t,
        Err(err) => return Err(ReadError::UnknownTag(err)),
    };
    let (n, p) = match read_uint(bytes, pos + 1, 4, e) {
        Ok(r) => r,
        Err(err) => return Err(err),
    };
    match t {
        TypeTag::EndCompound => Ok((List::Empty, p)),
        TypeTag::Int8 => match read_int8_items(bytes, p, n, e) {
            Ok((xs, q)) => Ok((List::Int8(ListVariant(xs)), q)),
            Err(err) => Err(err),
        },
        TypeTag::Int16 => match read_int16_items(bytes, p, n, e) {
            Ok((xs, q)) => Ok((List::Int16(ListVariant(xs)), q)),
            Err(err) => Err(err),
        },
        TypeTag::Int32 => match read_int32_items(bytes, p, n, e) {
            Ok((xs, q)) => Ok((List::Int32(ListVariant(xs)), q)),
            Err(err) => Err(err),
        },
        TypeTag::Int64 => match read_int64_items(bytes, p, n, e) {
            Ok((xs, q)) => Ok((List::Int64(ListVariant(xs)), q)),
            Err(err) => Err(err),
        },
        TypeTag::Float32 => match read_float32_items(bytes, p, n, e) {
            Ok((xs, q)) => Ok((List::Float32(ListVariant(xs)), q)),
            Err(err) => Err(err),
        },
        TypeTag::Float64 => match read_float64_items(bytes, p, n, e) {
            Ok((xs, q)) => Ok((List::Float64(ListVariant(xs)), q)),
            Err(err) => Err(err),
        },
        TypeTag::String => match read_strings(bytes, p, n, e) {
            Ok((xs, q)) => Ok((List::String(ListVariant(xs)), q)),
            Err(err) => Err(err),
        },
        TypeTag::List => match read_lists(bytes, p, n, e) {
            Ok((xs, q)) => Ok((List::List(ListVariant(xs)), q)),
            Err(err) => Err(err),
        },
        TypeTag::Compound => match read_compounds(bytes, p, n, e) {
            Ok((xs, q)) => Ok((List::Compound(ListVariant(xs)), q)),
            Err(err) => Err(err),
        },
        TypeTag::Int8List => match read_int8_arrays(bytes, p, n, e) {
            Ok((xs, q)) => Ok((List::Int8List(ListVariant(xs)), q)),
            Err(err) => Err(err),
        },
        TypeTag::Int32List => match read_int32_arrays(bytes, p, n, e) {
            Ok((xs, q)) => Ok((List::Int32List(ListVariant(xs)), q)),
            Err(err) => Err(err),
        },
        TypeTag::Int64List => match read_int64_arrays(bytes, p, n, e) {
            Ok((xs, q)) => Ok((List::Int64List(ListVariant(xs)), q)),
            Err(err) => Err(err),
        },
    }
}

pub proof fn lemma_entries_step(bytes: Seq<u8>, pos: int, acc: Seq<(Seq<char>, NbtValue)>, e: Endianness)
    ensures
        decode_entries(bytes, pos, acc, e) == if 0 <= pos < bytes.len() {
            if bytes[pos] == 0 {
                Ok((acc, pos + 1))
            } else {
                match tag_of_byte(bytes[pos]) {
                    None => Err(ReadError::UnknownTag(UnknownTagError(bytes[pos]))),
                    Some(t) => match decode_string(bytes, pos + 1, e) {
                        Err(err) => Err(err),
                        Ok((name, p1)) => match decode_payload(t, bytes, p1, e) {
                            Err(err) => Err(err),
                            Ok((v, p2)) => if pos < p2 <= bytes.len() {
                                decode_entries(bytes, p2, insert_entry(acc, name, v), e)
                            } else {
                                Err(ReadError::Io)
                            },
                        },
                    },
                }
            }
        } else {
            Err(ReadError::Io)
        },
{
}

/// Reads the payload of a compound at `pos`: entries up to the end tag.  An entry whose key
/// was seen before replaces the earlier one.
pub fn read_compound(bytes: &[u8], pos: usize, e: Endianness) -> (r: Result<(Compound, usize), ReadError>)
    requires
        pos <= bytes@.len(),
    ensures
        reads_as(r, decode_payload(TypeTag::Compound, bytes@, pos as int, e), |c: Compound| NbtValue::Compound(c@)),
        r matches Ok((_, q)) ==> pos <= q <= bytes@.len(),
    decreases bytes@.len() - pos, 0nat, 1nat,
{
    let ghost whole = decode_entries(bytes@, pos as int, Seq::empty(), e);
    let mut c = Compound::new();
    let mut p: usize = pos;
    loop
        invariant
            pos <= p <= bytes@.len(),
            whole == decode_entries(bytes@, pos as int, Seq::empty(), e),
            whole == decode_entries(bytes@, p as int, c@, e),
        decreases bytes@.len() - p,
    {
        proof {
            lemma_entries_step(bytes@, p as int, c@, e);
        }
        if p >= bytes.len() {
            return Err(ReadError::Io);
        }
        let b = bytes[p];
        if b == 0 {
            return Ok((c, p + 1));
        }
        let t = match TypeTag::try_from(b) {
            Ok(t) => t,
            Err(err) => return Err(ReadError::UnknownTag(err)),
        };
        let (name, p1) = match read_string(bytes, p + 1, e) {
            Ok(r) => r,
            Err(err) => return Err(err),
        };
        let (v, p2) = match read_payload(t, bytes, p1, e) {
            Ok(r) => r,
            Err(err) => return Err(err),
        };
        c.insert(name, v);
        p = p2;
    }
}

/// The number payloads and their widths: a byte is 1 byte, a short 2, an int 4, a long 8, a
/// float 4 and a double 8, each read in the byte order `e`; where the bytes run out, the
/// input ended early.
pub proof fn law_number_payloads(bytes: Seq<u8>, pos: int, e: Endianness)
    requires
        0 <= pos,
    ensures
        decode_payload(TypeTag::Int8, bytes, pos, e) == (if pos + 1 <= bytes.len() {
            Ok::<(NbtValue, int), ReadError>((NbtValue::Int8(bytes[pos]), pos + 1))
        } else {
            Err(ReadError::Io)
        }),
        decode_payload(TypeTag::Int16, bytes, pos, e) == (if pos + 2 <= bytes.len() {
            Ok::<(NbtValue, int), ReadError>((NbtValue::Int16(uint_value(bytes.subrange(pos, pos + 2), e) as u16), pos + 2))
        } else {
            Err(ReadError::Io)
        }),
        decode_payload(TypeTag::Int32, bytes, pos, e) == (if pos + 4 <= bytes.len() {
            Ok::<(NbtValue, int), ReadError>((NbtValue::Int32(uint_value(bytes.subrange(pos, pos + 4), e) as u32), pos + 4))
        } else {
            Err(ReadError::Io)
        }),
        decode_payload(TypeTag::Int64, bytes, pos, e) == (if pos + 8 <= bytes.len() {
            Ok::<(NbtValue, int), ReadError>((NbtValue::Int64(uint_value(bytes.subrange(pos, pos + 8), e) as u64), pos + 8))
        } else {
            Err(ReadError::Io)
        }),
        decode_payload(TypeTag::Float32, bytes, pos, e) == (if pos + 4 <= bytes.len() {
            Ok::<(NbtValue, int), ReadError>((NbtValue::Float32(uint_value(bytes.subrange(pos, pos + 4), e) as u32), pos + 4))
        } else {
            Err(ReadError::Io)
        }),
        decode_payload(TypeTag::Float64, bytes, pos, e) == (if pos + 8 <= bytes.len() {
            Ok::<(NbtValue, int), ReadError>((NbtValue::Float64(uint_value(bytes.subrange(pos, pos + 8), e) as u64), pos + 8))
        } else {
            Err(ReadError::Io)
        }),
{
    if pos + 1 <= bytes.len() {
        let one = bytes.subrange(pos, pos + 1);
        reveal_with_fuel(crate::binary::le_value, 2);
        assert(one.reverse() =~= one);
        assert(one.drop_first() =~= Seq::<u8>::empty());
        assert(one[0] == bytes[pos]);
    }
}

/// A named tag whose tag byte is 5 is a float: its name, then the four bytes of the float.
pub proof fn law_float_tag(bytes: Seq<u8>, pos: int, e: Endianness)
    requires
        0 <= pos < bytes.len(),
        bytes[pos] == 5,
    ensures
        decode_named(bytes, pos, e) == match decode_string(bytes, pos + 1, e) {
            Err(err) => Err(err),
            Ok((name, p)) => if p + 4 <= bytes.len() {
                Ok::<((Seq<char>, NbtValue), int), ReadError>(
                    ((name, NbtValue::Float32(uint_value(bytes.subrange(p, p + 4), e) as u32)), p + 4),
                )
            } else {
                Err(ReadError::Io)
            },
        },
{
    match decode_string(bytes, pos + 1, e) {
        Ok((name, p)) => {
            law_number_payloads(bytes, p, e);
        },
        Err(_) => {},
    }
}

/// Reads a payload of kind `tag` at `pos`.
pub fn read_payload(tag: TypeTag, bytes: &[u8], pos: usize, e: Endianness) -> (r: Result<(Variant, usize), ReadError>)
    requires
        pos <= bytes@.len(),
    ensures
        reads_as(r, decode_payload(tag, bytes@, pos as int, e), |v: Variant| v@),
        r matches Ok((_, q)) ==> pos <= q <= bytes@.len(),
    decreases bytes@.len() - pos, 0nat, 2nat,
{
    match tag {
        TypeTag::EndCompound => Err(ReadError::UnexpectedEndTag),
        TypeTag::Int8 => match read_int8(bytes, pos, e) {
            Ok((x, q)) => Ok((Variant::Int8(x), q)),
            Err(err) => Err(err),
        },
        TypeTag::Int16 => match read_int16(bytes, pos, e) {
            Ok((x, q)) => Ok((Variant::Int16(x), q)),
            Err(err) => Err(err),
        },
        TypeTag::Int32 => match read_int32(bytes, pos, e) {
            Ok((x, q)) => Ok((Variant::Int32(x), q)),
            Err(err) => Err(err),
        },
        TypeTag::Int64 => match read_int64(bytes, pos, e) {
            Ok((x, q)) => Ok((Variant::Int64(x), q)),
            Err(err) => Err(err),
        },
        TypeTag::Float32 => match read_float32(bytes, pos, e) {
            Ok((x, q)) => Ok((Variant::Float32(x), q)),
            Err(err) => Err(err),
        },
        TypeTag::Float64 => match read_float64(bytes, pos, e) {
            Ok((x, q)) => Ok((Variant::Float64(x), q)),
            Err(err) => Err(err),
        },
        TypeTag::String => match read_string_payload(bytes, pos, e) {
            Ok((s, q)) => Ok((Variant::String(s), q)),
            Err(err) => Err(err),
        },
        TypeTag::List => match read_list(bytes, pos, e) {
            Ok((l, q)) => Ok((Variant::List(l), q)),
            Err(err) => Err(err),
        },
        TypeTag::Compound => match read_compound(bytes, pos, e) {
            Ok((c, q)) => Ok((Variant::Compound(c), q)),
            Err(err) => Err(err),
        },
        TypeTag::Int8List => match read_int8_array(bytes, pos, e) {
            Ok((l, q)) => Ok((Variant::Int8List(l), q)),
            Err(err) => Err(err),
        },
        TypeTag::Int32List => match read_int32_array(bytes, pos, e) {
            Ok((l, q)) => Ok((Variant::Int32List(l), q)),
            Err(err) => Err(err),
        },
        TypeTag::Int64List => match read_int64_array(bytes, pos, e) {
            Ok((l, q)) => Ok((Variant::Int64List(l), q)),
            Err(err) => Err(err),
        },
    }
}


/// A Bedrock header at `pos`: the version, then the size, four bytes each.
pub open spec fn decode_header(bytes: Seq<u8>, pos: int, e: Endianness) -> Result<
    ((u32, u32), int),
    ReadError,
> {
    match decode_uint(bytes, pos, 4, e) {
        Err(err) => Err(err),
        Ok((version, p)) => match decode_uint(bytes, p, 4, e) {
            Err(err) => Err(err),
            Ok((size, q)) => Ok(((version as u32, size as u32), q)),
        },
    }
}

/// Reads a named tag at `pos`: its tag byte, its name, then its payload.
pub fn read_named_tag(bytes: &[u8], pos: usize, e: Endianness) -> (r: Result<(NamedTag, usize), ReadError>)
    ensures
        reads_as(r, decode_named(bytes@, pos as int, e), |t: NamedTag| t@),
{
    if pos >= bytes.len() {
        return Err(ReadError::Io);
    }
    let t = match TypeTag::try_from(bytes[pos]) {
        Ok(t) => t,
        Err(err) => return Err(ReadError::UnknownTag(err)),
    };
    let (name, p1) = match read_string(bytes, pos + 1, e) {
        Ok(r) => r,
        Err(err) => return Err(err),
    };
    match read_payload(t, bytes, p1, e) {
        Ok((v, p2)) => Ok((NamedTag(name, v), p2)),
        Err(err) => Err(err),
    }
}

/// Reads a Bedrock header at `pos`.
pub fn read_bedrock_header(bytes: &[u8], pos: usize, e: Endianness) -> (r: Result<(BedrockHeader, usize), ReadError>)
    ensures
        reads_as(r, decode_header(bytes@, pos as int, e), |h: BedrockHeader| (h.version, h.size)),
{
    proof {
        lemma_pow256_facts();
    }
    let (version, p) = match read_uint(bytes, pos, 4, e) {
        Ok(r) => r,
        Err(err) => return Err(err),
    };
    let (size, q) = match read_uint(bytes, p, 4, e) {
        Ok(r) => r,
        Err(err) => return Err(err),
    };
    Ok((BedrockHeader { version: version as u32, size: size as u32 }, q))
}

/// Types that can be read from the binary format.
pub trait ReadNbt: Sized {
    /// Reads a value at `pos`, giving it and the position after it.
    fn read_nbt(bytes: &[u8], pos: usize, endianness: Endianness) -> Result<(Self, usize), ReadError>;
}

impl ReadNbt for BedrockHeader {
    fn read_nbt(bytes: &[u8], pos: usize, endianness: Endianness) -> (r: Result<(Self, usize), ReadError>)
        ensures
            reads_as(r, decode_header(bytes@, pos as int, endianness), |h: BedrockHeader| (h.version, h.size)),
    {
        read_bedrock_header(bytes, pos, endianness)
    }
}

impl ReadNbt for NamedTag {
    fn read_nbt(bytes: &[u8], pos: usize, endianness: Endianness) -> (r: Result<(Self, usize), ReadError>)
        ensures
            reads_as(r, decode_named(bytes@, pos as int, endianness), |t: NamedTag| t@),
    {
        read_named_tag(bytes, pos, endianness)
    }
}

impl ReadNbt for String {
    fn read_nbt(bytes: &[u8], pos: usize, endianness: Endianness) -> (r: Result<(Self, usize), ReadError>)
        ensures
            reads_as(r, decode_string(bytes@, pos as int, endianness), |s: String| s@),
    {
        read_string(bytes, pos, endianness)
    }
}

impl ReadNbt for List {
    fn read_nbt(bytes: &[u8], pos: usize, endianness: Endianness) -> (r: Result<(Self, usize), ReadError>)
        ensures
            reads_as(r, decode_payload(TypeTag::List, bytes@, pos as int, endianness), |l: List| l@),
    {
        if pos > bytes.len() {
            return Err(ReadError::Io);
        }
        read_list(bytes, pos, endianness)
    }
}

impl ReadNbt for Compound {
    fn read_nbt(bytes: &[u8], pos: usize, endianness: Endianness) -> (r: Result<(Self, usize), ReadError>)
        ensures
            reads_as(r, decode_payload(TypeTag::Compound, bytes@, pos as int, endianness), |c: Compound| NbtValue::Compound(c@)),
    {
        if pos > bytes.len() {
            return Err(ReadError::Io);
        }
        read_compound(bytes, pos, endianness)
    }
}

} // verus!
