//! Bedrock files: an eight-byte header, the format version and the payload's size, before a
//! little- or big-endian named tag.
use vstd::prelude::*;
use crate::{BedrockHeader, NamedTag, NbtValue};
use crate::binary::{Endianness, lemma_pow256_facts};
use crate::binary::read::{ReadError, decode_header, decode_named};
use crate::binary::write::{
    WriteError, encode_header, encode_named, encodable, string_fits, write_bedrock_header,
    write_named_tag,
};
use crate::binary::roundtrip::{
    holds_at, lemma_holds_at_split, lemma_decode_uint_at, well_formed, lemma_named_roundtrip,
};

verus! {

/// Why a named tag could not be written as a Bedrock file.
#[derive(Debug, Clone, Copy, PartialEq, Eq)]
pub enum BedrockWriteError {
    /// A string or list of the tag is too long for its length field.
    Write(WriteError),
    /// The encoded tag is longer than the header's size field can state.
    TooLarge,
}

/// The bytes of a Bedrock file: the header with `version` and the size of the named tag,
/// then the named tag.
pub open spec fn encode_bedrock(version: u32, name: Seq<char>, v: NbtValue, e: Endianness) -> Seq<u8> {
    encode_header(version, encode_named(name, v, e).len() as u32, e) + encode_named(name, v, e)
}

/// Writes `tag` as a Bedrock file whose header carries `version` and the size of the tag.
pub fn write_bedrock(tag: &NamedTag, version: u32, e: Endianness) -> (r: Result<Vec<u8>, BedrockWriteError>)
    ensures
        (r is Err && r->Err_0 == BedrockWriteError::Write(WriteError::LengthOverflow))
            <==> !(string_fits(tag.0@) && encodable(tag.1@)),
        (r is Err && r->Err_0 == BedrockWriteError::TooLarge) <==> (string_fits(tag.0@) && encodable(tag.1@)
            && encode_named(tag.0@, tag.1@, e).len() > u32::MAX),
        r matches Ok(bytes) ==> bytes@ == encode_bedrock(version, tag.0@, tag.1@, e),
        r matches Ok(bytes) ==> decode_header(bytes@, 0, e) == Ok::<((u32, u32), int), ReadError>(
            ((version, (bytes@.len() - 8) as u32), 8),
        ) && decode_named(bytes@, 8, e) == Ok::<((Seq<char>, NbtValue), int), ReadError>(
            ((tag.0@, tag.1@), bytes@.len() as int),
        ),
{
    let mut payload: Vec<u8> = Vec::new();
    if let Err(err) = write_named_tag(tag, &mut payload, e) {
        return Err(BedrockWriteError::Write(err));
    }
    assert(payload@ =~= encode_named(tag.0@, tag.1@, e));
    if payload.len() > 0xffff_ffff {
        return Err(BedrockWriteError::TooLarge);
    }
    let header = BedrockHeader { version, size: payload.len() as u32 };
    let mut out: Vec<u8> = Vec::new();
    write_bedrock_header(&header, &mut out, e);
    out.append(&mut payload);
    assert(out@ =~= encode_bedrock(version, tag.0@, tag.1@, e));
    proof {
        law_bedrock_roundtrip(version, tag.0@, tag.1@, e, Seq::empty());
        assert(encode_bedrock(version, tag.0@, tag.1@, e) + Seq::<u8>::empty() =~= out@);
        crate::binary::lemma_uint_bytes_len(version as nat, 4, e);
        crate::binary::lemma_uint_bytes_len(encode_named(tag.0@, tag.1@, e).len() as u32 as nat, 4, e);
    }
    Ok(out)
}

/// A Bedrock header reads back as the version and size that were written, whatever follows it.
pub proof fn law_header_roundtrip(version: u32, size: u32, e: Endianness, rest: Seq<u8>)
    ensures
        decode_header(encode_header(version, size, e) + rest, 0, e) == Ok::<((u32, u32), int), ReadError>(
            ((version, size), 8),
        ),
{
    lemma_pow256_facts();
    let a = crate::binary::uint_bytes(version as nat, 4, e);
    let b = crate::binary::uint_bytes(size as nat, 4, e);
    crate::binary::lemma_uint_bytes_len(version as nat, 4, e);
    crate::binary::lemma_uint_bytes_len(size as nat, 4, e);
    let bytes = encode_header(version, size, e) + rest;
    assert(holds_at(bytes, 0, a + b)) by {
        assert(bytes.subrange(0, 8) =~= a + b);
    }
    lemma_holds_at_split(bytes, 0, a, b);
    lemma_decode_uint_at(bytes, 0, version as nat, 4, e);
    lemma_decode_uint_at(bytes, 4, size as nat, 4, e);
}

/// The header of a Bedrock file reads back as the version and size that were written, and the
/// named tag after it as the tag that was written, whatever follows the file.
pub proof fn law_bedrock_roundtrip(version: u32, name: Seq<char>, v: NbtValue, e: Endianness, rest: Seq<u8>)
    requires
        string_fits(name),
        encodable(v),
        well_formed(v),
        encode_named(name, v, e).len() <= u32::MAX,
    ensures
        decode_header(encode_bedrock(version, name, v, e) + rest, 0, e) == Ok::<((u32, u32), int), ReadError>(
            ((version, encode_named(name, v, e).len() as u32), 8),
        ),
        decode_named(encode_bedrock(version, name, v, e) + rest, 8, e) == Ok::<
            ((Seq<char>, NbtValue), int),
            ReadError,
        >(((name, v), 8 + encode_named(name, v, e).len() as int)),
{
    let body = encode_named(name, v, e);
    let size = body.len() as u32;
    let head = encode_header(version, size, e);
    let bytes = encode_bedrock(version, name, v, e) + rest;
    crate::binary::lemma_uint_bytes_len(version as nat, 4, e);
    crate::binary::lemma_uint_bytes_len(size as nat, 4, e);
    assert(bytes =~= head + (body + rest));
    law_header_roundtrip(version, size, e, body + rest);
    assert(bytes.subrange(8, 8 + body.len() as int) =~= body);
    lemma_named_roundtrip(name, v, bytes, 8, e);
}

} // verus!
