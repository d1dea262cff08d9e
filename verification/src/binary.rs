//! The binary NBT format: tags, byte order and fixed-width numbers.
use vstd::prelude::*;

pub mod read;
pub mod write;
pub mod roundtrip;
pub mod bedrock;

verus! {

/// The byte order of the multi-byte numbers in the binary format.
#[derive(Debug, Clone, Copy, PartialEq, Eq, Structural)]
pub enum Endianness {
    Little,
    Big,
}

/// The tag that announces the kind of a payload.
#[derive(Debug, Clone, Copy, PartialEq, Eq, Structural)]
pub enum TypeTag {
    EndCompound,
    Int8,
    Int16,
    Int32,
    Int64,
    Float32,
    Float64,
    String,
    Int8List,
    List,
    Compound,
    Int32List,
    Int64List,
}

/// A tag byte that names no kind of payload.
#[derive(Debug, Clone, Copy, PartialEq, Eq, Structural)]
pub struct UnknownTagError(pub u8);

impl TypeTag {
    /// The byte that stands for this tag in the binary format.
    pub open spec fn spec_byte(self) -> u8 {
        match self {
            TypeTag::EndCompound => 0,
            TypeTag::Int8 => 1,
            TypeTag::Int16 => 2,
            TypeTag::Int32 => 3,
            TypeTag::Int64 => 4,
            TypeTag::Float32 => 5,
            TypeTag::Float64 => 6,
            TypeTag::Int8List => 7,
            TypeTag::String => 8,
            TypeTag::List => 9,
            TypeTag::Compound => 10,
            TypeTag::Int32List => 11,
            TypeTag::Int64List => 12,
        }
    }

    #[verifier::when_used_as_spec(spec_byte)]
    pub fn byte(self) -> (b: u8)
        ensures
            b == self.spec_byte(),
    {
        match self {
            TypeTag::EndCompound => 0,
            TypeTag::Int8 => 1,
            TypeTag::Int16 => 2,
            TypeTag::Int32 => 3,
            TypeTag::Int64 => 4,
            TypeTag::Float32 => 5,
            TypeTag::Float64 => 6,
            TypeTag::Int8List => 7,
            TypeTag::String => 8,
            TypeTag::List => 9,
            TypeTag::Compound => 10,
            TypeTag::Int32List => 11,
            TypeTag::Int64List => 12,
        }
    }
}

/// The tag that a byte stands for, if any.
pub open spec fn tag_of_byte(b: u8) -> Option<TypeTag> {
    if b == 0 {
        Some(TypeTag::EndCompound)
    } else if b == 1 {
        Some(TypeTag::Int8)
    } else if b == 2 {
        Some(TypeTag::Int16)
    } else if b == 3 {
        Some(TypeTag::Int32)
    } else if b == 4 {
        Some(TypeTag::Int64)
    } else if b == 5 {
        Some(TypeTag::Float32)
    } else if b == 6 {
        Some(TypeTag::Float64)
    } else if b == 7 {
        Some(TypeTag::Int8List)
    } else if b == 8 {
        Some(TypeTag::String)
    } else if b == 9 {
        Some(TypeTag::List)
    } else if b == 10 {
        Some(TypeTag::Compound)
    } else if b == 11 {
        Some(TypeTag::Int32List)
    } else if b == 12 {
        Some(TypeTag::Int64List)
    } else {
        None
    }
}

/// Every tag is read back from its own byte.
pub proof fn lemma_tag_byte_roundtrip(t: TypeTag)
    ensures
        tag_of_byte(t.spec_byte()) == Some(t),
{
}

/// The tag bytes of the NBT format: end 0, byte 1, short 2, int 3, long 4, float 5, double 6,
/// byte array 7, string 8, list 9, compound 10, int array 11, long array 12. A byte above 12
/// names no tag, and every other byte names the tag whose byte it is.
pub proof fn law_tag_bytes(b: u8)
    ensures
        TypeTag::EndCompound.spec_byte() == 0,
        TypeTag::Int8.spec_byte() == 1,
        TypeTag::Int16.spec_byte() == 2,
        TypeTag::Int32.spec_byte() == 3,
        TypeTag::Int64.spec_byte() == 4,
        TypeTag::Float32.spec_byte() == 5,
        TypeTag::Float64.spec_byte() == 6,
        TypeTag::Int8List.spec_byte() == 7,
        TypeTag::String.spec_byte() == 8,
        TypeTag::List.spec_byte() == 9,
        TypeTag::Compound.spec_byte() == 10,
        TypeTag::Int32List.spec_byte() == 11,
        TypeTag::Int64List.spec_byte() == 12,
        tag_of_byte(b) is Some <==> b <= 12,
        tag_of_byte(b) matches Some(t) ==> t.spec_byte() == b,
{
}

impl TryFrom<u8> for TypeTag {
    type Error = UnknownTagError;

    fn try_from(value: u8) -> (r: Result<TypeTag, UnknownTagError>) {
        match value {
            0 => Ok(TypeTag::EndCompound),
            1 => Ok(TypeTag::Int8),
            2 => Ok(TypeTag::Int16),
            3 => Ok(TypeTag::Int32),
            4 => Ok(TypeTag::Int64),
            5 => Ok(TypeTag::Float32),
            6 => Ok(TypeTag::Float64),
            8 => Ok(TypeTag::String),
            7 => Ok(TypeTag::Int8List),
            9 => Ok(TypeTag::List),
            10 => Ok(TypeTag::Compound),
            11 => Ok(TypeTag::Int32List),
            12 => Ok(TypeTag::Int64List),
            _ => Err(UnknownTagError(value)),
        }
    }
}

impl vstd::std_specs::convert::TryFromSpecImpl<u8> for TypeTag {
    open spec fn obeys_try_from_spec() -> bool {
        true
    }

    open spec fn try_from_spec(v: u8) -> Result<TypeTag, UnknownTagError> {
        match tag_of_byte(v) {
            Some(t) => Ok(t),
            None => Err(UnknownTagError(v)),
        }
    }
}

/// `256` raised to `n`.
pub open spec fn pow256(n: nat) -> nat
    decreases n,
{
    if n == 0 {
        1
    } else {
        256 * pow256((n - 1) as nat)
    }
}

/// The number whose little-endian base-256 digits are `s`.
pub open spec fn le_value(s: Seq<u8>) -> nat
    decreases s.len(),
{
    if s.len() == 0 {
        0
    } else {
        s[0] as nat + 256 * le_value(s.drop_first())
    }
}

/// The `n` lowest little-endian base-256 digits of `x`.
pub open spec fn le_bytes(x: nat, n: nat) -> Seq<u8>
    decreases n,
{
    if n == 0 {
        Seq::empty()
    } else {
        seq![(x % 256) as u8] + le_bytes(x / 256, (n - 1) as nat)
    }
}

/// `x` written with `n` bytes in the byte order `e`.
pub open spec fn uint_bytes(x: nat, n: nat, e: Endianness) -> Seq<u8> {
    match e {
        Endianness::Little => le_bytes(x, n),
        Endianness::Big => le_bytes(x, n).reverse(),
    }
}

/// The number that the bytes `s` stand for in the byte order `e`.
pub open spec fn uint_value(s: Seq<u8>, e: Endianness) -> nat {
    match e {
        Endianness::Little => le_value(s),
        Endianness::Big => le_value(s.reverse()),
    }
}

/// Byte order: little-endian puts the least significant byte first, big-endian the most
/// significant.
pub proof fn law_byte_order(a: u8, b: u8, c: u8, d: u8)
    ensures
        uint_value(seq![a, b], Endianness::Little) == a + 256 * b,
        uint_value(seq![a, b], Endianness::Big) == 256 * a + b,
        uint_value(seq![a, b, c, d], Endianness::Little) == a + 0x100 * b + 0x1_0000 * c + 0x100_0000 * d,
        uint_value(seq![a, b, c, d], Endianness::Big) == 0x100_0000 * a + 0x1_0000 * b + 0x100 * c + d,
{
    reveal_with_fuel(le_value, 5);
    assert(seq![a, b].reverse() =~= seq![b, a]);
    assert(seq![a, b].drop_first() =~= seq![b]);
    assert(seq![b, a].drop_first() =~= seq![a]);
    assert(seq![a].drop_first() =~= Seq::<u8>::empty());
    assert(seq![b].drop_first() =~= Seq::<u8>::empty());
    let l = seq![a, b, c, d];
    let r = seq![d, c, b, a];
    assert(l.reverse() =~= r);
    assert(l.drop_first() =~= seq![b, c, d]);
    assert(seq![b, c, d].drop_first() =~= seq![c, d]);
    assert(seq![c, d].drop_first() =~= seq![d]);
    assert(seq![d].drop_first() =~= Seq::<u8>::empty());
    assert(r.drop_first() =~= seq![c, b, a]);
    assert(seq![c, b, a].drop_first() =~= seq![b, a]);
}

pub proof fn lemma_pow256_facts()
    ensures
        pow256(0) == 1,
        pow256(1) == 256,
        pow256(2) == 0x1_0000,
        pow256(4) == 0x1_0000_0000,
        pow256(8) == 0x1_0000_0000_0000_0000,
{
    reveal_with_fuel(pow256, 9);
}

pub proof fn lemma_pow256_monotone(a: nat, b: nat)
    requires
        a <= b,
    ensures
        pow256(a) <= pow256(b),
    decreases b,
{
    if a < b {
        lemma_pow256_monotone(a, (b - 1) as nat);
    }
}

pub proof fn lemma_le_bytes_len(x: nat, n: nat)
    ensures
        le_bytes(x, n).len() == n,
    decreases n,
{
    if n > 0 {
        lemma_le_bytes_len(x / 256, (n - 1) as nat);
    }
}

pub proof fn lemma_uint_bytes_len(x: nat, n: nat, e: Endianness)
    ensures
        uint_bytes(x, n, e).len() == n,
{
    lemma_le_bytes_len(x, n);
}

pub proof fn lemma_le_value_bound(s: Seq<u8>)
    ensures
        le_value(s) < pow256(s.len()),
    decreases s.len(),
{
    if s.len() > 0 {
        lemma_le_value_bound(s.drop_first());
    }
}

pub proof fn lemma_uint_value_bound(s: Seq<u8>, e: Endianness)
    ensures
        uint_value(s, e) < pow256(s.len()),
{
    lemma_le_value_bound(s);
    lemma_le_value_bound(s.reverse());
}

pub proof fn lemma_le_roundtrip(x: nat, n: nat)
    requires
        x < pow256(n),
    ensures
        le_value(le_bytes(x, n)) == x,
    decreases n,
{
    if n > 0 {
        let s = le_bytes(x, n);
        assert(s.drop_first() =~= le_bytes(x / 256, (n - 1) as nat));
        lemma_le_roundtrip(x / 256, (n - 1) as nat);
    }
}

/// Reading back the bytes of a number that fits gives the number.
pub proof fn lemma_uint_roundtrip(x: nat, n: nat, e: Endianness)
    requires
        x < pow256(n),
    ensures
        uint_value(uint_bytes(x, n, e), e) == x,
{
    lemma_le_roundtrip(x, n);
    assert(le_bytes(x, n).reverse().reverse() =~= le_bytes(x, n));
}

/// The number held in `bytes[pos..pos + n]` in the byte order `e`.
pub fn uint_at(bytes: &[u8], pos: usize, n: usize, e: Endianness) -> (v: u64)
    requires
        n <= 8,
        pos + n <= bytes.len(),
    ensures
        v as nat == uint_value(bytes@.subrange(pos as int, pos + n), e),
        (v as nat) < pow256(n as nat),
{
    proof {
        lemma_pow256_facts();
    }
    let mut v: u64 = 0;
    match e {
        Endianness::Little => {
            let mut i: usize = n;
            while i > 0
                invariant
                    n <= 8,
                    pos + n <= bytes.len(),
                    i <= n,
                    v as nat == le_value(bytes@.subrange(pos + i, pos + n)),
                    (v as nat) < pow256((n - i) as nat),
                    pow256(8) == 0x1_0000_0000_0000_0000,
                decreases i,
            {
                let ghost old_v = v;
                i = i - 1;
                proof {
                    lemma_pow256_monotone((n - i) as nat, 8);
                    assert(pow256((n - i) as nat) == 256 * pow256((n - i - 1) as nat));
                    let s = bytes@.subrange(pos + i, pos + n);
                    assert(s.drop_first() =~= bytes@.subrange(pos + i + 1, pos + n));
                }
                let b: u8 = bytes[pos + i];
                v = v * 256 + b as u64;
            }
            proof {
                assert(bytes@.subrange(pos as int, pos + n) =~= bytes@.subrange(pos + 0, pos + n));
            }
        },
        Endianness::Big => {
            let mut i: usize = 0;
            while i < n
                invariant
                    n <= 8,
                    pos + n <= bytes.len(),
                    i <= n,
                    v as nat == le_value(bytes@.subrange(pos as int, pos + i).reverse()),
                    (v as nat) < pow256(i as nat),
                    pow256(8) == 0x1_0000_0000_0000_0000,
                decreases n - i,
            {
                proof {
                    lemma_pow256_monotone((i + 1) as nat, 8);
                    assert(pow256((i + 1) as nat) == 256 * pow256(i as nat));
                    let s = bytes@.subrange(pos as int, pos + i + 1).reverse();
                    assert(s.drop_first() =~= bytes@.subrange(pos as int, pos + i).reverse());
                    assert(s[0] == bytes@[pos + i]);
                }
                let b: u8 = bytes[pos + i];
                v = v * 256 + b as u64;
                i = i + 1;
            }
        },
    }
    v
}

/// Appends `x` written with `n` bytes in the byte order `e`.
pub fn push_uint(out: &mut Vec<u8>, x: u64, n: usize, e: Endianness)
    requires
        n <= 8,
        (x as nat) < pow256(n as nat),
    ensures
        final(out)@ == old(out)@ + uint_bytes(x as nat, n as nat, e),
{
    let mut digits: Vec<u8> = Vec::new();
    let mut y: u64 = x;
    let mut i: usize = 0;
    while i < n
        invariant
            i <= n,
            digits@ + le_bytes(y as nat, (n - i) as nat) == le_bytes(x as nat, n as nat),
            digits@.len() == i,
        decreases n - i,
    {
        proof {
            let rest = le_bytes(y as nat, (n - i) as nat);
            assert(rest =~= seq![(y % 256) as u8] + le_bytes((y / 256) as nat, (n - i - 1) as nat));
            assert(digits@.push((y % 256) as u8) + le_bytes((y / 256) as nat, (n - i - 1) as nat)
                =~= digits@ + rest);
        }
        digits.push((y % 256) as u8);
        y = y / 256;
        i = i + 1;
    }
    assert(digits@ =~= le_bytes(x as nat, n as nat));
    match e {
        Endianness::Little => {
            let mut j: usize = 0;
            while j < n
                invariant
                    j <= n,
                    digits@.len() == n,
                    out@ == old(out)@ + digits@.subrange(0, j as int),
                decreases n - j,
            {
                out.push(digits[j]);
                j = j + 1;
                assert(out@ =~= old(out)@ + digits@.subrange(0, j as int));
            }
            assert(digits@.subrange(0, n as int) =~= digits@);
        },
        Endianness::Big => {
            let mut j: usize = n;
            while j > 0
                invariant
                    j <= n,
                    digits@.len() == n,
                    out@ == old(out)@ + digits@.subrange(j as int, n as int).reverse(),
                decreases j,
            {
                j = j - 1;
                out.push(digits[j]);
                assert(out@ =~= old(out)@ + digits@.subrange(j as int, n as int).reverse());
            }
            assert(digits@.subrange(0, n as int) =~= digits@);
        },
    }
}

} // verus!
