//! Structure templates as a Bedrock world database stores them.
use vstd::prelude::*;
use vstd::utf8::*;
use crate::snbt::read::tokenize::str_from_utf8;

verus! {

/// The bytes that begin the database key of a structure template.
pub open spec fn template_prefix() -> Seq<u8> {
    seq![
        0x73u8, 0x74, 0x72, 0x75, 0x63, 0x74, 0x75, 0x72, 0x65, // "structure"
        0x74, 0x65, 0x6d, 0x70, 0x6c, 0x61, 0x74, 0x65, 0x5f, // "template_"
    ]
}

/// The name of the structure template stored under `key`: what follows the prefix, where the
/// key begins with it and the rest is UTF-8.
pub open spec fn spec_structure_name(key: Seq<u8>) -> Option<Seq<char>> {
    let n = template_prefix().len();
    if key.len() >= n && key.take(n as int) == template_prefix() && valid_utf8(key.skip(n as int)) {
        Some(decode_utf8(key.skip(n as int)))
    } else {
        None
    }
}

/// The name of the structure template stored under a database key, if the key holds one.
pub fn structure_name(key: &[u8]) -> (r: Option<String>)
    ensures
        r matches Some(s) ==> spec_structure_name(key@) == Some(s@),
        r is None ==> spec_structure_name(key@) is None,
{
    let prefix: [u8; 18] = [
        0x73, 0x74, 0x72, 0x75, 0x63, 0x74, 0x75, 0x72, 0x65,
        0x74, 0x65, 0x6d, 0x70, 0x6c, 0x61, 0x74, 0x65, 0x5f,
    ];
    assert(prefix@ =~= template_prefix());
    if key.len() < 18 {
        return None;
    }
    let mut i: usize = 0;
    while i < 18
        invariant
            i <= 18,
            key@.len() >= 18,
            prefix@ == template_prefix(),
            forall|j: int| 0 <= j < i ==> key@[j] == prefix@[j],
        decreases 18 - i,
    {
        if key[i] != prefix[i] {
            assert(key@.take(18)[i as int] != template_prefix()[i as int]);
            return None;
        }
        i = i + 1;
    }
    assert(key@.take(18) =~= template_prefix());
    let rest = vstd::slice::slice_subrange(key, 18, key.len());
    assert(rest@ =~= key@.skip(18));
    match str_from_utf8(rest) {
        Some(s) => Some(s.to_owned()),
        None => None,
    }
}

/// The name of the file that a structure template is extracted to.
pub open spec fn spec_file_name(name: Seq<char>) -> Seq<char> {
    name + ".mcstructure"@
}

/// The name of the file that the structure template `name` is extracted to.
pub fn structure_file_name(name: &str) -> (r: String)
    ensures
        r@ == spec_file_name(name@),
{
    let mut r = name.to_owned();
    crate::snbt::read::convert::push_str(&mut r, ".mcstructure");
    r
}

} // verus!
