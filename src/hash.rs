//! Announcement identifiers and the comparison of 32-byte identifiers.

use vstd::prelude::*;

verus! {

broadcast use vstd::array::group_array_axioms;

/// A 32-byte identifier: a coin id, a puzzle hash or an announcement id.
pub type Bytes32 = [u8; 32];

/// The SHA-256 digest of a byte string.
pub uninterp spec fn sha256_of(data: Seq<u8>) -> Seq<u8>;

/// The identifier of the announcement that `source` makes with `message`: the
/// digest of the two byte strings laid end to end, with no separator.
pub open spec fn announcement_id_of(source: Seq<u8>, message: Seq<u8>) -> Seq<u8> {
    sha256_of(source + message)
}

/// The identifier depends on the source and the message alone: the same
/// pair always gives the same identifier.
pub proof fn lemma_announcement_id_deterministic(
    source1: Seq<u8>,
    message1: Seq<u8>,
    source2: Seq<u8>,
    message2: Seq<u8>,
)
    requires
        source1 == source2,
        message1 == message2,
    ensures
        announcement_id_of(source1, message1) == announcement_id_of(source2, message2),
{
}

/// Relies on `sha2::Sha256::digest`: the SHA-256 digest of `data`, which
/// depends on the bytes alone and is 32 bytes long.
#[verifier::external_body]
fn sha256(data: &[u8]) -> (r: Bytes32)
    ensures
        r@ == sha256_of(data@),
{
    <sha2::Sha256 as sha2::Digest>::digest(data).into()
}

/// Derives the announcement identifier of `message` announced by the coin or
/// puzzle identified by `source`.
pub fn derive_announcement_id(source: &Bytes32, message: &[u8]) -> (r: Bytes32)
    ensures
        r@ == announcement_id_of(source@, message@),
{
    let mut data: Vec<u8> = Vec::new();
    let mut i: usize = 0;
    while i < 32
        invariant
            i <= 32,
            data@ == source@.subrange(0, i as int),
        decreases 32 - i,
    {
        data.push(source[i]);
        i = i + 1;
    }
    let mut j: usize = 0;
    while j < message.len()
        invariant
            j <= message@.len(),
            data@ == source@ + message@.subrange(0, j as int),
        decreases message@.len() - j,
    {
        data.push(message[j]);
        j = j + 1;
    }
    assert(source@.subrange(0, 32) =~= source@);
    assert(message@.subrange(0, message@.len() as int) =~= message@);
    sha256(data.as_slice())
}

/// Whether two identifiers are equal, byte for byte.
pub fn same_id(a: &Bytes32, b: &Bytes32) -> (r: bool)
    ensures
        r == (*a == *b),
        r == (a@ == b@),
{
    let mut i: usize = 0;
    while i < 32
        invariant
            i <= 32,
            forall|k: int| 0 <= k < i ==> a[k] == b[k],
        decreases 32 - i,
    {
        if a[i] != b[i] {
            assert(!(*a =~= *b));
            assert(a@[i as int] != b@[i as int]);
            return false;
        }
        i = i + 1;
    }
    assert(*a =~= *b);
    assert(a@ =~= b@);
    true
}

} // verus!
