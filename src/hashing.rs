//! The checksum that places keys and virtual nodes on the ring, and the text that a virtual
//! node's position is derived from.
use vstd::prelude::*;

verus! {

/// The CRC-32 checksum of a byte sequence.
pub uninterp spec fn crc32_of(data: Seq<u8>) -> u32;

/// Relies on crc32fast::hash: the CRC-32 checksum of the bytes, which depends on them alone.
#[verifier::external_body]
pub(crate) fn create_hash(data: &[u8]) -> (r: u32)
    ensures
        r == crc32_of(data@),
{
    crc32fast::hash(data)
}

/// The decimal digits of `n` in ASCII, most significant first, without leading zeros.
pub open spec fn decimal(n: nat) -> Seq<u8>
    decreases n,
{
    if n < 10 {
        seq![(48 + n) as u8]
    } else {
        decimal(n / 10).push((48 + n % 10) as u8)
    }
}

/// The text `s:<server>:v:<index>` from which a virtual node's position is derived.
pub open spec fn vnode_key(server_id: u32, index: nat) -> Seq<u8> {
    seq![115u8, 58u8] + decimal(server_id as nat) + seq![58u8, 118u8, 58u8] + decimal(index)
}

/// The ring position that the virtual node `index` of `server_id` is placed at before any
/// collision is resolved.
pub open spec fn vnode_candidate(server_id: u32, index: nat) -> u32 {
    crc32_of(vnode_key(server_id, index))
}

/// Appends the decimal digits of `n` to `out`.
fn push_decimal(out: &mut Vec<u8>, n: u32)
    ensures
        final(out)@ == old(out)@ + decimal(n as nat),
    decreases n,
{
    if n >= 10 {
        push_decimal(out, n / 10);
    }
    out.push(48u8 + (n % 10) as u8);
    assert(out@ =~= old(out)@ + decimal(n as nat));
}

/// The bytes of the text `s:<server>:v:<index>`.
pub fn vnode_key_bytes(server_id: u32, index: u32) -> (r: Vec<u8>)
    ensures
        r@ == vnode_key(server_id, index as nat),
{
    let mut out: Vec<u8> = Vec::new();
    out.push(115u8);
    out.push(58u8);
    push_decimal(&mut out, server_id);
    out.push(58u8);
    out.push(118u8);
    out.push(58u8);
    push_decimal(&mut out, index);
    assert(out@ =~= vnode_key(server_id, index as nat));
    out
}

} // verus!
