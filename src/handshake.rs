//! Derivation of the `Sec-WebSocket-Accept` value and the upgrade response.
use vstd::prelude::*;
use vstd::string::StringSliceAdditionalSpecFns;
use sha1::{Digest, Sha1};
use rustc_serialize::base64::{ToBase64, STANDARD};

verus! {

/// The fixed GUID appended to the client's key before hashing.
pub const WEBSOCKET_GUID: &'static str = "258EAFA5-E914-47DA-95CA-C5AB0DC85B11";

/// The 20-byte SHA-1 digest of `data`.
pub uninterp spec fn sha1_digest(data: Seq<u8>) -> Seq<u8>;

/// The standard (RFC 4648, padded) base64 text of `data`, as ASCII bytes.
pub uninterp spec fn base64_standard(data: Seq<u8>) -> Seq<u8>;

/// Relies on sha1's `Sha1::digest` (the `Digest` trait): the SHA-1 digest of
/// `data`, which is 20 bytes long.
#[verifier::external_body]
fn sha1_of(data: &[u8]) -> (r: Vec<u8>)
    ensures
        r@ == sha1_digest(data@),
        r@.len() == 20,
{
    Sha1::digest(data).to_vec()
}

/// Relies on rustc-serialize's `ToBase64::to_base64` with the `STANDARD`
/// configuration: padded standard base64, four characters per three bytes
/// started, without line breaks.
#[verifier::external_body]
fn base64_of(data: &[u8]) -> (r: Vec<u8>)
    ensures
        r@ == base64_standard(data@),
        r@.len() == 4 * ((data@.len() + 2) / 3),
{
    data.to_base64(STANDARD).into_bytes()
}

/// The bytes that are hashed for client key `key`: the key followed by the GUID.
pub open spec fn accept_input(key: Seq<u8>) -> Seq<u8> {
    key + WEBSOCKET_GUID.spec_bytes()
}

/// The `Sec-WebSocket-Accept` value for client key `key`.
pub open spec fn accept_value(key: Seq<u8>) -> Seq<u8> {
    base64_standard(sha1_digest(accept_input(key)))
}

/// Appends the bytes of `src` to `out`.
pub fn append_bytes(out: &mut Vec<u8>, src: &[u8])
    ensures
        final(out)@ == old(out)@ + src@,
{
    let ghost start = out@;
    let mut i: usize = 0;
    while i < src.len()
        invariant
            i <= src@.len(),
            out@ == start + src@.subrange(0, i as int),
        decreases src@.len() - i,
    {
        out.push(src[i]);
        i = i + 1;
        assert(out@ =~= start + src@.subrange(0, i as int));
    }
    assert(src@.subrange(0, src@.len() as int) =~= src@);
}

/// The client key followed by the GUID, ready to be hashed.
pub fn accept_key_input(key: &[u8]) -> (r: Vec<u8>)
    ensures
        r@ == accept_input(key@),
{
    let mut r: Vec<u8> = Vec::new();
    append_bytes(&mut r, key);
    append_bytes(&mut r, WEBSOCKET_GUID.as_bytes());
    assert(r@ =~= accept_input(key@));
    r
}

/// The `Sec-WebSocket-Accept` value for client key `key`: the base64 text of
/// the SHA-1 digest of the key followed by the GUID. It is always 28 bytes.
pub fn gen_key(key: &[u8]) -> (r: Vec<u8>)
    ensures
        r@ == accept_value(key@),
        r@.len() == 28,
{
    let input = accept_key_input(key);
    let digest = sha1_of(input.as_slice());
    base64_of(digest.as_slice())
}

} // verus!
