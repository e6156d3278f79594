//! The calls into outside crates that the library relies on, each with the
//! contract it is given.

use vstd::prelude::*;
use blake2::digest::{Update, VariableOutput};
use crate::text::hex_value;

verus! {

/// The BLAKE2b digest of `data` with an output of `out_len` bytes.
pub uninterp spec fn blake2b_var(out_len: nat, data: Seq<u8>) -> Seq<u8>;

/// Relies on blake2::Blake2bVar (new, update, finalize_variable): one pass of
/// BLAKE2b with a variable output length of 1 to 64 bytes over `data`.
#[verifier::external_body]
pub(crate) fn blake2b_digest(out_len: usize, data: &[u8]) -> (r: Vec<u8>)
    requires
        1 <= out_len <= 64,
    ensures
        r@ == blake2b_var(out_len as nat, data@),
        r@.len() == out_len,
{
    let mut hasher = blake2::Blake2bVar::new(out_len).expect("output length within 1..=64");
    hasher.update(data);
    let mut out = vec![0u8; out_len];
    hasher.finalize_variable(&mut out).expect("buffer of the requested length");
    out
}

} // verus!

verus! {

/// Relies on String::push: the character is appended at the end.
#[verifier::external_body]
pub(crate) fn push_char(s: &mut String, c: char)
    ensures
        final(s)@ == old(s)@.push(c),
{
    s.push(c);
}

} // verus!

verus! {

/// Whether `b` is the 32-byte compressed form of a Ristretto point, that
/// is, a public key that schnorrkel accepts.
pub uninterp spec fn public_key_valid(b: Seq<u8>) -> bool;

/// Relies on schnorrkel::PublicKey::from_bytes: it accepts exactly the
/// 32-byte encodings of Ristretto points and refuses every other length.
#[verifier::external_body]
pub(crate) fn is_public_key(b: &[u8]) -> (r: bool)
    ensures
        r == public_key_valid(b@),
        b@.len() != 32 ==> !r,
{
    schnorrkel::PublicKey::from_bytes(b).is_ok()
}

/// The public key that a 32-byte mini secret key expands to in Ed25519 mode.
pub uninterp spec fn expanded_public_key(secret: Seq<u8>) -> Seq<u8>;

/// Relies on schnorrkel::MiniSecretKey::from_bytes, which accepts every
/// 32-byte slice, and on expand_to_keypair(ExpansionMode::Ed25519): the
/// public half of the keypair, as 32 bytes.
#[verifier::external_body]
pub(crate) fn public_key_of_secret(secret: &[u8; 32]) -> (r: [u8; 32])
    ensures
        r@ == expanded_public_key(secret@),
{
    let key = schnorrkel::MiniSecretKey::from_bytes(secret).expect("32 bytes form a mini secret key");
    key.expand_to_keypair(schnorrkel::ExpansionMode::Ed25519).public.to_bytes()
}

/// Whether `signature` is a schnorrkel signature by `public_key` over
/// `message` in the signing context `context`.
pub uninterp spec fn signature_valid(public_key: Seq<u8>, context: Seq<u8>, message: Seq<u8>, signature: Seq<u8>) -> bool;

/// Relies on schnorrkel::PublicKey::from_bytes and Signature::from_bytes
/// (32 and 64 bytes, else refused) and on PublicKey::verify_simple.
#[verifier::external_body]
pub(crate) fn verify_signature(public_key: &[u8], context: &[u8], message: &[u8], signature: &[u8]) -> (r: bool)
    ensures
        r == signature_valid(public_key@, context@, message@, signature@),
        public_key@.len() != 32 ==> !r,
        signature@.len() != 64 ==> !r,
{
    let key = match schnorrkel::PublicKey::from_bytes(public_key) {
        Ok(k) => k,
        Err(_) => return false,
    };
    let sig = match schnorrkel::Signature::from_bytes(signature) {
        Ok(s) => s,
        Err(_) => return false,
    };
    key.verify_simple(context, message, &sig).is_ok()
}

/// Whether every character is a hexadecimal digit and their number is even.
pub open spec fn is_hex_text(s: Seq<char>) -> bool {
    s.len() % 2 == 0 && forall|i: int| 0 <= i < s.len() ==> hex_value(#[trigger] s[i]) >= 0
}

/// The bytes that pairs of hexadecimal digits stand for, high digit first.
pub open spec fn hex_text_bytes(s: Seq<char>) -> Seq<u8> {
    Seq::new(s.len() / 2, |k: int| (16 * hex_value(s[2 * k]) + hex_value(s[2 * k + 1])) as u8)
}

/// Relies on hex::decode: digits of either case, two per byte, high digit
/// first; an odd count or any other character is refused.
#[verifier::external_body]
pub(crate) fn decode_hex(s: &str) -> (r: Option<Vec<u8>>)
    ensures
        r is Some <==> is_hex_text(s@),
        r is Some ==> r->Some_0@ == hex_text_bytes(s@),
{
    hex::decode(s).ok()
}

/// The JSON text that serde_json writes for a list of byte lists.
pub uninterp spec fn json_of_byte_lists(v: Seq<Seq<u8>>) -> Seq<char>;

/// The list of byte lists that serde_json reads from a JSON text, if any.
pub uninterp spec fn byte_lists_of_json(s: Seq<char>) -> Option<Seq<Seq<u8>>>;

/// Relies on serde_json::to_string for Vec<Vec<u8>>, which cannot fail.
#[verifier::external_body]
pub(crate) fn byte_lists_to_json(v: &Vec<Vec<u8>>) -> (r: String)
    ensures
        r@ == json_of_byte_lists(v.deep_view()),
{
    serde_json::to_string(v).expect("a list of byte lists always serializes")
}

/// Relies on serde_json::from_str for Vec<Vec<u8>>; what to_string wrote
/// reads back as the same lists.
#[verifier::external_body]
pub(crate) fn byte_lists_from_json(s: &str) -> (r: Option<Vec<Vec<u8>>>)
    ensures
        r is Some <==> byte_lists_of_json(s@) is Some,
        r is Some ==> r->Some_0.deep_view() == byte_lists_of_json(s@)->Some_0,
        forall|v: Seq<Seq<u8>>| s@ == json_of_byte_lists(v) ==> r is Some && r->Some_0.deep_view() == v,
{
    serde_json::from_str::<Vec<Vec<u8>>>(s).ok()
}

/// The JSON text that serde_json writes for a byte list.
pub uninterp spec fn json_of_bytes(v: Seq<u8>) -> Seq<char>;

/// The byte list that serde_json reads from a JSON text, if any.
pub uninterp spec fn bytes_of_json(s: Seq<char>) -> Option<Seq<u8>>;

/// Relies on serde_json::to_string for Vec<u8>, which cannot fail.
#[verifier::external_body]
pub(crate) fn bytes_to_json(v: &Vec<u8>) -> (r: String)
    ensures
        r@ == json_of_bytes(v@),
{
    serde_json::to_string(v).expect("a byte list always serializes")
}

/// Relies on serde_json::from_str for Vec<u8>; what to_string wrote reads
/// back as the same bytes.
#[verifier::external_body]
pub(crate) fn bytes_from_json(s: &str) -> (r: Option<Vec<u8>>)
    ensures
        r is Some <==> bytes_of_json(s@) is Some,
        r is Some ==> r->Some_0@ == bytes_of_json(s@)->Some_0,
        forall|v: Seq<u8>| s@ == json_of_bytes(v) ==> r is Some && r->Some_0@ == v,
{
    serde_json::from_str::<Vec<u8>>(s).ok()
}

/// The string that serde_json reads from a JSON text, if any.
pub uninterp spec fn string_of_json(s: Seq<char>) -> Option<Seq<char>>;

/// Relies on serde_json::from_str for String.
#[verifier::external_body]
pub(crate) fn string_from_json(s: &str) -> (r: Option<String>)
    ensures
        r is Some <==> string_of_json(s@) is Some,
        r is Some ==> r->Some_0@ == string_of_json(s@)->Some_0,
{
    serde_json::from_str::<String>(s).ok()
}

} // verus!
