//! What the exchange of proofs takes from outside: base64, HMAC, SHA-256,
//! SASLprep, comparison in constant time, random bytes.
use vstd::prelude::*;
use vstd::utf8::{decode_utf8, encode_utf8, encode_utf8_decode_utf8, valid_utf8};

verus! {

/// What `base64`'s standard engine encodes some bytes as.
pub uninterp spec fn base64_encoded(data: Seq<u8>) -> Seq<char>;

/// What `base64`'s standard engine decodes a text to, if it does.
pub uninterp spec fn base64_decoded(text: Seq<char>) -> Option<Seq<u8>>;

/// The HMAC-SHA-256 of some data under a key.
pub uninterp spec fn hmac_sha256(key: Seq<u8>, data: Seq<u8>) -> Seq<u8>;

/// The SHA-256 digest of some data.
pub uninterp spec fn sha256(data: Seq<u8>) -> Seq<u8>;

/// What the SASLprep profile makes of a text, unless it prohibits it.
pub uninterp spec fn saslprepped(text: Seq<char>) -> Option<Seq<char>>;

/// How many symbols `base64`'s standard engine writes so many bytes with: four
/// for every three of them, the last of which may be less.
pub open spec fn base64_symbols(bytes: nat) -> nat {
    4 * ((bytes + 2) / 3)
}

/// `base64::Engine::encode`, of the engine `STANDARD`: the result is named; its
/// alphabet has no comma, and it is padded to whole groups of symbols. The length of the data is bounded since the call
/// allocates a text a third longer, and panics where that cannot be.
#[verifier::external_body]
pub(crate) fn base64_encode(data: &[u8]) -> (text: String)
    requires
        data@.len() <= usize::MAX / 4,
    ensures
        text@ == base64_encoded(data@),
        !text@.contains(','),
        text@.len() == base64_symbols(data@.len()),
{
    base64::Engine::encode(&base64::engine::general_purpose::STANDARD, data)
}

/// `base64::Engine::decode`, of the engine `STANDARD`: the result is named. It
/// is no longer than the text, of which four symbols make at most three bytes;
/// and what the engine encoded it decodes again.
#[verifier::external_body]
pub(crate) fn base64_decode(text: &str) -> (data: Option<Vec<u8>>)
    ensures
        data is Some <==> base64_decoded(text@) is Some,
        data matches Some(bytes) ==> base64_decoded(text@) == Some(bytes@) && bytes@.len()
            <= encode_utf8(text@).len(),
        forall|written: Seq<u8>| #[trigger]
            base64_encoded(written) == text@ ==> data is Some && data->0@ == written,
{
    base64::Engine::decode(&base64::engine::general_purpose::STANDARD, text).ok()
}

/// `hmac::Hmac` over `sha2::Sha256`, with the three calls that make one code:
/// `new_from_slice`, which takes a key of any length, `update` and `finalize`.
/// The result is named; it is 32 bytes long.
#[verifier::external_body]
pub(crate) fn hmac_of(key: &[u8], data: &[u8]) -> (code: Vec<u8>)
    ensures
        code@ == hmac_sha256(key@, data@),
        code@.len() == 32,
{
    let mut mac = <hmac::Hmac<sha2::Sha256> as hmac::KeyInit>::new_from_slice(key)
        .expect("HMAC-SHA-256 accepts a key of any length");
    hmac::Mac::update(&mut mac, data);
    hmac::Mac::finalize(mac).into_bytes().to_vec()
}

/// `sha2::Digest::digest` of `sha2::Sha256`: the result is named; it is 32
/// bytes long.
#[verifier::external_body]
pub(crate) fn sha256_of(data: &[u8]) -> (digest: Vec<u8>)
    ensures
        digest@ == sha256(data@),
        digest@.len() == 32,
{
    <sha2::Sha256 as sha2::Digest>::digest(data).to_vec()
}

/// `stringprep::saslprep`: the result is named.
#[verifier::external_body]
pub(crate) fn saslprep_of(text: &str) -> (prepared: Option<String>)
    ensures
        prepared is Some <==> saslprepped(text@) is Some,
        prepared matches Some(p) ==> saslprepped(text@) == Some(p@),
{
    stringprep::saslprep(text).ok().map(std::borrow::Cow::into_owned)
}

/// `subtle::ConstantTimeEq::ct_eq`, of byte slices: whether they are equal.
#[verifier::external_body]
pub(crate) fn same_bytes(a: &[u8], b: &[u8]) -> (same: bool)
    ensures
        same == (a@ == b@),
{
    bool::from(subtle::ConstantTimeEq::ct_eq(a, b))
}

/// `rand::Rng::fill_bytes`, on the generator that `rand::rng` gives: as many
/// bytes as were there, of which nothing else is known.
#[verifier::external_body]
pub(crate) fn fill_random(bytes: &mut Vec<u8>)
    ensures
        final(bytes)@.len() == old(bytes)@.len(),
{
    rand::Rng::fill_bytes(&mut rand::rng(), bytes)
}

/// `core::str::from_utf8`: the text that valid UTF-8 encodes.
#[verifier::external_body]
fn from_utf8(bytes: &[u8]) -> (text: Option<&str>)
    ensures
        text is Some <==> valid_utf8(bytes@),
        text matches Some(t) ==> encode_utf8(t@) == bytes@,
{
    core::str::from_utf8(bytes).ok()
}

/// The text that valid UTF-8 encodes.
pub fn utf8_text(bytes: &[u8]) -> (text: Option<&str>)
    ensures
        text is Some <==> valid_utf8(bytes@),
        text matches Some(t) ==> t@ == decode_utf8(bytes@) && encode_utf8(t@) == bytes@,
{
    let text = from_utf8(bytes);
    proof {
        if let Some(t) = text {
            encode_utf8_decode_utf8(t@);
        }
    }
    text
}

/// Some random bytes.
pub fn random_bytes(len: usize) -> (bytes: Vec<u8>)
    ensures
        bytes@.len() == len,
{
    let mut bytes: Vec<u8> = Vec::new();
    let mut i: usize = 0;
    while i < len
        invariant
            i <= len,
            bytes@.len() == i,
        decreases len - i,
    {
        bytes.push(0);
        i += 1;
    }
    fill_random(&mut bytes);
    bytes
}

} // verus!
