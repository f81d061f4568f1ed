//! The keyed MAC, the authenticated encryption and the base64 text form,
//! as supplied by outside crates.
use vstd::prelude::*;

verus! {

/// Width of a MAC key, and of a MAC tag.
pub const KEY_BYTES: usize = 32;

/// Width of the nonce of the authenticated encryption.
pub const NONCE_BYTES: usize = 24;

/// Bytes the authenticated encryption adds to a message.
pub const SEAL_OVERHEAD: usize = 16;

/// The tag that HMAC-SHA-512-256 gives for `msg` under `key`.
pub uninterp spec fn mac_of(key: Seq<u8>, msg: Seq<u8>) -> Seq<u8>;

/// The ciphertext (tag included) that XSalsa20-Poly1305 gives for `msg`
/// under `nonce` and `key`.
pub uninterp spec fn seal_of(msg: Seq<u8>, nonce: Seq<u8>, key: Seq<u8>) -> Seq<u8>;

/// What XSalsa20-Poly1305 opening gives for ciphertext `c` under `nonce` and
/// `key`: the plaintext, or `None` where authentication fails.
pub uninterp spec fn open_of(c: Seq<u8>, nonce: Seq<u8>, key: Seq<u8>) -> Option<Seq<u8>>;

/// The character of the standard base64 alphabet for the 6-bit value `v`.
pub open spec fn base64_digit(v: int) -> char {
    if v < 26 {
        ((65 + v) as u8) as char
    } else if v < 52 {
        ((97 + v - 26) as u8) as char
    } else if v < 62 {
        ((48 + v - 52) as u8) as char
    } else if v == 62 {
        '+'
    } else {
        '/'
    }
}

/// The standard base64 text of `b`: each group of three bytes gives four
/// digits, and a last group of one or two bytes is padded with `=`.
pub open spec fn base64_of(b: Seq<u8>) -> Seq<char>
    decreases b.len(),
{
    if b.len() == 0 {
        Seq::empty()
    } else if b.len() == 1 {
        seq![base64_digit((b[0] as int) / 4), base64_digit(((b[0] as int) % 4) * 16), '=', '=']
    } else if b.len() == 2 {
        seq![
            base64_digit((b[0] as int) / 4),
            base64_digit(((b[0] as int) % 4) * 16 + (b[1] as int) / 16),
            base64_digit(((b[1] as int) % 16) * 4),
            '=',
        ]
    } else {
        seq![
            base64_digit((b[0] as int) / 4),
            base64_digit(((b[0] as int) % 4) * 16 + (b[1] as int) / 16),
            base64_digit(((b[1] as int) % 16) * 4 + (b[2] as int) / 64),
            base64_digit((b[2] as int) % 64),
        ] + base64_of(b.skip(3))
    }
}

/// The bytes that standard base64 decoding gives for `s`, or `None` where `s`
/// is not valid base64.
pub uninterp spec fn base64_decoded(s: Seq<char>) -> Option<Seq<u8>>;

#[verifier::external_type_specification]
#[verifier::external_body]
pub struct ExDecodeError(base64::DecodeError);

/// Relies on sodiumoxide::crypto::auth::authenticate (HMAC-SHA-512-256): a
/// 32-byte tag that depends on the key and the message alone.
#[verifier::external_body]
pub(crate) fn authenticate(key: &Vec<u8>, msg: &Vec<u8>) -> (r: Vec<u8>)
    requires
        key@.len() == KEY_BYTES,
    ensures
        r@ == mac_of(key@, msg@),
        r@.len() == KEY_BYTES,
{
    let k = sodiumoxide::crypto::auth::Key::from_slice(key).unwrap();
    sodiumoxide::crypto::auth::authenticate(msg, &k).0.to_vec()
}

/// Relies on sodiumoxide::crypto::secretbox::gen_nonce: 24 random bytes.
#[verifier::external_body]
pub(crate) fn random_nonce() -> (r: Vec<u8>)
    ensures
        r@.len() == NONCE_BYTES,
{
    sodiumoxide::crypto::secretbox::gen_nonce().0.to_vec()
}

/// Relies on sodiumoxide::crypto::secretbox::seal: the ciphertext depends on
/// its three inputs alone, is 16 bytes longer than the message, and `open`
/// under the same nonce and key gives the message back.
#[verifier::external_body]
pub(crate) fn seal(msg: &Vec<u8>, nonce: &Vec<u8>, key: &Vec<u8>) -> (r: Vec<u8>)
    requires
        nonce@.len() == NONCE_BYTES,
        key@.len() == KEY_BYTES,
    ensures
        r@ == seal_of(msg@, nonce@, key@),
        r@.len() == msg@.len() + SEAL_OVERHEAD,
        open_of(r@, nonce@, key@) == Some(msg@),
{
    let n = sodiumoxide::crypto::secretbox::Nonce::from_slice(nonce).unwrap();
    let k = sodiumoxide::crypto::secretbox::Key::from_slice(key).unwrap();
    sodiumoxide::crypto::secretbox::seal(msg, &n, &k)
}

/// Relies on sodiumoxide::crypto::secretbox::open: the plaintext, or an error
/// where the ciphertext fails authentication; it depends on its inputs alone,
/// and the plaintext is 16 bytes shorter than the ciphertext.
#[verifier::external_body]
pub(crate) fn open(c: &[u8], nonce: &[u8], key: &Vec<u8>) -> (r: Option<Vec<u8>>)
    requires
        nonce@.len() == NONCE_BYTES,
        key@.len() == KEY_BYTES,
    ensures
        match r {
            Some(m) => open_of(c@, nonce@, key@) == Some(m@),
            None => open_of(c@, nonce@, key@) is None,
        },
        r matches Some(m) ==> m@.len() + SEAL_OVERHEAD == c@.len(),
{
    let n = sodiumoxide::crypto::secretbox::Nonce::from_slice(nonce).unwrap();
    let k = sodiumoxide::crypto::secretbox::Key::from_slice(key).unwrap();
    sodiumoxide::crypto::secretbox::open(c, &n, &k).ok()
}

/// Relies on base64::encode: the standard padded base64 text of the bytes.
#[verifier::external_body]
pub(crate) fn encode_base64(b: &Vec<u8>) -> (r: String)
    ensures
        r@ == base64_of(b@),
{
    base64::encode(b)
}

/// Relies on base64::decode: the bytes of a valid standard base64 text, or an
/// error; the text that `encode` made decodes to the bytes it was made from.
#[verifier::external_body]
pub(crate) fn decode_base64(s: &str) -> (r: core::result::Result<Vec<u8>, base64::DecodeError>)
    ensures
        match r {
            Ok(v) => base64_decoded(s@) == Some(v@),
            Err(_) => base64_decoded(s@) is None,
        },
        forall|b: Seq<u8>| #[trigger] base64_of(b) == s@ ==> r.is_ok() && r.unwrap()@ == b,
{
    base64::decode(s)
}

} // verus!
