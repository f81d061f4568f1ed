//! Tokens, their caveats, and the signature chain that binds the caveats
//! into the token.
use vstd::prelude::*;
use vstd::slice::slice_to_vec;
use vstd::string::StringSliceAdditionalSpecFns;

use crate::crypto::{
    authenticate, decode_base64, encode_base64, random_nonce, seal, base64_decoded, base64_of,
    mac_of, open_of, seal_of, KEY_BYTES, NONCE_BYTES, SEAL_OVERHEAD,
};
use crate::{MacaroonError, Result};

verus! {

/// Any binary value: identifiers, signatures, verification ids and keys.
/// Its text form is standard base64.
#[derive(Debug, Eq, PartialOrd, Ord, Hash)]
pub struct ByteString(pub Vec<u8>);

impl View for ByteString {
    type V = Seq<u8>;

    open spec fn view(&self) -> Seq<u8> {
        self.0@
    }
}

/// Byte-wise equality of two byte vectors.
pub(crate) fn bytes_equal(a: &Vec<u8>, b: &Vec<u8>) -> (r: bool)
    ensures
        r == (a@ == b@),
{
    if a.len() != b.len() {
        return false;
    }
    let mut i: usize = 0;
    while i < a.len()
        invariant
            a@.len() == b@.len(),
            0 <= i <= a@.len(),
            forall|j: int| 0 <= j < i ==> a@[j] == b@[j],
        decreases a@.len() - i,
    {
        if a[i] != b[i] {
            return false;
        }
        i = i + 1;
    }
    assert(a@ =~= b@);
    true
}

impl PartialEq for ByteString {
    fn eq(&self, other: &ByteString) -> (r: bool) {
        bytes_equal(&self.0, &other.0)
    }
}

impl vstd::std_specs::cmp::PartialEqSpecImpl for ByteString {
    open spec fn obeys_eq_spec() -> bool {
        true
    }

    open spec fn eq_spec(&self, other: &ByteString) -> bool {
        self@ == other@
    }
}

impl Clone for ByteString {
    fn clone(&self) -> (r: ByteString)
        ensures
            r@ == self@,
    {
        ByteString(slice_to_vec(self.0.as_slice()))
    }
}

impl Default for ByteString {
    fn default() -> (r: ByteString)
        ensures
            r@ == Seq::<u8>::empty(),
    {
        ByteString(Vec::new())
    }
}

impl From<&str> for ByteString {
    fn from(s: &str) -> (r: ByteString)
        ensures
            r@ == s.spec_bytes(),
    {
        ByteString::from_text(s)
    }
}

impl vstd::std_specs::convert::FromSpecImpl<&str> for ByteString {
    open spec fn obeys_from_spec() -> bool {
        false
    }

    open spec fn from_spec(s: &str) -> ByteString {
        vstd::pervasive::arbitrary()
    }
}

impl From<String> for ByteString {
    fn from(s: String) -> (r: ByteString)
        ensures
            r@ == vstd::utf8::encode_utf8(s@),
    {
        ByteString::from_text(s.as_str())
    }
}

impl vstd::std_specs::convert::FromSpecImpl<String> for ByteString {
    open spec fn obeys_from_spec() -> bool {
        false
    }

    open spec fn from_spec(s: String) -> ByteString {
        vstd::pervasive::arbitrary()
    }
}

impl ByteString {
    /// The UTF-8 bytes of `s`.
    pub fn from_text(s: &str) -> (r: ByteString)
        ensures
            r@ == s.spec_bytes(),
    {
        ByteString(slice_to_vec(s.as_bytes()))
    }

    /// Decodes the standard base64 text `v`.
    pub fn new_from_base64(v: &str) -> (r: Result<ByteString>)
        ensures
            match base64_decoded(v@) {
                Some(b) => r matches Ok(x) && x@ == b,
                None => r == Err::<ByteString, MacaroonError>(MacaroonError::DecodeError),
            },
            forall|b: Seq<u8>| #[trigger] base64_of(b) == v@ ==> (r matches Ok(x) && x@ == b),
    {
        match decode_base64(v) {
            Ok(d) => Ok(ByteString(d)),
            Err(_) => Err(MacaroonError::DecodeError),
        }
    }

    /// The standard base64 text of the bytes.
    pub fn to_base64(&self) -> (r: String)
        ensures
            r@ == base64_of(self@),
    {
        encode_base64(&self.0)
    }
}

/// The optional text location, as a sequence of characters.
pub open spec fn location_view(l: Option<String>) -> Option<Seq<char>> {
    match l {
        Some(s) => Some(s@),
        None => None,
    }
}

fn copy_location(l: &Option<String>) -> (r: Option<String>)
    ensures
        location_view(r) == location_view(*l),
{
    match l {
        Some(s) => Some(s.clone()),
        None => None,
    }
}

/// The model of a caveat.
pub struct CaveatView {
    pub identifier: Seq<u8>,
    pub location: Option<Seq<char>>,
    pub verification_id: Seq<u8>,
}

/// A restriction attached to a token. A first-party caveat has no location
/// and an empty verification id; a third-party caveat names the discharging
/// authority in its location and carries the encrypted caveat key in its
/// verification id.
#[derive(Debug)]
pub struct Caveat {
    pub identifier: ByteString,
    pub location: Option<String>,
    pub verification_id: ByteString,
}

impl View for Caveat {
    type V = CaveatView;

    open spec fn view(&self) -> CaveatView {
        CaveatView {
            identifier: self.identifier@,
            location: location_view(self.location),
            verification_id: self.verification_id@,
        }
    }
}

impl Clone for Caveat {
    fn clone(&self) -> (r: Caveat)
        ensures
            r@ == self@,
    {
        Caveat {
            identifier: self.identifier.clone(),
            location: copy_location(&self.location),
            verification_id: self.verification_id.clone(),
        }
    }
}

impl Default for Caveat {
    fn default() -> (r: Caveat)
        ensures
            r@ == (CaveatView {
                identifier: Seq::empty(),
                location: None,
                verification_id: Seq::empty(),
            }),
    {
        Caveat { identifier: ByteString::default(), location: None, verification_id: ByteString::default() }
    }
}

/// The MAC key width, as a length of sequences.
pub open spec fn key_len() -> nat {
    KEY_BYTES as nat
}

/// The all-zero key used to bind a discharge to a root token.
pub open spec fn zero_key() -> Seq<u8> {
    Seq::new(key_len(), |i: int| 0u8)
}

/// The signature after a first-party caveat `identifier`.
pub open spec fn first_party_sig(sig: Seq<u8>, identifier: Seq<u8>) -> Seq<u8> {
    mac_of(sig, identifier)
}

/// The signature after a third-party caveat: both fields are tagged under
/// `sig`, the verification id first, and the concatenation is tagged again.
pub open spec fn third_party_sig(sig: Seq<u8>, identifier: Seq<u8>, vid: Seq<u8>) -> Seq<u8> {
    mac_of(sig, mac_of(sig, vid) + mac_of(sig, identifier))
}

/// The signature after one caveat, by its kind.
pub open spec fn caveat_step(sig: Seq<u8>, c: CaveatView) -> Seq<u8> {
    if c.location is None {
        first_party_sig(sig, c.identifier)
    } else {
        third_party_sig(sig, c.identifier, c.verification_id)
    }
}

/// The signature after chaining the caveats `cs`, in order, onto `sig`.
pub open spec fn chain(sig: Seq<u8>, cs: Seq<CaveatView>) -> Seq<u8>
    decreases cs.len(),
{
    if cs.len() == 0 {
        sig
    } else {
        caveat_step(chain(sig, cs.drop_last()), cs.last())
    }
}

/// The signature of a token minted with `key` and `identifier` that carries
/// the caveats `cs`.
pub open spec fn signature_of(key: Seq<u8>, identifier: Seq<u8>, cs: Seq<CaveatView>) -> Seq<u8> {
    chain(mac_of(key, identifier), cs)
}

/// The signature of a discharge whose own signature is `discharge_sig`, once
/// bound to a root token whose signature is `root_sig`.
pub open spec fn bound_sig(root_sig: Seq<u8>, discharge_sig: Seq<u8>) -> Seq<u8> {
    third_party_sig(zero_key(), root_sig, discharge_sig)
}

/// A first-party caveat: no location, no verification id.
pub open spec fn is_first_party(c: CaveatView) -> bool {
    c.location is None && c.verification_id.len() == 0
}

/// A third-party caveat as handed to the append operation: a location, and
/// no verification id yet.
pub open spec fn is_new_third_party(c: CaveatView) -> bool {
    c.location is Some && c.verification_id.len() == 0
}

/// The verification id of a third-party caveat: the nonce, then the caveat
/// key sealed under the current signature.
pub open spec fn verification_id_of(sig: Seq<u8>, caveat_key: Seq<u8>, nonce: Seq<u8>) -> Seq<u8> {
    nonce + seal_of(caveat_key, nonce, sig)
}

/// The caveat key sealed in the verification id `vid` under the signature
/// `sig`: the id is a nonce followed by the sealed key, and the key must
/// open and have a key's width.
pub open spec fn decrypt_spec(sig: Seq<u8>, vid: Seq<u8>) -> Option<Seq<u8>> {
    if vid.len() < NONCE_BYTES + SEAL_OVERHEAD {
        None
    } else {
        match open_of(vid.skip(NONCE_BYTES as int), vid.take(NONCE_BYTES as int), sig) {
            Some(k) => if k.len() == key_len() {
                Some(k)
            } else {
                None
            },
            None => None,
        }
    }
}

/// The caveats of `cs` without a location, in order.
pub open spec fn first_party_only(cs: Seq<CaveatView>) -> Seq<CaveatView> {
    cs.filter(|c: CaveatView| c.location is None)
}

/// The caveats of `cs` with a location, in order.
pub open spec fn third_party_only(cs: Seq<CaveatView>) -> Seq<CaveatView> {
    cs.filter(|c: CaveatView| c.location is Some)
}

/// The protocol version carried by every token.
pub const VERSION: usize = 2;

/// The model of a token.
pub struct MacaroonView {
    pub version: usize,
    pub identifier: Seq<u8>,
    pub location: Option<Seq<char>>,
    pub signature: Seq<u8>,
    pub caveats: Seq<CaveatView>,
}

impl MacaroonView {
    /// The token after a first-party caveat `c`.
    pub open spec fn with_first_party(self, c: CaveatView) -> MacaroonView {
        MacaroonView {
            signature: first_party_sig(self.signature, c.identifier),
            caveats: self.caveats.push(c),
            ..self
        }
    }

    /// The token after a third-party caveat `c`, whose key `caveat_key` was
    /// sealed under `nonce`.
    pub open spec fn with_third_party(self, caveat_key: Seq<u8>, c: CaveatView, nonce: Seq<u8>) -> MacaroonView {
        let vid = verification_id_of(self.signature, caveat_key, nonce);
        MacaroonView {
            signature: third_party_sig(self.signature, c.identifier, vid),
            caveats: self.caveats.push(CaveatView { verification_id: vid, ..c }),
            ..self
        }
    }

    /// The first-party caveats, in order.
    pub open spec fn first_party_caveats(self) -> Seq<CaveatView> {
        first_party_only(self.caveats)
    }

    /// The third-party caveats, in order.
    pub open spec fn third_party_caveats(self) -> Seq<CaveatView> {
        third_party_only(self.caveats)
    }

    /// The signature is the chain of the caveats under `key`.
    pub open spec fn minted_with(self, key: Seq<u8>) -> bool {
        self.signature == signature_of(key, self.identifier, self.caveats)
    }
}

/// A bearer token: its identifier, optional location, current signature and
/// the caveats chained into that signature, in the order they were added.
#[derive(Debug)]
pub struct Macaroon {
    pub version: usize,
    pub identifier: ByteString,
    pub location: Option<String>,
    pub signature: ByteString,
    caveats: Vec<Caveat>,
}

impl View for Macaroon {
    type V = MacaroonView;

    closed spec fn view(&self) -> MacaroonView {
        MacaroonView {
            version: self.version,
            identifier: self.identifier@,
            location: location_view(self.location),
            signature: self.signature@,
            caveats: self.caveats@.map_values(|c: Caveat| c@),
        }
    }
}

/// The signature after a first-party caveat, from a signature of key width.
pub(crate) fn tag_first_party(sig: &Vec<u8>, identifier: &Vec<u8>) -> (r: Vec<u8>)
    requires
        sig@.len() == key_len(),
    ensures
        r@ == first_party_sig(sig@, identifier@),
        r@.len() == key_len(),
{
    authenticate(sig, identifier)
}

/// The signature after a third-party caveat, from a signature of key width.
pub(crate) fn tag_third_party(sig: &Vec<u8>, identifier: &Vec<u8>, vid: &Vec<u8>) -> (r: Vec<u8>)
    requires
        sig@.len() == key_len(),
    ensures
        r@ == third_party_sig(sig@, identifier@, vid@),
        r@.len() == key_len(),
{
    let mut both = authenticate(sig, vid);
    let mut second = authenticate(sig, identifier);
    both.append(&mut second);
    authenticate(sig, &both)
}

/// The all-zero key.
pub(crate) fn zero_key_bytes() -> (r: Vec<u8>)
    ensures
        r@ == zero_key(),
{
    let mut k: Vec<u8> = Vec::new();
    let mut i: usize = 0;
    while i < KEY_BYTES
        invariant
            0 <= i <= KEY_BYTES,
            k@ == Seq::new(i as nat, |j: int| 0u8),
        decreases KEY_BYTES - i,
    {
        k.push(0u8);
        i = i + 1;
        assert(k@ =~= Seq::new(i as nat, |j: int| 0u8));
    }
    k
}

/// Seals `caveat_key` under the signature `sig` with `nonce`, and prefixes
/// the nonce.
fn encrypt(sig: &Vec<u8>, caveat_key: &Vec<u8>, nonce: &Vec<u8>) -> (r: Vec<u8>)
    requires
        sig@.len() == key_len(),
        nonce@.len() == NONCE_BYTES,
    ensures
        r@ == verification_id_of(sig@, caveat_key@, nonce@),
        r@.len() == NONCE_BYTES + caveat_key@.len() + SEAL_OVERHEAD,
        caveat_key@.len() == key_len() ==> decrypt_spec(sig@, r@) == Some(caveat_key@),
{
    let mut msg = slice_to_vec(nonce.as_slice());
    let mut sealed = seal(caveat_key, nonce, sig);
    let ghost sealed_view = sealed@;
    msg.append(&mut sealed);
    assert(msg@.skip(NONCE_BYTES as int) =~= sealed_view);
    assert(msg@.take(NONCE_BYTES as int) =~= nonce@);
    msg
}

impl Clone for Macaroon {
    fn clone(&self) -> (r: Macaroon)
        ensures
            r@ == self@,
    {
        let mut caveats: Vec<Caveat> = Vec::new();
        let mut i: usize = 0;
        while i < self.caveats.len()
            invariant
                0 <= i <= self.caveats@.len(),
                caveats@.len() == i,
                forall|j: int| 0 <= j < i ==> (#[trigger] caveats@[j])@ == self.caveats@[j]@,
            decreases self.caveats@.len() - i,
        {
            caveats.push(self.caveats[i].clone());
            i = i + 1;
        }
        assert(caveats@.map_values(|c: Caveat| c@) =~= self.caveats@.map_values(|c: Caveat| c@));
        Macaroon {
            version: self.version,
            identifier: self.identifier.clone(),
            location: copy_location(&self.location),
            signature: self.signature.clone(),
            caveats,
        }
    }
}

impl Default for Macaroon {
    fn default() -> (r: Macaroon)
        ensures
            r@ == (MacaroonView {
                version: VERSION,
                identifier: Seq::empty(),
                location: None,
                signature: Seq::empty(),
                caveats: Seq::empty(),
            }),
    {
        let r = Macaroon {
            version: VERSION,
            caveats: Vec::new(),
            identifier: ByteString::default(),
            location: None,
            signature: ByteString::default(),
        };
        assert(r@.caveats =~= Seq::<CaveatView>::empty());
        r
    }
}

impl Macaroon {
    /// Mints a root token: its signature is the tag of `identifier` under
    /// `key`, and it carries no caveat.
    pub fn new(key: &ByteString, identifier: ByteString, location: Option<String>) -> (r: Result<Macaroon>)
        ensures
            key@.len() != key_len() ==> r == Err::<Macaroon, MacaroonError>(MacaroonError::InvalidKeyLength),
            key@.len() == key_len() ==> (r matches Ok(m) && m@ == (MacaroonView {
                version: VERSION,
                identifier: identifier@,
                location: location_view(location),
                signature: mac_of(key@, identifier@),
                caveats: Seq::empty(),
            })),
            r matches Ok(m) ==> m@.minted_with(key@) && m@.signature.len() == key_len(),
    {
        if key.0.len() != KEY_BYTES {
            return Err(MacaroonError::InvalidKeyLength);
        }
        let sig = authenticate(&key.0, &identifier.0);
        let m = Macaroon {
            version: VERSION,
            identifier,
            location,
            signature: ByteString(sig),
            caveats: Vec::new(),
        };
        assert(m@.caveats =~= Seq::<CaveatView>::empty());
        Ok(m)
    }

    /// Rebuilds a token from the fields of its text form.
    pub fn from_parts(
        version: usize,
        identifier: ByteString,
        location: Option<String>,
        signature: ByteString,
        caveats: Vec<Caveat>,
    ) -> (r: Macaroon)
        ensures
            r@ == (MacaroonView {
                version,
                identifier: identifier@,
                location: location_view(location),
                signature: signature@,
                caveats: caveats@.map_values(|c: Caveat| c@),
            }),
    {
        Macaroon { version, identifier, location, signature, caveats }
    }

    /// The signature after a first-party caveat `identifier`; the signature
    /// `sig` serves as the MAC key and must have the key's width.
    pub fn hash_first_party(sig: &ByteString, identifier: &ByteString) -> (r: Result<ByteString>)
        ensures
            sig@.len() != key_len() ==> r == Err::<ByteString, MacaroonError>(MacaroonError::InvalidKeyLength),
            sig@.len() == key_len() ==> (r matches Ok(s) && s@ == first_party_sig(sig@, identifier@)
                && s@.len() == key_len()),
    {
        if sig.0.len() != KEY_BYTES {
            return Err(MacaroonError::InvalidKeyLength);
        }
        Ok(ByteString(tag_first_party(&sig.0, &identifier.0)))
    }

    /// The signature after a third-party caveat with `identifier` and
    /// verification id `vid`; the signature `sig` serves as the MAC key and
    /// must have the key's width.
    pub fn hash_third_party(sig: &ByteString, identifier: &ByteString, vid: &ByteString) -> (r: Result<ByteString>)
        ensures
            sig@.len() != key_len() ==> r == Err::<ByteString, MacaroonError>(MacaroonError::InvalidKeyLength),
            sig@.len() == key_len() ==> (r matches Ok(s) && s@ == third_party_sig(sig@, identifier@, vid@)
                && s@.len() == key_len()),
    {
        if sig.0.len() != KEY_BYTES {
            return Err(MacaroonError::InvalidKeyLength);
        }
        Ok(ByteString(tag_third_party(&sig.0, &identifier.0, &vid.0)))
    }

    /// Appends the first-party caveat `c`: the signature becomes the tag of
    /// its identifier under the current signature. A caveat with a location
    /// or a verification id is refused, and so is a signature that is not a
    /// key's width; either way the token is left as it was.
    pub fn add_first_party_caveat(&mut self, c: Caveat) -> (r: Result<()>)
        ensures
            !is_first_party(c@) ==> r == Err::<(), MacaroonError>(MacaroonError::MalformedCaveat),
            is_first_party(c@) && old(self)@.signature.len() != key_len()
                ==> r == Err::<(), MacaroonError>(MacaroonError::InvalidKeyLength),
            is_first_party(c@) && old(self)@.signature.len() == key_len() ==> r is Ok,
            r is Ok ==> final(self)@ == old(self)@.with_first_party(c@) && final(self)@.signature.len() == key_len(),
            r is Err ==> final(self)@ == old(self)@,
            forall|key: Seq<u8>| old(self)@.minted_with(key) ==> #[trigger] final(self)@.minted_with(key),
    {
        if c.verification_id.0.len() != 0 || c.location.is_some() {
            return Err(MacaroonError::MalformedCaveat);
        }
        if self.signature.0.len() != KEY_BYTES {
            return Err(MacaroonError::InvalidKeyLength);
        }
        let sig = tag_first_party(&self.signature.0, &c.identifier.0);
        self.signature = ByteString(sig);
        let ghost before = self.caveats@;
        self.caveats.push(c);
        proof {
            assert(self.caveats@.map_values(|x: Caveat| x@) =~= before.map_values(|x: Caveat| x@).push(c@));
            assert(self@.caveats.drop_last() =~= old(self)@.caveats);
        }
        Ok(())
    }

    /// Appends the third-party caveat `c`, sealing `caveat_key` under the
    /// current signature with `nonce`: the verification id becomes the nonce
    /// followed by the sealed key, and the signature chains both the
    /// identifier and that verification id. A caveat without a location or
    /// with a verification id is refused, and so are a signature or a caveat
    /// key that is not a key's width; either way the token is left as it was.
    pub fn add_third_party_caveat_with_nonce(&mut self, caveat_key: &ByteString, c: Caveat, nonce: &ByteString) -> (r: Result<()>)
        requires
            nonce@.len() == NONCE_BYTES,
        ensures
            !is_new_third_party(c@) ==> r == Err::<(), MacaroonError>(MacaroonError::MalformedCaveat),
            is_new_third_party(c@) && (old(self)@.signature.len() != key_len() || caveat_key@.len() != key_len())
                ==> r == Err::<(), MacaroonError>(MacaroonError::InvalidKeyLength),
            is_new_third_party(c@) && old(self)@.signature.len() == key_len() && caveat_key@.len() == key_len()
                ==> r is Ok,
            r is Ok ==> final(self)@ == old(self)@.with_third_party(caveat_key@, c@, nonce@)
                && final(self)@.signature.len() == key_len(),
            r is Ok ==> final(self)@.caveats.last().verification_id.len() == NONCE_BYTES + key_len() + SEAL_OVERHEAD
                && decrypt_spec(old(self)@.signature, final(self)@.caveats.last().verification_id) == Some(caveat_key@),
            r is Err ==> final(self)@ == old(self)@,
            forall|key: Seq<u8>| old(self)@.minted_with(key) ==> #[trigger] final(self)@.minted_with(key),
    {
        if c.location.is_none() {
            return Err(MacaroonError::MalformedCaveat);
        }
        if c.verification_id.0.len() != 0 {
            return Err(MacaroonError::MalformedCaveat);
        }
        if self.signature.0.len() != KEY_BYTES || caveat_key.0.len() != KEY_BYTES {
            return Err(MacaroonError::InvalidKeyLength);
        }
        let vid = encrypt(&self.signature.0, &caveat_key.0, &nonce.0);
        let sig = tag_third_party(&self.signature.0, &c.identifier.0, &vid);
        let added = Caveat { identifier: c.identifier, location: c.location, verification_id: ByteString(vid) };
        self.signature = ByteString(sig);
        let ghost before = self.caveats@;
        self.caveats.push(added);
        proof {
            assert(self.caveats@.map_values(|x: Caveat| x@) =~= before.map_values(|x: Caveat| x@).push(added@));
            assert(self@.caveats.drop_last() =~= old(self)@.caveats);
        }
        Ok(())
    }

    /// Appends the third-party caveat `c` as `add_third_party_caveat_with_nonce`
    /// does, with a fresh random nonce.
    pub fn add_third_party_caveat(&mut self, caveat_key: &ByteString, c: Caveat) -> (r: Result<()>)
        ensures
            !is_new_third_party(c@) ==> r == Err::<(), MacaroonError>(MacaroonError::MalformedCaveat),
            is_new_third_party(c@) && (old(self)@.signature.len() != key_len() || caveat_key@.len() != key_len())
                ==> r == Err::<(), MacaroonError>(MacaroonError::InvalidKeyLength),
            is_new_third_party(c@) && old(self)@.signature.len() == key_len() && caveat_key@.len() == key_len()
                ==> r is Ok,
            r is Ok ==> exists|nonce: Seq<u8>| nonce.len() == NONCE_BYTES
                && final(self)@ == #[trigger] old(self)@.with_third_party(caveat_key@, c@, nonce),
            r is Ok ==> final(self)@.signature.len() == key_len(),
            r is Ok ==> final(self)@.caveats.last().verification_id.len() == NONCE_BYTES + key_len() + SEAL_OVERHEAD
                && decrypt_spec(old(self)@.signature, final(self)@.caveats.last().verification_id) == Some(caveat_key@),
            r is Err ==> final(self)@ == old(self)@,
            forall|key: Seq<u8>| old(self)@.minted_with(key) ==> #[trigger] final(self)@.minted_with(key),
    {
        let nonce = ByteString(random_nonce());
        self.add_third_party_caveat_with_nonce(caveat_key, c, &nonce)
    }

    /// A copy of `discharge` bound to this token: its signature becomes the
    /// binding of this token's signature with the discharge's own. Neither
    /// token changes.
    pub fn prepare_for_request(&mut self, discharge: &Macaroon) -> (r: Result<Macaroon>)
        ensures
            *final(self) == *old(self),
            r matches Ok(d) && d@ == (MacaroonView {
                signature: bound_sig(old(self)@.signature, discharge@.signature),
                ..discharge@
            }) && d@.signature.len() == key_len(),
    {
        let mut d = discharge.clone();
        let zero = zero_key_bytes();
        d.signature = ByteString(tag_third_party(&zero, &self.signature.0, &discharge.signature.0));
        Ok(d)
    }

    /// The signature.
    pub(crate) fn signature_bytes(&self) -> (r: &Vec<u8>)
        ensures
            r@ == self@.signature,
    {
        &self.signature.0
    }

    /// The identifier.
    pub(crate) fn identifier_bytes(&self) -> (r: &Vec<u8>)
        ensures
            r@ == self@.identifier,
    {
        &self.identifier.0
    }

    /// The number of caveats.
    pub(crate) fn caveat_count(&self) -> (r: usize)
        ensures
            r == self@.caveats.len(),
    {
        self.caveats.len()
    }

    /// The caveat at `i`.
    pub(crate) fn caveat_at(&self, i: usize) -> (r: &Caveat)
        requires
            i < self@.caveats.len(),
        ensures
            r@ == self@.caveats[i as int],
    {
        &self.caveats[i]
    }

    /// Copies of the caveats, in order.
    pub fn get_caveats(&self) -> (r: Vec<Caveat>)
        ensures
            r@.map_values(|c: Caveat| c@) == self@.caveats,
    {
        let r = self.clone();
        r.caveats
    }

    /// Copies of the first-party caveats (those without a location), in order.
    pub fn get_first_party_caveats(&self) -> (r: Vec<Caveat>)
        ensures
            r@.map_values(|c: Caveat| c@) == self@.first_party_caveats(),
    {
        let ghost all = self@.caveats;
        let mut r: Vec<Caveat> = Vec::new();
        let mut i: usize = 0;
        while i < self.caveats.len()
            invariant
                0 <= i <= self.caveats@.len(),
                all == self.caveats@.map_values(|c: Caveat| c@),
                r@.map_values(|c: Caveat| c@) == first_party_only(all.take(i as int)),
            decreases self.caveats@.len() - i,
        {
            assert(all.take(i + 1).drop_last() =~= all.take(i as int));
            assert(all.take(i + 1).last() == all[i as int]);
            assert(all[i as int] == self.caveats@[i as int]@);
            reveal(Seq::filter);
            assert(first_party_only(all.take(i + 1)) == if all[i as int].location is None {
                first_party_only(all.take(i as int)).push(all[i as int])
            } else {
                first_party_only(all.take(i as int))
            });
            let ghost prev = r@;
            if self.caveats[i].location.is_none() {
                let c = self.caveats[i].clone();
                r.push(c);
                assert(r@.map_values(|c: Caveat| c@) =~= prev.map_values(|c: Caveat| c@).push(all[i as int]));
            }
            i = i + 1;
        }
        assert(all.take(i as int) =~= all);
        r
    }

    /// Copies of the third-party caveats (those with a location), in order.
    pub fn get_third_party_caveats(&self) -> (r: Vec<Caveat>)
        ensures
            r@.map_values(|c: Caveat| c@) == self@.third_party_caveats(),
    {
        let ghost all = self@.caveats;
        let mut r: Vec<Caveat> = Vec::new();
        let mut i: usize = 0;
        while i < self.caveats.len()
            invariant
                0 <= i <= self.caveats@.len(),
                all == self.caveats@.map_values(|c: Caveat| c@),
                r@.map_values(|c: Caveat| c@) == third_party_only(all.take(i as int)),
            decreases self.caveats@.len() - i,
        {
            assert(all.take(i + 1).drop_last() =~= all.take(i as int));
            assert(all.take(i + 1).last() == all[i as int]);
            assert(all[i as int] == self.caveats@[i as int]@);
            reveal(Seq::filter);
            assert(third_party_only(all.take(i + 1)) == if all[i as int].location is Some {
                third_party_only(all.take(i as int)).push(all[i as int])
            } else {
                third_party_only(all.take(i as int))
            });
            let ghost prev = r@;
            if self.caveats[i].location.is_some() {
                let c = self.caveats[i].clone();
                r.push(c);
                assert(r@.map_values(|c: Caveat| c@) =~= prev.map_values(|c: Caveat| c@).push(all[i as int]));
            }
            i = i + 1;
        }
        assert(all.take(i as int) =~= all);
        r
    }
}

/// Two tokens minted with one key, one identifier and one caveat sequence
/// carry one signature.
pub proof fn lemma_minting_is_deterministic(a: MacaroonView, b: MacaroonView, key: Seq<u8>)
    requires
        a.minted_with(key),
        b.minted_with(key),
        a.identifier == b.identifier,
        a.caveats == b.caveats,
    ensures
        a.signature == b.signature,
{
}

/// The key for the text `s`: its bytes, right-aligned in a key of zeros.
pub open spec fn key_of_text(s: Seq<u8>) -> Seq<u8> {
    Seq::new((key_len() - s.len()) as nat, |i: int| 0u8) + s
}

/// Makes a key of the key's width from the text `s`, which may not be
/// longer than that width.
pub fn key_from_str(s: &str) -> (r: Result<ByteString>)
    ensures
        s.spec_bytes().len() > key_len() ==> r == Err::<ByteString, MacaroonError>(MacaroonError::InvalidKeyLength),
        s.spec_bytes().len() <= key_len() ==> (r matches Ok(k) && k@ == key_of_text(s.spec_bytes())),
{
    let b = s.as_bytes();
    if b.len() > KEY_BYTES {
        return Err(MacaroonError::InvalidKeyLength);
    }
    let mut raw: Vec<u8> = Vec::new();
    let pad: usize = KEY_BYTES - b.len();
    let mut i: usize = 0;
    while i < pad
        invariant
            0 <= i <= pad,
            raw@ == Seq::new(i as nat, |j: int| 0u8),
        decreases pad - i,
    {
        raw.push(0u8);
        i = i + 1;
        assert(raw@ =~= Seq::new(i as nat, |j: int| 0u8));
    }
    let mut rest = slice_to_vec(b);
    raw.append(&mut rest);
    assert(raw@ =~= key_of_text(s.spec_bytes()));
    Ok(ByteString(raw))
}

} // verus!
