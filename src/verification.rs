//! The verifier: rules for first-party caveats, and the recursive
//! recomputation of a token's signature chain across its discharges.
use vstd::prelude::*;
use vstd::slice::slice_to_vec;

use crate::crypto::{authenticate, mac_of, open, open_of, KEY_BYTES, NONCE_BYTES, SEAL_OVERHEAD};
use crate::macaroon::{
    bound_sig, bytes_equal, chain, decrypt_spec, first_party_sig, signature_of, key_len, tag_first_party, tag_third_party,
    third_party_sig, zero_key_bytes, ByteString, Caveat, CaveatView, Macaroon, MacaroonView,
};
use crate::{MacaroonError, Result};

verus! {

/// `i` is the first position of `pool` whose token has identifier `id`.
pub open spec fn first_at(pool: Seq<MacaroonView>, id: Seq<u8>, i: int) -> bool {
    &&& 0 <= i < pool.len()
    &&& pool[i].identifier == id
    &&& forall|j: int| 0 <= j < i ==> (#[trigger] pool[j]).identifier != id
}

/// The first position of `pool` whose token has identifier `id`, if any.
pub open spec fn find_discharge(pool: Seq<MacaroonView>, id: Seq<u8>) -> Option<int> {
    if exists|i: int| first_at(pool, id, i) {
        Some(choose|i: int| first_at(pool, id, i))
    } else {
        None
    }
}

/// The working set of discharges built from `ds`, taken from the last to
/// the first onto `acc`: a discharge whose identifier is already there is
/// dropped, so that of several discharges with one identifier the last
/// supplied is kept, and identifiers in the set are distinct.
pub open spec fn pool_from(ds: Seq<MacaroonView>, acc: Seq<MacaroonView>) -> Seq<MacaroonView>
    decreases ds.len(),
{
    if ds.len() == 0 {
        acc
    } else {
        let d = ds.last();
        let next = if find_discharge(acc, d.identifier) is Some {
            acc
        } else {
            acc.push(d)
        };
        pool_from(ds.drop_last(), next)
    }
}

/// No third-party caveat of `m` names `id`.
pub open spec fn names_not(m: MacaroonView, id: Seq<u8>) -> bool {
    forall|j: int| 0 <= j < m.caveats.len() && (#[trigger] m.caveats[j]).location is Some
        ==> m.caveats[j].identifier != id
}

/// The models of a vector of tokens.
pub open spec fn views(v: Seq<Macaroon>) -> Seq<MacaroonView> {
    v.map_values(|m: Macaroon| m@)
}

/// The rules a verifier accepts first-party caveats by: identifiers matched
/// byte for byte, and predicates over a whole caveat.
pub struct Verifier<F> {
    exact: Vec<ByteString>,
    general: Vec<F>,
}

impl<F> Default for Verifier<F> {
    fn default() -> (r: Verifier<F>)
        ensures
            r.exact_set() == Set::<Seq<u8>>::empty(),
            r.predicates() == Seq::<F>::empty(),
    {
        let r = Verifier { exact: Vec::new(), general: Vec::new() };
        assert(r.exact_set() =~= Set::<Seq<u8>>::empty());
        r
    }
}

impl<F> Verifier<F> {
    /// The identifiers accepted by exact match.
    pub closed spec fn exact_set(&self) -> Set<Seq<u8>> {
        self.exact@.map_values(|b: ByteString| b@).to_set()
    }

    /// The predicates, in the order they were registered.
    pub closed spec fn predicates(&self) -> Seq<F> {
        self.general@
    }

    /// Accepts, from now on, first-party caveats whose identifier is `b`.
    pub fn satisfy_exact(&mut self, b: ByteString)
        ensures
            final(self).exact_set() == old(self).exact_set().insert(b@),
            final(self).predicates() == old(self).predicates(),
    {
        let ghost before = self.exact@;
        self.exact.push(b);
        proof {
            let f = |x: ByteString| x@;
            assert(self.exact@.map_values(f) =~= before.map_values(f).push(b@));
            before.map_values(f).lemma_push_to_set_commute(b@);
        }
    }

    /// Accepts, from now on, first-party caveats for which `f` holds.
    pub fn satisfy_general(&mut self, f: F)
        ensures
            final(self).exact_set() == old(self).exact_set(),
            final(self).predicates() == old(self).predicates().push(f),
    {
        self.general.push(f);
    }

    /// Whether `b` is among the identifiers accepted by exact match.
    fn exact_contains(&self, b: &ByteString) -> (r: bool)
        ensures
            r == self.exact_set().contains(b@),
    {
        let ghost ids = self.exact@.map_values(|x: ByteString| x@);
        let mut i: usize = 0;
        while i < self.exact.len()
            invariant
                0 <= i <= self.exact@.len(),
                ids == self.exact@.map_values(|x: ByteString| x@),
                forall|j: int| 0 <= j < i ==> ids[j] != b@,
            decreases self.exact@.len() - i,
        {
            if bytes_equal(&self.exact[i].0, &b.0) {
                assert(ids[i as int] == b@);
                return true;
            }
            i = i + 1;
        }
        assert(!ids.contains(b@));
        false
    }
}


/// Recovers the caveat key sealed in `vid` under the signature `sig`.
fn decrypt(sig: &Vec<u8>, vid: &Vec<u8>) -> (r: Option<Vec<u8>>)
    requires
        sig@.len() == key_len(),
    ensures
        match r {
            Some(k) => decrypt_spec(sig@, vid@) == Some(k@),
            None => decrypt_spec(sig@, vid@) is None,
        },
{
    if vid.len() < NONCE_BYTES + SEAL_OVERHEAD {
        return None;
    }
    let mut nonce = slice_to_vec(vid.as_slice());
    let sealed = nonce.split_off(NONCE_BYTES);
    assert(nonce@ =~= vid@.take(NONCE_BYTES as int));
    assert(sealed@ =~= vid@.skip(NONCE_BYTES as int));
    match open(sealed.as_slice(), nonce.as_slice(), sig) {
        Some(k) => if k.len() == KEY_BYTES {
            Some(k)
        } else {
            None
        },
        None => None,
    }
}

/// The position of the first discharge in `pool` with identifier `id`.
fn find_in_pool(pool: &Vec<Macaroon>, id: &Vec<u8>) -> (r: Option<usize>)
    ensures
        match r {
            Some(i) => find_discharge(views(pool@), id@) == Some(i as int),
            None => find_discharge(views(pool@), id@) is None,
        },
{
    let ghost ps = views(pool@);
    let mut i: usize = 0;
    while i < pool.len()
        invariant
            0 <= i <= pool@.len(),
            ps == views(pool@),
            forall|j: int| 0 <= j < i ==> (#[trigger] ps[j]).identifier != id@,
        decreases pool@.len() - i,
    {
        if bytes_equal(pool[i].identifier_bytes(), id) {
            proof {
                assert(first_at(ps, id@, i as int));
                let k = choose|k: int| first_at(ps, id@, k);
                if k < i {
                    assert(ps[k].identifier != id@);
                } else if k > i {
                    assert(ps[i as int].identifier != id@);
                }
            }
            return Some(i);
        }
        i = i + 1;
    }
    proof {
        assert forall|k: int| !first_at(ps, id@, k) by {
            if 0 <= k < ps.len() {
                assert(ps[k].identifier != id@);
            }
        }
    }
    None
}

/// The working set of `discharges`, built as `pool_from` says.
fn build_pool(discharges: Vec<Macaroon>) -> (r: Vec<Macaroon>)
    ensures
        views(r@) == pool_from(views(discharges@), Seq::empty()),
{
    let mut ds = discharges;
    let mut pool: Vec<Macaroon> = Vec::new();
    assert(views(pool@) =~= Seq::<MacaroonView>::empty());
    while ds.len() > 0
        invariant
            pool_from(views(ds@), views(pool@)) == pool_from(views(discharges@), Seq::empty()),
        decreases ds@.len(),
    {
        let ghost before_ds = ds@;
        let ghost before_pool = pool@;
        let d = ds.pop().unwrap();
        proof {
            assert(views(ds@) =~= views(before_ds).drop_last());
            assert(views(before_ds).last() == d@);
        }
        match find_in_pool(&pool, d.identifier_bytes()) {
            Some(_) => {},
            None => {
                pool.push(d);
                assert(views(pool@) =~= views(before_pool).push(d@));
            },
        }
    }
    assert(views(ds@) =~= Seq::<MacaroonView>::empty());
    pool
}

impl<F: Fn(&Caveat) -> bool> Verifier<F> {
    /// Every predicate may be called on every caveat.
    pub open spec fn predicates_callable(&self) -> bool {
        forall|i: int, x: Caveat| 0 <= i < self.predicates().len()
            ==> #[trigger] self.predicates()[i].requires((&x,))
    }

    /// Every predicate answers by the content of the caveat alone: two
    /// caveats with one model never get different answers.
    pub open spec fn predicates_decide(&self) -> bool {
        forall|i: int, x: Caveat, y: Caveat|
            0 <= i < self.predicates().len() && x@ == y@
                && #[trigger] self.predicates()[i].ensures((&x,), true)
                ==> !#[trigger] self.predicates()[i].ensures((&y,), false)
    }

    /// Some rule accepts the first-party caveat `c`.
    pub open spec fn accepts(&self, c: CaveatView) -> bool {
        ||| self.exact_set().contains(c.identifier)
        ||| exists|i: int, x: Caveat| 0 <= i < self.predicates().len() && x@ == c
                && #[trigger] self.predicates()[i].ensures((&x,), true)
    }

    /// Checks the caveats `cs` from position `i` on, starting from the
    /// signature `sig`, with the discharges left in `pool`, at most `depth`
    /// discharges deep. Gives the final signature, or the first failure,
    /// together with the discharges left unused.
    pub open spec fn check_caveats(
        &self,
        root_sig: Seq<u8>,
        cs: Seq<CaveatView>,
        i: int,
        sig: Seq<u8>,
        pool: Seq<MacaroonView>,
        depth: nat,
    ) -> (core::result::Result<Seq<u8>, MacaroonError>, Seq<MacaroonView>)
        decreases depth, cs.len() - i, 0nat,
    {
        if i < 0 || i >= cs.len() {
            (Ok(sig), pool)
        } else {
            let c = cs[i];
            if c.location is None {
                if self.accepts(c) {
                    self.check_caveats(root_sig, cs, i + 1, first_party_sig(sig, c.identifier), pool, depth)
                } else {
                    (Err(MacaroonError::CaveatNotSatisfied), pool)
                }
            } else {
                match decrypt_spec(sig, c.verification_id) {
                    None => (Err(MacaroonError::DecryptionFailure), pool),
                    Some(k) => match find_discharge(pool, c.identifier) {
                        None => (Err(MacaroonError::MissingDischarge), pool),
                        Some(j) => if depth == 0 {
                            (Err(MacaroonError::MissingDischarge), pool)
                        } else {
                            let (res, rest) = self.check_token(root_sig, pool[j], k, pool.remove(j), (depth - 1) as nat);
                            match res {
                                Err(e) => (Err(e), rest),
                                Ok(_) => self.check_caveats(
                                    root_sig,
                                    cs,
                                    i + 1,
                                    third_party_sig(sig, c.identifier, c.verification_id),
                                    rest,
                                    depth,
                                ),
                            }
                        },
                    },
                }
            }
        }
    }

    /// Checks the token `m` minted with `key` against the root signature
    /// `root_sig`: its chain is recomputed; a chain that ends in the root
    /// signature is the root itself, and any other must be a discharge bound
    /// to the root.
    pub open spec fn check_token(
        &self,
        root_sig: Seq<u8>,
        m: MacaroonView,
        key: Seq<u8>,
        pool: Seq<MacaroonView>,
        depth: nat,
    ) -> (core::result::Result<(), MacaroonError>, Seq<MacaroonView>)
        decreases depth, m.caveats.len() + 1, 0nat,
    {
        let (res, rest) = self.check_caveats(root_sig, m.caveats, 0, mac_of(key, m.identifier), pool, depth);
        match res {
            Err(e) => (Err(e), rest),
            Ok(sig) => if sig == root_sig || bound_sig(root_sig, sig) == m.signature {
                (Ok(()), rest)
            } else {
                (Err(MacaroonError::SignatureMismatch), rest)
            },
        }
    }

    /// The outcome of verifying the root token `m` with `key` and the
    /// discharges `ds`.
    pub open spec fn verify_outcome(&self, m: MacaroonView, key: Seq<u8>, ds: Seq<MacaroonView>) -> core::result::Result<(), MacaroonError> {
        if key.len() != key_len() {
            Err(MacaroonError::InvalidKeyLength)
        } else {
            let (res, rest) = self.check_token(m.signature, m, key, pool_from(ds, Seq::empty()), ds.len());
            match res {
                Err(e) => Err(e),
                Ok(_) => if rest.len() > 0 {
                    Err(MacaroonError::UnusedDischarges)
                } else {
                    Ok(())
                },
            }
        }
    }

    /// Whether some predicate holds of `c`.
    fn verify_general(&self, c: &Caveat) -> (r: bool)
        requires
            self.predicates_callable(),
        ensures
            r ==> exists|i: int| 0 <= i < self.predicates().len() && #[trigger] self.predicates()[i].ensures((c,), true),
            !r ==> forall|i: int| 0 <= i < self.predicates().len() ==> #[trigger] self.predicates()[i].ensures((c,), false),
    {
        let mut i: usize = 0;
        while i < self.general.len()
            invariant
                0 <= i <= self.general@.len(),
                self.predicates_callable(),
                self.predicates() == self.general@,
                forall|j: int| 0 <= j < i ==> #[trigger] self.predicates()[j].ensures((c,), false),
            decreases self.general@.len() - i,
        {
            let f = &self.general[i];
            assert(self.predicates()[i as int].requires((c,)));
            let b = f(c);
            if b {
                assert(self.predicates()[i as int].ensures((c,), true));
                return true;
            }
            i = i + 1;
        }
        false
    }

    /// Recomputes the chain of `m` from `key` against the root signature
    /// `root_sig`, taking the discharges its third-party caveats need out
    /// of `pool`.
    fn verify_with_sig(&self, root_sig: &Vec<u8>, m: &Macaroon, key: &Vec<u8>, pool: &mut Vec<Macaroon>, depth: usize) -> (r: Result<()>)
        requires
            key@.len() == key_len(),
            self.predicates_callable(),
            self.predicates_decide(),
        ensures
            (r, views(final(pool)@)) == self.check_token(root_sig@, m@, key@, views(old(pool)@), depth as nat),
        decreases depth,
    {
        let ghost cs = m@.caveats;
        let ghost start = self.check_caveats(root_sig@, cs, 0, mac_of(key@, m@.identifier), views(pool@), depth as nat);
        let mut sig = authenticate(key, m.identifier_bytes());
        let n = m.caveat_count();
        let mut i: usize = 0;
        while i < n
            invariant
                0 <= i <= n,
                n == cs.len(),
                cs == m@.caveats,
                sig@.len() == key_len(),
                self.predicates_callable(),
                self.predicates_decide(),
                start == self.check_caveats(root_sig@, cs, i as int, sig@, views(pool@), depth as nat),
                start == self.check_caveats(root_sig@, cs, 0, mac_of(key@, m@.identifier), views(old(pool)@), depth as nat),
            decreases n - i,
        {
            let c = m.caveat_at(i);
            if c.location.is_none() {
                let ok = self.exact_contains(&c.identifier) || self.verify_general(c);
                proof {
                    if ok {
                        if !self.exact_set().contains(c@.identifier) {
                            let j = choose|j: int| 0 <= j < self.predicates().len() && #[trigger] self.predicates()[j].ensures((c,), true);
                            assert(self.predicates()[j].ensures((&*c,), true));
                        }
                        assert(self.accepts(c@));
                    } else if self.accepts(c@) {
                        let (j, x) = choose|j: int, x: Caveat| 0 <= j < self.predicates().len() && x@ == c@
                            && #[trigger] self.predicates()[j].ensures((&x,), true);
                        assert(self.predicates()[j].ensures((c,), false));
                        assert(false);
                    }
                }
                if !ok {
                    return Err(MacaroonError::CaveatNotSatisfied);
                }
                sig = tag_first_party(&sig, &c.identifier.0);
            } else {
                let k = match decrypt(&sig, &c.verification_id.0) {
                    Some(k) => k,
                    None => return Err(MacaroonError::DecryptionFailure),
                };
                let j = match find_in_pool(pool, &c.identifier.0) {
                    Some(j) => j,
                    None => return Err(MacaroonError::MissingDischarge),
                };
                if depth == 0 {
                    return Err(MacaroonError::MissingDischarge);
                }
                let ghost before = views(pool@);
                let dm = pool.remove(j);
                assert(views(pool@) =~= before.remove(j as int));
                let res = self.verify_with_sig(root_sig, &dm, &k, pool, depth - 1);
                match res {
                    Err(e) => return Err(e),
                    Ok(()) => {},
                }
                sig = tag_third_party(&sig, &c.identifier.0, &c.verification_id.0);
            }
            i = i + 1;
        }
        if bytes_equal(&sig, root_sig) {
            return Ok(());
        }
        let zero = zero_key_bytes();
        let bound = tag_third_party(&zero, root_sig, &sig);
        if !bytes_equal(&bound, m.signature_bytes()) {
            return Err(MacaroonError::SignatureMismatch);
        }
        Ok(())
    }

    /// Verifies the root token `m` with its root `key` and the discharges
    /// its third-party caveats need. Each first-party caveat must be accepted
    /// by some rule; each third-party caveat takes the discharge with its
    /// identifier out of the working set, and that discharge is verified in
    /// turn with the caveat key sealed in the caveat; every discharge must
    /// be bound to the root, and every one supplied must be used. The first
    /// failure, in chain order, is returned.
    pub fn verify(&self, m: &Macaroon, key: &ByteString, discharges: Vec<Macaroon>) -> (r: Result<()>)
        requires
            self.predicates_callable(),
            self.predicates_decide(),
        ensures
            r == self.verify_outcome(m@, key@, views(discharges@)),
    {
        if key.0.len() != KEY_BYTES {
            return Err(MacaroonError::InvalidKeyLength);
        }
        let depth = discharges.len();
        let mut pool = build_pool(discharges);
        let res = self.verify_with_sig(m.signature_bytes(), m, &key.0, &mut pool, depth);
        match res {
            Err(e) => Err(e),
            Ok(()) => if pool.len() > 0 {
                Err(MacaroonError::UnusedDischarges)
            } else {
                Ok(())
            },
        }
    }

    /// Over caveats that are all first-party, the walk leaves the working
    /// set as it was, and its outcome depends on neither that set nor the
    /// depth.
    pub proof fn lemma_first_party_walk_keeps_pool(
        &self,
        root_sig: Seq<u8>,
        cs: Seq<CaveatView>,
        i: int,
        sig: Seq<u8>,
        pool: Seq<MacaroonView>,
        other: Seq<MacaroonView>,
        depth: nat,
        other_depth: nat,
    )
        requires
            0 <= i <= cs.len(),
            forall|j: int| 0 <= j < cs.len() ==> (#[trigger] cs[j]).location is None,
        ensures
            self.check_caveats(root_sig, cs, i, sig, pool, depth).1 == pool,
            self.check_caveats(root_sig, cs, i, sig, pool, depth).0
                == self.check_caveats(root_sig, cs, i, sig, other, other_depth).0,
        decreases cs.len() - i,
    {
        if i < cs.len() {
            let c = cs[i];
            if self.accepts(c) {
                self.lemma_first_party_walk_keeps_pool(
                    root_sig, cs, i + 1, first_party_sig(sig, c.identifier), pool, other, depth, other_depth);
            }
        }
    }

    /// Over caveats that are all first-party and all accepted, the walk
    /// from position `i` ends in the chain of all of them.
    pub proof fn lemma_first_party_walk_chains(
        &self,
        root_sig: Seq<u8>,
        cs: Seq<CaveatView>,
        i: int,
        sig0: Seq<u8>,
        pool: Seq<MacaroonView>,
        depth: nat,
    )
        requires
            0 <= i <= cs.len(),
            forall|j: int| 0 <= j < cs.len() ==> (#[trigger] cs[j]).location is None && self.accepts(cs[j]),
        ensures
            self.check_caveats(root_sig, cs, i, chain(sig0, cs.take(i)), pool, depth)
                == (Ok::<Seq<u8>, MacaroonError>(chain(sig0, cs)), pool),
        decreases cs.len() - i,
    {
        if i < cs.len() {
            assert(cs.take(i + 1).drop_last() =~= cs.take(i));
            assert(cs.take(i + 1).last() == cs[i]);
            self.lemma_first_party_walk_chains(root_sig, cs, i + 1, sig0, pool, depth);
        } else {
            assert(cs.take(i) =~= cs);
        }
    }

    /// A token minted with `key` whose caveats are all first-party, each
    /// accepted by some rule, verifies with `key` and no discharges.
    pub proof fn lemma_first_party_tokens_verify(&self, m: MacaroonView, key: Seq<u8>)
        requires
            key.len() == key_len(),
            m.minted_with(key),
            forall|j: int| 0 <= j < m.caveats.len()
                ==> (#[trigger] m.caveats[j]).location is None && self.accepts(m.caveats[j]),
        ensures
            self.verify_outcome(m, key, Seq::empty()) == Ok::<(), MacaroonError>(()),
    {
        let empty = Seq::<MacaroonView>::empty();
        assert(m.caveats.take(0) =~= Seq::<CaveatView>::empty());
        self.lemma_first_party_walk_chains(m.signature, m.caveats, 0, mac_of(key, m.identifier), empty, 0);
    }

    /// The working set built onto `acc` is at least as large as `acc`.
    pub proof fn lemma_pool_grows(ds: Seq<MacaroonView>, acc: Seq<MacaroonView>)
        ensures
            pool_from(ds, acc).len() >= acc.len(),
        decreases ds.len(),
    {
        if ds.len() > 0 {
            let d = ds.last();
            let next = if find_discharge(acc, d.identifier) is Some {
                acc
            } else {
                acc.push(d)
            };
            Self::lemma_pool_grows(ds.drop_last(), next);
        }
    }

    /// A token whose caveats are all first-party uses no discharge: with a
    /// non-empty list of discharges it never verifies, and where it
    /// verifies without them, it fails with `UnusedDischarges` with them.
    pub proof fn lemma_extra_discharges_unused(&self, m: MacaroonView, key: Seq<u8>, ds: Seq<MacaroonView>)
        requires
            ds.len() > 0,
            forall|j: int| 0 <= j < m.caveats.len() ==> (#[trigger] m.caveats[j]).location is None,
        ensures
            self.verify_outcome(m, key, ds) != Ok::<(), MacaroonError>(()),
            self.verify_outcome(m, key, Seq::empty()) is Ok
                ==> self.verify_outcome(m, key, ds) == Err::<(), MacaroonError>(MacaroonError::UnusedDischarges),
    {
        if key.len() == key_len() {
            let empty = Seq::<MacaroonView>::empty();
            let pool = pool_from(ds, empty);
            let ds1 = ds.drop_last();
            let acc1 = empty.push(ds.last());
            assert(!(find_discharge(empty, ds.last().identifier) is Some));
            Self::lemma_pool_grows(ds1, acc1);
            assert(pool.len() > 0);
            let sig0 = mac_of(key, m.identifier);
            self.lemma_first_party_walk_keeps_pool(m.signature, m.caveats, 0, sig0, pool, empty, ds.len(), 0);
            self.lemma_first_party_walk_keeps_pool(m.signature, m.caveats, 0, sig0, empty, pool, 0, ds.len());
        }
    }

    /// With no discharge left, a walk that reaches the third-party caveat at
    /// position `t` fails.
    pub proof fn lemma_walk_without_discharges_fails(
        &self,
        root_sig: Seq<u8>,
        cs: Seq<CaveatView>,
        i: int,
        t: int,
        sig: Seq<u8>,
        depth: nat,
    )
        requires
            0 <= i <= t < cs.len(),
            cs[t].location is Some,
        ensures
            self.check_caveats(root_sig, cs, i, sig, Seq::empty(), depth).0 is Err,
        decreases t - i,
    {
        let c = cs[i];
        if c.location is None && self.accepts(c) {
            self.lemma_walk_without_discharges_fails(root_sig, cs, i + 1, t, first_party_sig(sig, c.identifier), depth);
        } else if c.location is Some {
            assert(!(exists|j: int| first_at(Seq::<MacaroonView>::empty(), c.identifier, j)));
        }
    }

    /// Without discharges, a token that carries a third-party caveat never
    /// verifies.
    pub proof fn lemma_third_party_needs_discharge(&self, m: MacaroonView, key: Seq<u8>, t: int)
        requires
            0 <= t < m.caveats.len(),
            m.caveats[t].location is Some,
        ensures
            self.verify_outcome(m, key, Seq::empty()) is Err,
    {
        if key.len() == key_len() {
            self.lemma_walk_without_discharges_fails(m.signature, m.caveats, 0, t, mac_of(key, m.identifier), 0);
        }
    }

    /// A discharge minted with the caveat key `key`, whose caveats are all
    /// first-party and accepted, checks out against the root signature
    /// `root_sig` once its signature is the binding to that root, as
    /// `prepare_for_request` makes it; it takes nothing from the working set.
    pub proof fn lemma_bound_discharge_checks(
        &self,
        root_sig: Seq<u8>,
        d: MacaroonView,
        key: Seq<u8>,
        pool: Seq<MacaroonView>,
        depth: nat,
    )
        requires
            d.minted_with(key),
            forall|j: int| 0 <= j < d.caveats.len()
                ==> (#[trigger] d.caveats[j]).location is None && self.accepts(d.caveats[j]),
        ensures
            self.check_token(root_sig, MacaroonView { signature: bound_sig(root_sig, d.signature), ..d }, key, pool, depth)
                == (Ok::<(), MacaroonError>(()), pool),
    {
        assert(d.caveats.take(0) =~= Seq::<CaveatView>::empty());
        self.lemma_first_party_walk_chains(root_sig, d.caveats, 0, mac_of(key, d.identifier), pool, depth);
    }

    /// With at most as many discharges left as either depth bound, the walk
    /// over `cs` has one outcome under both bounds, and leaves no more
    /// discharges than it was given.
    pub proof fn lemma_walk_depth_irrelevant(
        &self,
        root_sig: Seq<u8>,
        cs: Seq<CaveatView>,
        i: int,
        sig: Seq<u8>,
        pool: Seq<MacaroonView>,
        d1: nat,
        d2: nat,
    )
        requires
            pool.len() <= d1,
            pool.len() <= d2,
        ensures
            self.check_caveats(root_sig, cs, i, sig, pool, d1) == self.check_caveats(root_sig, cs, i, sig, pool, d2),
            self.check_caveats(root_sig, cs, i, sig, pool, d1).1.len() <= pool.len(),
        decreases d1 + d2, cs.len() - i, 0nat,
    {
        if 0 <= i < cs.len() {
            let c = cs[i];
            if c.location is None {
                if self.accepts(c) {
                    self.lemma_walk_depth_irrelevant(root_sig, cs, i + 1, first_party_sig(sig, c.identifier), pool, d1, d2);
                }
            } else {
                match decrypt_spec(sig, c.verification_id) {
                    None => {},
                    Some(k) => match find_discharge(pool, c.identifier) {
                        None => {},
                        Some(j) => {
                            let x = choose|x: int| first_at(pool, c.identifier, x);
                            assert(first_at(pool, c.identifier, x));
                            let smaller = pool.remove(j);
                            self.lemma_token_depth_irrelevant(root_sig, pool[j], k, smaller, (d1 - 1) as nat, (d2 - 1) as nat);
                            let (res, rest) = self.check_token(root_sig, pool[j], k, smaller, (d1 - 1) as nat);
                            if res is Ok {
                                self.lemma_walk_depth_irrelevant(
                                    root_sig, cs, i + 1, third_party_sig(sig, c.identifier, c.verification_id), rest, d1, d2);
                            }
                        },
                    },
                }
            }
        }
    }

    /// With at most as many discharges left as either depth bound, checking
    /// the token `m` has one outcome under both bounds, and leaves no more
    /// discharges than it was given.
    pub proof fn lemma_token_depth_irrelevant(
        &self,
        root_sig: Seq<u8>,
        m: MacaroonView,
        key: Seq<u8>,
        pool: Seq<MacaroonView>,
        d1: nat,
        d2: nat,
    )
        requires
            pool.len() <= d1,
            pool.len() <= d2,
        ensures
            self.check_token(root_sig, m, key, pool, d1) == self.check_token(root_sig, m, key, pool, d2),
            self.check_token(root_sig, m, key, pool, d1).1.len() <= pool.len(),
        decreases d1 + d2, m.caveats.len() + 1, 0nat,
    {
        self.lemma_walk_depth_irrelevant(root_sig, m.caveats, 0, mac_of(key, m.identifier), pool, d1, d2);
    }

    /// The working set built from `ds` onto `acc` holds at most the
    /// discharges of both.
    pub proof fn lemma_pool_bounded(ds: Seq<MacaroonView>, acc: Seq<MacaroonView>)
        ensures
            pool_from(ds, acc).len() <= acc.len() + ds.len(),
        decreases ds.len(),
    {
        if ds.len() > 0 {
            let d = ds.last();
            let next = if find_discharge(acc, d.identifier) is Some {
                acc
            } else {
                acc.push(d)
            };
            Self::lemma_pool_bounded(ds.drop_last(), next);
        }
    }

    /// The depth bound on the recursion never decides an outcome: checking a
    /// root token with any bound at least the number of discharges supplied
    /// gives what `verify` gives.
    pub proof fn lemma_depth_guard_never_decides(
        &self,
        m: MacaroonView,
        key: Seq<u8>,
        ds: Seq<MacaroonView>,
        depth: nat,
    )
        requires
            depth >= ds.len(),
        ensures
            self.check_token(m.signature, m, key, pool_from(ds, Seq::empty()), depth)
                == self.check_token(m.signature, m, key, pool_from(ds, Seq::empty()), ds.len()),
    {
        Self::lemma_pool_bounded(ds, Seq::empty());
        self.lemma_token_depth_irrelevant(m.signature, m, key, pool_from(ds, Seq::empty()), depth, ds.len());
    }

    /// Over first-party caveats that are all accepted from position `i` up
    /// to `t`, the walk from `i` reaches `t` with the chain of the caveats
    /// before it.
    pub proof fn lemma_walk_reaches(
        &self,
        root_sig: Seq<u8>,
        cs: Seq<CaveatView>,
        i: int,
        t: int,
        sig0: Seq<u8>,
        pool: Seq<MacaroonView>,
        depth: nat,
    )
        requires
            0 <= i <= t <= cs.len(),
            forall|j: int| i <= j < t ==> (#[trigger] cs[j]).location is None && self.accepts(cs[j]),
        ensures
            self.check_caveats(root_sig, cs, i, chain(sig0, cs.take(i)), pool, depth)
                == self.check_caveats(root_sig, cs, t, chain(sig0, cs.take(t)), pool, depth),
        decreases t - i,
    {
        if i < t {
            assert(cs.take(i + 1).drop_last() =~= cs.take(i));
            assert(cs.take(i + 1).last() == cs[i]);
            self.lemma_walk_reaches(root_sig, cs, i + 1, t, sig0, pool, depth);
        }
    }

    /// Over first-party caveats, the walk from `i` either ends in the chain
    /// of all of them or fails with `CaveatNotSatisfied`.
    pub proof fn lemma_first_party_walk_outcome(
        &self,
        root_sig: Seq<u8>,
        cs: Seq<CaveatView>,
        i: int,
        sig0: Seq<u8>,
        pool: Seq<MacaroonView>,
        depth: nat,
    )
        requires
            0 <= i <= cs.len(),
            forall|j: int| 0 <= j < cs.len() ==> (#[trigger] cs[j]).location is None,
        ensures
            ({
                let res = self.check_caveats(root_sig, cs, i, chain(sig0, cs.take(i)), pool, depth).0;
                res == Ok::<Seq<u8>, MacaroonError>(chain(sig0, cs))
                    || res == Err::<Seq<u8>, MacaroonError>(MacaroonError::CaveatNotSatisfied)
            }),
        decreases cs.len() - i,
    {
        if i < cs.len() {
            assert(cs.take(i + 1).drop_last() =~= cs.take(i));
            assert(cs.take(i + 1).last() == cs[i]);
            self.lemma_first_party_walk_outcome(root_sig, cs, i + 1, sig0, pool, depth);
        } else {
            assert(cs.take(i) =~= cs);
        }
    }

    /// Without discharges, a token fails with `MissingDischarge` at its first
    /// third-party caveat, at position `t`, where every caveat before it is
    /// an accepted first-party one and the caveat's verification id opens
    /// under the chain so far, as the third-party append makes it.
    pub proof fn lemma_missing_discharge(&self, m: MacaroonView, key: Seq<u8>, t: int)
        requires
            key.len() == key_len(),
            0 <= t < m.caveats.len(),
            m.caveats[t].location is Some,
            forall|j: int| 0 <= j < t ==> (#[trigger] m.caveats[j]).location is None && self.accepts(m.caveats[j]),
            decrypt_spec(chain(mac_of(key, m.identifier), m.caveats.take(t)), m.caveats[t].verification_id) is Some,
        ensures
            self.verify_outcome(m, key, Seq::empty()) == Err::<(), MacaroonError>(MacaroonError::MissingDischarge),
    {
        let empty = Seq::<MacaroonView>::empty();
        let sig0 = mac_of(key, m.identifier);
        assert(m.caveats.take(0) =~= Seq::<CaveatView>::empty());
        self.lemma_walk_reaches(m.signature, m.caveats, 0, t, sig0, empty, 0);
        assert(!(exists|j: int| first_at(empty, m.caveats[t].identifier, j)));
    }

    /// A token minted with `key` whose caveats are all accepted first-party
    /// ones fails with `SignatureMismatch` once its signature is replaced by
    /// another, `s`, unless binding `s` to the true signature gives `s` back
    /// (a MAC collision).
    pub proof fn lemma_tampered_signature_fails(&self, m: MacaroonView, key: Seq<u8>, s: Seq<u8>)
        requires
            key.len() == key_len(),
            m.minted_with(key),
            forall|j: int| 0 <= j < m.caveats.len()
                ==> (#[trigger] m.caveats[j]).location is None && self.accepts(m.caveats[j]),
            s != m.signature,
            bound_sig(s, m.signature) != s,
        ensures
            self.verify_outcome(MacaroonView { signature: s, ..m }, key, Seq::empty())
                == Err::<(), MacaroonError>(MacaroonError::SignatureMismatch),
    {
        let empty = Seq::<MacaroonView>::empty();
        assert(m.caveats.take(0) =~= Seq::<CaveatView>::empty());
        self.lemma_first_party_walk_chains(s, m.caveats, 0, mac_of(key, m.identifier), empty, 0);
    }

    /// A token minted with `key` whose caveats are all first-party never
    /// verifies once its caveats are replaced by other first-party caveats
    /// `cs` whose chain differs from the signature: it fails with
    /// `CaveatNotSatisfied` or `SignatureMismatch`, unless binding the
    /// signature to the new chain gives the signature back (a MAC collision).
    pub proof fn lemma_tampered_caveats_fail(&self, m: MacaroonView, key: Seq<u8>, cs: Seq<CaveatView>)
        requires
            key.len() == key_len(),
            m.minted_with(key),
            forall|j: int| 0 <= j < cs.len() ==> (#[trigger] cs[j]).location is None,
            signature_of(key, m.identifier, cs) != m.signature,
            bound_sig(m.signature, signature_of(key, m.identifier, cs)) != m.signature,
        ensures
            ({
                let r = self.verify_outcome(MacaroonView { caveats: cs, ..m }, key, Seq::empty());
                r == Err::<(), MacaroonError>(MacaroonError::CaveatNotSatisfied)
                    || r == Err::<(), MacaroonError>(MacaroonError::SignatureMismatch)
            }),
    {
        let empty = Seq::<MacaroonView>::empty();
        assert(cs.take(0) =~= Seq::<CaveatView>::empty());
        self.lemma_first_party_walk_outcome(m.signature, cs, 0, mac_of(key, m.identifier), empty, 0);
    }

    /// One bound discharge serves one caveat: where a token carries two
    /// third-party caveats with one identifier, at `t1` and then `t2`, and
    /// the only discharge supplied is a discharge for them bound to the
    /// token, the first caveat takes and accepts it and the second fails
    /// with `MissingDischarge`. Every other caveat before `t2` is an
    /// accepted first-party one, each verification id opens under the chain
    /// before it, and the discharge was minted with the caveat key `ck` of
    /// the first, carries its identifier and only accepted first-party caveats.
    pub proof fn lemma_discharge_serves_once(
        &self,
        m: MacaroonView,
        key: Seq<u8>,
        t1: int,
        t2: int,
        ck: Seq<u8>,
        d: MacaroonView,
    )
        requires
            key.len() == key_len(),
            0 <= t1 < t2 < m.caveats.len(),
            m.caveats[t1].location is Some,
            m.caveats[t2].location is Some,
            m.caveats[t2].identifier == m.caveats[t1].identifier,
            forall|j: int| 0 <= j < t2 && j != t1
                ==> (#[trigger] m.caveats[j]).location is None && self.accepts(m.caveats[j]),
            decrypt_spec(chain(mac_of(key, m.identifier), m.caveats.take(t1)), m.caveats[t1].verification_id)
                == Some(ck),
            decrypt_spec(chain(mac_of(key, m.identifier), m.caveats.take(t2)), m.caveats[t2].verification_id) is Some,
            d.identifier == m.caveats[t1].identifier,
            d.minted_with(ck),
            forall|j: int| 0 <= j < d.caveats.len()
                ==> (#[trigger] d.caveats[j]).location is None && self.accepts(d.caveats[j]),
        ensures
            self.verify_outcome(
                m,
                key,
                seq![MacaroonView { signature: bound_sig(m.signature, d.signature), ..d }],
            ) == Err::<(), MacaroonError>(MacaroonError::MissingDischarge),
    {
        let cs = m.caveats;
        let sig0 = mac_of(key, m.identifier);
        let root = m.signature;
        let db = MacaroonView { signature: bound_sig(root, d.signature), ..d };
        let ds = seq![db];
        let empty = Seq::<MacaroonView>::empty();
        let pool = seq![db];
        assert(!(exists|j: int| first_at(empty, db.identifier, j)));
        assert(ds.drop_last() =~= empty);
        assert(pool_from(ds, empty) == pool_from(empty, empty.push(db)));
        assert(empty.push(db) =~= pool);
        assert(cs.take(0) =~= Seq::<CaveatView>::empty());
        self.lemma_walk_reaches(root, cs, 0, t1, sig0, pool, 1);
        let c = cs[t1];
        assert(first_at(pool, c.identifier, 0));
        let j = choose|j: int| first_at(pool, c.identifier, j);
        assert(j == 0);
        assert(pool.remove(0) =~= empty);
        self.lemma_bound_discharge_checks(root, d, ck, empty, 0);
        assert(cs.take(t1 + 1).drop_last() =~= cs.take(t1));
        assert(cs.take(t1 + 1).last() == c);
        self.lemma_walk_reaches(root, cs, t1 + 1, t2, sig0, empty, 1);
        assert(!(exists|j: int| first_at(empty, c.identifier, j)));
    }

    /// Building the working set from `a + b` takes `b` first, then `a`.
    pub proof fn lemma_pool_concat(a: Seq<MacaroonView>, b: Seq<MacaroonView>, acc: Seq<MacaroonView>)
        ensures
            pool_from(a + b, acc) == pool_from(a, pool_from(b, acc)),
        decreases b.len(),
    {
        if b.len() == 0 {
            assert(a + b =~= a);
        } else {
            let d = b.last();
            let next = if find_discharge(acc, d.identifier) is Some {
                acc
            } else {
                acc.push(d)
            };
            assert((a + b).drop_last() =~= a + b.drop_last());
            assert((a + b).last() == d);
            Self::lemma_pool_concat(a, b.drop_last(), next);
        }
    }

    /// Every discharge of the working set built from `ds` onto `acc` comes
    /// from `acc` or from `ds`.
    pub proof fn lemma_pool_members(ds: Seq<MacaroonView>, acc: Seq<MacaroonView>, k: int)
        requires
            0 <= k < pool_from(ds, acc).len(),
        ensures
            acc.contains(pool_from(ds, acc)[k]) || ds.contains(pool_from(ds, acc)[k]),
        decreases ds.len(),
    {
        if ds.len() > 0 {
            let d = ds.last();
            let next = if find_discharge(acc, d.identifier) is Some {
                acc
            } else {
                acc.push(d)
            };
            Self::lemma_pool_members(ds.drop_last(), next, k);
            let x = pool_from(ds, acc)[k];
            if ds.drop_last().contains(x) {
                let i = choose|i: int| 0 <= i < ds.drop_last().len() && ds.drop_last()[i] == x;
                assert(ds[i] == x);
            } else if next.contains(x) && !acc.contains(x) {
                let i = choose|i: int| 0 <= i < next.len() && next[i] == x;
                assert(i == acc.len());
                assert(ds[ds.len() - 1] == x);
            }
        }
    }


    /// Appending a discharge with another identifier does not change where
    /// `id` is first found.
    pub proof fn lemma_find_push(pool: Seq<MacaroonView>, e: MacaroonView, id: Seq<u8>)
        requires
            e.identifier != id,
        ensures
            find_discharge(pool.push(e), id) == find_discharge(pool, id),
    {
        let q = pool.push(e);
        assert forall|i: int| first_at(q, id, i) <==> first_at(pool, id, i) by {
            if first_at(pool, id, i) {
                assert forall|j: int| 0 <= j < i implies (#[trigger] q[j]).identifier != id by {
                    assert(q[j] == pool[j]);
                }
            }
            if first_at(q, id, i) {
                assert(i < pool.len());
                assert forall|j: int| 0 <= j < i implies (#[trigger] pool[j]).identifier != id by {
                    assert(q[j] == pool[j]);
                }
            }
        }
        if exists|i: int| first_at(pool, id, i) {
            let a = choose|i: int| first_at(q, id, i);
            let b = choose|i: int| first_at(pool, id, i);
            assert(first_at(pool, id, a));
            if a < b {
                assert(pool[a].identifier != id);
            } else if b < a {
                assert(pool[b].identifier != id);
            }
        }
    }

    /// A discharge `e` whose identifier no caveat of `cs` names, appended to
    /// the working set, is never taken by the walk: the outcome is the same,
    /// and `e` is still there at the end. `all` holds every discharge the
    /// working set may hold, none of them named `e`'s way or naming it.
    pub proof fn lemma_walk_ignores_extra(
        &self,
        root_sig: Seq<u8>,
        cs: Seq<CaveatView>,
        i: int,
        sig: Seq<u8>,
        pool: Seq<MacaroonView>,
        e: MacaroonView,
        all: Seq<MacaroonView>,
        depth: nat,
    )
        requires
            forall|j: int| 0 <= j < cs.len() && (#[trigger] cs[j]).location is Some ==> cs[j].identifier != e.identifier,
            forall|k: int| 0 <= k < pool.len() ==> all.contains(#[trigger] pool[k]),
            forall|x: MacaroonView| #[trigger] all.contains(x) ==> x.identifier != e.identifier && names_not(x, e.identifier),
        ensures
            self.check_caveats(root_sig, cs, i, sig, pool.push(e), depth).0
                == self.check_caveats(root_sig, cs, i, sig, pool, depth).0,
            self.check_caveats(root_sig, cs, i, sig, pool.push(e), depth).1
                == self.check_caveats(root_sig, cs, i, sig, pool, depth).1.push(e),
            forall|k: int| 0 <= k < self.check_caveats(root_sig, cs, i, sig, pool, depth).1.len()
                ==> all.contains(#[trigger] self.check_caveats(root_sig, cs, i, sig, pool, depth).1[k]),
        decreases depth, cs.len() - i, 0nat,
    {
        if 0 <= i < cs.len() {
            let c = cs[i];
            if c.location is None {
                if self.accepts(c) {
                    self.lemma_walk_ignores_extra(root_sig, cs, i + 1, first_party_sig(sig, c.identifier), pool, e, all, depth);
                }
            } else {
                Self::lemma_find_push(pool, e, c.identifier);
                match decrypt_spec(sig, c.verification_id) {
                    None => {},
                    Some(k) => match find_discharge(pool, c.identifier) {
                        None => {},
                        Some(j) => if depth > 0 {
                            assert(first_at(pool, c.identifier, j));
                            let smaller = pool.remove(j);
                            assert(pool.push(e).remove(j) =~= smaller.push(e));
                            assert(pool.push(e)[j] == pool[j]);
                            assert(all.contains(pool[j]));
                            assert forall|k2: int| 0 <= k2 < smaller.len() implies all.contains(#[trigger] smaller[k2]) by {
                                if k2 < j {
                                    assert(smaller[k2] == pool[k2]);
                                } else {
                                    assert(smaller[k2] == pool[k2 + 1]);
                                }
                            }
                            self.lemma_token_ignores_extra(root_sig, pool[j], k, smaller, e, all, (depth - 1) as nat);
                            let (res, rest) = self.check_token(root_sig, pool[j], k, smaller, (depth - 1) as nat);
                            if res is Ok {
                                self.lemma_walk_ignores_extra(
                                    root_sig, cs, i + 1, third_party_sig(sig, c.identifier, c.verification_id), rest, e, all, depth);
                            }
                        },
                    },
                }
            }
        }
    }

    /// Checking a token that does not name `e` in a caveat leaves an
    /// appended `e` alone, as `lemma_walk_ignores_extra` says.
    pub proof fn lemma_token_ignores_extra(
        &self,
        root_sig: Seq<u8>,
        m: MacaroonView,
        key: Seq<u8>,
        pool: Seq<MacaroonView>,
        e: MacaroonView,
        all: Seq<MacaroonView>,
        depth: nat,
    )
        requires
            names_not(m, e.identifier),
            forall|k: int| 0 <= k < pool.len() ==> all.contains(#[trigger] pool[k]),
            forall|x: MacaroonView| #[trigger] all.contains(x) ==> x.identifier != e.identifier && names_not(x, e.identifier),
        ensures
            self.check_token(root_sig, m, key, pool.push(e), depth).0 == self.check_token(root_sig, m, key, pool, depth).0,
            self.check_token(root_sig, m, key, pool.push(e), depth).1 == self.check_token(root_sig, m, key, pool, depth).1.push(e),
            forall|k: int| 0 <= k < self.check_token(root_sig, m, key, pool, depth).1.len()
                ==> all.contains(#[trigger] self.check_token(root_sig, m, key, pool, depth).1[k]),
        decreases depth, m.caveats.len() + 1, 0nat,
    {
        self.lemma_walk_ignores_extra(root_sig, m.caveats, 0, mac_of(key, m.identifier), pool, e, all, depth);
    }


    /// An extra discharge that nothing asks for is never used: where a root
    /// token verifies with `ds`, adding a discharge `e` whose identifier is
    /// that of no discharge in `ds` and is named by no third-party caveat of
    /// the token or of those discharges makes it fail with
    /// `UnusedDischarges`.
    pub proof fn lemma_unrequested_discharge_unused(&self, m: MacaroonView, key: Seq<u8>, ds: Seq<MacaroonView>, e: MacaroonView)
        requires
            self.verify_outcome(m, key, ds) == Ok::<(), MacaroonError>(()),
            names_not(m, e.identifier),
            forall|x: MacaroonView| #[trigger] ds.contains(x) ==> x.identifier != e.identifier && names_not(x, e.identifier),
        ensures
            self.verify_outcome(m, key, seq![e] + ds) == Err::<(), MacaroonError>(MacaroonError::UnusedDischarges),
    {
        let empty = Seq::<MacaroonView>::empty();
        let pool = pool_from(ds, empty);
        let n = ds.len();
        assert forall|k: int| 0 <= k < pool.len() implies ds.contains(#[trigger] pool[k]) by {
            Self::lemma_pool_members(ds, empty, k);
        }
        assert(!(exists|k: int| first_at(pool, e.identifier, k)));
        Self::lemma_pool_concat(seq![e], ds, empty);
        assert(seq![e].drop_last() =~= empty);
        assert(seq![e].last() == e);
        assert(pool_from(seq![e], pool) == pool_from(empty, pool.push(e)));
        assert((seq![e] + ds).len() == n + 1);
        Self::lemma_pool_bounded(ds, empty);
        self.lemma_token_ignores_extra(m.signature, m, key, pool, e, ds, n + 1);
        self.lemma_token_depth_irrelevant(m.signature, m, key, pool, n + 1, n);
    }

}

} // verus!
