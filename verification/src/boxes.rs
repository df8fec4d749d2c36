//! The decryption stage: given an ordered set of candidate secret keys
//! and a ciphertext-shaped payload, yield the first successful plaintext,
//! or the payload unchanged when no key opens it.
//!
//! Absence of a key is not an error: content that cannot be opened is
//! indexed in its stored form, a degraded but valid outcome.

use vstd::prelude::*;

use crypto_secretbox::XSalsa20Poly1305;
use crypto_secretbox::aead::Aead;
use crypto_secretbox::aead::KeyInit;

verus! {

/// A fixed-length symmetric secret key, supplied by the caller as raw
/// decoded key bytes and never persisted by this crate.
#[derive(Debug, Clone)]
pub struct SecretKey {
    bytes: Vec<u8>,
}

impl View for SecretKey {
    type V = Seq<u8>;

    closed spec fn view(&self) -> Seq<u8> {
        self.bytes@
    }
}

/// The byte length of every secret key.
pub const KEY_LEN: usize = 32;

impl SecretKey {
    /// Accepts exactly [`KEY_LEN`] raw key bytes.
    pub fn new(bytes: Vec<u8>) -> (r: Option<SecretKey>)
        ensures
            r is Some <==> bytes@.len() == KEY_LEN,
            r matches Some(k) ==> k@ == bytes@,
    {
        if bytes.len() == KEY_LEN {
            Some(SecretKey { bytes })
        } else {
            None
        }
    }
}

/// What opening one authenticated box with one key yields: the plaintext
/// when the payload is a well-formed box under that key, nothing
/// otherwise. Opening is a pure function of the key and the payload.
pub uninterp spec fn box_open(key: Seq<u8>, payload: Seq<u8>) -> Option<Seq<u8>>;

/// Relies on `crypto_secretbox::XSalsa20Poly1305` (the NaCl secretbox
/// construction) to open one authenticated box: the payload is a 24-byte
/// nonce followed by the ciphertext, and opening is deterministic in the
/// key and the payload bytes.
#[verifier::external_body]
fn box_open_one(key: &SecretKey, payload: &Vec<u8>) -> (r: Option<Vec<u8>>)
    ensures
        r is Some <==> box_open(key@, payload@) is Some,
        r matches Some(p) ==> box_open(key@, payload@) == Some(p@),
{
    let cipher = match XSalsa20Poly1305::new_from_slice(&key.bytes) {
        Ok(c) => c,
        Err(_) => {
            return None;
        },
    };
    let nonce = payload.get(0..24)?;
    let ct = payload.get(24..)?;
    match cipher.decrypt(nonce.into(), ct) {
        Ok(p) => Some(p),
        Err(_) => None,
    }
}

/// The views of a list of keys, in order.
pub open spec fn key_views(keys: Seq<SecretKey>) -> Seq<Seq<u8>> {
    keys.map_values(|k: SecretKey| k@)
}

/// What trying the keys in order must yield: the plaintext of the first
/// key that opens the payload and `true`, or the payload unchanged and
/// `false` when no key opens it — also when there is no key at all.
pub open spec fn spec_try_decrypt(keys: Seq<Seq<u8>>, payload: Seq<u8>) -> (Seq<u8>, bool)
    decreases keys,
{
    if keys.len() == 0 {
        (payload, false)
    } else {
        match box_open(keys[0], payload) {
            Some(p) => (p, true),
            None => spec_try_decrypt(keys.drop_first(), payload),
        }
    }
}

/// Law: trying keys in order succeeds exactly when some key opens the
/// payload; the result is then the plaintext under the earliest such key,
/// whatever its position, and otherwise the payload unchanged.
pub proof fn lemma_try_decrypt(keys: Seq<Seq<u8>>, payload: Seq<u8>)
    ensures
        spec_try_decrypt(keys, payload).1 == exists|i: int|
            0 <= i < keys.len() && box_open(#[trigger] keys[i], payload) is Some,
        !spec_try_decrypt(keys, payload).1 ==> spec_try_decrypt(keys, payload).0 == payload,
        spec_try_decrypt(keys, payload).1 ==> exists|i: int|
            {
                &&& 0 <= i < keys.len()
                &&& box_open(#[trigger] keys[i], payload) matches Some(p) && spec_try_decrypt(
                    keys,
                    payload,
                ).0 == p
                &&& forall|j: int| 0 <= j < i ==> box_open(#[trigger] keys[j], payload) is None
            },
    decreases keys,
{
    if keys.len() != 0 {
        lemma_try_decrypt(keys.drop_first(), payload);
        if box_open(keys[0], payload) is Some {
            assert(box_open(keys[0], payload) matches Some(p) && spec_try_decrypt(
                keys,
                payload,
            ).0 == p);
        } else {
            if spec_try_decrypt(keys.drop_first(), payload).1 {
                let i = choose|i: int|
                    {
                        &&& 0 <= i < keys.drop_first().len()
                        &&& box_open(#[trigger] keys.drop_first()[i], payload) matches Some(p)
                            && spec_try_decrypt(keys.drop_first(), payload).0 == p
                        &&& forall|j: int|
                            0 <= j < i ==> box_open(
                                #[trigger] keys.drop_first()[j],
                                payload,
                            ) is None
                    };
                assert(keys.drop_first()[i] == keys[i + 1]);
                assert forall|j: int|
                    0 <= j < i + 1 implies box_open(#[trigger] keys[j], payload) is None by {
                    if j > 0 {
                        assert(keys[j] == keys.drop_first()[j - 1]);
                    }
                }
                assert({
                    &&& 0 <= i + 1 < keys.len()
                    &&& box_open(keys[i + 1], payload) matches Some(p) && spec_try_decrypt(
                        keys,
                        payload,
                    ).0 == p
                    &&& forall|j: int| 0 <= j < i + 1 ==> box_open(#[trigger] keys[j], payload) is None
                });
            }
            if exists|i: int|
                0 <= i < keys.len() && box_open(#[trigger] keys[i], payload) is Some {
                let i = choose|i: int|
                    0 <= i < keys.len() && box_open(#[trigger] keys[i], payload) is Some;
                if i > 0 {
                    assert(keys.drop_first()[i - 1] == keys[i]);
                }
            }
        }
    }
}

/// Attempts each key in order against the payload. On the first success
/// the plaintext and `true` come back; when no key opens the payload —
/// also with an empty key set — the original payload comes back unchanged
/// with `false`.
#[verifier::loop_isolation(false)]
pub fn try_decrypt(keys: &Vec<SecretKey>, payload: Vec<u8>) -> (r: (Vec<u8>, bool))
    ensures
        (r.0@, r.1) == spec_try_decrypt(key_views(keys@), payload@),
{
    let ghost kv = key_views(keys@);
    let mut i: usize = 0;
    proof {
        assert(kv.skip(0) =~= kv);
    }
    while i < keys.len()
        invariant
            0 <= i <= keys.len(),
            spec_try_decrypt(kv.skip(i as int), payload@) == spec_try_decrypt(kv, payload@),
        decreases keys.len() - i,
    {
        proof {
            assert(kv.skip(i as int)[0] == keys@[i as int]@);
            assert(kv.skip(i as int).drop_first() =~= kv.skip(i as int + 1));
        }
        match box_open_one(&keys[i], &payload) {
            Some(p) => {
                return (p, true);
            },
            None => {
                i = i + 1;
            },
        }
    }
    proof {
        assert(kv.skip(keys@.len() as int) =~= Seq::<Seq<u8>>::empty());
    }
    (payload, false)
}

} // verus!
