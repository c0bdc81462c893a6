//! The chain itself: building it (`hide_data`) and unwinding it (`recover`),
//! with the mathematical model both are held to.

use vstd::prelude::*;

use crate::all_zero;
use crate::erase::wipe;
use crate::primitives::aead_ct_of;
use crate::primitives::derived_key_of;
use crate::Error;
use crate::KEY_SIZE;
use crate::NONCE_SIZE;
use crate::PBKDF_ITERS;
use crate::SALT_SIZE;
use crate::TAG_SIZE;

verus! {

/// One link of the chain: a fresh random nonce and the authenticated
/// ciphertext (tag included) of either the payload or a chain key. Produced
/// by exactly one encryption, immutable thereafter.
#[derive(Clone, Debug)]
pub struct EncryptedBlock {
    pub nonce: Vec<u8>,
    pub ciphertext: Vec<u8>,
}

/// Everything `hide` leaves behind: the salt that ties the chain to the
/// secret-derived key, and the chain of blocks. No plaintext and no key
/// survives in it.
#[derive(Clone, Debug)]
pub struct HiddenData {
    pub salt: Vec<u8>,
    pub blocks: Vec<EncryptedBlock>,
}

/// The chain shape with its run of intermediate keys spelled out: `keys[0]`
/// seals the payload in block 0, each following block seals the previous key
/// under the next one, and the last block seals the last chain key under the
/// key derived from the secret and the salt.
pub open spec fn chain_encodes_with(
    salt: Seq<u8>,
    blocks: Seq<EncryptedBlock>,
    secret: Seq<u8>,
    payload: Seq<u8>,
    keys: Seq<Seq<u8>>,
) -> bool {
    &&& blocks.len() >= 2
    &&& keys.len() == blocks.len() - 1
    &&& (forall|i: int| 0 <= i < keys.len() ==> (#[trigger] keys[i]).len() == KEY_SIZE)
    &&& (forall|i: int| 0 <= i < blocks.len() ==> (#[trigger] blocks[i]).nonce@.len() == NONCE_SIZE)
    &&& blocks[0].ciphertext@.len() == payload.len() + TAG_SIZE
    &&& blocks[0].ciphertext@ == aead_ct_of(keys[0], blocks[0].nonce@, payload)
    &&& (forall|i: int| 1 <= i < blocks.len() - 1 ==> (#[trigger] blocks[i]).ciphertext@.len() == KEY_SIZE + TAG_SIZE)
    &&& (forall|i: int|
        1 <= i < blocks.len() - 1 ==> (#[trigger] blocks[i]).ciphertext@ == aead_ct_of(
            keys[i],
            blocks[i].nonce@,
            keys[i - 1],
        ))
    &&& blocks[blocks.len() - 1].ciphertext@.len() == KEY_SIZE + TAG_SIZE
    &&& blocks[blocks.len() - 1].ciphertext@ == aead_ct_of(
        derived_key_of(secret, salt, PBKDF_ITERS as int, KEY_SIZE as int),
        blocks[blocks.len() - 1].nonce@,
        keys[keys.len() - 1],
    )
}

/// A chain is genuine for a secret and a payload when some run of
/// intermediate keys fits it.
pub open spec fn chain_encodes(
    salt: Seq<u8>,
    blocks: Seq<EncryptedBlock>,
    secret: Seq<u8>,
    payload: Seq<u8>,
) -> bool {
    exists|keys: Seq<Seq<u8>>| chain_encodes_with(salt, blocks, secret, payload, keys)
}

/// Round trip: recovery is pinned to the hidden payload. Building a chain
/// leaves one that genuinely encodes the payload `p` for the secret; a
/// successful recovery under the same secret returns a `q` that is itself
/// encoded and is the only encoded payload. Those two facts force `q == p`.
pub proof fn lemma_round_trip(
    salt: Seq<u8>,
    blocks: Seq<EncryptedBlock>,
    secret: Seq<u8>,
    p: Seq<u8>,
    q: Seq<u8>,
)
    requires
        chain_encodes(salt, blocks, secret, p),
        chain_encodes(salt, blocks, secret, q),
        forall|r: Seq<u8>| chain_encodes(salt, blocks, secret, r) ==> r == q,
    ensures
        p == q,
{
}

/// An explicit byte-for-byte copy, taken where a key must survive the
/// encryption step that erases its other owner.
fn clone_bytes(v: &Vec<u8>) -> (r: Vec<u8>)
    ensures
        r@ == v@,
{
    let mut out: Vec<u8> = Vec::new();
    let mut i: usize = 0;
    while i < v.len()
        invariant
            i <= v@.len(),
            out@ == v@.subrange(0, i as int),
        decreases v@.len() - i,
    {
        out.push(v[i]);
        proof {
            assert(v@.subrange(0, i + 1 as int) =~= v@.subrange(0, i as int).push(v@[i as int]));
        }
        i += 1;
    }
    proof {
        assert(v@.subrange(0, v@.len() as int) =~= v@);
    }
    out
}

/// Copies the bytes of `v` between `start` and `end` into a fresh buffer.
pub(crate) fn copy_range(v: &Vec<u8>, start: usize, end: usize) -> (r: Vec<u8>)
    requires
        start <= end <= v@.len(),
    ensures
        r@ == v@.subrange(start as int, end as int),
{
    let mut out: Vec<u8> = Vec::new();
    let mut i: usize = start;
    while i < end
        invariant
            start <= i <= end,
            end <= v@.len(),
            out@ == v@.subrange(start as int, i as int),
        decreases end - i,
    {
        out.push(v[i]);
        proof {
            assert(v@.subrange(start as int, i + 1 as int) =~= v@.subrange(
                start as int,
                i as int,
            ).push(v@[i as int]));
        }
        i += 1;
    }
    out
}

/// Splits a stored ciphertext into its body and its trailing authentication
/// tag.
fn split_tag(ct: &Vec<u8>) -> (r: (Vec<u8>, Vec<u8>))
    requires
        TAG_SIZE <= ct@.len(),
    ensures
        r.0@.len() == ct@.len() - TAG_SIZE,
        r.1@.len() == TAG_SIZE,
        r.0@ + r.1@ == ct@,
{
    let cut = ct.len() - TAG_SIZE;
    let body = copy_range(ct, 0, cut);
    let tag = copy_range(ct, cut, ct.len());
    proof {
        assert(body@ + tag@ =~= ct@);
    }
    (body, tag)
}

/// Seals `plaintext` under `key` with a fresh random nonce, and erases both
/// buffers before returning, whether it succeeds or fails.
fn encrypt_block(plaintext: &mut Vec<u8>, key: &mut Vec<u8>) -> (r: Result<EncryptedBlock, Error>)
    requires
        old(key)@.len() == KEY_SIZE,
        old(plaintext)@.len() <= 0x7fffff00,
    ensures
        final(plaintext)@.len() == old(plaintext)@.len(),
        all_zero(final(plaintext)@),
        final(key)@.len() == old(key)@.len(),
        all_zero(final(key)@),
        r matches Ok(b) ==> {
            &&& b.nonce@.len() == NONCE_SIZE
            &&& b.ciphertext@.len() == old(plaintext)@.len() + TAG_SIZE
            &&& b.ciphertext@ == aead_ct_of(old(key)@, b.nonce@, old(plaintext)@)
        },
        r matches Err(e) ==> e == Error::RandomSource || e == Error::Encryption,
{
    let mut nonce: Vec<u8> = vec![0u8; NONCE_SIZE];
    if crate::primitives::fill_random(&mut nonce).is_err() {
        wipe(plaintext);
        wipe(key);
        return Err(Error::RandomSource);
    }
    let mut tag: Vec<u8> = vec![0u8; TAG_SIZE];
    let enc = crate::primitives::aead_encrypt(key, &nonce, plaintext, &mut tag);
    wipe(plaintext);
    wipe(key);
    match enc {
        Ok(mut ct) => {
            ct.append(&mut tag);
            Ok(EncryptedBlock { nonce, ciphertext: ct })
        },
        Err(_) => Err(Error::Encryption),
    }
}

/// Draws a fresh random chain key, seals `plaintext` under it, and returns
/// the key together with the block; `plaintext` is erased either way.
fn fresh_key_block(plaintext: &mut Vec<u8>) -> (r: Result<(Vec<u8>, EncryptedBlock), Error>)
    requires
        old(plaintext)@.len() <= 0x7fffff00,
    ensures
        final(plaintext)@.len() == old(plaintext)@.len(),
        all_zero(final(plaintext)@),
        r matches Ok(p) ==> {
            &&& p.0@.len() == KEY_SIZE
            &&& p.1.nonce@.len() == NONCE_SIZE
            &&& p.1.ciphertext@.len() == old(plaintext)@.len() + TAG_SIZE
            &&& p.1.ciphertext@ == aead_ct_of(p.0@, p.1.nonce@, old(plaintext)@)
        },
        r matches Err(e) ==> e == Error::RandomSource || e == Error::Encryption,
{
    let mut key: Vec<u8> = vec![0u8; KEY_SIZE];
    if crate::primitives::fill_random(&mut key).is_err() {
        wipe(plaintext);
        wipe(&mut key);
        return Err(Error::RandomSource);
    }
    let key_out = clone_bytes(&key);
    match encrypt_block(plaintext, &mut key) {
        Ok(b) => Ok((key_out, b)),
        Err(e) => Err(e),
    }
}

/// Hides a payload behind a chain of `rounds + 2` blocks: block 0 seals the
/// payload under a fresh random key, each of the `rounds` middle blocks seals
/// the previous key under the next fresh one, and the last block seals the
/// final chain key under the key derived from the secret and a fresh salt.
/// The payload, the secret and every intermediate key are erased before the
/// call returns, on success and on failure.
pub fn hide_data(payload: Vec<u8>, secret: &mut Vec<u8>, rounds: usize) -> (r: Result<
    HiddenData,
    Error,
>)
    requires
        payload@.len() <= 0x7fffff00,
        old(secret)@.len() <= 0x7fffffff,
        rounds <= usize::MAX - 2,
    ensures
        final(secret)@.len() == old(secret)@.len(),
        all_zero(final(secret)@),
        r matches Ok(h) ==> {
            &&& h.salt@.len() == SALT_SIZE
            &&& h.blocks@.len() == rounds + 2
            &&& h.blocks@[0].ciphertext@.len() == payload@.len() + TAG_SIZE
            &&& forall|i: int|
                1 <= i < h.blocks@.len() ==> (#[trigger] h.blocks@[i]).ciphertext@.len()
                    == KEY_SIZE + TAG_SIZE
            &&& chain_encodes(h.salt@, h.blocks@, old(secret)@, payload@)
        },
        r matches Err(e) ==> e == Error::RandomSource || e == Error::Encryption || e
            == Error::Derivation,
{
    let ghost payload0 = payload@;
    let mut payload = payload;
    let mut blocks: Vec<EncryptedBlock> = Vec::new();

    let mut cur_key: Vec<u8> = match fresh_key_block(&mut payload) {
        Ok((k, b)) => {
            blocks.push(b);
            k
        },
        Err(e) => {
            wipe(secret);
            return Err(e);
        },
    };
    let ghost mut keys: Seq<Seq<u8>> = seq![cur_key@];

    let mut i: usize = 0;
    while i < rounds
        invariant
            i <= rounds,
            rounds <= usize::MAX - 2,
            secret@ == old(secret)@,
            blocks@.len() == i + 1,
            keys.len() == i + 1,
            cur_key@.len() == KEY_SIZE,
            keys[keys.len() - 1] == cur_key@,
            forall|j: int| 0 <= j < keys.len() ==> (#[trigger] keys[j]).len() == KEY_SIZE,
            forall|j: int|
                0 <= j < blocks@.len() ==> (#[trigger] blocks@[j]).nonce@.len() == NONCE_SIZE,
            blocks@[0].ciphertext@.len() == payload0.len() + TAG_SIZE,
            blocks@[0].ciphertext@ == aead_ct_of(keys[0], blocks@[0].nonce@, payload0),
            forall|j: int|
                1 <= j < blocks@.len() ==> (#[trigger] blocks@[j]).ciphertext@.len() == KEY_SIZE
                    + TAG_SIZE,
            forall|j: int|
                1 <= j < blocks@.len() ==> (#[trigger] blocks@[j]).ciphertext@ == aead_ct_of(
                    keys[j],
                    blocks@[j].nonce@,
                    keys[j - 1],
                ),
        decreases rounds - i,
    {
        match fresh_key_block(&mut cur_key) {
            Ok((k, b)) => {
                blocks.push(b);
                proof {
                    keys = keys.push(k@);
                }
                cur_key = k;
            },
            Err(e) => {
                wipe(secret);
                wipe(&mut cur_key);
                return Err(e);
            },
        }
        i += 1;
    }

    let mut salt: Vec<u8> = vec![0u8; SALT_SIZE];
    if crate::primitives::fill_random(&mut salt).is_err() {
        wipe(secret);
        wipe(&mut cur_key);
        return Err(Error::RandomSource);
    }
    let mut final_key: Vec<u8> = match crate::primitives::derive_key(secret, &salt) {
        Ok(k) => k,
        Err(e) => {
            wipe(&mut cur_key);
            return Err(e);
        },
    };
    match encrypt_block(&mut cur_key, &mut final_key) {
        Ok(b) => {
            blocks.push(b);
            proof {
                assert(chain_encodes_with(salt@, blocks@, old(secret)@, payload0, keys));
            }
            Ok(HiddenData { salt, blocks })
        },
        Err(e) => Err(e),
    }
}

/// Recovers the payload from a chain: derives the key for the last block from
/// the secret and the stored salt, then walks the blocks in reverse, each
/// recovered key opening the block before it, down to the payload in block 0.
/// The secret and every recovered key are erased before the call returns, on
/// success and on failure. Success returns exactly the payload the chain
/// genuinely encodes for this secret; an authentication failure means the
/// chain encodes nothing for it (wrong secret, or corrupted or tampered
/// data); a derivation failure is a primitive failure and says nothing of the
/// data.
pub fn recover(hidden: HiddenData, secret: &mut Vec<u8>) -> (r: Result<Vec<u8>, Error>)
    requires
        old(secret)@.len() <= 0x7fffffff,
        hidden.salt@.len() <= 0x7fffffff,
        forall|i: int|
            0 <= i < hidden.blocks@.len() ==> (#[trigger] hidden.blocks@[i]).ciphertext@.len()
                <= 0x7fffff00,
    ensures
        final(secret)@.len() == old(secret)@.len(),
        all_zero(final(secret)@),
        r matches Err(e) ==> e == Error::Derivation || e == Error::Authentication,
        r matches Ok(p) ==> chain_encodes(hidden.salt@, hidden.blocks@, old(secret)@, p@),
        r matches Ok(p) ==> forall|q: Seq<u8>|
            chain_encodes(hidden.salt@, hidden.blocks@, old(secret)@, q) ==> q == p@,
        r matches Err(Error::Authentication) ==> forall|q: Seq<u8>|
            !chain_encodes(hidden.salt@, hidden.blocks@, old(secret)@, q),
{
    let ghost secret0 = secret@;
    let ghost salt0 = hidden.salt@;
    let ghost bl = hidden.blocks@;
    let n = hidden.blocks.len();
    if n < 2 {
        wipe(secret);
        return Err(Error::Authentication);
    }

    let mut fkey: Vec<u8> = match crate::primitives::derive_key(secret, &hidden.salt) {
        Ok(k) => k,
        Err(_) => {
            return Err(Error::Derivation);
        },
    };
    let ghost dk = derived_key_of(secret0, salt0, PBKDF_ITERS as int, KEY_SIZE as int);

    let last = n - 1;
    if hidden.blocks[last].nonce.len() != NONCE_SIZE || hidden.blocks[last].ciphertext.len()
        != KEY_SIZE + TAG_SIZE {
        wipe(&mut fkey);
        proof {
            assert forall|q: Seq<u8>| !chain_encodes(salt0, bl, secret0, q) by {
                if chain_encodes(salt0, bl, secret0, q) {
                    let keys = choose|keys: Seq<Seq<u8>>|
                        chain_encodes_with(salt0, bl, secret0, q, keys);
                    assert(bl[n - 1].nonce@.len() == NONCE_SIZE);
                    assert(bl[n - 1].ciphertext@.len() == KEY_SIZE + TAG_SIZE);
                }
            }
        }
        return Err(Error::Authentication);
    }
    let (body, tag) = split_tag(&hidden.blocks[last].ciphertext);
    let dec = crate::primitives::aead_decrypt(&fkey, &hidden.blocks[last].nonce, &body, &tag);
    wipe(&mut fkey);
    let mut cur: Vec<u8> = match dec {
        Ok(k) => k,
        Err(_) => {
            proof {
                assert forall|q: Seq<u8>| !chain_encodes(salt0, bl, secret0, q) by {
                    if chain_encodes(salt0, bl, secret0, q) {
                        let keys = choose|keys: Seq<Seq<u8>>|
                            chain_encodes_with(salt0, bl, secret0, q, keys);
                        assert(body@ + tag@ == aead_ct_of(dk, bl[n - 1].nonce@, keys[n - 2]));
                    }
                }
            }
            return Err(Error::Authentication);
        },
    };
    proof {
        assert forall|q: Seq<u8>, keys: Seq<Seq<u8>>|
            chain_encodes_with(salt0, bl, secret0, q, keys) implies keys[n - 2] == cur@ by {
            assert(body@ + tag@ == aead_ct_of(dk, bl[n - 1].nonce@, keys[n - 2]));
        }
    }

    let ghost mut tail: Seq<Seq<u8>> = seq![cur@];
    let mut j: usize = n - 2;
    while j >= 1
        invariant
            2 <= n == bl.len(),
            j <= n - 2,
            bl == hidden.blocks@,
            salt0 == hidden.salt@,
            dk == derived_key_of(secret0, salt0, PBKDF_ITERS as int, KEY_SIZE as int),
            cur@.len() == KEY_SIZE,
            tail.len() == n - 1 - j,
            tail[0] == cur@,
            forall|m: int| 0 <= m < tail.len() ==> (#[trigger] tail[m]).len() == KEY_SIZE,
            forall|m: int| j < m < n ==> (#[trigger] bl[m]).nonce@.len() == NONCE_SIZE,
            forall|m: int|
                j < m < n ==> (#[trigger] bl[m]).ciphertext@.len() == KEY_SIZE + TAG_SIZE,
            forall|m: int|
                1 <= m < tail.len() ==> (#[trigger] bl[j + m]).ciphertext@ == aead_ct_of(
                    tail[m],
                    bl[j + m].nonce@,
                    tail[m - 1],
                ),
            bl[n - 1].ciphertext@ == aead_ct_of(dk, bl[n - 1].nonce@, tail[tail.len() - 1]),
            forall|q: Seq<u8>, keys: Seq<Seq<u8>>|
                chain_encodes_with(salt0, bl, secret0, q, keys) ==> keys[j as int] == cur@,
            secret0 == old(secret)@,
            secret@.len() == secret0.len(),
            all_zero(secret@),
            forall|i: int|
                0 <= i < bl.len() ==> (#[trigger] bl[i]).ciphertext@.len() <= 0x7fffff00,
        decreases j,
    {
        if hidden.blocks[j].nonce.len() != NONCE_SIZE || hidden.blocks[j].ciphertext.len()
            != KEY_SIZE + TAG_SIZE {
            wipe(&mut cur);
            proof {
                assert forall|q: Seq<u8>| !chain_encodes(salt0, bl, secret0, q) by {
                    if chain_encodes(salt0, bl, secret0, q) {
                        let keys = choose|keys: Seq<Seq<u8>>|
                            chain_encodes_with(salt0, bl, secret0, q, keys);
                        assert(bl[j as int].nonce@.len() == NONCE_SIZE);
                        assert(bl[j as int].ciphertext@.len() == KEY_SIZE + TAG_SIZE);
                    }
                }
            }
            return Err(Error::Authentication);
        }
        let (body, tag) = split_tag(&hidden.blocks[j].ciphertext);
        let dec = crate::primitives::aead_decrypt(&cur, &hidden.blocks[j].nonce, &body, &tag);
        let ghost curv = cur@;
        wipe(&mut cur);
        match dec {
            Ok(prev) => {
                proof {
                    assert forall|q: Seq<u8>, keys: Seq<Seq<u8>>|
                        chain_encodes_with(salt0, bl, secret0, q, keys) implies keys[j - 1]
                        == prev@ by {
                        assert(keys[j as int] == curv);
                        assert(bl[j as int].ciphertext@ == aead_ct_of(
                            curv,
                            bl[j as int].nonce@,
                            keys[j - 1],
                        ));
                    }
                    let tail0 = tail;
                    tail = seq![prev@] + tail;
                    assert(bl[j as int].ciphertext@ == aead_ct_of(curv, bl[j as int].nonce@, prev@));
                    assert forall|m: int|
                        1 <= m < tail.len() implies (#[trigger] bl[(j - 1) + m]).ciphertext@
                        == aead_ct_of(tail[m], bl[(j - 1) + m].nonce@, tail[m - 1]) by {
                        assert(tail[m] == tail0[m - 1]);
                        if m == 1 {
                            assert(tail[0] == prev@);
                            assert(tail0[0] == curv);
                        } else {
                            assert(tail[m - 1] == tail0[m - 2]);
                            assert(bl[j + (m - 1)].ciphertext@ == aead_ct_of(
                                tail0[m - 1],
                                bl[j + (m - 1)].nonce@,
                                tail0[m - 2],
                            ));
                        }
                    }
                    assert(tail[tail.len() - 1] == tail0[tail0.len() - 1]);
                }
                cur = prev;
            },
            Err(_) => {
                proof {
                    assert forall|q: Seq<u8>| !chain_encodes(salt0, bl, secret0, q) by {
                        if chain_encodes(salt0, bl, secret0, q) {
                            let keys = choose|keys: Seq<Seq<u8>>|
                                chain_encodes_with(salt0, bl, secret0, q, keys);
                            assert(keys[j as int] == curv);
                            assert(body@ + tag@ == aead_ct_of(
                                curv,
                                bl[j as int].nonce@,
                                keys[j - 1],
                            ));
                        }
                    }
                }
                return Err(Error::Authentication);
            },
        }
        j -= 1;
    }

    if hidden.blocks[0].nonce.len() != NONCE_SIZE || hidden.blocks[0].ciphertext.len() < TAG_SIZE {
        wipe(&mut cur);
        proof {
            assert forall|q: Seq<u8>| !chain_encodes(salt0, bl, secret0, q) by {
                if chain_encodes(salt0, bl, secret0, q) {
                    let keys = choose|keys: Seq<Seq<u8>>|
                        chain_encodes_with(salt0, bl, secret0, q, keys);
                    assert(bl[0].nonce@.len() == NONCE_SIZE);
                    assert(bl[0].ciphertext@.len() == q.len() + TAG_SIZE);
                }
            }
        }
        return Err(Error::Authentication);
    }
    let (body, tag) = split_tag(&hidden.blocks[0].ciphertext);
    let dec = crate::primitives::aead_decrypt(&cur, &hidden.blocks[0].nonce, &body, &tag);
    let ghost curv = cur@;
    wipe(&mut cur);
    match dec {
        Ok(payload) => {
            proof {
                assert forall|i: int|
                    1 <= i < bl.len() - 1 implies (#[trigger] bl[i]).ciphertext@ == aead_ct_of(
                    tail[i],
                    bl[i].nonce@,
                    tail[i - 1],
                ) by {
                    assert(bl[j + i].ciphertext@ == aead_ct_of(
                        tail[i],
                        bl[j + i].nonce@,
                        tail[i - 1],
                    ));
                }
                assert(bl[0].ciphertext@ == body@ + tag@);
                assert(body@ + tag@ == aead_ct_of(curv, bl[0].nonce@, payload@));
                assert(tail[0] == curv);
                assert(chain_encodes_with(salt0, bl, secret0, payload@, tail));
                assert forall|q: Seq<u8>|
                    chain_encodes(salt0, bl, secret0, q) implies q == payload@ by {
                    let keys = choose|keys: Seq<Seq<u8>>|
                        chain_encodes_with(salt0, bl, secret0, q, keys);
                    assert(keys[0] == curv);
                    assert(body@ + tag@ == aead_ct_of(curv, bl[0].nonce@, q));
                }
            }
            Ok(payload)
        },
        Err(_) => {
            proof {
                assert forall|q: Seq<u8>| !chain_encodes(salt0, bl, secret0, q) by {
                    if chain_encodes(salt0, bl, secret0, q) {
                        let keys = choose|keys: Seq<Seq<u8>>|
                            chain_encodes_with(salt0, bl, secret0, q, keys);
                        assert(keys[0] == curv);
                        assert(body@ + tag@ == aead_ct_of(curv, bl[0].nonce@, q));
                    }
                }
            }
            Err(Error::Authentication)
        },
    }
}

} // verus!

