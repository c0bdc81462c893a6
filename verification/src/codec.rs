//! The serialized form of a chain, for persistence or transport: the salt,
//! the block count, then each block in chain order as nonce, ciphertext
//! length and ciphertext bytes. Counts and lengths are eight-byte
//! little-endian fields. Decoding accepts exactly the encodings.

use vstd::prelude::*;

use crate::EncryptedBlock;
use crate::Error;
use crate::HiddenData;
use crate::NONCE_SIZE;
use crate::SALT_SIZE;

verus! {

/// The eight little-endian bytes of a length field.
pub open spec fn u64_bytes(n: u64) -> Seq<u8> {
    seq![
        (n & 0xff) as u8,
        ((n >> 8) & 0xff) as u8,
        ((n >> 16) & 0xff) as u8,
        ((n >> 24) & 0xff) as u8,
        ((n >> 32) & 0xff) as u8,
        ((n >> 40) & 0xff) as u8,
        ((n >> 48) & 0xff) as u8,
        ((n >> 56) & 0xff) as u8,
    ]
}

/// The value a run of eight little-endian bytes stands for.
pub open spec fn u64_of(s: Seq<u8>) -> u64
    recommends
        s.len() == 8,
{
    ((s[0] as u64) | ((s[1] as u64) << 8) | ((s[2] as u64) << 16) | ((s[3] as u64) << 24) | (
    (s[4] as u64) << 32) | ((s[5] as u64) << 40) | ((s[6] as u64) << 48) | ((s[7] as u64) << 56))
}

/// Reading back the eight bytes written for `n` yields `n`.
pub proof fn lemma_u64_roundtrip(n: u64)
    ensures
        u64_of(u64_bytes(n)) == n,
{
    assert((((n & 0xff) as u8 as u64) | (((n >> 8) & 0xff) as u8 as u64) << 8 | (((n >> 16)
        & 0xff) as u8 as u64) << 16 | (((n >> 24) & 0xff) as u8 as u64) << 24 | (((n >> 32)
        & 0xff) as u8 as u64) << 32 | (((n >> 40) & 0xff) as u8 as u64) << 40 | (((n >> 48)
        & 0xff) as u8 as u64) << 48 | (((n >> 56) & 0xff) as u8 as u64) << 56) == n)
        by (bit_vector);
}

/// Writing the value eight bytes stand for reproduces those bytes.
pub proof fn lemma_u64_bytes_of(s: Seq<u8>)
    requires
        s.len() == 8,
    ensures
        u64_bytes(u64_of(s)) == s,
{
    let b0 = s[0];
    let b1 = s[1];
    let b2 = s[2];
    let b3 = s[3];
    let b4 = s[4];
    let b5 = s[5];
    let b6 = s[6];
    let b7 = s[7];
    let n = u64_of(s);
    assert(n == ((b0 as u64) | ((b1 as u64) << 8) | ((b2 as u64) << 16) | ((b3 as u64) << 24) | (
    (b4 as u64) << 32) | ((b5 as u64) << 40) | ((b6 as u64) << 48) | ((b7 as u64) << 56)));
    assert({
        let m = ((b0 as u64) | ((b1 as u64) << 8) | ((b2 as u64) << 16) | ((b3 as u64) << 24) | (
        (b4 as u64) << 32) | ((b5 as u64) << 40) | ((b6 as u64) << 48) | ((b7 as u64) << 56));
        (m & 0xff) as u8 == b0 && ((m >> 8) & 0xff) as u8 == b1 && ((m >> 16) & 0xff) as u8 == b2
            && ((m >> 24) & 0xff) as u8 == b3 && ((m >> 32) & 0xff) as u8 == b4 && ((m >> 40)
            & 0xff) as u8 == b5 && ((m >> 48) & 0xff) as u8 == b6 && ((m >> 56) & 0xff) as u8 == b7
    }) by (bit_vector);
    assert(u64_bytes(n) =~= s);
}

/// Appends the eight little-endian bytes of `n`.
fn push_u64(out: &mut Vec<u8>, n: u64)
    ensures
        final(out)@ == old(out)@ + u64_bytes(n),
{
    assert((n & 0xff) <= 0xff && ((n >> 8) & 0xff) <= 0xff && ((n >> 16) & 0xff) <= 0xff && ((n
        >> 24) & 0xff) <= 0xff && ((n >> 32) & 0xff) <= 0xff && ((n >> 40) & 0xff) <= 0xff && ((n
        >> 48) & 0xff) <= 0xff && ((n >> 56) & 0xff) <= 0xff) by (bit_vector);
    out.push((n & 0xff) as u8);
    out.push(((n >> 8) & 0xff) as u8);
    out.push(((n >> 16) & 0xff) as u8);
    out.push(((n >> 24) & 0xff) as u8);
    out.push(((n >> 32) & 0xff) as u8);
    out.push(((n >> 40) & 0xff) as u8);
    out.push(((n >> 48) & 0xff) as u8);
    out.push(((n >> 56) & 0xff) as u8);
    proof {
        assert(out@ =~= old(out)@ + u64_bytes(n));
    }
}

/// Reads the eight-byte little-endian field at `pos`.
fn read_u64(bytes: &Vec<u8>, pos: usize) -> (r: u64)
    requires
        pos + 8 <= bytes@.len(),
    ensures
        r == u64_of(bytes@.subrange(pos as int, pos + 8)),
{
    let n = bytes.len();
    let r = (bytes[pos] as u64) | ((bytes[pos + 1] as u64) << 8) | ((bytes[pos + 2] as u64) << 16)
        | ((bytes[pos + 3] as u64) << 24) | ((bytes[pos + 4] as u64) << 32) | ((bytes[pos
        + 5] as u64) << 40) | ((bytes[pos + 6] as u64) << 48) | ((bytes[pos + 7] as u64) << 56);
    proof {
        let s = bytes@.subrange(pos as int, pos + 8);
        assert(s[0] == bytes@[pos as int] && s[1] == bytes@[pos + 1] && s[2] == bytes@[pos + 2]
            && s[3] == bytes@[pos + 3] && s[4] == bytes@[pos + 4] && s[5] == bytes@[pos + 5] && s[6]
            == bytes@[pos + 6] && s[7] == bytes@[pos + 7]);
    }
    r
}

/// Appends a copy of `v`.
fn append_bytes(out: &mut Vec<u8>, v: &Vec<u8>)
    ensures
        final(out)@ == old(out)@ + v@,
{
    let ghost base = out@;
    let mut i: usize = 0;
    while i < v.len()
        invariant
            i <= v@.len(),
            out@ == base + v@.subrange(0, i as int),
        decreases v@.len() - i,
    {
        out.push(v[i]);
        proof {
            assert(base + v@.subrange(0, i + 1 as int) =~= (base + v@.subrange(0, i as int)).push(
                v@[i as int],
            ));
        }
        i += 1;
    }
    proof {
        assert(base + v@.subrange(0, v@.len() as int) =~= base + v@);
    }
}

/// The serialized form of one block: its nonce, then the length of its
/// ciphertext, then the ciphertext bytes.
pub open spec fn block_bytes(b: EncryptedBlock) -> Seq<u8> {
    b.nonce@ + u64_bytes(b.ciphertext@.len() as u64) + b.ciphertext@
}

/// The serialized form of a run of blocks, in chain order.
pub open spec fn blocks_bytes(blocks: Seq<EncryptedBlock>) -> Seq<u8>
    decreases blocks.len(),
{
    if blocks.len() == 0 {
        Seq::empty()
    } else {
        block_bytes(blocks[0]) + blocks_bytes(blocks.drop_first())
    }
}

/// The fixed field lengths the layout prescribes: a full-size salt and a
/// full-size nonce on every block.
pub open spec fn wf_layout(h: HiddenData) -> bool {
    &&& h.salt@.len() == SALT_SIZE
    &&& (forall|i: int|
        0 <= i < h.blocks@.len() ==> (#[trigger] h.blocks@[i]).nonce@.len() == NONCE_SIZE)
}

/// The serialized form of a whole chain: salt, block count, blocks.
pub open spec fn chain_bytes(h: HiddenData) -> Seq<u8> {
    h.salt@ + u64_bytes(h.blocks@.len() as u64) + blocks_bytes(h.blocks@)
}

/// Serializing one more block appends that block's bytes.
proof fn lemma_blocks_bytes_push(s: Seq<EncryptedBlock>, b: EncryptedBlock)
    ensures
        blocks_bytes(s.push(b)) == blocks_bytes(s) + block_bytes(b),
    decreases s.len(),
{
    if s.len() == 0 {
        assert(s.push(b)[0] == b);
        assert(s.push(b).drop_first() =~= s);
        assert(blocks_bytes(s.push(b)) =~= blocks_bytes(s) + block_bytes(b));
    } else {
        lemma_blocks_bytes_push(s.drop_first(), b);
        assert(s.push(b)[0] == s[0]);
        assert(s.push(b).drop_first() =~= s.drop_first().push(b));
        assert(block_bytes(s[0]) + (blocks_bytes(s.drop_first()) + block_bytes(b)) =~= (block_bytes(
            s[0],
        ) + blocks_bytes(s.drop_first())) + block_bytes(b));
    }
}

/// Every serialized block takes at least its nonce and length fields.
proof fn lemma_blocks_bytes_min_len(s: Seq<EncryptedBlock>)
    requires
        forall|i: int| 0 <= i < s.len() ==> (#[trigger] s[i]).nonce@.len() == NONCE_SIZE,
    ensures
        blocks_bytes(s).len() >= (NONCE_SIZE + 8) * s.len(),
    decreases s.len(),
{
    if s.len() > 0 {
        assert(forall|i: int|
            0 <= i < s.drop_first().len() ==> (#[trigger] s.drop_first()[i]).nonce@.len()
                == NONCE_SIZE);
        lemma_blocks_bytes_min_len(s.drop_first());
    }
}

/// What the header of a serialized chain pins down: the salt is the first
/// field, the block count is the second, and the rest is the blocks' bytes.
proof fn lemma_header_facts(h: HiddenData, bytes: Seq<u8>)
    requires
        wf_layout(h),
        chain_bytes(h) == bytes,
    ensures
        bytes.len() >= SALT_SIZE + 8,
        h.blocks@.len() <= usize::MAX,
        h.salt@ == bytes.subrange(0, SALT_SIZE as int),
        h.blocks@.len() as u64 == u64_of(bytes.subrange(SALT_SIZE as int, SALT_SIZE + 8)),
        blocks_bytes(h.blocks@) == bytes.subrange(SALT_SIZE + 8, bytes.len() as int),
{
    assert(h.blocks@.len() <= usize::MAX) by {
        assert(h.blocks.len() == h.blocks@.len());
    }
    assert(h.salt@ =~= bytes.subrange(0, SALT_SIZE as int));
    assert(u64_bytes(h.blocks@.len() as u64) =~= bytes.subrange(SALT_SIZE as int, SALT_SIZE + 8));
    lemma_u64_roundtrip(h.blocks@.len() as u64);
    assert(blocks_bytes(h.blocks@) =~= bytes.subrange(SALT_SIZE + 8, bytes.len() as int));
}

/// Where one serialized block starts in the buffer, its fields and the rest
/// of the buffer are pinned down by its shape.
proof fn lemma_block_at(b: EncryptedBlock, rest: Seq<u8>, bytes: Seq<u8>, pos: int)
    requires
        b.nonce@.len() == NONCE_SIZE,
        0 <= pos <= bytes.len(),
        block_bytes(b) + rest == bytes.subrange(pos, bytes.len() as int),
    ensures
        pos + NONCE_SIZE + 8 + b.ciphertext@.len() + rest.len() == bytes.len(),
        b.nonce@ == bytes.subrange(pos, pos + NONCE_SIZE),
        b.ciphertext@.len() as u64 == u64_of(
            bytes.subrange(pos + NONCE_SIZE, pos + NONCE_SIZE + 8),
        ),
        b.ciphertext@ == bytes.subrange(
            pos + NONCE_SIZE + 8,
            pos + NONCE_SIZE + 8 + b.ciphertext@.len(),
        ),
        rest == bytes.subrange(pos + NONCE_SIZE + 8 + b.ciphertext@.len(), bytes.len() as int),
{
    assert(b.ciphertext@.len() <= usize::MAX) by {
        assert(b.ciphertext.len() == b.ciphertext@.len());
    }
    assert(u64_bytes(b.ciphertext@.len() as u64).len() == 8);
    assert(block_bytes(b).len() == NONCE_SIZE + 8 + b.ciphertext@.len());
    assert((block_bytes(b) + rest).len() == bytes.len() - pos);
    let whole = block_bytes(b) + rest;
    assert forall|i: int| 0 <= i < whole.len() implies whole[i] == bytes[pos + i] by {
        assert(whole[i] == bytes.subrange(pos, bytes.len() as int)[i]);
    }
    assert forall|i: int| 0 <= i < block_bytes(b).len() implies block_bytes(b)[i] == bytes[pos
        + i] by {
        assert(whole[i] == block_bytes(b)[i]);
    }
    assert(b.nonce@ =~= bytes.subrange(pos, pos + NONCE_SIZE));
    assert forall|i: int|
        0 <= i < 8 implies (#[trigger] u64_bytes(b.ciphertext@.len() as u64)[i]) == bytes[pos
        + NONCE_SIZE + i] by {
        assert(block_bytes(b)[NONCE_SIZE + i] == u64_bytes(b.ciphertext@.len() as u64)[i]);
    }
    assert(u64_bytes(b.ciphertext@.len() as u64) =~= bytes.subrange(
        pos + NONCE_SIZE,
        pos + NONCE_SIZE + 8,
    ));
    lemma_u64_roundtrip(b.ciphertext@.len() as u64);
    assert forall|i: int|
        0 <= i < b.ciphertext@.len() implies b.ciphertext@[i] == bytes[pos + NONCE_SIZE + 8
        + i] by {
        assert(block_bytes(b)[NONCE_SIZE + 8 + i] == b.ciphertext@[i]);
    }
    assert(b.ciphertext@ =~= bytes.subrange(
        pos + NONCE_SIZE + 8,
        pos + NONCE_SIZE + 8 + b.ciphertext@.len(),
    ));
    assert forall|i: int|
        0 <= i < rest.len() implies rest[i] == bytes[pos + NONCE_SIZE + 8 + b.ciphertext@.len()
        + i] by {
        assert(whole[block_bytes(b).len() + i] == rest[i]);
    }
    assert(rest =~= bytes.subrange(
        pos + NONCE_SIZE + 8 + b.ciphertext@.len(),
        bytes.len() as int,
    ));
}

/// Serializes a chain into the persisted byte layout.
pub fn encode(h: &HiddenData) -> (r: Vec<u8>)
    requires
        wf_layout(*h),
    ensures
        r@ == chain_bytes(*h),
{
    let mut out: Vec<u8> = Vec::new();
    append_bytes(&mut out, &h.salt);
    push_u64(&mut out, h.blocks.len() as u64);
    let ghost header = h.salt@ + u64_bytes(h.blocks@.len() as u64);
    proof {
        assert(out@ =~= header + blocks_bytes(h.blocks@.take(0)));
    }
    let mut k: usize = 0;
    while k < h.blocks.len()
        invariant
            k <= h.blocks@.len(),
            wf_layout(*h),
            header == h.salt@ + u64_bytes(h.blocks@.len() as u64),
            out@ == header + blocks_bytes(h.blocks@.take(k as int)),
        decreases h.blocks@.len() - k,
    {
        let ghost before = out@;
        append_bytes(&mut out, &h.blocks[k].nonce);
        push_u64(&mut out, h.blocks[k].ciphertext.len() as u64);
        append_bytes(&mut out, &h.blocks[k].ciphertext);
        proof {
            let b = h.blocks@[k as int];
            assert(out@ =~= before + block_bytes(b));
            lemma_blocks_bytes_push(h.blocks@.take(k as int), b);
            assert(h.blocks@.take(k + 1) =~= h.blocks@.take(k as int).push(b));
            assert(out@ =~= header + blocks_bytes(h.blocks@.take(k + 1)));
        }
        k += 1;
    }
    proof {
        assert(h.blocks@.take(h.blocks@.len() as int) =~= h.blocks@);
        assert(out@ =~= chain_bytes(*h));
    }
    out
}

/// Parses the persisted byte layout back into a chain. Success returns
/// exactly the chain the bytes spell, so re-encoding it reproduces the
/// input; failure means the bytes spell no chain at all.
#[verifier::rlimit(60)]
pub fn decode(bytes: &Vec<u8>) -> (r: Result<HiddenData, Error>)
    ensures
        r matches Ok(h) ==> wf_layout(h) && chain_bytes(h) == bytes@,
        r matches Err(e) ==> e == Error::Malformed,
        r matches Err(_) ==> forall|h: HiddenData| wf_layout(h) ==> chain_bytes(h) != bytes@,
{
    let n = bytes.len();
    if n < SALT_SIZE + 8 {
        proof {
            assert forall|h: HiddenData| wf_layout(h) implies chain_bytes(h) != bytes@ by {
                if chain_bytes(h) == bytes@ {
                    lemma_header_facts(h, bytes@);
                }
            }
        }
        return Err(Error::Malformed);
    }
    let salt = crate::chain::copy_range(bytes, 0, SALT_SIZE);
    let count64 = read_u64(bytes, SALT_SIZE);
    let per_block = NONCE_SIZE + 8;
    if count64 > ((n - (SALT_SIZE + 8)) / per_block) as u64 {
        proof {
            assert forall|h: HiddenData| wf_layout(h) implies chain_bytes(h) != bytes@ by {
                if chain_bytes(h) == bytes@ {
                    lemma_header_facts(h, bytes@);
                    lemma_blocks_bytes_min_len(h.blocks@);
                }
            }
        }
        return Err(Error::Malformed);
    }
    let count = count64 as usize;

    let mut blocks: Vec<EncryptedBlock> = Vec::new();
    let mut pos: usize = SALT_SIZE + 8;
    let mut k: usize = 0;
    proof {
        assert(blocks_bytes(blocks@) =~= bytes@.subrange(SALT_SIZE + 8, pos as int));
        assert forall|h: HiddenData| #![trigger chain_bytes(h)]
            wf_layout(h) && chain_bytes(h) == bytes@ implies h.blocks@.len() == count
                && blocks_bytes(h.blocks@.skip(k as int)) == bytes@.subrange(
                pos as int,
                n as int,
            ) by {
            lemma_header_facts(h, bytes@);
            assert(h.blocks@.len() as u64 == count64);
            assert(h.blocks@.len() == count);
            assert(h.blocks@.skip(k as int) =~= h.blocks@);
        }
    }
    while k < count
        invariant
            n == bytes@.len(),
            SALT_SIZE + 8 <= pos <= n,
            k <= count,
            count == count64,
            salt@ == bytes@.subrange(0, SALT_SIZE as int),
            count64 == u64_of(bytes@.subrange(SALT_SIZE as int, SALT_SIZE + 8)),
            blocks@.len() == k,
            forall|i: int|
                0 <= i < blocks@.len() ==> (#[trigger] blocks@[i]).nonce@.len() == NONCE_SIZE,
            blocks_bytes(blocks@) == bytes@.subrange(SALT_SIZE + 8, pos as int),
            forall|h: HiddenData| #![trigger chain_bytes(h)]
                wf_layout(h) && chain_bytes(h) == bytes@ ==> h.blocks@.len() == count
                    && blocks_bytes(h.blocks@.skip(k as int)) == bytes@.subrange(
                    pos as int,
                    n as int,
                ),
        decreases count - k,
    {
        if n - pos < NONCE_SIZE + 8 {
            proof {
                assert forall|h: HiddenData| wf_layout(h) implies chain_bytes(h) != bytes@ by {
                    if chain_bytes(h) == bytes@ {
                        let s = h.blocks@.skip(k as int);
                        assert(blocks_bytes(s) == block_bytes(s[0]) + blocks_bytes(s.drop_first()));
                        lemma_block_at(
                            s[0],
                            blocks_bytes(s.drop_first()),
                            bytes@,
                            pos as int,
                        );
                    }
                }
            }
            return Err(Error::Malformed);
        }
        let nonce = crate::chain::copy_range(bytes, pos, pos + NONCE_SIZE);
        let ctlen64 = read_u64(bytes, pos + NONCE_SIZE);
        if ctlen64 > (n - pos - NONCE_SIZE - 8) as u64 {
            proof {
                assert forall|h: HiddenData| wf_layout(h) implies chain_bytes(h) != bytes@ by {
                    if chain_bytes(h) == bytes@ {
                        let s = h.blocks@.skip(k as int);
                        assert(blocks_bytes(s) == block_bytes(s[0]) + blocks_bytes(s.drop_first()));
                        lemma_block_at(
                            s[0],
                            blocks_bytes(s.drop_first()),
                            bytes@,
                            pos as int,
                        );
                    }
                }
            }
            return Err(Error::Malformed);
        }
        let ctlen = ctlen64 as usize;
        let ct = crate::chain::copy_range(bytes, pos + NONCE_SIZE + 8, pos + NONCE_SIZE + 8 + ctlen);
        let block = EncryptedBlock { nonce, ciphertext: ct };
        proof {
            let ghost blocks0 = blocks@;
            assert(block_bytes(block) =~= bytes@.subrange(pos as int, pos + NONCE_SIZE + 8 + ctlen))
                by {
                lemma_u64_bytes_of(bytes@.subrange(pos + NONCE_SIZE, pos + NONCE_SIZE + 8));
            }
            lemma_blocks_bytes_push(blocks0, block);
            assert(blocks_bytes(blocks0.push(block)) =~= bytes@.subrange(
                SALT_SIZE + 8,
                pos + NONCE_SIZE + 8 + ctlen,
            ));
            assert forall|h: HiddenData| #![trigger chain_bytes(h)]
                wf_layout(h) && chain_bytes(h) == bytes@ implies h.blocks@.len() == count
                    && blocks_bytes(h.blocks@.skip(k + 1)) == bytes@.subrange(
                    pos + NONCE_SIZE + 8 + ctlen,
                    n as int,
                ) by {
                let s = h.blocks@.skip(k as int);
                assert(blocks_bytes(s) == block_bytes(s[0]) + blocks_bytes(s.drop_first()));
                lemma_block_at(s[0], blocks_bytes(s.drop_first()), bytes@, pos as int);
                assert(s[0].ciphertext@.len() == ctlen);
                assert(s.drop_first() =~= h.blocks@.skip(k + 1));
            }
        }
        blocks.push(block);
        pos = pos + NONCE_SIZE + 8 + ctlen;
        k += 1;
    }

    if pos != n {
        proof {
            assert forall|h: HiddenData| wf_layout(h) implies chain_bytes(h) != bytes@ by {
                if chain_bytes(h) == bytes@ {
                    assert(h.blocks@.skip(count as int).len() == 0);
                    assert(blocks_bytes(h.blocks@.skip(count as int)).len() == 0);
                }
            }
        }
        return Err(Error::Malformed);
    }
    let h = HiddenData { salt, blocks };
    proof {
        lemma_u64_bytes_of(bytes@.subrange(SALT_SIZE as int, SALT_SIZE + 8));
        assert(h.blocks@.len() as u64 == count64);
        assert(chain_bytes(h) =~= bytes@);
    }
    Ok(h)
}

} // verus!
