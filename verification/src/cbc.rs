//! Cipher block chaining and PKCS#7 padding as mathematics: what an honest padding
//! oracle answers, and what the blocks of a ciphertext decrypt to.
//!
//! The block cipher is any function from blocks to blocks. Nothing here is executable.

use crate::model::{aligned, lemma_position, plain_len};
use vstd::arithmetic::div_mod::{
    lemma_fundamental_div_mod, lemma_fundamental_div_mod_converse, lemma_mod_multiples_basic,
    lemma_mod_multiples_vanish,
};
use vstd::prelude::*;

verus! {

/// The block of `bytes` that holds the index `x`.
pub open spec fn block_at(bytes: Seq<u8>, blocksize: int, x: int) -> Seq<u8> {
    let start = x - x % blocksize;
    bytes.subrange(start, start + blocksize)
}

/// The intermediate value behind the plaintext byte at `x`: the byte that the block
/// cipher's decryption `raw` gives, at the place of `x` in its block, for the block one
/// block after `x`.
pub open spec fn intermediate(
    raw: spec_fn(Seq<u8>) -> Seq<u8>,
    bytes: Seq<u8>,
    blocksize: int,
    x: int,
) -> u8 {
    raw(block_at(bytes, blocksize, x + blocksize))[x % blocksize]
}

/// The plaintext byte at `x` under cipher block chaining: the intermediate value
/// combined by exclusive or with the ciphertext byte at `x`.
pub open spec fn cbc_byte(
    raw: spec_fn(Seq<u8>) -> Seq<u8>,
    bytes: Seq<u8>,
    blocksize: int,
    x: int,
) -> u8 {
    intermediate(raw, bytes, blocksize, x) ^ bytes[x]
}

/// The plaintext of every block of `bytes` but the first, which is the initialisation
/// vector.
pub open spec fn cbc_plain(raw: spec_fn(Seq<u8>) -> Seq<u8>, bytes: Seq<u8>, blocksize: int) -> Seq<
    u8,
> {
    Seq::new(
        plain_len(bytes.len() as int, blocksize) as nat,
        |x: int| cbc_byte(raw, bytes, blocksize, x),
    )
}

/// The plaintext of the last block of `bytes`.
pub open spec fn last_plain_block(
    raw: spec_fn(Seq<u8>) -> Seq<u8>,
    bytes: Seq<u8>,
    blocksize: int,
) -> Seq<u8> {
    Seq::new(
        blocksize as nat,
        |j: int| cbc_byte(raw, bytes, blocksize, bytes.len() - 2 * blocksize + j),
    )
}

/// `block` ends in valid PKCS#7 padding: its last byte is a length between 1 and the
/// length of the block, and that many bytes at its end hold that length.
pub open spec fn valid_padding(block: Seq<u8>) -> bool {
    let n = block.len() as int;
    let v = block[n - 1];
    &&& 1 <= v <= n
    &&& forall|j: int| n - v <= j < n ==> #[trigger] block[j] == v
}

/// The verdict of an honest padding oracle on `query`: whether its last block decrypts
/// to a block with valid padding.
pub open spec fn padding_verdict(
    raw: spec_fn(Seq<u8>) -> Seq<u8>,
    blocksize: int,
    query: Seq<u8>,
) -> bool {
    valid_padding(last_plain_block(raw, query, blocksize))
}

/// The verdicts `answers` are those of an honest padding oracle for the block cipher
/// `raw`: on a query of two whole blocks or more, no verdict is given but the right one.
pub open spec fn honest(
    answers: spec_fn(Seq<u8>, bool) -> bool,
    raw: spec_fn(Seq<u8>) -> Seq<u8>,
    blocksize: int,
) -> bool {
    forall|query: Seq<u8>, valid: bool|
        aligned(query.len() as int, blocksize) && query.len() >= 2 * blocksize
            && #[trigger] answers(query, valid) ==> valid == padding_verdict(
            raw,
            blocksize,
            query,
        )
}

/// The byte-wise exclusive or of two blocks.
pub open spec fn xor_block(a: Seq<u8>, b: Seq<u8>) -> Seq<u8> {
    Seq::new(a.len(), |j: int| a[j] ^ b[j])
}

/// The encryption of `message`, a whole number of blocks, under cipher block chaining:
/// each block is combined with the ciphertext block before it, `previous` for the
/// first, and then put through the block cipher `enc`.
pub open spec fn cbc_encrypt(
    enc: spec_fn(Seq<u8>) -> Seq<u8>,
    previous: Seq<u8>,
    message: Seq<u8>,
    blocksize: int,
) -> Seq<u8>
    decreases message.len(),
{
    if blocksize <= 0 || message.len() < blocksize {
        Seq::empty()
    } else {
        let block = enc(xor_block(message.subrange(0, blocksize), previous));
        block + cbc_encrypt(enc, block, message.subrange(blocksize, message.len() as int), blocksize)
    }
}

/// `message` with PKCS#7 padding: between 1 and `blocksize` bytes are added to fill the
/// last block, each holding their number.
pub open spec fn pkcs7_pad(message: Seq<u8>, blocksize: int) -> Seq<u8> {
    let n = blocksize - (message.len() as int) % blocksize;
    message + Seq::new(n as nat, |j: int| n as u8)
}

/// A padded message without its padding: as many bytes are dropped from the end as
/// the last byte says.
pub open spec fn pkcs7_strip(padded: Seq<u8>) -> Seq<u8> {
    padded.subrange(0, padded.len() - padded.last())
}

/// The block cipher `raw` undoes `enc` on blocks of `blocksize` bytes.
pub open spec fn inverts(
    raw: spec_fn(Seq<u8>) -> Seq<u8>,
    enc: spec_fn(Seq<u8>) -> Seq<u8>,
    blocksize: int,
) -> bool {
    forall|block: Seq<u8>|
        block.len() == blocksize ==> (#[trigger] enc(block)).len() == blocksize && raw(
            enc(block),
        ) == block
}

/// An index `y` inside the block that starts at `base` lies `y - base` bytes into it.
proof fn lemma_index_in_block(base: int, blocksize: int, y: int)
    requires
        blocksize > 0,
        base % blocksize == 0,
        base <= y < base + blocksize,
    ensures
        y % blocksize == y - base,
        y - y % blocksize == base,
{
    let q = base / blocksize;
    assert(base == q * blocksize) by (nonlinear_arith)
        requires
            blocksize > 0,
            base % blocksize == 0,
            q == base / blocksize,
    ;
    lemma_fundamental_div_mod_converse(y, blocksize, q, y - base);
}

/// The intermediate values of the last block of `query` are those of `bytes` at the
/// same indices, when `query` ends with the block that `bytes` holds there.
pub proof fn lemma_intermediate_of_query(
    raw: spec_fn(Seq<u8>) -> Seq<u8>,
    bytes: Seq<u8>,
    query: Seq<u8>,
    blocksize: int,
    x: int,
)
    requires
        blocksize > 0,
        aligned(query.len() as int, blocksize),
        2 * blocksize <= query.len() <= bytes.len(),
        query.len() - 2 * blocksize <= x < query.len() - blocksize,
        forall|y: int| query.len() - blocksize <= y < query.len() ==> query[y] == bytes[y],
    ensures
        intermediate(raw, query, blocksize, x) == intermediate(raw, bytes, blocksize, x),
        x % blocksize == x - (query.len() - 2 * blocksize),
{
    let end = query.len() as int;
    lemma_mod_multiples_vanish(-1, end, blocksize);
    lemma_mod_multiples_vanish(-2, end, blocksize);
    assert(blocksize * -1 + end == end - blocksize);
    assert(blocksize * -2 + end == end - 2 * blocksize);
    lemma_index_in_block(end - blocksize, blocksize, x + blocksize);
    lemma_index_in_block(end - 2 * blocksize, blocksize, x);
    assert(block_at(query, blocksize, x + blocksize) =~= block_at(bytes, blocksize, x + blocksize));
}

/// Padding fills the last block: the padded message is a whole number of blocks, it is
/// longer than the message by 1 to `blocksize` bytes, and stripping gives the message
/// back.
pub proof fn lemma_pad_strip(message: Seq<u8>, blocksize: int)
    requires
        0 < blocksize <= 255,
    ensures
        aligned(pkcs7_pad(message, blocksize).len() as int, blocksize),
        message.len() < pkcs7_pad(message, blocksize).len() <= message.len() + blocksize,
        pkcs7_strip(pkcs7_pad(message, blocksize)) == message,
{
    let len = message.len() as int;
    let n = blocksize - len % blocksize;
    let padded = pkcs7_pad(message, blocksize);
    lemma_fundamental_div_mod(len, blocksize);
    lemma_mod_multiples_basic(len / blocksize + 1, blocksize);
    assert((len / blocksize + 1) * blocksize == blocksize * (len / blocksize) + blocksize)
        by (nonlinear_arith);
    assert(padded.len() == len + n);
    assert(padded.last() == n as u8);
    assert(pkcs7_strip(padded) =~= message);
}

/// The ciphertext of cipher block chaining is as long as the message.
pub proof fn lemma_cbc_encrypt_len(
    enc: spec_fn(Seq<u8>) -> Seq<u8>,
    raw: spec_fn(Seq<u8>) -> Seq<u8>,
    previous: Seq<u8>,
    message: Seq<u8>,
    blocksize: int,
)
    requires
        blocksize > 0,
        aligned(message.len() as int, blocksize),
        inverts(raw, enc, blocksize),
    ensures
        cbc_encrypt(enc, previous, message, blocksize).len() == message.len(),
    decreases message.len(),
{
    if message.len() >= blocksize {
        let block = enc(xor_block(message.subrange(0, blocksize), previous));
        let rest = message.subrange(blocksize, message.len() as int);
        lemma_mod_multiples_vanish(-1, message.len() as int, blocksize);
        assert(blocksize * -1 + message.len() == rest.len());
        lemma_cbc_encrypt_len(enc, raw, block, rest, blocksize);
    } else {
        lemma_fundamental_div_mod(message.len() as int, blocksize);
        assert(message.len() == 0) by (nonlinear_arith)
            requires
                blocksize > 0,
                0 <= message.len() < blocksize,
                message.len() == blocksize * (message.len() as int / blocksize),
        ;
    }
}

/// Decryption undoes encryption: a message of whole blocks, encrypted under cipher
/// block chaining with the initialisation vector `iv` and sent with `iv` in front,
/// decrypts to itself.
pub proof fn lemma_cbc_round_trip(
    enc: spec_fn(Seq<u8>) -> Seq<u8>,
    raw: spec_fn(Seq<u8>) -> Seq<u8>,
    iv: Seq<u8>,
    message: Seq<u8>,
    blocksize: int,
)
    requires
        blocksize > 0,
        iv.len() == blocksize,
        aligned(message.len() as int, blocksize),
        inverts(raw, enc, blocksize),
    ensures
        cbc_plain(raw, iv + cbc_encrypt(enc, iv, message, blocksize), blocksize) == message,
    decreases message.len(),
{
    let sent = iv + cbc_encrypt(enc, iv, message, blocksize);
    lemma_cbc_encrypt_len(enc, raw, iv, message, blocksize);
    if message.len() >= blocksize {
        let head = message.subrange(0, blocksize);
        let block = enc(xor_block(head, iv));
        let rest = message.subrange(blocksize, message.len() as int);
        let tail = block + cbc_encrypt(enc, block, rest, blocksize);
        lemma_mod_multiples_vanish(-1, message.len() as int, blocksize);
        assert(blocksize * -1 + message.len() == rest.len());
        lemma_cbc_encrypt_len(enc, raw, block, rest, blocksize);
        lemma_cbc_round_trip(enc, raw, block, rest, blocksize);
        assert(sent =~= iv + tail);
        assert forall|x: int| 0 <= x < message.len() implies cbc_byte(raw, sent, blocksize, x)
            == message[x] by {
            if x < blocksize {
                lemma_index_in_block(0, blocksize, x);
                lemma_index_in_block(blocksize, blocksize, x + blocksize);
                assert(block_at(sent, blocksize, x + blocksize) =~= block);
                let m = head[x];
                let v = iv[x];
                assert(raw(block) == xor_block(head, iv));
                assert((m ^ v) ^ v == m) by (bit_vector);
            } else {
                let y = x - blocksize;
                lemma_mod_multiples_vanish(1, y, blocksize);
                lemma_mod_multiples_vanish(1, x, blocksize);
                assert(blocksize * 1 + y == x);
                assert(blocksize * 1 + x == x + blocksize);
                lemma_mod_multiples_vanish(1, message.len() as int, blocksize);
                assert(blocksize * 1 + message.len() == sent.len());
                lemma_position(sent.len() as int, blocksize, x);
                assert((x + blocksize) % blocksize == x % blocksize);
                assert(y % blocksize == x % blocksize);
                assert(block_at(sent, blocksize, x + blocksize) =~= block_at(
                    tail,
                    blocksize,
                    y + blocksize,
                ));
                assert(cbc_byte(raw, sent, blocksize, x) == cbc_byte(raw, tail, blocksize, y));
                assert(cbc_plain(raw, tail, blocksize)[y] == rest[y]);
            }
        }
        assert(cbc_plain(raw, sent, blocksize) =~= message);
    } else {
        assert(cbc_plain(raw, sent, blocksize) =~= message);
    }
}

} // verus!
