//! What the attack computes, stated over byte sequences and a relation of oracle
//! verdicts.
//!
//! Positions are counted in the plaintext: the plaintext byte at `offset` belongs to the
//! ciphertext byte at `offset + blocksize`, and it is found by forging the ciphertext
//! byte at `offset`, one block earlier.

use crate::error::Error;
use vstd::prelude::*;

verus! {

/// The number of plaintext bytes behind `len` bytes of ciphertext: every block but the
/// first, which only serves as the initialisation vector.
pub open spec fn plain_len(len: int, blocksize: int) -> int {
    if len >= blocksize {
        len - blocksize
    } else {
        0
    }
}

/// The most oracle calls that the attack spends on `positions` bytes: two for each of
/// the 256 candidates of a byte.
pub open spec fn max_calls(positions: int) -> int {
    2 * (256 * positions)
}

/// `len` bytes are a whole number of blocks.
pub open spec fn aligned(len: int, blocksize: int) -> bool {
    len % blocksize == 0
}

/// The padding length that is tested while the byte at `offset` is attacked: the
/// distance of that byte from the end of its block, counted from 1.
pub open spec fn pad_len(blocksize: int, offset: int) -> int {
    blocksize - offset % blocksize
}

/// The length of the working ciphertext while the byte at `offset` is attacked. It ends
/// with the block that holds `offset` and the block after it; later blocks are cut off.
pub open spec fn work_len(blocksize: int, offset: int) -> int {
    offset + pad_len(blocksize, offset) + blocksize
}

/// The padding length `pad` as the byte that PKCS#7 writes for it: its low eight bits.
pub open spec fn marker(pad: int) -> u8 {
    (pad % 256) as u8
}

/// The working ciphertext for the attack on the byte at `offset`, before a candidate is
/// written. It is `ciphertext` cut to `work_len` bytes, with each byte after `offset` in
/// the same block replaced so that the plaintext byte behind it, `plain[x]`, decrypts to
/// the marker of the padding length under test.
pub open spec fn forged(ciphertext: Seq<u8>, plain: Seq<u8>, blocksize: int, offset: int) -> Seq<
    u8,
> {
    let pad = pad_len(blocksize, offset);
    Seq::new(
        work_len(blocksize, offset) as nat,
        |x: int|
            if offset < x < offset + pad {
                marker(pad) ^ plain[x] ^ ciphertext[x]
            } else {
                ciphertext[x]
            },
    )
}

/// The query that tries the candidate `k` at `offset`.
pub open spec fn probe(work: Seq<u8>, offset: int, k: u8) -> Seq<u8> {
    work.update(offset, k)
}

/// The query that confirms a candidate: `query` with the byte before `offset`
/// complemented.
pub open spec fn flipped(query: Seq<u8>, offset: int) -> Seq<u8> {
    query.update(offset - 1, !query[offset - 1])
}

/// The candidate `k` is confirmed at `offset`: the oracle accepts the probe, and, unless
/// `offset` is the first byte of a block, it accepts the probe again with the byte
/// before `offset` complemented.
pub open spec fn accepted(
    answers: spec_fn(Seq<u8>, bool) -> bool,
    work: Seq<u8>,
    blocksize: int,
    offset: int,
    k: u8,
) -> bool {
    &&& answers(probe(work, offset, k), true)
    &&& offset % blocksize == 0 || answers(flipped(probe(work, offset, k), offset), true)
}

/// The candidate `k` is turned down at `offset`: the oracle rejects the probe, or it
/// accepts the probe and rejects the confirming query.
pub open spec fn rejected(
    answers: spec_fn(Seq<u8>, bool) -> bool,
    work: Seq<u8>,
    blocksize: int,
    offset: int,
    k: u8,
) -> bool {
    ||| answers(probe(work, offset, k), false)
    ||| {
        &&& offset % blocksize != 0
        &&& answers(probe(work, offset, k), true)
        &&& answers(flipped(probe(work, offset, k), offset), false)
    }
}

/// `k` is the candidate that the search at `offset` settles on: it is confirmed, and
/// every smaller candidate was turned down.
pub open spec fn first_accepted(
    answers: spec_fn(Seq<u8>, bool) -> bool,
    work: Seq<u8>,
    blocksize: int,
    offset: int,
    k: u8,
) -> bool {
    &&& accepted(answers, work, blocksize, offset, k)
    &&& forall|j: u8| j < k ==> #[trigger] rejected(answers, work, blocksize, offset, j)
}

/// The search at `offset` fails: each of the 256 candidates was turned down.
pub open spec fn none_accepted(
    answers: spec_fn(Seq<u8>, bool) -> bool,
    work: Seq<u8>,
    blocksize: int,
    offset: int,
) -> bool {
    forall|j: u8| #[trigger] rejected(answers, work, blocksize, offset, j)
}

/// The plaintext byte that follows from the candidate `k` confirmed at `offset`, where
/// the ciphertext held `initial`.
pub open spec fn plain_byte(initial: u8, k: u8, pad: int) -> u8 {
    initial ^ k ^ marker(pad)
}

/// `plain` holds at `offset` the byte that the attack finds there, given the bytes that
/// `plain` holds after `offset`.
pub open spec fn recovers(
    answers: spec_fn(Seq<u8>, bool) -> bool,
    ciphertext: Seq<u8>,
    plain: Seq<u8>,
    blocksize: int,
    offset: int,
) -> bool {
    exists|k: u8|
        {
            &&& #[trigger] first_accepted(
                answers,
                forged(ciphertext, plain, blocksize, offset),
                blocksize,
                offset,
                k,
            )
            &&& plain[offset] == plain_byte(ciphertext[offset], k, pad_len(blocksize, offset))
        }
}

/// `plain` holds what the attack finds at every position from `start` on.
pub open spec fn recovered_from(
    answers: spec_fn(Seq<u8>, bool) -> bool,
    ciphertext: Seq<u8>,
    plain: Seq<u8>,
    blocksize: int,
    start: int,
) -> bool {
    forall|x: int|
        start <= x < plain.len() ==> #[trigger] recovers(answers, ciphertext, plain, blocksize, x)
}

/// The attack comes to a halt at `offset`: `plain` holds what it found after `offset`,
/// and at `offset` no candidate is confirmed.
pub open spec fn stuck_at(
    answers: spec_fn(Seq<u8>, bool) -> bool,
    ciphertext: Seq<u8>,
    plain: Seq<u8>,
    blocksize: int,
    offset: int,
) -> bool {
    &&& plain.len() == plain_len(ciphertext.len() as int, blocksize)
    &&& 0 <= offset < plain.len()
    &&& recovered_from(answers, ciphertext, plain, blocksize, offset + 1)
    &&& none_accepted(
        answers,
        forged(ciphertext, plain, blocksize, offset),
        blocksize,
        offset,
    )
}

/// `result` is what an attack on `ciphertext` returns when the oracle's verdicts are
/// among `answers`.
///
/// - A ciphertext that is not a whole number of blocks gives `WrongSize`, and nothing
///   else does.
/// - `Ok` carries one byte for each ciphertext byte after the first block, each of them
///   the byte that the search at its position settles on.
/// - `InvalidPadding` means that the search failed at some position after it had
///   succeeded at all later ones.
pub open spec fn outcome(
    answers: spec_fn(Seq<u8>, bool) -> bool,
    ciphertext: Seq<u8>,
    blocksize: int,
    result: Result<Vec<u8>, Error>,
) -> bool {
    match result {
        Err(Error::WrongSize { blocksize: expected, found }) => {
            &&& !aligned(ciphertext.len() as int, blocksize)
            &&& expected == blocksize
            &&& found == ciphertext.len()
        },
        Ok(plain) => {
            &&& aligned(ciphertext.len() as int, blocksize)
            &&& plain@.len() == plain_len(ciphertext.len() as int, blocksize)
            &&& recovered_from(answers, ciphertext, plain@, blocksize, 0)
        },
        Err(Error::InvalidPadding) => {
            &&& aligned(ciphertext.len() as int, blocksize)
            &&& exists|plain: Seq<u8>, offset: int|
                #[trigger] stuck_at(answers, ciphertext, plain, blocksize, offset)
        },
    }
}

/// Where the byte at `offset` lies in a ciphertext of `len` bytes: the padding length
/// under test is between 1 and the block size, and the working ciphertext is a whole
/// number of blocks that ends one block after the block of `offset`, inside the
/// ciphertext.
pub proof fn lemma_position(len: int, blocksize: int, offset: int)
    requires
        blocksize > 0,
        len % blocksize == 0,
        0 <= offset < len - blocksize,
    ensures
        1 <= pad_len(blocksize, offset) <= blocksize,
        offset + pad_len(blocksize, offset) <= len - blocksize,
        work_len(blocksize, offset) <= len,
        work_len(blocksize, offset) % blocksize == 0,
        work_len(blocksize, offset) >= 2 * blocksize,
        offset % blocksize != 0 ==> offset >= 1,
{
    let q = offset / blocksize;
    let m = len / blocksize;
    assert(offset == blocksize * q + offset % blocksize && 0 <= offset % blocksize < blocksize
        && q >= 0) by (nonlinear_arith)
        requires
            blocksize > 0,
            offset >= 0,
            q == offset / blocksize,
    ;
    assert(len == blocksize * m) by (nonlinear_arith)
        requires
            blocksize > 0,
            len % blocksize == 0,
            m == len / blocksize,
    ;
    assert(q + 2 <= m) by (nonlinear_arith)
        requires
            blocksize > 0,
            blocksize * q <= offset,
            offset < blocksize * m - blocksize,
    ;
    assert(blocksize * (q + 2) <= blocksize * m && blocksize * (q + 2) == blocksize * q + 2
        * blocksize && (blocksize * (q + 2)) % blocksize == 0 && blocksize * (q + 2) >= 2
        * blocksize) by (nonlinear_arith)
        requires
            blocksize > 0,
            q >= 0,
            q + 2 <= m,
    ;
}

/// The working ciphertext at `offset` depends on the plaintext only after `offset`: two
/// plaintexts that agree there give the same one.
pub proof fn lemma_forged_later_bytes(
    ciphertext: Seq<u8>,
    plain: Seq<u8>,
    other: Seq<u8>,
    blocksize: int,
    offset: int,
)
    requires
        blocksize > 0,
        aligned(ciphertext.len() as int, blocksize),
        plain.len() == plain_len(ciphertext.len() as int, blocksize),
        plain.len() == other.len(),
        0 <= offset < plain.len(),
        forall|x: int| offset < x < plain.len() ==> plain[x] == other[x],
    ensures
        forged(ciphertext, plain, blocksize, offset) == forged(
            ciphertext,
            other,
            blocksize,
            offset,
        ),
{
    lemma_position(ciphertext.len() as int, blocksize, offset);
    assert(forged(ciphertext, plain, blocksize, offset) =~= forged(
        ciphertext,
        other,
        blocksize,
        offset,
    ));
}

/// The attack counted in blocks: a ciphertext of `n` whole blocks of `b` bytes hides
/// `(n - 1) * b` bytes of plaintext, and the attack spends at most
/// `(n - 1) * b * 2 * 256` oracle calls on them.
pub proof fn lemma_bounds_in_blocks(len: int, blocksize: int)
    requires
        blocksize > 0,
        len > 0,
        aligned(len, blocksize),
    ensures
        len / blocksize >= 1,
        plain_len(len, blocksize) == (len / blocksize - 1) * blocksize,
        max_calls(plain_len(len, blocksize)) == (len / blocksize - 1) * blocksize * 2 * 256,
{
    let n = len / blocksize;
    assert(len == blocksize * n && n >= 1 && (n - 1) * blocksize == blocksize * n - blocksize)
        by (nonlinear_arith)
        requires
            blocksize > 0,
            len > 0,
            len % blocksize == 0,
            n == len / blocksize,
    ;
    let bytes = (n - 1) * blocksize;
    assert(bytes * 2 * 256 == 2 * (256 * bytes)) by (nonlinear_arith);
}

} // verus!
