//! Against an honest padding oracle the attack recovers the plaintext that cipher block
//! chaining hides, whatever the block cipher.

use crate::cbc::{
    cbc_byte, cbc_encrypt, cbc_plain, honest, intermediate, inverts, last_plain_block,
    lemma_cbc_encrypt_len, lemma_cbc_round_trip, lemma_intermediate_of_query, lemma_pad_strip,
    padding_verdict, pkcs7_pad, pkcs7_strip, valid_padding,
};
use crate::error::Error;
use crate::model::{
    accepted, aligned, first_accepted, flipped, forged, lemma_position, marker, outcome, pad_len,
    plain_byte, plain_len, probe, recovered_from, recovers, rejected, stuck_at, work_len,
};
use vstd::arithmetic::div_mod::lemma_mod_multiples_vanish;
use vstd::prelude::*;

verus! {

/// `plain` holds the true plaintext of `bytes` at every position after `offset`.
pub open spec fn true_after(
    raw: spec_fn(Seq<u8>) -> Seq<u8>,
    bytes: Seq<u8>,
    plain: Seq<u8>,
    blocksize: int,
    offset: int,
) -> bool {
    forall|x: int| offset < x < plain.len() ==> plain[x] == #[trigger] cbc_byte(raw, bytes, blocksize, x)
}

/// `query` is the working ciphertext for `offset`, but for the byte at `offset` and the
/// byte before it.
pub open spec fn query_at(query: Seq<u8>, work: Seq<u8>, offset: int) -> bool {
    &&& query.len() == work.len()
    &&& forall|x: int|
        0 <= x < work.len() && x != offset && x != offset - 1 ==> query[x] == work[x]
}

/// What the last block of a query decrypts to while the byte at `offset` is attacked
/// and the plaintext after `offset` is known: behind `offset` the marker of the padding
/// length under test, at `offset` and before it the intermediate value combined with
/// the byte that the query holds there.
proof fn lemma_query_plain(
    raw: spec_fn(Seq<u8>) -> Seq<u8>,
    bytes: Seq<u8>,
    plain: Seq<u8>,
    blocksize: int,
    offset: int,
    query: Seq<u8>,
)
    requires
        blocksize > 0,
        aligned(bytes.len() as int, blocksize),
        plain.len() == plain_len(bytes.len() as int, blocksize),
        0 <= offset < plain.len(),
        true_after(raw, bytes, plain, blocksize, offset),
        query_at(query, forged(bytes, plain, blocksize, offset), offset),
    ensures
        ({
            let pad = pad_len(blocksize, offset);
            let block = last_plain_block(raw, query, blocksize);
            &&& block.len() == blocksize
            &&& 1 <= pad <= blocksize
            &&& aligned(query.len() as int, blocksize)
            &&& query.len() >= 2 * blocksize
            &&& forall|j: int| blocksize - pad < j < blocksize ==> #[trigger] block[j] == marker(pad)
            &&& block[blocksize - pad] == intermediate(raw, bytes, blocksize, offset) ^ query[offset]
            &&& pad < blocksize ==> block[blocksize - pad - 1] == intermediate(
                raw,
                bytes,
                blocksize,
                offset - 1,
            ) ^ query[offset - 1]
        }),
{
    lemma_position(bytes.len() as int, blocksize, offset);
    let pad = pad_len(blocksize, offset);
    let end = work_len(blocksize, offset);
    let work = forged(bytes, plain, blocksize, offset);
    let block = last_plain_block(raw, query, blocksize);
    let base = end - 2 * blocksize;
    assert(base + blocksize - pad == offset);
    assert forall|j: int| 0 <= j < blocksize implies #[trigger] block[j] == intermediate(
        raw,
        bytes,
        blocksize,
        base + j,
    ) ^ query[base + j] by {
        lemma_intermediate_of_query(raw, bytes, query, blocksize, base + j);
    }
    assert forall|j: int| blocksize - pad < j < blocksize implies #[trigger] block[j] == marker(
        pad,
    ) by {
        let x = base + j;
        let i = intermediate(raw, bytes, blocksize, x);
        let c = bytes[x];
        let m = marker(pad);
        assert(query[x] == work[x]);
        assert(plain[x] == cbc_byte(raw, bytes, blocksize, x));
        assert(query[x] == m ^ (i ^ c) ^ c);
        assert(i ^ (m ^ (i ^ c) ^ c) == m) by (bit_vector);
    }
}

/// The candidate that makes the byte at `offset` decrypt to the marker of the padding
/// length under test.
pub open spec fn right_candidate(
    raw: spec_fn(Seq<u8>) -> Seq<u8>,
    bytes: Seq<u8>,
    blocksize: int,
    offset: int,
) -> u8 {
    intermediate(raw, bytes, blocksize, offset) ^ marker(pad_len(blocksize, offset))
}

/// An honest oracle accepts the right candidate, and accepts it again when the byte
/// before it is complemented.
proof fn lemma_right_candidate_passes(
    raw: spec_fn(Seq<u8>) -> Seq<u8>,
    bytes: Seq<u8>,
    plain: Seq<u8>,
    blocksize: int,
    offset: int,
)
    requires
        0 < blocksize <= 255,
        aligned(bytes.len() as int, blocksize),
        plain.len() == plain_len(bytes.len() as int, blocksize),
        0 <= offset < plain.len(),
        true_after(raw, bytes, plain, blocksize, offset),
    ensures
        ({
            let work = forged(bytes, plain, blocksize, offset);
            let k = right_candidate(raw, bytes, blocksize, offset);
            &&& padding_verdict(raw, blocksize, probe(work, offset, k))
            &&& offset % blocksize != 0 ==> padding_verdict(
                raw,
                blocksize,
                flipped(probe(work, offset, k), offset),
            )
        }),
{
    lemma_position(bytes.len() as int, blocksize, offset);
    let pad = pad_len(blocksize, offset);
    let m = marker(pad);
    let i = intermediate(raw, bytes, blocksize, offset);
    let work = forged(bytes, plain, blocksize, offset);
    let k = right_candidate(raw, bytes, blocksize, offset);
    assert(i ^ (i ^ m) == m) by (bit_vector);
    assert(m == pad);
    let first = probe(work, offset, k);
    lemma_query_plain(raw, bytes, plain, blocksize, offset, first);
    let block = last_plain_block(raw, first, blocksize);
    assert(block[blocksize - pad] == m);
    assert(block[blocksize - 1] == m);
    assert(valid_padding(block));
    if offset % blocksize != 0 {
        let second = flipped(first, offset);
        lemma_query_plain(raw, bytes, plain, blocksize, offset, second);
        let again = last_plain_block(raw, second, blocksize);
        assert(again[blocksize - pad] == m);
        assert(again[blocksize - 1] == m);
        assert(valid_padding(again));
    }
}

/// An honest oracle turns every other candidate down: it rejects the probe, or it
/// rejects the probe once the byte before it is complemented.
proof fn lemma_wrong_candidate_fails(
    raw: spec_fn(Seq<u8>) -> Seq<u8>,
    bytes: Seq<u8>,
    plain: Seq<u8>,
    blocksize: int,
    offset: int,
    k: u8,
)
    requires
        0 < blocksize <= 255,
        aligned(bytes.len() as int, blocksize),
        plain.len() == plain_len(bytes.len() as int, blocksize),
        0 <= offset < plain.len(),
        true_after(raw, bytes, plain, blocksize, offset),
        k != right_candidate(raw, bytes, blocksize, offset),
    ensures
        ({
            let work = forged(bytes, plain, blocksize, offset);
            ||| !padding_verdict(raw, blocksize, probe(work, offset, k))
            ||| offset % blocksize != 0 && !padding_verdict(
                raw,
                blocksize,
                flipped(probe(work, offset, k), offset),
            )
        }),
{
    lemma_position(bytes.len() as int, blocksize, offset);
    let pad = pad_len(blocksize, offset);
    let m = marker(pad);
    let i = intermediate(raw, bytes, blocksize, offset);
    let work = forged(bytes, plain, blocksize, offset);
    assert(k != i ^ m ==> i ^ k != m) by (bit_vector);
    assert(m == pad);
    let first = probe(work, offset, k);
    lemma_query_plain(raw, bytes, plain, blocksize, offset, first);
    let block = last_plain_block(raw, first, blocksize);
    assert(block[blocksize - pad] != m);
    if pad >= 2 {
        assert(block[blocksize - 1] == m);
        assert(!valid_padding(block));
    } else if valid_padding(block) {
        let v = block[blocksize - 1];
        assert(v >= 2);
        assert(block[blocksize - 2] == v);
        assert(offset % blocksize != 0);
        let second = flipped(first, offset);
        lemma_query_plain(raw, bytes, plain, blocksize, offset, second);
        let again = last_plain_block(raw, second, blocksize);
        let before = intermediate(raw, bytes, blocksize, offset - 1);
        let b = first[offset - 1];
        assert(before ^ !b != before ^ b) by (bit_vector);
        assert(again[blocksize - 1] == v);
        assert(again[blocksize - 2] != v);
        assert(!valid_padding(again));
    }
}

/// With an honest oracle no candidate but the right one is confirmed.
proof fn lemma_accepted_is_right(
    answers: spec_fn(Seq<u8>, bool) -> bool,
    raw: spec_fn(Seq<u8>) -> Seq<u8>,
    bytes: Seq<u8>,
    plain: Seq<u8>,
    blocksize: int,
    offset: int,
    k: u8,
)
    requires
        0 < blocksize <= 255,
        aligned(bytes.len() as int, blocksize),
        plain.len() == plain_len(bytes.len() as int, blocksize),
        0 <= offset < plain.len(),
        true_after(raw, bytes, plain, blocksize, offset),
        honest(answers, raw, blocksize),
        accepted(answers, forged(bytes, plain, blocksize, offset), blocksize, offset, k),
    ensures
        k == right_candidate(raw, bytes, blocksize, offset),
{
    lemma_position(bytes.len() as int, blocksize, offset);
    let work = forged(bytes, plain, blocksize, offset);
    let first = probe(work, offset, k);
    let second = flipped(first, offset);
    assert(answers(first, true));
    assert(padding_verdict(raw, blocksize, first));
    if offset % blocksize != 0 {
        assert(answers(second, true));
        assert(padding_verdict(raw, blocksize, second));
    }
    if k != right_candidate(raw, bytes, blocksize, offset) {
        lemma_wrong_candidate_fails(raw, bytes, plain, blocksize, offset, k);
    }
}

/// With an honest oracle the right candidate is not turned down.
proof fn lemma_right_is_not_rejected(
    answers: spec_fn(Seq<u8>, bool) -> bool,
    raw: spec_fn(Seq<u8>) -> Seq<u8>,
    bytes: Seq<u8>,
    plain: Seq<u8>,
    blocksize: int,
    offset: int,
)
    requires
        0 < blocksize <= 255,
        aligned(bytes.len() as int, blocksize),
        plain.len() == plain_len(bytes.len() as int, blocksize),
        0 <= offset < plain.len(),
        true_after(raw, bytes, plain, blocksize, offset),
        honest(answers, raw, blocksize),
    ensures
        !rejected(
            answers,
            forged(bytes, plain, blocksize, offset),
            blocksize,
            offset,
            right_candidate(raw, bytes, blocksize, offset),
        ),
{
    lemma_position(bytes.len() as int, blocksize, offset);
    lemma_right_candidate_passes(raw, bytes, plain, blocksize, offset);
    let work = forged(bytes, plain, blocksize, offset);
    let k = right_candidate(raw, bytes, blocksize, offset);
    let first = probe(work, offset, k);
    let second = flipped(first, offset);
    if answers(first, false) {
        assert(!padding_verdict(raw, blocksize, first));
    }
    if offset % blocksize != 0 && answers(second, false) {
        assert(!padding_verdict(raw, blocksize, second));
    }
}

/// With an honest oracle, a plaintext that holds what the attack finds from `start` on
/// holds the true plaintext from `start` on.
proof fn lemma_recovered_is_true(
    answers: spec_fn(Seq<u8>, bool) -> bool,
    raw: spec_fn(Seq<u8>) -> Seq<u8>,
    bytes: Seq<u8>,
    plain: Seq<u8>,
    blocksize: int,
    start: int,
)
    requires
        0 < blocksize <= 255,
        aligned(bytes.len() as int, blocksize),
        plain.len() == plain_len(bytes.len() as int, blocksize),
        0 <= start,
        honest(answers, raw, blocksize),
        recovered_from(answers, bytes, plain, blocksize, start),
    ensures
        true_after(raw, bytes, plain, blocksize, start - 1),
    decreases plain.len() - start,
{
    if start < plain.len() {
        lemma_recovered_is_true(answers, raw, bytes, plain, blocksize, start + 1);
        assert(recovers(answers, bytes, plain, blocksize, start));
        let work = forged(bytes, plain, blocksize, start);
        let pad = pad_len(blocksize, start);
        let k = choose|k: u8|
            {
                &&& #[trigger] first_accepted(answers, work, blocksize, start, k)
                &&& plain[start] == plain_byte(bytes[start], k, pad)
            };
        lemma_accepted_is_right(answers, raw, bytes, plain, blocksize, start, k);
        let i = intermediate(raw, bytes, blocksize, start);
        let c = bytes[start];
        let m = marker(pad);
        assert(c ^ (i ^ m) ^ m == i ^ c) by (bit_vector);
        assert(plain[start] == cbc_byte(raw, bytes, blocksize, start));
    }
}

/// Against an honest padding oracle, for blocks of at most 255 bytes, the attack
/// succeeds and returns the plaintext of every block after the first, whatever the
/// block cipher and whether or not the last block is validly padded.
pub proof fn lemma_attack_recovers_plaintext(
    answers: spec_fn(Seq<u8>, bool) -> bool,
    raw: spec_fn(Seq<u8>) -> Seq<u8>,
    bytes: Seq<u8>,
    blocksize: int,
    result: Result<Vec<u8>, Error>,
)
    requires
        0 < blocksize <= 255,
        aligned(bytes.len() as int, blocksize),
        honest(answers, raw, blocksize),
        outcome(answers, bytes, blocksize, result),
    ensures
        result is Ok,
        result->Ok_0@ == cbc_plain(raw, bytes, blocksize),
{
    match result {
        Ok(plain) => {
            lemma_recovered_is_true(answers, raw, bytes, plain@, blocksize, 0);
            assert(plain@ =~= cbc_plain(raw, bytes, blocksize));
        },
        Err(Error::InvalidPadding) => {
            let (halted, offset) = choose|halted: Seq<u8>, offset: int| #[trigger]
                stuck_at(answers, bytes, halted, blocksize, offset);
            lemma_recovered_is_true(answers, raw, bytes, halted, blocksize, offset + 1);
            lemma_right_is_not_rejected(answers, raw, bytes, halted, blocksize, offset);
            assert(rejected(
                answers,
                forged(bytes, halted, blocksize, offset),
                blocksize,
                offset,
                right_candidate(raw, bytes, blocksize, offset),
            ));
        },
        Err(Error::WrongSize { .. }) => {},
    }
}

/// Round trip: a message is padded with PKCS#7, encrypted under cipher block chaining
/// by any invertible block cipher with blocks of at most 255 bytes, and sent with its
/// initialisation vector in front. Against an honest oracle for that cipher the attack
/// returns the padded message, and stripping the padding gives the message back.
pub proof fn lemma_round_trip(
    answers: spec_fn(Seq<u8>, bool) -> bool,
    enc: spec_fn(Seq<u8>) -> Seq<u8>,
    raw: spec_fn(Seq<u8>) -> Seq<u8>,
    iv: Seq<u8>,
    message: Seq<u8>,
    blocksize: int,
    result: Result<Vec<u8>, Error>,
)
    requires
        0 < blocksize <= 255,
        iv.len() == blocksize,
        inverts(raw, enc, blocksize),
        honest(answers, raw, blocksize),
        outcome(
            answers,
            iv + cbc_encrypt(enc, iv, pkcs7_pad(message, blocksize), blocksize),
            blocksize,
            result,
        ),
    ensures
        result is Ok,
        result->Ok_0@ == pkcs7_pad(message, blocksize),
        pkcs7_strip(result->Ok_0@) == message,
{
    let padded = pkcs7_pad(message, blocksize);
    let sent = iv + cbc_encrypt(enc, iv, padded, blocksize);
    lemma_pad_strip(message, blocksize);
    lemma_cbc_encrypt_len(enc, raw, iv, padded, blocksize);
    lemma_mod_multiples_vanish(1, padded.len() as int, blocksize);
    assert(blocksize * 1 + padded.len() == sent.len());
    lemma_cbc_round_trip(enc, raw, iv, padded, blocksize);
    lemma_attack_recovers_plaintext(answers, raw, sent, blocksize, result);
}

} // verus!
