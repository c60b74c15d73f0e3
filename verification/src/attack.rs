//! The attack itself: forging the working ciphertext, searching the candidates for one
//! byte, and walking the plaintext from its last byte to its first.

use crate::error::Error;
use crate::model::{
    aligned, first_accepted, flipped, forged, lemma_forged_later_bytes, lemma_position, marker,
    max_calls, none_accepted, outcome, pad_len, plain_len, probe, work_len,
};
use crate::oracle::{replies, Exchange, Oracle};
use crate::transcript::{
    attack_log, candidate_behind, halted_log, lemma_attack_log, lemma_search_log,
    lemma_solved_log_later_bytes, search_log, solved_log, turned_down,
};
use vstd::prelude::*;

verus! {

/// Builds the working ciphertext for the attack on the byte at `offset`: the ciphertext
/// up to the end of the block after `offset`, with the bytes between `offset` and the
/// end of its block set so that the plaintext bytes already known, `plaintext[x]`,
/// decrypt to the padding length under test.
pub fn forge(ciphertext: &[u8], plaintext: &[u8], blocksize: usize, offset: usize) -> (work: Vec<
    u8,
>)
    requires
        blocksize > 0,
        aligned(ciphertext.len() as int, blocksize as int),
        plaintext.len() + blocksize == ciphertext.len(),
        offset < plaintext.len(),
    ensures
        work@ == forged(ciphertext@, plaintext@, blocksize as int, offset as int),
{
    proof {
        lemma_position(ciphertext.len() as int, blocksize as int, offset as int);
    }
    let pad: usize = blocksize - offset % blocksize;
    let end: usize = offset + pad + blocksize;
    let mark: u8 = (pad % 256) as u8;
    let mut work: Vec<u8> = Vec::with_capacity(end);
    let mut x: usize = 0;
    while x < end
        invariant
            x <= end <= ciphertext.len(),
            plaintext.len() + blocksize == ciphertext.len(),
            offset + pad <= plaintext.len(),
            pad == pad_len(blocksize as int, offset as int),
            end == work_len(blocksize as int, offset as int),
            mark == marker(pad as int),
            work@.len() == x,
            forall|y: int|
                0 <= y < x ==> work@[y] == #[trigger] forged(
                    ciphertext@,
                    plaintext@,
                    blocksize as int,
                    offset as int,
                )[y],
        decreases end - x,
    {
        let byte: u8 = if offset < x && x < offset + pad {
            mark ^ plaintext[x] ^ ciphertext[x]
        } else {
            ciphertext[x]
        };
        work.push(byte);
        x += 1;
    }
    assert(work@ =~= forged(ciphertext@, plaintext@, blocksize as int, offset as int));
    work
}

/// Searches the candidates 0 to 255, in ascending order, for the byte at `offset` of
/// `work`, and returns the first one that the oracle confirms.
///
/// A candidate is written at `offset` and put to the oracle. When the oracle accepts it
/// and `offset` is not the first byte of a block, the byte before `offset` is
/// complemented and the oracle is asked once more; the candidate counts only if the
/// oracle accepts it both times. Each candidate costs at most two calls, the whole
/// search at most 512.
pub fn search<F: Fn(&[u8]) -> bool>(
    work: Vec<u8>,
    blocksize: usize,
    offset: usize,
    oracle: &mut Oracle<F>,
) -> (found: Option<u8>)
    requires
        blocksize > 0,
        offset < work.len(),
        old(oracle).wf(),
    ensures
        final(oracle).wf(),
        final(oracle).continues(old(oracle)),
        search_log(
            work@,
            blocksize as int,
            offset as int,
            final(oracle).asked_since(old(oracle)),
            found,
        ),
        final(oracle).calls_since(old(oracle)) <= max_calls(1),
        match found {
            Some(k) => first_accepted(
                replies(old(oracle).callable()),
                work@,
                blocksize as int,
                offset as int,
                k,
            ),
            None => none_accepted(
                replies(old(oracle).callable()),
                work@,
                blocksize as int,
                offset as int,
            ),
        },
{
    let ghost start = work@;
    let first_of_block: bool = offset % blocksize == 0;
    assert(offset == 0 ==> first_of_block) by (nonlinear_arith)
        requires
            blocksize > 0,
            first_of_block <==> offset as int % blocksize as int == 0,
    ;
    let mut buf = work;
    let mut found: Option<u8> = None;
    let mut k: u8 = 0;
    loop
        invariant_except_break
            found is None,
            turned_down(
                start,
                blocksize as int,
                offset as int,
                k as int,
                oracle.asked_since(old(oracle)),
            ),
        invariant
            offset < buf.len(),
            first_of_block <==> offset as int % blocksize as int == 0,
            !first_of_block ==> offset >= 1,
            buf@.len() == start.len(),
            forall|x: int| 0 <= x < buf@.len() && x != offset ==> buf@[x] == start[x],
            oracle.wf(),
            oracle.continues(old(oracle)),
        ensures
            search_log(
                start,
                blocksize as int,
                offset as int,
                oracle.asked_since(old(oracle)),
                found,
            ),
        decreases 255 - k,
    {
        let ghost earlier = oracle.asked_since(old(oracle));
        buf[offset] = k;
        assert(buf@ =~= probe(start, offset as int, k));
        let valid = oracle.query(buf.as_slice());
        let ghost first = Exchange { query: probe(start, offset as int, k), valid };
        assert(oracle.asked_since(old(oracle)) =~= earlier.push(first));
        assert(earlier.push(first).take(earlier.len() as int) =~= earlier);
        if valid {
            if first_of_block {
                assert(earlier.push(first).skip(earlier.len() as int) =~= seq![first]);
                found = Some(k);
                break;
            }
            let neighbour: u8 = buf[offset - 1];
            buf[offset - 1] = !neighbour;
            assert(buf@ =~= flipped(probe(start, offset as int, k), offset as int));
            let again = oracle.query(buf.as_slice());
            buf[offset - 1] = neighbour;
            let ghost second = Exchange {
                query: flipped(probe(start, offset as int, k), offset as int),
                valid: again,
            };
            let ghost both = earlier.push(first).push(second);
            assert(oracle.asked_since(old(oracle)) =~= both);
            assert(both.take(earlier.len() as int) =~= earlier);
            if again {
                assert(both.skip(earlier.len() as int) =~= seq![first, second]);
                found = Some(k);
                break;
            }
        }
        assert(turned_down(
            start,
            blocksize as int,
            offset as int,
            k + 1,
            oracle.asked_since(old(oracle)),
        ));
        if k == 255 {
            break;
        }
        k += 1;
    }
    proof {
        let asked = oracle.asked_since(old(oracle));
        oracle.lemma_asked_since(*old(oracle));
        lemma_search_log(
            replies(old(oracle).callable()),
            start,
            blocksize as int,
            offset as int,
            asked,
            found,
        );
    }
    found
}

/// Recovers the plaintext of `ciphertext` through `oracle`, whose history records every
/// call that is made.
///
/// The first block of `ciphertext` is taken as the initialisation vector. The result
/// holds one byte for every ciphertext byte after it, the padding of the last block
/// included. The bytes are found from the last to the first. For each of them the
/// working ciphertext is forged, which ends with the block behind that byte so that the
/// blocks solved before are cut off, and the candidates are searched. A ciphertext that
/// is not a whole number of blocks is refused before the oracle is asked anything, and
/// no position costs more than 512 calls.
pub fn decrypt_with<F: Fn(&[u8]) -> bool>(
    ciphertext: &[u8],
    blocksize: usize,
    oracle: &mut Oracle<F>,
) -> (result: Result<Vec<u8>, Error>)
    requires
        blocksize > 0,
        old(oracle).wf(),
    ensures
        final(oracle).wf(),
        final(oracle).continues(old(oracle)),
        attack_log(
            ciphertext@,
            blocksize as int,
            final(oracle).asked_since(old(oracle)),
            result,
        ),
        outcome(replies(old(oracle).callable()), ciphertext@, blocksize as int, result),
        !aligned(ciphertext.len() as int, blocksize as int) ==> final(oracle).history() == old(
            oracle,
        ).history(),
        final(oracle).calls_since(old(oracle)) <= max_calls(
            plain_len(ciphertext.len() as int, blocksize as int),
        ),
{
    let len: usize = ciphertext.len();
    if len % blocksize != 0 {
        assert(oracle.asked_since(old(oracle)) =~= Seq::<Exchange>::empty());
        return Err(Error::WrongSize { blocksize, found: len });
    }
    if len == 0 {
        assert(oracle.asked_since(old(oracle)) =~= Seq::<Exchange>::empty());
        let empty: Vec<u8> = Vec::new();
        return Ok(empty);
    }
    assert(len >= blocksize) by (nonlinear_arith)
        requires
            blocksize > 0,
            len > 0,
            len as int % blocksize as int == 0,
    ;
    let total: usize = len - blocksize;
    let mut plaintext: Vec<u8> = vec![0u8; total];
    let mut offset: usize = total;
    let mut halted: bool = false;
    assert(oracle.asked_since(old(oracle)) =~= Seq::<Exchange>::empty());
    while offset > 0 && !halted
        invariant
            blocksize > 0,
            len == ciphertext.len(),
            aligned(len as int, blocksize as int),
            total == plain_len(len as int, blocksize as int),
            plaintext@.len() == total,
            offset <= total,
            oracle.wf(),
            oracle.continues(old(oracle)),
            !halted ==> solved_log(
                ciphertext@,
                plaintext@,
                blocksize as int,
                offset as int,
                oracle.asked_since(old(oracle)),
            ),
            halted ==> halted_log(
                ciphertext@,
                plaintext@,
                blocksize as int,
                offset as int,
                oracle.asked_since(old(oracle)),
            ),
        decreases offset,
    {
        offset -= 1;
        proof {
            lemma_position(len as int, blocksize as int, offset as int);
        }
        let ghost before = plaintext@;
        let ghost earlier = oracle.asked_since(old(oracle));
        let ghost midway = *oracle;
        let pad: usize = blocksize - offset % blocksize;
        let work = forge(ciphertext, plaintext.as_slice(), blocksize, offset);
        let found = search(work, blocksize, offset, oracle);
        proof {
            let asked = oracle.asked_since(old(oracle));
            assert(asked.take(earlier.len() as int) =~= earlier);
            assert(asked.skip(earlier.len() as int) =~= oracle.asked_since(&midway));
        }
        match found {
            Some(k) => {
                let initial: u8 = ciphertext[offset];
                let mark: u8 = (pad % 256) as u8;
                let byte: u8 = initial ^ k ^ mark;
                plaintext[offset] = byte;
                proof {
                    assert(initial ^ (initial ^ k ^ mark) ^ mark == k) by (bit_vector);
                    assert(candidate_behind(initial, byte, pad as int) == k);
                    lemma_forged_later_bytes(
                        ciphertext@,
                        before,
                        plaintext@,
                        blocksize as int,
                        offset as int,
                    );
                    lemma_solved_log_later_bytes(
                        ciphertext@,
                        before,
                        plaintext@,
                        blocksize as int,
                        offset + 1,
                        earlier,
                    );
                }
            },
            None => {
                halted = true;
            },
        }
    }
    proof {
        oracle.lemma_asked_since(*old(oracle));
    }
    let result = if halted {
        Err(Error::InvalidPadding)
    } else {
        Ok(plaintext)
    };
    proof {
        lemma_attack_log(
            replies(old(oracle).callable()),
            ciphertext@,
            blocksize as int,
            oracle.asked_since(old(oracle)),
            result,
        );
    }
    result
}

/// Recovers the plaintext of `ciphertext` with the help of a padding oracle.
///
/// `ciphertext` holds the initialisation vector as its first block, then the encrypted
/// blocks. `oracle` tells of any byte string whether it decrypts, under the unknown
/// key, to a message with valid PKCS#7 padding. The result is the plaintext of every
/// block after the first, with the padding of the last block still in place.
pub fn decrypt<F: Fn(&[u8]) -> bool>(ciphertext: &[u8], blocksize: usize, oracle: F) -> (result:
    Result<Vec<u8>, Error>)
    requires
        blocksize > 0,
        forall|q: &[u8]| #[trigger] oracle.requires((q,)),
    ensures
        outcome(replies(oracle), ciphertext@, blocksize as int, result),
{
    let mut recorded = Oracle::new(oracle);
    decrypt_with(ciphertext, blocksize, &mut recorded)
}

} // verus!
