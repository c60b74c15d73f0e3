//! The exchanges of an attack, one by one: which queries are put to the oracle, in
//! which order, and how the verdicts lead to the result.

use crate::error::Error;
use crate::model::{
    accepted, aligned, first_accepted, flipped, forged, lemma_forged_later_bytes, marker,
    max_calls, none_accepted, outcome, pad_len, plain_byte, plain_len, probe, recovered_from,
    recovers, rejected, stuck_at,
};
use crate::oracle::{genuine, Exchange};
use vstd::prelude::*;

verus! {

/// `log` holds the exchanges of the candidates below `k` at `offset`, in ascending
/// order, each of them turned down: its probe was rejected, or its probe was accepted
/// and the confirming query was rejected.
pub open spec fn turned_down(
    work: Seq<u8>,
    blocksize: int,
    offset: int,
    k: int,
    log: Seq<Exchange>,
) -> bool
    decreases k,
{
    if k <= 0 {
        log.len() == 0
    } else {
        let query = probe(work, offset, (k - 1) as u8);
        let n = log.len() as int;
        ||| {
            &&& n >= 1
            &&& log[n - 1] == (Exchange { query, valid: false })
            &&& turned_down(work, blocksize, offset, k - 1, log.take(n - 1))
        }
        ||| {
            &&& offset % blocksize != 0
            &&& n >= 2
            &&& log[n - 2] == (Exchange { query, valid: true })
            &&& log[n - 1] == (Exchange { query: flipped(query, offset), valid: false })
            &&& turned_down(work, blocksize, offset, k - 1, log.take(n - 2))
        }
    }
}

/// The number of calls that it takes to confirm a candidate at `offset`: one for the
/// first byte of a block, two elsewhere.
pub open spec fn confirming_calls(blocksize: int, offset: int) -> int {
    if offset % blocksize == 0 {
        1
    } else {
        2
    }
}

/// `log` holds the exchanges of the candidate `k` at `offset`, confirmed: its probe was
/// accepted, and so was the confirming query, which is made unless `offset` is the
/// first byte of a block.
pub open spec fn confirmed(
    work: Seq<u8>,
    blocksize: int,
    offset: int,
    k: u8,
    log: Seq<Exchange>,
) -> bool {
    let query = probe(work, offset, k);
    if offset % blocksize == 0 {
        log == seq![Exchange { query, valid: true }]
    } else {
        log == seq![
            Exchange { query, valid: true },
            Exchange { query: flipped(query, offset), valid: true },
        ]
    }
}

/// `log` holds the exchanges of a whole search at `offset` that ends with `found`: the
/// candidates from 0 on are turned down one after the other, until one is confirmed or
/// all 256 are spent.
pub open spec fn search_log(
    work: Seq<u8>,
    blocksize: int,
    offset: int,
    log: Seq<Exchange>,
    found: Option<u8>,
) -> bool {
    match found {
        None => turned_down(work, blocksize, offset, 256, log),
        Some(k) => {
            let n = log.len() - confirming_calls(blocksize, offset);
            &&& 0 <= n
            &&& turned_down(work, blocksize, offset, k as int, log.take(n))
            &&& confirmed(work, blocksize, offset, k, log.skip(n))
        },
    }
}

/// The candidate behind a recovered byte: the one that gives `byte` at a position where
/// the ciphertext held `initial` and the padding length `pad` was tested.
pub open spec fn candidate_behind(initial: u8, byte: u8, pad: int) -> u8 {
    initial ^ byte ^ marker(pad)
}

/// `log` holds the exchanges of the searches at the positions of `plain` from the last
/// one down to `start`, in that order, and each search settled on the candidate behind
/// the byte that `plain` holds at its position.
pub open spec fn solved_log(
    ciphertext: Seq<u8>,
    plain: Seq<u8>,
    blocksize: int,
    start: int,
    log: Seq<Exchange>,
) -> bool
    decreases plain.len() - start,
{
    if start >= plain.len() {
        log.len() == 0
    } else {
        exists|n: int|
            0 <= n <= log.len() && solved_log(
                ciphertext,
                plain,
                blocksize,
                start + 1,
                #[trigger] log.take(n),
            ) && search_log(
                forged(ciphertext, plain, blocksize, start),
                blocksize,
                start,
                log.skip(n),
                Some(candidate_behind(ciphertext[start], plain[start], pad_len(blocksize, start))),
            )
    }
}

/// `log` holds the exchanges of an attack that comes to a halt at `offset`: the
/// searches after `offset` settled on the bytes of `plain`, and the search at `offset`
/// spent all its candidates.
pub open spec fn halted_log(
    ciphertext: Seq<u8>,
    plain: Seq<u8>,
    blocksize: int,
    offset: int,
    log: Seq<Exchange>,
) -> bool {
    &&& plain.len() == plain_len(ciphertext.len() as int, blocksize)
    &&& 0 <= offset < plain.len()
    &&& exists|n: int|
        0 <= n <= log.len() && solved_log(
            ciphertext,
            plain,
            blocksize,
            offset + 1,
            #[trigger] log.take(n),
        ) && search_log(
            forged(ciphertext, plain, blocksize, offset),
            blocksize,
            offset,
            log.skip(n),
            None,
        )
}

/// `log` holds the exchanges of a whole attack on `ciphertext` that ends with `result`.
///
/// - A ciphertext that is not a whole number of blocks gives `WrongSize` and no
///   exchange at all.
/// - `Ok` comes after a search at every position, from the last to the first.
/// - `InvalidPadding` comes with the first search that spends all its candidates.
pub open spec fn attack_log(
    ciphertext: Seq<u8>,
    blocksize: int,
    log: Seq<Exchange>,
    result: Result<Vec<u8>, Error>,
) -> bool {
    match result {
        Err(Error::WrongSize { blocksize: expected, found }) => {
            &&& !aligned(ciphertext.len() as int, blocksize)
            &&& expected == blocksize
            &&& found == ciphertext.len()
            &&& log.len() == 0
        },
        Ok(plain) => {
            &&& aligned(ciphertext.len() as int, blocksize)
            &&& plain@.len() == plain_len(ciphertext.len() as int, blocksize)
            &&& solved_log(ciphertext, plain@, blocksize, 0, log)
        },
        Err(Error::InvalidPadding) => {
            &&& aligned(ciphertext.len() as int, blocksize)
            &&& exists|plain: Seq<u8>, offset: int|
                #[trigger] halted_log(ciphertext, plain, blocksize, offset, log)
        },
    }
}

/// A part of a log of genuine verdicts holds genuine verdicts.
pub proof fn lemma_genuine_parts(
    answers: spec_fn(Seq<u8>, bool) -> bool,
    log: Seq<Exchange>,
    n: int,
)
    requires
        genuine(answers, log),
        0 <= n <= log.len(),
    ensures
        genuine(answers, log.take(n)),
        genuine(answers, log.skip(n)),
{
    assert forall|i: int| 0 <= i < log.take(n).len() implies answers(
        (#[trigger] log.take(n)[i]).query,
        log.take(n)[i].valid,
    ) by {
        assert(log.take(n)[i] == log[i]);
    }
    assert forall|i: int| 0 <= i < log.skip(n).len() implies answers(
        (#[trigger] log.skip(n)[i]).query,
        log.skip(n)[i].valid,
    ) by {
        assert(log.skip(n)[i] == log[n + i]);
    }
}

/// The exchanges of `k` candidates turned down are at most two for each, and their
/// verdicts turn each candidate below `k` down.
proof fn lemma_turned_down(
    answers: spec_fn(Seq<u8>, bool) -> bool,
    work: Seq<u8>,
    blocksize: int,
    offset: int,
    k: int,
    log: Seq<Exchange>,
)
    requires
        0 <= k <= 256,
        turned_down(work, blocksize, offset, k, log),
    ensures
        log.len() <= 2 * k,
        genuine(answers, log) ==> forall|j: u8|
            j < k ==> #[trigger] rejected(answers, work, blocksize, offset, j),
    decreases k,
{
    if k > 0 {
        let n = log.len() as int;
        let query = probe(work, offset, (k - 1) as u8);
        let rest = if n >= 1 && log[n - 1] == (Exchange { query, valid: false }) && turned_down(
            work,
            blocksize,
            offset,
            k - 1,
            log.take(n - 1),
        ) {
            log.take(n - 1)
        } else {
            log.take(n - 2)
        };
        lemma_turned_down(answers, work, blocksize, offset, k - 1, rest);
        if genuine(answers, log) {
            lemma_genuine_parts(answers, log, rest.len() as int);
            assert(answers(log[n - 1].query, log[n - 1].valid));
            if rest.len() == n - 2 {
                assert(answers(log[n - 2].query, log[n - 2].valid));
            }
            assert(rejected(answers, work, blocksize, offset, (k - 1) as u8));
            assert forall|j: u8| j < k implies #[trigger] rejected(
                answers,
                work,
                blocksize,
                offset,
                j,
            ) by {
                if j < k - 1 {
                } else {
                    assert(j == (k - 1) as u8);
                }
            }
        }
    }
}

/// The exchanges of a search are at most 512, and their verdicts bear its result out:
/// the candidate found is the first one confirmed, and where none is found all were
/// turned down.
pub proof fn lemma_search_log(
    answers: spec_fn(Seq<u8>, bool) -> bool,
    work: Seq<u8>,
    blocksize: int,
    offset: int,
    log: Seq<Exchange>,
    found: Option<u8>,
)
    requires
        search_log(work, blocksize, offset, log, found),
    ensures
        1 <= log.len() <= max_calls(1),
        genuine(answers, log) ==> match found {
            Some(k) => first_accepted(answers, work, blocksize, offset, k),
            None => none_accepted(answers, work, blocksize, offset),
        },
{
    match found {
        None => {
            lemma_turned_down(answers, work, blocksize, offset, 256, log);
        },
        Some(k) => {
            let n = log.len() - confirming_calls(blocksize, offset);
            lemma_turned_down(answers, work, blocksize, offset, k as int, log.take(n));
            if genuine(answers, log) {
                lemma_genuine_parts(answers, log, n);
                let last = log.skip(n);
                assert(answers(last[0].query, last[0].valid));
                if offset % blocksize != 0 {
                    assert(answers(last[1].query, last[1].valid));
                }
                assert(accepted(answers, work, blocksize, offset, k));
            }
        },
    }
}

/// The exchanges at the positions from `start` on depend on the plaintext only from
/// `start` on: a log that fits one plaintext fits every plaintext that agrees there.
pub proof fn lemma_solved_log_later_bytes(
    ciphertext: Seq<u8>,
    plain: Seq<u8>,
    other: Seq<u8>,
    blocksize: int,
    start: int,
    log: Seq<Exchange>,
)
    requires
        blocksize > 0,
        aligned(ciphertext.len() as int, blocksize),
        plain.len() == plain_len(ciphertext.len() as int, blocksize),
        plain.len() == other.len(),
        0 <= start,
        forall|x: int| start <= x < plain.len() ==> plain[x] == other[x],
        solved_log(ciphertext, plain, blocksize, start, log),
    ensures
        solved_log(ciphertext, other, blocksize, start, log),
    decreases plain.len() - start,
{
    if start < plain.len() {
        let n = choose|n: int|
            0 <= n <= log.len() && solved_log(
                ciphertext,
                plain,
                blocksize,
                start + 1,
                #[trigger] log.take(n),
            ) && search_log(
                forged(ciphertext, plain, blocksize, start),
                blocksize,
                start,
                log.skip(n),
                Some(candidate_behind(ciphertext[start], plain[start], pad_len(blocksize, start))),
            );
        lemma_solved_log_later_bytes(ciphertext, plain, other, blocksize, start + 1, log.take(n));
        lemma_forged_later_bytes(ciphertext, plain, other, blocksize, start);
    }
}

/// The exchanges at the positions from `start` on are at most 512 for each position,
/// and their verdicts bear out every byte of the plaintext from `start` on.
pub proof fn lemma_solved_log(
    answers: spec_fn(Seq<u8>, bool) -> bool,
    ciphertext: Seq<u8>,
    plain: Seq<u8>,
    blocksize: int,
    start: int,
    log: Seq<Exchange>,
)
    requires
        0 <= start <= plain.len(),
        solved_log(ciphertext, plain, blocksize, start, log),
    ensures
        log.len() <= max_calls(plain.len() - start),
        genuine(answers, log) ==> recovered_from(answers, ciphertext, plain, blocksize, start),
    decreases plain.len() - start,
{
    if start < plain.len() {
        let pad = pad_len(blocksize, start);
        let k = candidate_behind(ciphertext[start], plain[start], pad);
        let work = forged(ciphertext, plain, blocksize, start);
        let n = choose|n: int|
            0 <= n <= log.len() && solved_log(
                ciphertext,
                plain,
                blocksize,
                start + 1,
                #[trigger] log.take(n),
            ) && search_log(work, blocksize, start, log.skip(n), Some(k));
        lemma_solved_log(answers, ciphertext, plain, blocksize, start + 1, log.take(n));
        lemma_search_log(answers, work, blocksize, start, log.skip(n), Some(k));
        if genuine(answers, log) {
            lemma_genuine_parts(answers, log, n);
            let c = ciphertext[start];
            let p = plain[start];
            let m = marker(pad);
            assert(c ^ (c ^ p ^ m) ^ m == p) by (bit_vector);
            assert(plain[start] == plain_byte(ciphertext[start], k, pad));
            assert(recovers(answers, ciphertext, plain, blocksize, start));
            assert forall|x: int| start <= x < plain.len() implies #[trigger] recovers(
                answers,
                ciphertext,
                plain,
                blocksize,
                x,
            ) by {
                if x > start {
                    assert(recovered_from(answers, ciphertext, plain, blocksize, start + 1));
                }
            }
        }
    }
}

/// The exchanges of an attack are at most 512 for each byte of plaintext, none where
/// the ciphertext is not a whole number of blocks, and their verdicts bear its result
/// out.
pub proof fn lemma_attack_log(
    answers: spec_fn(Seq<u8>, bool) -> bool,
    ciphertext: Seq<u8>,
    blocksize: int,
    log: Seq<Exchange>,
    result: Result<Vec<u8>, Error>,
)
    requires
        blocksize > 0,
        attack_log(ciphertext, blocksize, log, result),
    ensures
        log.len() <= max_calls(plain_len(ciphertext.len() as int, blocksize)),
        !aligned(ciphertext.len() as int, blocksize) ==> log.len() == 0,
        genuine(answers, log) ==> outcome(answers, ciphertext, blocksize, result),
{
    match result {
        Ok(plain) => {
            lemma_solved_log(answers, ciphertext, plain@, blocksize, 0, log);
        },
        Err(Error::InvalidPadding) => {
            let (plain, offset) = choose|plain: Seq<u8>, offset: int| #[trigger]
                halted_log(ciphertext, plain, blocksize, offset, log);
            let work = forged(ciphertext, plain, blocksize, offset);
            let n = choose|n: int|
                0 <= n <= log.len() && solved_log(
                    ciphertext,
                    plain,
                    blocksize,
                    offset + 1,
                    #[trigger] log.take(n),
                ) && search_log(work, blocksize, offset, log.skip(n), None);
            lemma_solved_log(answers, ciphertext, plain, blocksize, offset + 1, log.take(n));
            lemma_search_log(answers, work, blocksize, offset, log.skip(n), None);
            if genuine(answers, log) {
                lemma_genuine_parts(answers, log, n);
                assert(stuck_at(answers, ciphertext, plain, blocksize, offset));
            }
        },
        Err(Error::WrongSize { .. }) => {},
    }
}

} // verus!
