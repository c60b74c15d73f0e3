//! With an oracle that gives each query one verdict, the ciphertext and the block size
//! fix the whole attack: its exchanges and its result.

use crate::error::Error;
use crate::model::{
    accepted, aligned, first_accepted, forged, lemma_forged_later_bytes, marker, none_accepted,
    outcome, pad_len, plain_byte, plain_len, probe, recovered_from, recovers, rejected, stuck_at,
};
use crate::oracle::{deterministic, genuine, Exchange};
use crate::transcript::{
    attack_log, candidate_behind, confirming_calls, halted_log, lemma_attack_log,
    lemma_genuine_parts, lemma_search_log, lemma_solved_log, search_log, solved_log, turned_down,
};
use vstd::prelude::*;

verus! {

/// Two results of an attack are the same: the same error, or plaintexts of the same
/// bytes.
pub open spec fn same_result(first: Result<Vec<u8>, Error>, second: Result<Vec<u8>, Error>) -> bool {
    match (first, second) {
        (Ok(p), Ok(q)) => p@ == q@,
        (Err(e), Err(f)) => e == f,
        _ => false,
    }
}

/// Under verdicts that never contradict each other no candidate is both confirmed and
/// turned down.
proof fn lemma_accepted_not_rejected(
    answers: spec_fn(Seq<u8>, bool) -> bool,
    work: Seq<u8>,
    blocksize: int,
    offset: int,
    k: u8,
)
    requires
        deterministic(answers),
        accepted(answers, work, blocksize, offset, k),
    ensures
        !rejected(answers, work, blocksize, offset, k),
{
}

/// Under verdicts that never contradict each other the search settles on one candidate
/// at most.
proof fn lemma_first_accepted_unique(
    answers: spec_fn(Seq<u8>, bool) -> bool,
    work: Seq<u8>,
    blocksize: int,
    offset: int,
    k: u8,
    l: u8,
)
    requires
        deterministic(answers),
        first_accepted(answers, work, blocksize, offset, k),
        first_accepted(answers, work, blocksize, offset, l),
    ensures
        k == l,
{
    if k < l {
        lemma_accepted_not_rejected(answers, work, blocksize, offset, k);
        assert(rejected(answers, work, blocksize, offset, k));
    }
    if l < k {
        lemma_accepted_not_rejected(answers, work, blocksize, offset, l);
        assert(rejected(answers, work, blocksize, offset, l));
    }
}

/// Under verdicts that never contradict each other, two plaintexts that both hold what
/// the attack finds from `start` on hold the same bytes from `start` on.
proof fn lemma_recovered_bytes_unique(
    answers: spec_fn(Seq<u8>, bool) -> bool,
    ciphertext: Seq<u8>,
    plain: Seq<u8>,
    other: Seq<u8>,
    blocksize: int,
    start: int,
)
    requires
        blocksize > 0,
        deterministic(answers),
        aligned(ciphertext.len() as int, blocksize),
        plain.len() == plain_len(ciphertext.len() as int, blocksize),
        other.len() == plain.len(),
        0 <= start,
        recovered_from(answers, ciphertext, plain, blocksize, start),
        recovered_from(answers, ciphertext, other, blocksize, start),
    ensures
        forall|x: int| start <= x < plain.len() ==> plain[x] == other[x],
    decreases plain.len() - start,
{
    if start < plain.len() {
        lemma_recovered_bytes_unique(answers, ciphertext, plain, other, blocksize, start + 1);
        lemma_forged_later_bytes(ciphertext, plain, other, blocksize, start);
        let work = forged(ciphertext, plain, blocksize, start);
        assert(recovers(answers, ciphertext, plain, blocksize, start));
        assert(recovers(answers, ciphertext, other, blocksize, start));
        let k = choose|k: u8|
            {
                &&& #[trigger] first_accepted(answers, work, blocksize, start, k)
                &&& plain[start] == plain_byte(
                    ciphertext[start],
                    k,
                    pad_len(blocksize, start),
                )
            };
        let l = choose|l: u8|
            {
                &&& #[trigger] first_accepted(answers, work, blocksize, start, l)
                &&& other[start] == plain_byte(
                    ciphertext[start],
                    l,
                    pad_len(blocksize, start),
                )
            };
        lemma_first_accepted_unique(answers, work, blocksize, start, k, l);
    }
}

/// Where an attack comes to a halt no byte is found: a plaintext that holds what the
/// attack finds after `offset` does not hold what it finds at `offset`.
proof fn lemma_stuck_finds_nothing(
    answers: spec_fn(Seq<u8>, bool) -> bool,
    ciphertext: Seq<u8>,
    plain: Seq<u8>,
    halted: Seq<u8>,
    blocksize: int,
    offset: int,
)
    requires
        blocksize > 0,
        deterministic(answers),
        aligned(ciphertext.len() as int, blocksize),
        plain.len() == plain_len(ciphertext.len() as int, blocksize),
        recovered_from(answers, ciphertext, plain, blocksize, offset + 1),
        stuck_at(answers, ciphertext, halted, blocksize, offset),
    ensures
        !recovers(answers, ciphertext, plain, blocksize, offset),
{
    lemma_recovered_bytes_unique(answers, ciphertext, plain, halted, blocksize, offset + 1);
    lemma_forged_later_bytes(ciphertext, plain, halted, blocksize, offset);
    let work = forged(ciphertext, plain, blocksize, offset);
    if recovers(answers, ciphertext, plain, blocksize, offset) {
        let k = choose|k: u8| #[trigger] first_accepted(answers, work, blocksize, offset, k);
        lemma_accepted_not_rejected(answers, work, blocksize, offset, k);
        assert(none_accepted(answers, work, blocksize, offset));
        assert(rejected(answers, work, blocksize, offset, k));
    }
}

/// Determinism: when the oracle gives each query one verdict, the ciphertext and the
/// block size fix the result of the attack. Two runs end with the same error or with
/// the same plaintext bytes.
pub proof fn lemma_outcome_unique(
    answers: spec_fn(Seq<u8>, bool) -> bool,
    ciphertext: Seq<u8>,
    blocksize: int,
    first: Result<Vec<u8>, Error>,
    second: Result<Vec<u8>, Error>,
)
    requires
        blocksize > 0,
        deterministic(answers),
        outcome(answers, ciphertext, blocksize, first),
        outcome(answers, ciphertext, blocksize, second),
    ensures
        same_result(first, second),
{
    match (first, second) {
        (Ok(p), Ok(q)) => {
            lemma_recovered_bytes_unique(answers, ciphertext, p@, q@, blocksize, 0);
            assert(p@ =~= q@);
        },
        (Ok(p), Err(Error::InvalidPadding)) => {
            let (halted, offset) = choose|halted: Seq<u8>, offset: int| #[trigger]
                stuck_at(answers, ciphertext, halted, blocksize, offset);
            lemma_stuck_finds_nothing(answers, ciphertext, p@, halted, blocksize, offset);
            assert(recovers(answers, ciphertext, p@, blocksize, offset));
        },
        (Err(Error::InvalidPadding), Ok(q)) => {
            let (halted, offset) = choose|halted: Seq<u8>, offset: int| #[trigger]
                stuck_at(answers, ciphertext, halted, blocksize, offset);
            lemma_stuck_finds_nothing(answers, ciphertext, q@, halted, blocksize, offset);
            assert(recovers(answers, ciphertext, q@, blocksize, offset));
        },
        _ => {},
    }
}

/// Under verdicts that never contradict each other, the candidates below `k` are
/// turned down by one run of exchanges only.
proof fn lemma_turned_down_unique(
    answers: spec_fn(Seq<u8>, bool) -> bool,
    work: Seq<u8>,
    blocksize: int,
    offset: int,
    k: int,
    log: Seq<Exchange>,
    other: Seq<Exchange>,
)
    requires
        deterministic(answers),
        genuine(answers, log),
        genuine(answers, other),
        turned_down(work, blocksize, offset, k, log),
        turned_down(work, blocksize, offset, k, other),
    ensures
        log == other,
    decreases k,
{
    if k <= 0 {
        assert(log =~= other);
    } else {
        let query = probe(work, offset, (k - 1) as u8);
        let n = log.len() as int;
        let m = other.len() as int;
        assert(answers(log[n - 1].query, log[n - 1].valid));
        assert(answers(other[m - 1].query, other[m - 1].valid));
        let short = log[n - 1] == (Exchange { query, valid: false }) && turned_down(
            work,
            blocksize,
            offset,
            k - 1,
            log.take(n - 1),
        );
        let other_short = other[m - 1] == (Exchange { query, valid: false }) && turned_down(
            work,
            blocksize,
            offset,
            k - 1,
            other.take(m - 1),
        );
        if !short {
            assert(answers(log[n - 2].query, log[n - 2].valid));
        }
        if !other_short {
            assert(answers(other[m - 2].query, other[m - 2].valid));
        }
        assert(short == other_short);
        let cut = if short {
            1int
        } else {
            2int
        };
        lemma_genuine_parts(answers, log, n - cut);
        lemma_genuine_parts(answers, other, m - cut);
        lemma_turned_down_unique(
            answers,
            work,
            blocksize,
            offset,
            k - 1,
            log.take(n - cut),
            other.take(m - cut),
        );
        assert(n == m);
        assert forall|i: int| 0 <= i < n implies log[i] == other[i] by {
            if i < n - cut {
                assert(log[i] == log.take(n - cut)[i]);
                assert(other[i] == other.take(m - cut)[i]);
            }
        }
        assert(log =~= other);
    }
}

/// Under verdicts that never contradict each other, a search at a given position has
/// one run of exchanges and one result.
pub proof fn lemma_search_log_unique(
    answers: spec_fn(Seq<u8>, bool) -> bool,
    work: Seq<u8>,
    blocksize: int,
    offset: int,
    log: Seq<Exchange>,
    found: Option<u8>,
    other: Seq<Exchange>,
    other_found: Option<u8>,
)
    requires
        deterministic(answers),
        genuine(answers, log),
        genuine(answers, other),
        search_log(work, blocksize, offset, log, found),
        search_log(work, blocksize, offset, other, other_found),
    ensures
        found == other_found,
        log == other,
{
    lemma_search_log(answers, work, blocksize, offset, log, found);
    lemma_search_log(answers, work, blocksize, offset, other, other_found);
    match (found, other_found) {
        (Some(k), Some(l)) => {
            lemma_first_accepted_unique(answers, work, blocksize, offset, k, l);
            let n = log.len() - confirming_calls(blocksize, offset);
            let m = other.len() - confirming_calls(blocksize, offset);
            lemma_genuine_parts(answers, log, n);
            lemma_genuine_parts(answers, other, m);
            lemma_turned_down_unique(
                answers,
                work,
                blocksize,
                offset,
                k as int,
                log.take(n),
                other.take(m),
            );
            assert(log.take(n).len() == other.take(m).len());
            assert(log =~= log.take(n) + log.skip(n));
            assert(other =~= other.take(m) + other.skip(m));
        },
        (Some(k), None) => {
            lemma_accepted_not_rejected(answers, work, blocksize, offset, k);
            assert(rejected(answers, work, blocksize, offset, k));
        },
        (None, Some(l)) => {
            lemma_accepted_not_rejected(answers, work, blocksize, offset, l);
            assert(rejected(answers, work, blocksize, offset, l));
        },
        (None, None) => {
            lemma_turned_down_unique(answers, work, blocksize, offset, 256, log, other);
        },
    }
}

/// Under verdicts that never contradict each other, the searches at the positions from
/// `start` on have one run of exchanges and find one plaintext there.
proof fn lemma_solved_log_unique(
    answers: spec_fn(Seq<u8>, bool) -> bool,
    ciphertext: Seq<u8>,
    blocksize: int,
    start: int,
    plain: Seq<u8>,
    log: Seq<Exchange>,
    other_plain: Seq<u8>,
    other: Seq<Exchange>,
)
    requires
        blocksize > 0,
        deterministic(answers),
        aligned(ciphertext.len() as int, blocksize),
        plain.len() == plain_len(ciphertext.len() as int, blocksize),
        other_plain.len() == plain.len(),
        0 <= start,
        genuine(answers, log),
        genuine(answers, other),
        solved_log(ciphertext, plain, blocksize, start, log),
        solved_log(ciphertext, other_plain, blocksize, start, other),
    ensures
        log == other,
        forall|x: int| start <= x < plain.len() ==> plain[x] == other_plain[x],
    decreases plain.len() - start,
{
    if start >= plain.len() {
        assert(log =~= other);
    } else {
        let pad = pad_len(blocksize, start);
        let c = ciphertext[start];
        let k = candidate_behind(c, plain[start], pad);
        let l = candidate_behind(c, other_plain[start], pad);
        let work = forged(ciphertext, plain, blocksize, start);
        let other_work = forged(ciphertext, other_plain, blocksize, start);
        let n = choose|n: int|
            0 <= n <= log.len() && solved_log(
                ciphertext,
                plain,
                blocksize,
                start + 1,
                #[trigger] log.take(n),
            ) && search_log(work, blocksize, start, log.skip(n), Some(k));
        let m = choose|m: int|
            0 <= m <= other.len() && solved_log(
                ciphertext,
                other_plain,
                blocksize,
                start + 1,
                #[trigger] other.take(m),
            ) && search_log(other_work, blocksize, start, other.skip(m), Some(l));
        lemma_genuine_parts(answers, log, n);
        lemma_genuine_parts(answers, other, m);
        lemma_solved_log_unique(
            answers,
            ciphertext,
            blocksize,
            start + 1,
            plain,
            log.take(n),
            other_plain,
            other.take(m),
        );
        lemma_forged_later_bytes(ciphertext, plain, other_plain, blocksize, start);
        lemma_search_log_unique(
            answers,
            work,
            blocksize,
            start,
            log.skip(n),
            Some(k),
            other.skip(m),
            Some(l),
        );
        let p = plain[start];
        let q = other_plain[start];
        let mark = marker(pad);
        assert(c ^ p ^ mark == c ^ q ^ mark ==> p == q) by (bit_vector);
        assert(log =~= log.take(n) + log.skip(n));
        assert(other =~= other.take(m) + other.skip(m));
    }
}

/// Determinism of the whole attack: when the oracle gives each query one verdict, two
/// attacks on the same ciphertext with the same block size put the same queries in the
/// same order, get the same verdicts, and end with the same result.
pub proof fn lemma_attack_log_unique(
    answers: spec_fn(Seq<u8>, bool) -> bool,
    ciphertext: Seq<u8>,
    blocksize: int,
    log: Seq<Exchange>,
    result: Result<Vec<u8>, Error>,
    other: Seq<Exchange>,
    other_result: Result<Vec<u8>, Error>,
)
    requires
        blocksize > 0,
        deterministic(answers),
        genuine(answers, log),
        genuine(answers, other),
        attack_log(ciphertext, blocksize, log, result),
        attack_log(ciphertext, blocksize, other, other_result),
    ensures
        log == other,
        same_result(result, other_result),
{
    lemma_attack_log(answers, ciphertext, blocksize, log, result);
    lemma_attack_log(answers, ciphertext, blocksize, other, other_result);
    lemma_outcome_unique(answers, ciphertext, blocksize, result, other_result);
    match (result, other_result) {
        (Ok(p), Ok(q)) => {
            lemma_solved_log_unique(answers, ciphertext, blocksize, 0, p@, log, q@, other);
        },
        (Err(Error::InvalidPadding), Err(Error::InvalidPadding)) => {
            let (p, o) = choose|p: Seq<u8>, o: int| #[trigger]
                halted_log(ciphertext, p, blocksize, o, log);
            let (q, u) = choose|q: Seq<u8>, u: int| #[trigger]
                halted_log(ciphertext, q, blocksize, u, other);
            let work = forged(ciphertext, p, blocksize, o);
            let other_work = forged(ciphertext, q, blocksize, u);
            let n = choose|n: int|
                0 <= n <= log.len() && solved_log(
                    ciphertext,
                    p,
                    blocksize,
                    o + 1,
                    #[trigger] log.take(n),
                ) && search_log(work, blocksize, o, log.skip(n), None);
            let m = choose|m: int|
                0 <= m <= other.len() && solved_log(
                    ciphertext,
                    q,
                    blocksize,
                    u + 1,
                    #[trigger] other.take(m),
                ) && search_log(other_work, blocksize, u, other.skip(m), None);
            lemma_genuine_parts(answers, log, n);
            lemma_genuine_parts(answers, other, m);
            lemma_solved_log(answers, ciphertext, p, blocksize, o + 1, log.take(n));
            lemma_solved_log(answers, ciphertext, q, blocksize, u + 1, other.take(m));
            lemma_search_log(answers, work, blocksize, o, log.skip(n), None);
            lemma_search_log(answers, other_work, blocksize, u, other.skip(m), None);
            assert(stuck_at(answers, ciphertext, p, blocksize, o));
            assert(stuck_at(answers, ciphertext, q, blocksize, u));
            if o < u {
                assert(recovers(answers, ciphertext, p, blocksize, u));
                lemma_stuck_finds_nothing(answers, ciphertext, p, q, blocksize, u);
            }
            if u < o {
                assert(recovers(answers, ciphertext, q, blocksize, o));
                lemma_stuck_finds_nothing(answers, ciphertext, q, p, blocksize, o);
            }
            assert(o == u);
            lemma_solved_log_unique(
                answers,
                ciphertext,
                blocksize,
                o + 1,
                p,
                log.take(n),
                q,
                other.take(m),
            );
            lemma_forged_later_bytes(ciphertext, p, q, blocksize, o);
            lemma_search_log_unique(
                answers,
                work,
                blocksize,
                o,
                log.skip(n),
                None,
                other.skip(m),
                None,
            );
            assert(log =~= log.take(n) + log.skip(n));
            assert(other =~= other.take(m) + other.skip(m));
        },
        (Err(Error::WrongSize { .. }), Err(Error::WrongSize { .. })) => {
            assert(log =~= other);
        },
        _ => {},
    }
}

} // verus!
