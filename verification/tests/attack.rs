//! The attack against a small cipher whose every intermediate value is known, so that
//! each query and each recovered byte can be written down.

use padding_oracle::{decrypt, decrypt_with, forge, search, Error, Oracle};
use std::cell::{Cell, RefCell};

const BLOCK: usize = 4;

/// The raw decryption of one block: a fixed scrambling of its bytes.
fn scramble(block: &[u8]) -> Vec<u8> {
    let key = [0x3au8, 0xc5, 0x11, 0x7e];
    block
        .iter()
        .enumerate()
        .map(|(j, b)| b.rotate_left(3).wrapping_add(j as u8) ^ key[j % key.len()])
        .collect()
}

/// The identity as raw block decryption.
fn plain_copy(block: &[u8]) -> Vec<u8> {
    block.to_vec()
}

/// The last plaintext block of `query` under CBC, with `raw` as the block decryption.
fn last_block(query: &[u8], blocksize: usize, raw: fn(&[u8]) -> Vec<u8>) -> Vec<u8> {
    let n = query.len();
    let inter = raw(&query[n - blocksize..]);
    (0..blocksize)
        .map(|j| inter[j] ^ query[n - 2 * blocksize + j])
        .collect()
}

fn pkcs7_valid(block: &[u8]) -> bool {
    let n = block.len();
    let v = block[n - 1] as usize;
    v >= 1 && v <= n && block[n - v..].iter().all(|b| *b as usize == v)
}

fn scrambled_oracle(query: &[u8]) -> bool {
    pkcs7_valid(&last_block(query, BLOCK, scramble))
}

fn copy_oracle(query: &[u8]) -> bool {
    pkcs7_valid(&last_block(query, BLOCK, plain_copy))
}

/// The plaintext behind every block but the first.
fn cbc_plain(ciphertext: &[u8], blocksize: usize, raw: fn(&[u8]) -> Vec<u8>) -> Vec<u8> {
    let mut out = Vec::new();
    let mut t = blocksize;
    while t < ciphertext.len() {
        let inter = raw(&ciphertext[t..t + blocksize]);
        for j in 0..blocksize {
            out.push(inter[j] ^ ciphertext[t - blocksize + j]);
        }
        t += blocksize;
    }
    out
}

fn sample(len: usize) -> Vec<u8> {
    (0..len).map(|x| (x as u8).wrapping_mul(37).wrapping_add(11)).collect()
}

#[test]
fn recovers_every_block_but_the_first() {
    let ciphertext = sample(5 * BLOCK);

    let recovered = decrypt(&ciphertext, BLOCK, scrambled_oracle).unwrap();

    assert_eq!(recovered.len(), 4 * BLOCK);
    assert_eq!(recovered, cbc_plain(&ciphertext, BLOCK, scramble));
}

#[test]
fn recovers_known_bytes_under_the_identity() {
    let ciphertext = [0x10u8, 0x20, 0x30, 0x40, 0x51, 0x62, 0x73, 0x84];

    let recovered = decrypt(&ciphertext, BLOCK, copy_oracle).unwrap();

    assert_eq!(recovered, vec![0x41, 0x42, 0x43, 0xc4]);
}

#[test]
fn a_lone_block_has_no_plaintext() {
    let calls = Cell::new(0usize);
    let ciphertext = sample(BLOCK);

    let recovered = decrypt(&ciphertext, BLOCK, |_q: &[u8]| {
        calls.set(calls.get() + 1);
        true
    });

    assert_eq!(recovered, Ok(Vec::new()));
    assert_eq!(calls.get(), 0);
}

#[test]
fn an_empty_ciphertext_has_no_plaintext() {
    let calls = Cell::new(0usize);

    let recovered = decrypt(&[], BLOCK, |_q: &[u8]| {
        calls.set(calls.get() + 1);
        true
    });

    assert_eq!(recovered, Ok(Vec::new()));
    assert_eq!(calls.get(), 0);
}

#[test]
fn misaligned_ciphertext_is_refused_before_any_call() {
    let calls = Cell::new(0usize);
    for len in [1usize, 3, 5, 7, 9, 10, 11, 13] {
        let ciphertext = sample(len);

        let result = decrypt(&ciphertext, BLOCK, |_q: &[u8]| {
            calls.set(calls.get() + 1);
            true
        });

        assert_eq!(
            result,
            Err(Error::WrongSize {
                blocksize: BLOCK,
                found: len
            })
        );
    }
    assert_eq!(calls.get(), 0);
}

#[test]
fn wrong_size_reports_block_size_and_length() {
    let ciphertext = sample(40);

    let result = decrypt(&ciphertext, 16, copy_oracle);

    assert_eq!(
        result,
        Err(Error::WrongSize {
            blocksize: 16,
            found: 40
        })
    );
}

#[test]
fn an_oracle_that_rejects_everything_gives_invalid_padding() {
    let calls = Cell::new(0usize);
    let ciphertext = sample(3 * BLOCK);

    let result = decrypt(&ciphertext, BLOCK, |_q: &[u8]| {
        calls.set(calls.get() + 1);
        false
    });

    assert_eq!(result, Err(Error::InvalidPadding));
    assert_eq!(calls.get(), 256);
}

#[test]
fn an_oracle_that_never_confirms_costs_two_calls_a_candidate() {
    let calls = Cell::new(0usize);
    let ciphertext = sample(2 * BLOCK);

    // Accepts each probe and rejects each confirming query: the two alternate.
    let result = decrypt(&ciphertext, BLOCK, |_q: &[u8]| {
        calls.set(calls.get() + 1);
        calls.get() % 2 == 1
    });

    assert_eq!(result, Err(Error::InvalidPadding));
    assert_eq!(calls.get(), 2 * 256);
}

#[test]
fn an_oracle_that_accepts_everything_settles_on_zero() {
    let calls = Cell::new(0usize);
    let ciphertext = [0x10u8, 0x20, 0x30, 0x40, 0x51, 0x62, 0x73, 0x84];

    let recovered = decrypt(&ciphertext, BLOCK, |_q: &[u8]| {
        calls.set(calls.get() + 1);
        true
    })
    .unwrap();

    // Candidate 0 at every position: the byte is the ciphertext byte xor the padding
    // length.
    assert_eq!(recovered, vec![0x10 ^ 4, 0x20 ^ 3, 0x30 ^ 2, 0x40 ^ 1]);
    // Two calls for each byte but the first of the block, which needs one.
    assert_eq!(calls.get(), 7);
}

#[test]
fn calls_stay_within_the_bound() {
    for blocks in 2usize..6 {
        let calls = Cell::new(0usize);
        let ciphertext = sample(blocks * BLOCK);

        let recovered = decrypt(&ciphertext, BLOCK, |q: &[u8]| {
            calls.set(calls.get() + 1);
            scrambled_oracle(q)
        });

        assert!(recovered.is_ok());
        assert!(calls.get() <= (blocks - 1) * BLOCK * 2 * 256);
        assert!(calls.get() >= (blocks - 1) * BLOCK);
    }
}

#[test]
fn same_input_gives_the_same_output() {
    let ciphertext = sample(4 * BLOCK);

    let first = decrypt(&ciphertext, BLOCK, scrambled_oracle);
    let second = decrypt(&ciphertext, BLOCK, scrambled_oracle);

    assert!(first.is_ok());
    assert_eq!(first, second);
}

#[test]
fn same_input_gives_the_same_queries() {
    let ciphertext = sample(3 * BLOCK);
    let first = RefCell::new(Vec::new());
    let second = RefCell::new(Vec::new());

    let a = decrypt(&ciphertext, BLOCK, |q: &[u8]| {
        first.borrow_mut().push(q.to_vec());
        scrambled_oracle(q)
    });
    let b = decrypt(&ciphertext, BLOCK, |q: &[u8]| {
        second.borrow_mut().push(q.to_vec());
        scrambled_oracle(q)
    });

    assert_eq!(a, b);
    assert_eq!(first.into_inner(), second.into_inner());
}

#[test]
fn a_false_positive_is_rejected_by_the_confirming_query() {
    // Under the identity cipher the plaintext is the xor of the two blocks:
    // [0x41, 0x42, 0x02, 0x07]. Its third byte is 2, so at the last byte the candidate
    // that makes the block end in 2, 2 passes the first query. That candidate is 0, the
    // right one is 3.
    let ciphertext = [0x91u8, 0xa2, 0x55, 0x05, 0xd0, 0xe0, 0x57, 0x02];
    let seen: RefCell<Vec<(Vec<u8>, bool)>> = RefCell::new(Vec::new());

    let recovered = decrypt(&ciphertext, BLOCK, |q: &[u8]| {
        let valid = copy_oracle(q);
        seen.borrow_mut().push((q.to_vec(), valid));
        valid
    })
    .unwrap();

    assert_eq!(recovered, vec![0x41, 0x42, 0x02, 0x07]);

    let seen = seen.into_inner();
    // The first probe writes candidate 0 at the last byte of the first block, and the
    // oracle accepts it.
    assert_eq!(
        seen[0],
        (vec![0x91, 0xa2, 0x55, 0x00, 0xd0, 0xe0, 0x57, 0x02], true)
    );
    // The confirming query complements the byte before it, and the oracle rejects.
    assert_eq!(
        seen[1],
        (vec![0x91, 0xa2, 0xaa, 0x00, 0xd0, 0xe0, 0x57, 0x02], false)
    );
    // Candidates 1 and 2 fail at once.
    assert_eq!(
        seen[2],
        (vec![0x91, 0xa2, 0x55, 0x01, 0xd0, 0xe0, 0x57, 0x02], false)
    );
    assert_eq!(
        seen[3],
        (vec![0x91, 0xa2, 0x55, 0x02, 0xd0, 0xe0, 0x57, 0x02], false)
    );
    // Candidate 3 is accepted and confirmed.
    assert_eq!(
        seen[4],
        (vec![0x91, 0xa2, 0x55, 0x03, 0xd0, 0xe0, 0x57, 0x02], true)
    );
    assert_eq!(
        seen[5],
        (vec![0x91, 0xa2, 0xaa, 0x03, 0xd0, 0xe0, 0x57, 0x02], true)
    );
}

#[test]
fn the_first_byte_of_a_block_is_not_confirmed() {
    let ciphertext = sample(2 * BLOCK);
    let seen: RefCell<Vec<Vec<u8>>> = RefCell::new(Vec::new());

    let recovered = decrypt(&ciphertext, BLOCK, |q: &[u8]| {
        seen.borrow_mut().push(q.to_vec());
        scrambled_oracle(q)
    })
    .unwrap();
    assert_eq!(recovered, cbc_plain(&ciphertext, BLOCK, scramble));

    // The last query is a probe of the first byte of the block: it differs from the
    // forged block only at that byte, so the query before it is another probe of the
    // same position or the confirmation of the position after it.
    let seen = seen.into_inner();
    let last = &seen[seen.len() - 1];
    let inter = scramble(&ciphertext[BLOCK..]);
    assert_eq!(last[0] ^ inter[0], 4);
    assert_eq!(last[1] ^ inter[1], 4);
    assert_eq!(last[2] ^ inter[2], 4);
    assert_eq!(last[3] ^ inter[3], 4);
    assert_eq!(&last[BLOCK..], &ciphertext[BLOCK..]);
}

#[test]
fn later_blocks_are_cut_from_the_queries() {
    let ciphertext = sample(3 * BLOCK);
    let lengths: RefCell<Vec<usize>> = RefCell::new(Vec::new());

    let recovered = decrypt(&ciphertext, BLOCK, |q: &[u8]| {
        lengths.borrow_mut().push(q.len());
        scrambled_oracle(q)
    });
    assert!(recovered.is_ok());

    let lengths = lengths.into_inner();
    assert_eq!(lengths[0], 3 * BLOCK);
    assert_eq!(lengths[lengths.len() - 1], 2 * BLOCK);
    let mut sorted = lengths.clone();
    sorted.sort_by(|a, b| b.cmp(a));
    assert_eq!(lengths, sorted);
}

#[test]
fn block_size_one_needs_no_confirmation() {
    // With blocks of one byte the only valid padding is the byte 1.
    let ciphertext = [0x5au8, 0x10, 0x33];
    let calls = Cell::new(0usize);

    let recovered = decrypt(&ciphertext, 1, |q: &[u8]| {
        calls.set(calls.get() + 1);
        let n = q.len();
        q[n - 1] ^ q[n - 2] == 1
    })
    .unwrap();

    assert_eq!(recovered, vec![0x5a ^ 0x10, 0x10 ^ 0x33]);
    // Position 1: candidate 0x32 after 0x32 failures. Position 0: candidate 0x11.
    assert_eq!(calls.get(), 0x33 + 0x12);
}

#[test]
fn forge_replaces_the_bytes_after_the_offset() {
    let ciphertext = [
        0x10u8, 0x20, 0x30, 0x40, 0x51, 0x62, 0x73, 0x84, 0x95, 0xa6, 0xb7, 0xc8,
    ];
    let plaintext = [0x01u8, 0x02, 0x03, 0x04, 0x05, 0x06, 0x07, 0x08];

    // Last byte of the second block: nothing is known yet, nothing is replaced.
    assert_eq!(forge(&ciphertext, &plaintext, 4, 7), ciphertext.to_vec());

    // Second byte of the second block: padding length 3, two bytes replaced.
    assert_eq!(
        forge(&ciphertext, &plaintext, 4, 5),
        vec![
            0x10,
            0x20,
            0x30,
            0x40,
            0x51,
            0x62,
            3 ^ 0x07 ^ 0x73,
            3 ^ 0x08 ^ 0x84,
            0x95,
            0xa6,
            0xb7,
            0xc8
        ]
    );

    // First byte of the first block: padding length 4, the last block is cut off.
    assert_eq!(
        forge(&ciphertext, &plaintext, 4, 0),
        vec![
            0x10,
            4 ^ 0x02 ^ 0x20,
            4 ^ 0x03 ^ 0x30,
            4 ^ 0x04 ^ 0x40,
            0x51,
            0x62,
            0x73,
            0x84
        ]
    );
}

#[test]
fn search_returns_the_first_confirmed_candidate() {
    let work = vec![0u8, 0, 0, 0, 9, 9, 9, 9];

    // Accepts 0x20 and above at the offset; confirms only where the byte is 0x23 or more.
    let mut oracle = Oracle::new(|q: &[u8]| {
        if q[1] == 0xff {
            q[2] >= 0x23
        } else {
            q[2] >= 0x20
        }
    });
    assert_eq!(search(work.clone(), 4, 2, &mut oracle), Some(0x23));

    // At the first byte of a block the first accepted candidate stands.
    let mut oracle = Oracle::new(|q: &[u8]| q[4] >= 0x20 && q[3] == 0);
    assert_eq!(search(work.clone(), 4, 4, &mut oracle), Some(0x20));

    let mut oracle = Oracle::new(|_q: &[u8]| false);
    assert_eq!(search(work, 4, 2, &mut oracle), None);
}

#[test]
fn search_restores_the_neighbour_between_candidates() {
    let work = vec![7u8, 7, 7, 7, 9, 9, 9, 9];
    let seen: RefCell<Vec<Vec<u8>>> = RefCell::new(Vec::new());

    let mut oracle = Oracle::new(|q: &[u8]| {
        seen.borrow_mut().push(q.to_vec());
        q[2] == 7 && q[3] <= 1
    });
    let found = search(work, 4, 3, &mut oracle);

    assert_eq!(found, None);
    assert_eq!(
        seen.into_inner()[..4],
        [
            vec![7u8, 7, 7, 0, 9, 9, 9, 9],
            vec![7u8, 7, 0xf8, 0, 9, 9, 9, 9],
            vec![7u8, 7, 7, 1, 9, 9, 9, 9],
            vec![7u8, 7, 0xf8, 1, 9, 9, 9, 9],
        ]
    );
}

#[test]
fn decrypt_with_shares_one_oracle_between_attacks() {
    let calls = Cell::new(0usize);
    let mut oracle = Oracle::new(|q: &[u8]| {
        calls.set(calls.get() + 1);
        scrambled_oracle(q)
    });
    let one = sample(2 * BLOCK);
    let two = sample(3 * BLOCK);

    let first = decrypt_with(&one, BLOCK, &mut oracle).unwrap();
    let after_first = calls.get();
    let second = decrypt_with(&two, BLOCK, &mut oracle).unwrap();

    assert_eq!(first, cbc_plain(&one, BLOCK, scramble));
    assert_eq!(second, cbc_plain(&two, BLOCK, scramble));
    assert!(after_first <= BLOCK * 2 * 256);
    assert!(calls.get() - after_first <= 2 * BLOCK * 2 * 256);
    assert_eq!(
        decrypt_with(&sample(5), BLOCK, &mut oracle),
        Err(Error::WrongSize {
            blocksize: BLOCK,
            found: 5
        })
    );
}

#[test]
fn padding_length_wraps_beyond_a_byte() {
    // With blocks of 300 bytes the padding length 256 is written as the byte 0.
    let blocksize = 300usize;
    let ciphertext: Vec<u8> = (0..2 * blocksize).map(|x| (x % 251) as u8).collect();

    let recovered = decrypt(&ciphertext, blocksize, |_q: &[u8]| true).unwrap();

    assert_eq!(recovered.len(), blocksize);
    for offset in 0..blocksize {
        let pad = blocksize - offset;
        assert_eq!(recovered[offset], ciphertext[offset] ^ (pad as u8));
    }
    assert_eq!(recovered[blocksize - 256], ciphertext[blocksize - 256]);
}
