//! The attack against AES-128 in CBC mode with PKCS#7 padding. The messages are those of
//! the CryptoPals padding oracle challenge.

use aes::cipher::{
    block_padding::{Pkcs7, RawPadding},
    BlockDecryptMut, BlockEncryptMut, KeyIvInit,
};

/// Fixed values, so that every run sees the same ciphertexts.
const KEY: [u8; 16] = [0u8; 16];
const IV: [u8; 16] = [0u8; 16];

type Aes128CbcEnc = cbc::Encryptor<aes::Aes128>;
type Aes128CbcDec = cbc::Decryptor<aes::Aes128>;

fn oracle(ciphertext: &[u8]) -> bool {
    let mut buf = ciphertext.to_vec();

    Aes128CbcDec::new(&KEY.into(), &IV.into())
        .decrypt_padded_mut::<Pkcs7>(&mut buf)
        .is_ok()
}

/// Encrypts `plaintext` and puts the initialisation vector in front.
fn encrypt_with_iv(plaintext: &[u8]) -> Vec<u8> {
    let mut ciphertext = vec![0u8; (plaintext.len() / 16 + 1) * 16];

    ciphertext[..plaintext.len()].copy_from_slice(plaintext);

    let ciphertext = Aes128CbcEnc::new(&KEY.into(), &IV.into())
        .encrypt_padded_mut::<Pkcs7>(&mut ciphertext, plaintext.len())
        .unwrap();

    let mut iv = IV.to_vec();

    iv.extend_from_slice(ciphertext);
    iv
}

fn test_aes_cbc(plaintext: &[u8]) {
    let iv = encrypt_with_iv(plaintext);

    // Perform the attack
    let plaintext2 = padding_oracle::decrypt(&iv, 16, oracle).unwrap();

    // Unpad the plaintext
    let plaintext2 = Pkcs7::raw_unpad(plaintext2.as_slice()).unwrap();

    assert_eq!(plaintext, plaintext2);
}

#[test]
fn it_can_decrypt_aes_cbc_0() {
    let plaintext = b"000000Now that the party is jumping";

    test_aes_cbc(plaintext);
}

#[test]
fn it_can_decrypt_aes_cbc_1() {
    let plaintext = b"000001With the bass kicked in and the Vega's are pumpin'";

    test_aes_cbc(plaintext);
}

#[test]
fn it_can_decrypt_aes_cbc_2() {
    let plaintext = b"000002Quick to the point, to the point, no faking";

    test_aes_cbc(plaintext);
}

#[test]
fn it_can_decrypt_aes_cbc_3() {
    let plaintext = b"000003Cooking MC's like a pound of bacon";

    test_aes_cbc(plaintext);
}

#[test]
fn it_can_decrypt_aes_cbc_4() {
    let plaintext = b"000004Burning 'em, if you ain't quick and nimble";

    test_aes_cbc(plaintext);
}

#[test]
fn it_can_decrypt_aes_cbc_5() {
    let plaintext = b"000005I go crazy when I hear a cymbal";

    test_aes_cbc(plaintext);
}

#[test]
fn it_can_decrypt_aes_cbc_6() {
    let plaintext = b"000006And a high hat with a souped up tempo";

    test_aes_cbc(plaintext);
}

#[test]
fn it_can_decrypt_aes_cbc_7() {
    let plaintext = b"000007I'm on a roll, it's time to go solo";

    test_aes_cbc(plaintext);
}

#[test]
fn it_can_decrypt_aes_cbc_8() {
    let plaintext = b"000008ollin' in my five point oh";

    test_aes_cbc(plaintext);
}

#[test]
fn it_can_decrypt_aes_cbc_9() {
    let plaintext = b"000009ith my rag-top down so my hair can blow";

    test_aes_cbc(plaintext);
}

#[test]
fn aes_padded_plaintext_is_returned_with_its_padding() {
    let message = b"000000Now that the party is jumping";
    assert_eq!(message.len(), 35);
    let iv = encrypt_with_iv(message);
    assert_eq!(iv.len(), 64);

    let recovered = padding_oracle::decrypt(&iv, 16, oracle).unwrap();

    assert_eq!(recovered.len(), 48);
    assert_eq!(&recovered[..35], &message[..]);
    assert_eq!(&recovered[35..], &[0x0du8; 13][..]);
}

#[test]
fn aes_empty_message_gives_a_block_of_padding() {
    let iv = encrypt_with_iv(b"");
    assert_eq!(iv.len(), 32);

    let recovered = padding_oracle::decrypt(&iv, 16, oracle).unwrap();

    assert_eq!(recovered, vec![0x10u8; 16]);
}

#[test]
fn aes_message_of_one_block_gives_a_second_block_of_padding() {
    let message = b"sixteen byte msg";
    let iv = encrypt_with_iv(message);
    assert_eq!(iv.len(), 48);

    let recovered = padding_oracle::decrypt(&iv, 16, oracle).unwrap();

    let mut expected = message.to_vec();
    expected.extend_from_slice(&[0x10u8; 16]);
    assert_eq!(recovered, expected);
}

#[test]
fn aes_attack_gives_the_same_bytes_each_time() {
    let iv = encrypt_with_iv(b"000005I go crazy when I hear a cymbal");

    let first = padding_oracle::decrypt(&iv, 16, oracle).unwrap();
    let second = padding_oracle::decrypt(&iv, 16, oracle).unwrap();

    assert_eq!(first, second);
}

#[test]
fn aes_attack_accepts_a_closure() {
    let iv = encrypt_with_iv(b"closures too");
    let key = [0u8; 16];

    let recovered = padding_oracle::decrypt(&iv, 16, |query: &[u8]| {
        let mut buf = query.to_vec();
        Aes128CbcDec::new(&key.into(), &IV.into())
            .decrypt_padded_mut::<Pkcs7>(&mut buf)
            .is_ok()
    })
    .unwrap();

    assert_eq!(Pkcs7::raw_unpad(recovered.as_slice()).unwrap(), b"closures too");
}

#[test]
fn aes_misaligned_ciphertext_is_refused() {
    let mut iv = encrypt_with_iv(b"000000Now that the party is jumping");
    iv.pop();

    let result = padding_oracle::decrypt(&iv, 16, oracle);

    assert_eq!(
        result,
        Err(padding_oracle::Error::WrongSize {
            blocksize: 16,
            found: 63
        })
    );
}
