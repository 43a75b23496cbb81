use chat_relay::cipher::{decrypt, encrypt};

#[test]
fn encrypt_rotates_letters_and_keeps_the_rest() {
    assert_eq!(encrypt("abc", 3), "def");
    assert_eq!(encrypt("xyz", 3), "abc");
    assert_eq!(encrypt("ABC", 3), "DEF");
    assert_eq!(encrypt("XYZ", 3), "ABC");
    assert_eq!(encrypt("a b, c!", 1), "b c, d!");
    assert_eq!(encrypt("", 7), "");
}

#[test]
fn encrypt_with_zero_or_full_shift_is_identity() {
    assert_eq!(encrypt("Attack at dawn", 0), "Attack at dawn");
    assert_eq!(encrypt("Attack at dawn", 26), "Attack at dawn");
}

#[test]
fn decrypt_undoes_encrypt() {
    let plaintext = "the quick brown fox jumps over the lazy dog";
    let shift = 3;
    let ciphertext = encrypt(plaintext, shift);
    assert_eq!(ciphertext, "wkh txlfn eurzq ira mxpsv ryhu wkh odcb grj");
    assert_eq!(decrypt(&ciphertext, shift), plaintext);
}

#[test]
fn decrypt_matches_complementary_shift() {
    assert_eq!(decrypt("def", 3), "abc");
    assert_eq!(decrypt("abc", 3), "xyz");
    assert_eq!(decrypt("nopqrstuvwxyzabcdefghijklm", 13), "abcdefghijklmnopqrstuvwxyz");
}
