use vigenere_cipher::alphabet::decode_u32;
use vigenere_cipher::alphabet::encode_char;
use vigenere_cipher::vignere::check_alphabetic;
use vigenere_cipher::vignere::generate_key;
use vigenere_cipher::vignere::Vignere;

#[test]
fn encode_char_test() {
    assert_eq!(encode_char('a'), 0);
    assert_eq!(encode_char('b'), 1);
    assert_eq!(encode_char('z'), 25);
}

#[test]
fn decode_u32_test() {
    assert_eq!(decode_u32(0), 'a');
    assert_eq!(decode_u32(1), 'b');
    assert_eq!(decode_u32(25), 'z');
}

#[test]
fn check_alphabetic_test() {
    assert!(check_alphabetic("abc").is_ok());
    assert!(check_alphabetic("ABC").is_ok());
    assert!(check_alphabetic("aBc").is_ok());
    assert!(check_alphabetic("aBc123").is_err());
    assert!(check_alphabetic("aBc!@#").is_err());
}

#[test]
fn generate_key_test() {
    assert_eq!(generate_key("abc", 10), "abcabcabca");
    assert_eq!(generate_key("abc", 5), "abcab");
    assert_eq!(generate_key("abc", 3), "abc");
    assert_eq!(generate_key("abc", 2), "ab");
    assert_eq!(generate_key("abc", 1), "a");
    assert_eq!(generate_key("abc", 0), "");
}

#[test]
fn hello_world() {
    let key = "CRYPTO";
    let msg = "HELLOWORLD";
    let v = Vignere::new(key).unwrap();
    let ciphertext = v.encrypt(msg).unwrap();
    assert_eq!(ciphertext, "jvjahkqijs");
    let plaintext = v.decrypt(&ciphertext).unwrap();
    assert_eq!(msg.to_lowercase(), plaintext);
}

#[test]
fn attack_at_dawn() {
    let key = "LEMON";
    let msg = "ATTACKATDAWN";
    let v = Vignere::new(key).unwrap();
    let ciphertext = v.encrypt(msg).unwrap();
    assert_eq!(ciphertext, "lxfopvefrnhr");
    let plaintext = v.decrypt(&ciphertext).unwrap();
    assert_eq!(msg.to_lowercase(), plaintext);
}

#[test]
fn dont_tell_anyone() {
    let key = "cat";
    let msg = "donttellanyone";
    let v = Vignere::new(key).unwrap();
    let ciphertext = v.encrypt(msg).unwrap();
    let plaintext = v.decrypt(&ciphertext).unwrap();
    assert_eq!(msg, plaintext);
}

#[test]
fn really_long_text() {
    let key = "secrets";
    let msg = String::from("LoremipsumdolorsitametconsecteturadipiscingelitseddoeiusmodtemporincididuntutlaboreetdoloremagnaaliquaUtenimadminimveniamquisnostrudexercitationullamcolaborisnisiutaliquipexeacommodoconsequatDuisauteiruredolorinreprehenderitinvoluptatevelitessecillumdoloreeufugiatnullapariaturExcepteursintoccaecatcupidatatnonproidentsuntinculpaquiofficiadeseruntmollitanimidestlaborum").to_uppercase();
    let v = Vignere::new(key).unwrap();
    let ciphertext = v.encrypt(&msg).unwrap();
    let plaintext = v.decrypt(&ciphertext).unwrap();
    assert_eq!(msg.to_lowercase(), plaintext);
}

#[test]
fn really_long_key() {
    let key = "LoremipsummetconsecteturadipiscingelitseddoeiusmodtemporincididuntutlaboreetdoloremagnaaliquaUtenimadminimveniamquisnostrudexercitationullamcolaborisnisiutaliquipexeacommodoconsequatDuisauteiruredolorinreprehenderitinvoluptatevelitessecillumdoloreeufugiatnullapariaturExcepteursintoccaecatcupidatatnonproidentsuntinculpaquiofficiadeseruntmollitanimidestlaboru";
    let msg = String::from("jpokmssrwjlazz").to_uppercase();
    let v = Vignere::new(key).unwrap();
    let ciphertext = v.encrypt(&msg).unwrap();
    let plaintext = v.decrypt(&ciphertext).unwrap();
    assert_eq!(msg.to_lowercase(), plaintext);
}

#[test]
fn really_long_text_and_key() {
    let key = "LoremipsumdolorsitametconsecteturadipiscingelitseddoeiusmodtemporincididuntutlaboreetdoloremagnaaliquaUtenimadminimveniamquisnostrudexercitationullamcolaborisnisiutaliquipexeacommodoconsequatDuisauteiruredolorinreprehenderitinvoluptatevelitessecillumdoloreeufugiatnullapariaturExcepteursintoccaecatcupidatatnonproidentsuntinculpaquiofficiadeseruntmollitanimidestlaborum";
    let msg = String::from("rxfqgfmijapvfrahyvjbkrvrlngwdrqqsjzilbfdwhuhphtlphrbqsxaxsdivxmbhknvridnlxxvgorbhjaabdxcjridczqsumctefntukkvsjvmbikplirqtresjtyvhtkytcjzmcvcwbyufbmnwmrxzviyyjjxvecqpqkrzxnigycqjjvbxdmeqdjpipvdzcgeyenopfpnzsxzkhtdnlctonqlellwdhpsijfrukoqcrkxmwjpokmssrwjlazz").to_uppercase();
    let v = Vignere::new(key).unwrap();
    let ciphertext = v.encrypt(&msg).unwrap();
    let decipher_text = v.decrypt(&ciphertext).unwrap();
    assert_eq!(msg.to_lowercase(), decipher_text);
}
