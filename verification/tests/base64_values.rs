use pem_parser::base64::decode_base64;
use pem_parser::base64::in_alphabet;
use pem_parser::base64::is_valid_base64;
use pem_parser::base64::PAD;
use pem_parser::PemError;

#[test]
fn decodes_the_usual_vectors() {
    assert_eq!(decode_base64(b""), Ok(b"".to_vec()));
    assert_eq!(decode_base64(b"Zg=="), Ok(b"f".to_vec()));
    assert_eq!(decode_base64(b"Zm8="), Ok(b"fo".to_vec()));
    assert_eq!(decode_base64(b"Zm9v"), Ok(b"foo".to_vec()));
    assert_eq!(decode_base64(b"Zm9vYg=="), Ok(b"foob".to_vec()));
    assert_eq!(decode_base64(b"Zm9vYmE="), Ok(b"fooba".to_vec()));
    assert_eq!(decode_base64(b"Zm9vYmFy"), Ok(b"foobar".to_vec()));
}

#[test]
fn decoding_is_not_the_identity() {
    assert_ne!(decode_base64(b"aGVsbG8="), Ok(b"aGVsbG8=".to_vec()));
    assert_eq!(decode_base64(b"aGVsbG8="), Ok(b"hello".to_vec()));
}

#[test]
fn decodes_every_bit_of_a_group() {
    assert_eq!(decode_base64(b"AAAA"), Ok(vec![0x00, 0x00, 0x00]));
    assert_eq!(decode_base64(b"////"), Ok(vec![0xff, 0xff, 0xff]));
    assert_eq!(decode_base64(b"/AAA"), Ok(vec![0xfc, 0x00, 0x00]));
    assert_eq!(decode_base64(b"A/AA"), Ok(vec![0x03, 0xf0, 0x00]));
    assert_eq!(decode_base64(b"AA/A"), Ok(vec![0x00, 0x0f, 0xc0]));
    assert_eq!(decode_base64(b"AAA/"), Ok(vec![0x00, 0x00, 0x3f]));
    assert_eq!(decode_base64(b"+z09"), Ok(vec![0xfb, 0x3d, 0x3d]));
}

#[test]
fn bits_behind_the_last_byte_are_dropped() {
    assert_eq!(decode_base64(b"QR=="), Ok(b"A".to_vec()));
    assert_eq!(decode_base64(b"QUJ="), Ok(b"AB".to_vec()));
}

#[test]
fn refuses_what_is_not_padded_base64() {
    let bad: [&[u8]; 12] = [
        b"Q", b"QQ", b"QUI", b"QQ=", b"Q===", b"====", b"=QQQ", b"QQ=Q", b"QUJD\n", b"QU-D", b"QU_D",
        b"QUJD QUJD",
    ];
    for text in bad {
        assert_eq!(decode_base64(text), Err(PemError::MalformedBase64));
        assert!(!is_valid_base64(text));
    }
}

#[test]
fn tells_padded_base64() {
    assert!(is_valid_base64(b""));
    assert!(is_valid_base64(b"QUJD"));
    assert!(is_valid_base64(b"QUI="));
    assert!(is_valid_base64(b"QQ=="));
    assert!(is_valid_base64(b"QUJDQQ=="));
    assert!(!is_valid_base64(b"QQ==QUJD"));
    assert!(!is_valid_base64(b"QUJDQ==="));
}

#[test]
fn alphabet_has_sixty_four_characters() {
    let mut count = 0;
    for c in 0..=255u8 {
        if in_alphabet(c) {
            count += 1;
            assert!(c.is_ascii_alphanumeric() || c == b'+' || c == b'/');
        }
    }
    assert_eq!(count, 64);
    assert!(!in_alphabet(PAD));
    assert_eq!(PAD, b'=');
}
