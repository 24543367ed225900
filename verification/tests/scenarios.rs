use pem_parser::pem_bytes_to_der;
use pem_parser::pem_to_der;
use pem_parser::PemError;

#[test]
fn hello_world_in_an_envelope() {
    let pem = "-----BEGIN TEST-----\naGVsbG8gd29ybGQ=\n-----END TEST-----";
    assert_eq!(pem_to_der(pem), Ok(b"hello world".to_vec()));
}

#[test]
fn hello_world_with_a_final_line_feed() {
    let pem = "-----BEGIN TEST-----\naGVsbG8gd29ybGQ=\n-----END TEST-----\n";
    assert_eq!(pem_to_der(pem), Ok(b"hello world".to_vec()));
}

#[test]
fn text_without_markers_is_refused() {
    assert_eq!(pem_to_der("not a pem file"), Err(PemError::MalformedBase64));
}

#[test]
fn stray_underscore_in_the_body_is_refused() {
    let pem = "-----BEGIN TEST-----\naGVsbG8_d29ybGQ=\n-----END TEST-----\n";
    assert_eq!(pem_to_der(pem), Err(PemError::MalformedBase64));
}

#[test]
fn stray_space_in_the_body_is_refused() {
    let pem = "-----BEGIN TEST-----\naGVs bG8=\n-----END TEST-----\n";
    assert_eq!(pem_to_der(pem), Err(PemError::MalformedBase64));
}

#[test]
fn empty_text_gives_no_bytes() {
    assert_eq!(pem_to_der(""), Ok(Vec::new()));
}

#[test]
fn bare_base64_is_decoded_as_it_is() {
    assert_eq!(pem_to_der("aGVsbG8gd29ybGQ="), Ok(b"hello world".to_vec()));
    assert_eq!(pem_to_der("aGVsbG8g\nd29ybGQ=\n"), Ok(b"hello world".to_vec()));
}

#[test]
fn bytes_and_text_decode_alike() {
    let pem = "-----BEGIN TEST-----\naGVsbG8gd29ybGQ=\n-----END TEST-----\n";
    assert_eq!(pem_bytes_to_der(pem.as_bytes()), pem_to_der(pem));
    assert_eq!(pem_bytes_to_der(b"QUJD"), Ok(b"ABC".to_vec()));
}

#[test]
fn body_on_several_lines() {
    let pem = "-----BEGIN X-----\naGVs\nbG8g\nd29y\nbGQ=\n-----END X-----\n";
    assert_eq!(pem_to_der(pem), Ok(b"hello world".to_vec()));
}

#[test]
fn empty_line_in_the_body_is_a_body_line() {
    let pem = "-----BEGIN X-----\naGVs\n\nbG8=\n-----END X-----\n";
    assert_eq!(pem_to_der(pem), Ok(b"hello".to_vec()));
}

#[test]
fn header_and_footer_without_a_line_between_them() {
    let pem = "-----BEGIN X-----\n-----END X-----\n";
    assert_eq!(pem_to_der(pem), Err(PemError::MalformedBase64));
}

#[test]
fn labels_need_not_match() {
    let pem = "-----BEGIN ONE-----\nQUJD\n-----END OTHER-----\n";
    assert_eq!(pem_to_der(pem), Ok(b"ABC".to_vec()));
}

#[test]
fn empty_labels() {
    let pem = "-----BEGIN -----\nQUJD\n-----END -----";
    assert_eq!(pem_to_der(pem), Ok(b"ABC".to_vec()));
}

#[test]
fn base64_before_the_envelope_is_decoded_with_it() {
    let pem = "QUJD\n-----BEGIN X-----\nREVG\n-----END X-----\n";
    assert_eq!(pem_to_der(pem), Ok(b"ABCDEF".to_vec()));
}

#[test]
fn base64_behind_the_envelope_is_decoded_with_it() {
    let pem = "-----BEGIN X-----\nQUJD\n-----END X-----\nREVG\n";
    assert_eq!(pem_to_der(pem), Ok(b"ABCDEF".to_vec()));
}

#[test]
fn other_text_round_the_envelope_is_refused() {
    let pem = "key:\n-----BEGIN X-----\nQUJD\n-----END X-----\n";
    assert_eq!(pem_to_der(pem), Err(PemError::MalformedBase64));
    let pem = "-----BEGIN X-----\nQUJD\n-----END X-----\nend.\n";
    assert_eq!(pem_to_der(pem), Err(PemError::MalformedBase64));
}

#[test]
fn second_envelope_is_refused() {
    let pem = "-----BEGIN X-----\nQUJD\n-----END X-----\n-----BEGIN X-----\nREVG\n-----END X-----\n";
    assert_eq!(pem_to_der(pem), Err(PemError::MalformedBase64));
}

#[test]
fn footer_ends_with_the_last_dashes_of_its_line() {
    let pem = "-----BEGIN X-----\nQUJD\n-----END X----- and -----";
    assert_eq!(pem_to_der(pem), Ok(b"ABC".to_vec()));
    let pem = "-----BEGIN X-----\nQUJD\n-----END X-----REVG";
    assert_eq!(pem_to_der(pem), Ok(b"ABCDEF".to_vec()));
}

#[test]
fn carriage_returns_are_refused() {
    let pem = "-----BEGIN X-----\r\nQUJD\r\n-----END X-----\r\n";
    assert_eq!(pem_to_der(pem), Err(PemError::MalformedBase64));
    assert_eq!(pem_to_der("QUJD\r\n"), Err(PemError::MalformedBase64));
}

#[test]
fn padding_inside_the_payload_is_refused() {
    let pem = "-----BEGIN X-----\nQQ==\nQUJD\n-----END X-----\n";
    assert_eq!(pem_to_der(pem), Err(PemError::MalformedBase64));
    let pem = "-----BEGIN X-----\nQQ==QQ==\n-----END X-----\n";
    assert_eq!(pem_to_der(pem), Err(PemError::MalformedBase64));
}

#[test]
fn missing_padding_is_refused() {
    assert_eq!(pem_to_der("QQ"), Err(PemError::MalformedBase64));
    assert_eq!(pem_to_der("QUI"), Err(PemError::MalformedBase64));
    assert_eq!(pem_to_der("QUJDQ"), Err(PemError::MalformedBase64));
    let pem = "-----BEGIN X-----\nQUJDQQ\n-----END X-----\n";
    assert_eq!(pem_to_der(pem), Err(PemError::MalformedBase64));
}

#[test]
fn url_safe_alphabet_is_refused() {
    assert_eq!(pem_to_der("-_-_"), Err(PemError::MalformedBase64));
    assert_eq!(pem_to_der("+/+/"), Ok(vec![0xfb, 0xff, 0xbf]));
}

#[test]
fn text_beyond_ascii_is_refused() {
    assert_eq!(pem_to_der("-----BEGIN X-----\nQUJD\n-----END X-----\n\u{e9}"), Err(PemError::MalformedBase64));
    let pem = "-----BEGIN cl\u{e9}-----\nQUJD\n-----END cl\u{e9}-----\n";
    assert_eq!(pem_to_der(pem), Ok(b"ABC".to_vec()));
}

#[test]
fn pattern_compile_is_never_reported() {
    let texts = ["", "not a pem file", "-----BEGIN X-----\nQUJD\n-----END X-----\n", "-----", "\n"];
    for text in texts {
        assert_ne!(pem_to_der(text), Err(PemError::PatternCompile));
    }
}
