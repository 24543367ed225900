use pem_parser::envelope::begins_with;
use pem_parser::envelope::body_end;
use pem_parser::envelope::find_envelope;
use pem_parser::envelope::footer_end;
use pem_parser::envelope::header_end;
use pem_parser::envelope::is_body_line_at;
use pem_parser::envelope::line_end;
use pem_parser::envelope::read_envelope;
use pem_parser::envelope::Envelope;
use pem_parser::envelope::DASH;
use pem_parser::envelope::LINE_FEED;
use pem_parser::payload::extract_payload;

#[test]
fn the_two_bytes() {
    assert_eq!(LINE_FEED, b'\n');
    assert_eq!(DASH, b'-');
}

#[test]
fn line_ends_at_its_line_feed_or_with_the_text() {
    let text = b"ab\ncd\n\nef";
    assert_eq!(line_end(text, 0), 2);
    assert_eq!(line_end(text, 1), 2);
    assert_eq!(line_end(text, 2), 2);
    assert_eq!(line_end(text, 3), 5);
    assert_eq!(line_end(text, 6), 6);
    assert_eq!(line_end(text, 7), 9);
    assert_eq!(line_end(text, 9), 9);
}

#[test]
fn begins_with_a_pattern_at_an_offset() {
    let text = b"xx-----BEGIN ";
    assert!(begins_with(text, 2, b"-----BEGIN "));
    assert!(!begins_with(text, 0, b"-----BEGIN "));
    assert!(!begins_with(text, 3, b"-----BEGIN "));
    assert!(begins_with(text, 13, b""));
    assert!(!begins_with(text, 12, b"  "));
}

#[test]
fn body_lines() {
    let lines: [(&[u8], bool); 16] = [
        (b"", true),
        (b"QUJD", true),
        (b"QUJDQUJD", true),
        (b"QUI=", true),
        (b"QQ==", true),
        (b"QUJDQQ==", true),
        (b"QQ==QUI=", true),
        (b"QQ==QUJD", false),
        (b"QUJ", false),
        (b"QUJDQ", false),
        (b"Q===", false),
        (b"QQ=Q", false),
        (b"=QQ=", false),
        (b"QU-D", false),
        (b"QUJD ", false),
        (b"----", false),
    ];
    for (line, expected) in lines {
        assert_eq!(is_body_line_at(line, 0, line.len()), expected);
    }
    assert!(is_body_line_at(b"??QUJD??", 2, 6));
    assert!(!is_body_line_at(b"??QUJD??", 1, 5));
}

#[test]
fn header_ends_behind_its_line_feed() {
    assert_eq!(header_end(b"-----BEGIN X-----\nQUJD", 0), Some(18));
    assert_eq!(header_end(b"-----BEGIN -----\n", 0), Some(17));
    assert_eq!(header_end(b"ab-----BEGIN a b-----\n", 2), Some(22));
    assert_eq!(header_end(b"-----BEGIN ----\n", 0), None);
    assert_eq!(header_end(b"-----BEGIN X-----", 0), None);
    assert_eq!(header_end(b"-----BEGIN X----- \n", 0), None);
    assert_eq!(header_end(b"-----BEGIN X\n-----\n", 0), None);
    assert_eq!(header_end(b"-----BEGINX-----\n", 0), None);
    assert_eq!(header_end(b"----BEGIN X-----\n", 0), None);
    assert_eq!(header_end(b"", 0), None);
}

#[test]
fn body_ends_behind_its_last_line() {
    assert_eq!(body_end(b"QUJD\nQQ==\n-----END", 0), 10);
    assert_eq!(body_end(b"QUJD\nQQ==", 0), 5);
    assert_eq!(body_end(b"QUJD", 0), 0);
    assert_eq!(body_end(b"\n\n\nx", 0), 3);
    assert_eq!(body_end(b"xxQUJD\n", 2), 7);
    assert_eq!(body_end(b"-\n", 0), 0);
}

#[test]
fn footer_ends_behind_its_last_dashes() {
    assert_eq!(footer_end(b"-----END X-----", 0), Some(15));
    assert_eq!(footer_end(b"-----END -----", 0), Some(14));
    assert_eq!(footer_end(b"-----END X-----\n-----", 0), Some(15));
    assert_eq!(footer_end(b"-----END X----- Y----- Z", 0), Some(22));
    assert_eq!(footer_end(b"-----END X------", 0), Some(16));
    assert_eq!(footer_end(b"-----END ----", 0), None);
    assert_eq!(footer_end(b"-----END X\n-----", 0), None);
    assert_eq!(footer_end(b"-----BEGIN X-----", 0), None);
    assert_eq!(footer_end(b"ab-----END X-----", 2), Some(17));
}

#[test]
fn envelope_at_an_offset() {
    let text = b"-----BEGIN X-----\nQUJD\n-----END X-----\n";
    assert_eq!(
        read_envelope(text, 0),
        Some(Envelope { start: 0, body_start: 18, body_end: 23, end: 38 })
    );
    assert_eq!(read_envelope(text, 1), None);
    assert_eq!(read_envelope(b"-----BEGIN X-----\n-----END X-----\n", 0), None);
    assert_eq!(read_envelope(b"-----BEGIN X-----\nQUJD\nQUJ\n-----END X-----\n", 0), None);
    assert_eq!(read_envelope(b"-----BEGIN X-----\nQUJD\n-----END X", 0), None);
}

#[test]
fn first_envelope_is_the_leftmost() {
    let text = b"-----BEGIN A-----\nQUJ\n-----BEGIN B-----\nQUJD\n-----END B-----\n-----BEGIN C-----\nQUJD\n-----END C-----\n";
    assert_eq!(
        find_envelope(text),
        Some(Envelope { start: 22, body_start: 40, body_end: 45, end: 60 })
    );
    assert_eq!(find_envelope(b"-----BEGIN -----BEGIN X-----\nQUJD\n-----END X-----"), Some(
        Envelope { start: 0, body_start: 29, body_end: 34, end: 49 }
    ));
    assert_eq!(find_envelope(b"not a pem file"), None);
    assert_eq!(find_envelope(b""), None);
}

#[test]
fn payload_keeps_what_lies_outside_the_envelope() {
    assert_eq!(
        extract_payload(b"a\nb-----BEGIN X-----\nQUJD\nREVG\n-----END X-----c\nd\n"),
        b"abQUJDREVGcd".to_vec()
    );
    assert_eq!(
        extract_payload(b"-----BEGIN X-----\nQU\nJD\n-----END X-----\n"),
        b"-----BEGIN X-----QUJD-----END X-----".to_vec()
    );
    assert_eq!(extract_payload(b"no\nenvelope\n"), b"noenvelope".to_vec());
    assert_eq!(extract_payload(b"\n\n"), Vec::<u8>::new());
}
