use pem_parser::envelope::find_envelope;
use pem_parser::envelope::Envelope;
use pem_parser::pem_to_der;
use regex::Regex;
use rustc_serialize::base64::FromBase64;

/// The envelope as a regular expression: a header line, body lines, a footer.
const PATTERN: &str = r"(-----BEGIN .*-----\n)((?:(?:[A-Za-z0-9+/]{4})*(?:[A-Za-z0-9+/]{2}==|[A-Za-z0-9+/]{3}=)*\n)+)(-----END .*-----)";

/// Where the leftmost match of the pattern lies, and where its second group.
fn leftmost_match(pattern: &Regex, text: &str) -> Option<Envelope> {
    let groups = pattern.captures(text)?;
    let whole = groups.get(0).unwrap();
    let body = groups.get(2).unwrap();
    Some(Envelope {
        start: whole.start(),
        body_start: body.start(),
        body_end: body.end(),
        end: whole.end(),
    })
}

/// The next number of a sequence that `state` drives, below `bound`.
fn next(state: &mut u32, bound: usize) -> usize {
    *state = state.wrapping_mul(1_664_525).wrapping_add(1_013_904_223);
    (*state >> 16) as usize % bound
}

/// Texts in the shape of an envelope with something before and behind
/// it, put together from parts that are right and parts that are not.
fn generated_texts(seed: u32, count: usize) -> Vec<String> {
    let junk = ["", "", "", "\n", "QUJD", "QUJD\n", "x", "-----", "-----BEGIN ", "-----END Z-----", "\u{e9}"];
    let headers = [
        "-----BEGIN KEY-----\n", "-----BEGIN KEY-----\n", "-----BEGIN -----\n", "-----BEGIN a b c-----\n",
        "-----BEGIN -----BEGIN KEY-----\n", "-----BEGIN KEY------\n", "-----BEGIN KEY----\n",
        "-----BEGIN KEY-----", "-----BEGIN KEY-----\r\n", "----BEGIN KEY-----\n", "-----BEGIN\n-----\n",
        "-----BEGIN \u{e9}-----\n", "",
    ];
    let lines = [
        "QUJD\n", "QUJD\n", "QUJDREVG\n", "QUJDREVGR0hJ\n", "QQ==\n", "QUI=\n", "QUJDQQ==\n", "\n",
        "QQ==QUI=\n", "QQ==QUJD\n", "QUJ\n", "QUJDQ\n", "QU_D\n", "QU D\n", "Q===\n", "QQ=Q\n", "QUJD", "+/+/\n",
    ];
    let footers = [
        "-----END KEY-----", "-----END KEY-----", "-----END KEY-----\n", "-----END -----",
        "-----END KEY----- and -----", "-----END KEY------", "-----END KEY----", "-----END ----",
        "-----END\n-----", " -----END KEY-----", "-----END \u{e9}-----x", "",
    ];
    let mut state = seed;
    let mut texts = Vec::new();
    for _ in 0..count {
        let mut text = String::new();
        text.push_str(junk[next(&mut state, junk.len())]);
        text.push_str(headers[next(&mut state, headers.len())]);
        for _ in 0..next(&mut state, 4) {
            text.push_str(lines[next(&mut state, lines.len())]);
        }
        text.push_str(footers[next(&mut state, footers.len())]);
        text.push_str(junk[next(&mut state, junk.len())]);
        if next(&mut state, 4) == 0 {
            text.push_str(headers[next(&mut state, headers.len())]);
            text.push_str(lines[next(&mut state, lines.len())]);
            text.push_str(footers[next(&mut state, footers.len())]);
        }
        texts.push(text);
    }
    texts
}

#[test]
fn finder_agrees_with_the_pattern_on_chosen_texts() {
    let pattern = Regex::new(PATTERN).unwrap();
    let texts = [
        "",
        "not a pem file",
        "-----BEGIN TEST-----\naGVsbG8gd29ybGQ=\n-----END TEST-----",
        "-----BEGIN TEST-----\naGVsbG8gd29ybGQ=\n-----END TEST-----\n",
        "-----BEGIN -----\n\n-----END -----",
        "-----BEGIN ----\n\n-----END -----",
        "-----BEGIN -----\n\n-----END ----",
        "-----BEGIN X-----\n-----END X-----",
        "-----BEGIN X-----\nQQ==QUI=\n\nQQ==\n-----END X----- -----END Y----- z\n-----",
        "-----BEGIN X-----\nQQ==QUJD\n-----END X-----",
        "-----BEGIN -----BEGIN X-----\nQUJD\n-----END X-----",
        "-----BEGIN A-----\nQUJ\n-----BEGIN B-----\nQUJD\n-----END B-----\n",
        "-----BEGIN A-----\nQUJD\n-----BEGIN B-----\nQUJD\n-----END B-----\n",
        "-----BEGIN A-----\nQUJD\n-----END A-----\n-----BEGIN B-----\nQUJD\n-----END B-----\n",
        "-----BEGIN A-----\r\nQUJD\r\n-----END A-----\r\n",
        "-----BEGIN A-----\nQUJD\n-----END A",
        "-----BEGIN A-----\nQUJD\n -----END A-----",
        "-----BEGIN A-----\nQUJD-----END A-----",
        "x-----BEGIN cl\u{e9}-----\nQUJD\n-----END \u{e9}-----\u{e9}",
        "------BEGIN A------\nQUJD\n------END A------",
    ];
    for text in texts {
        assert_eq!(find_envelope(text.as_bytes()), leftmost_match(&pattern, text), "{:?}", text);
    }
}

#[test]
fn finder_agrees_with_the_pattern_on_generated_texts() {
    let pattern = Regex::new(PATTERN).unwrap();
    let mut found = 0;
    for text in generated_texts(1, 40000) {
        let envelope = find_envelope(text.as_bytes());
        assert_eq!(envelope, leftmost_match(&pattern, &text), "{:?}", text);
        if envelope.is_some() {
            found += 1;
        }
    }
    assert!(found > 100);
}

#[test]
fn finder_agrees_with_the_pattern_on_more_generated_texts() {
    let pattern = Regex::new(PATTERN).unwrap();
    for text in generated_texts(0x9e37_79b9, 40000) {
        assert_eq!(find_envelope(text.as_bytes()), leftmost_match(&pattern, &text), "{:?}", text);
    }
}

/// Replacing the leftmost match by its second group, dropping the line
/// feeds and handing the rest to a decoder that also takes the URL-safe
/// alphabet, line breaks and missing padding: whatever `pem_to_der`
/// decodes, this decodes to the same bytes.
#[test]
fn decoding_agrees_with_a_lenient_decoder() {
    let pattern = Regex::new(PATTERN).unwrap();
    let mut decoded = 0;
    for text in generated_texts(7, 40000) {
        let replaced = pattern.replace(&text, "$2").replace("\n", "");
        let lenient = replaced.from_base64();
        match pem_to_der(&text) {
            Ok(der) => {
                assert_eq!(lenient.ok(), Some(der), "{:?}", text);
                decoded += 1;
            }
            Err(_) => {
                let strict = replaced.len() % 4 == 0
                    && !replaced.contains(|c: char| !c.is_ascii_alphanumeric() && !"+/=".contains(c))
                    && !replaced.trim_end_matches('=').contains('=')
                    && replaced.len() - replaced.trim_end_matches('=').len() <= 2;
                assert!(!strict, "{:?}", text);
            }
        }
    }
    assert!(decoded > 100);
}
