//! The envelope of a PEM text: a header line, one or more lines of Base64,
//! and a footer.
//!
//! The rule is stated on byte sequences. Every specification function that
//! measures something looks at the text from its first byte on; for a later
//! offset it is handed the rest of the text from there. The executable
//! functions take the whole text and an offset.

use crate::base64::in_alphabet;
use crate::base64::is_alphabet;
use crate::base64::PAD;
use vstd::prelude::*;

verus! {

/// The byte that ends a line.
pub const LINE_FEED: u8 = 0x0a;

/// The byte `-`.
pub const DASH: u8 = 0x2d;

/// The five dashes `-----` that open and close a marker line.
pub open spec fn dashes() -> Seq<u8> {
    seq![DASH, DASH, DASH, DASH, DASH]
}

/// The bytes of `-----BEGIN `, the last of them a space.
pub open spec fn begin_marker() -> Seq<u8> {
    seq![DASH, DASH, DASH, DASH, DASH, 0x42, 0x45, 0x47, 0x49, 0x4e, 0x20]
}

/// The bytes of `-----END `, the last of them a space.
pub open spec fn end_marker() -> Seq<u8> {
    seq![DASH, DASH, DASH, DASH, DASH, 0x45, 0x4e, 0x44, 0x20]
}

/// Whether `s` begins with the bytes of `pattern`.
pub open spec fn starts_with(s: Seq<u8>, pattern: Seq<u8>) -> bool {
    pattern.len() <= s.len() && s.take(pattern.len() as int) == pattern
}

/// The length of the first line of `s`, its line feed not counted: the offset
/// of the first line feed, or the length of `s` where it holds none.
pub open spec fn line_len(s: Seq<u8>) -> int
    decreases s.len(),
{
    if s.len() == 0 || s[0] == LINE_FEED {
        0
    } else {
        1 + line_len(s.skip(1))
    }
}

/// What `line_len` measures: no line feed before that offset, and one at it
/// unless the text ends there.
pub proof fn lemma_line_len(s: Seq<u8>)
    ensures
        0 <= line_len(s) <= s.len(),
        forall|k: int| 0 <= k < line_len(s) ==> s[k] != LINE_FEED,
        line_len(s) < s.len() ==> s[line_len(s)] == LINE_FEED,
    decreases s.len(),
{
    if s.len() == 0 || s[0] == LINE_FEED {
    } else {
        lemma_line_len(s.skip(1));
        assert forall|k: int| 0 <= k < line_len(s) implies s[k] != LINE_FEED by {
            if k > 0 {
                assert(s[k] == s.skip(1)[k - 1]);
            }
        }
    }
}

/// An offset with the two properties of `lemma_line_len` is the line's length.
pub proof fn lemma_line_len_is(s: Seq<u8>, n: int)
    requires
        0 <= n <= s.len(),
        forall|k: int| 0 <= k < n ==> s[k] != LINE_FEED,
        n < s.len() ==> s[n] == LINE_FEED,
    ensures
        line_len(s) == n,
    decreases s.len(),
{
    if n == 0 {
    } else {
        assert(s[0] != LINE_FEED);
        let rest = s.skip(1);
        assert forall|k: int| 0 <= k < n - 1 implies rest[k] != LINE_FEED by {
            assert(rest[k] == s[k + 1]);
        }
        lemma_line_len_is(rest, n - 1);
    }
}

/// Finds the end of the line that starts at `from`.
pub fn line_end(text: &[u8], from: usize) -> (end: usize)
    requires
        from <= text@.len(),
    ensures
        from <= end <= text@.len(),
        end - from == line_len(text@.skip(from as int)),
{
    let mut end: usize = from;
    while end < text.len() && text[end] != LINE_FEED
        invariant
            from <= end <= text@.len(),
            forall|k: int| from <= k < end ==> text@[k] != LINE_FEED,
        decreases text@.len() - end,
    {
        end += 1;
    }
    proof {
        lemma_line_len_is(text@.skip(from as int), end - from);
    }
    end
}

/// Tests whether the text from `at` on begins with `pattern`.
pub fn begins_with(text: &[u8], at: usize, pattern: &[u8]) -> (yes: bool)
    requires
        at <= text@.len(),
    ensures
        yes == starts_with(text@.skip(at as int), pattern@),
{
    if pattern.len() > text.len() - at {
        return false;
    }
    let ghost rest = text@.skip(at as int);
    let mut k: usize = 0;
    while k < pattern.len()
        invariant
            at + pattern@.len() <= text@.len() <= usize::MAX,
            k <= pattern@.len(),
            rest == text@.skip(at as int),
            forall|j: int| 0 <= j < k ==> text@[at + j] == pattern@[j],
        decreases pattern@.len() - k,
    {
        if text[at + k] != pattern[k] {
            assert(rest.take(pattern@.len() as int)[k as int] == text@[at + k]);
            return false;
        }
        k += 1;
    }
    assert(rest.take(pattern@.len() as int) =~= pattern@);
    true
}

/// Whether `s` is made of groups of four characters of the alphabet.
pub open spec fn is_full_groups(s: Seq<u8>) -> bool {
    &&& s.len() % 4 == 0
    &&& forall|k: int| 0 <= k < s.len() ==> is_alphabet(#[trigger] s[k])
}

/// Whether `c` may stand at `place` (0 to 3) of a padded group: two
/// characters of the alphabet, a third that is of the alphabet or `=`, and
/// `=` as the fourth.
pub open spec fn fits_padded_group(c: u8, place: int) -> bool {
    if place == 3 {
        c == PAD
    } else if place == 2 {
        c == PAD || is_alphabet(c)
    } else {
        is_alphabet(c)
    }
}

/// Whether `s` is made of padded groups.
pub open spec fn is_padded_groups(s: Seq<u8>) -> bool {
    &&& s.len() % 4 == 0
    &&& forall|k: int| 0 <= k < s.len() ==> fits_padded_group(#[trigger] s[k], k % 4)
}

/// Whether `line`, a line without its line feed, may stand in a body: any
/// number of full groups, then any number of padded groups. The empty line is
/// such a line.
pub open spec fn is_body_line(line: Seq<u8>) -> bool {
    exists|k: int|
        0 <= k <= line.len() && is_full_groups(line.take(k)) && #[trigger] is_padded_groups(
            line.skip(k),
        )
}

/// A line whose full groups end at `split`, and which holds at `bad` a group
/// that is no padded group, is no body line.
proof fn lemma_not_body_line(line: Seq<u8>, split: int, bad: int)
    requires
        line.len() % 4 == 0,
        split % 4 == 0,
        bad % 4 == 0,
        0 <= split <= bad < line.len(),
        exists|j: int| 0 <= j < 4 && !is_alphabet(#[trigger] line[split + j]),
        exists|j: int| 0 <= j < 4 && !fits_padded_group(#[trigger] line[bad + j], j),
    ensures
        !is_body_line(line),
{
    if is_body_line(line) {
        let k = choose|k: int|
            0 <= k <= line.len() && is_full_groups(line.take(k)) && #[trigger] is_padded_groups(
                line.skip(k),
            );
        let full = line.take(k);
        let padded = line.skip(k);
        if k > split {
            let j = choose|j: int| 0 <= j < 4 && !is_alphabet(#[trigger] line[split + j]);
            assert(full[split + j] == line[split + j]);
        } else {
            let j = choose|j: int| 0 <= j < 4 && !fits_padded_group(#[trigger] line[bad + j], j);
            assert(padded[bad - k + j] == line[bad + j]);
            assert((bad - k + j) % 4 == j);
        }
    }
}

/// Tests whether the bytes from `from` up to `to` are a body line.
pub fn is_body_line_at(text: &[u8], from: usize, to: usize) -> (yes: bool)
    requires
        from <= to <= text@.len(),
    ensures
        yes == is_body_line(text@.subrange(from as int, to as int)),
{
    let ghost line = text@.subrange(from as int, to as int);
    if (to - from) % 4 != 0 {
        assert(!is_body_line(line)) by {
            assert forall|k: int| 0 <= k <= line.len() && is_full_groups(line.take(k)) implies
                !#[trigger] is_padded_groups(line.skip(k)) by {
                assert(line.take(k).len() + line.skip(k).len() == line.len());
            }
        }
        return false;
    }
    let mut i: usize = from;
    while i < to && in_alphabet(text[i]) && in_alphabet(text[i + 1]) && in_alphabet(text[i + 2])
        && in_alphabet(text[i + 3])
        invariant
            from <= i <= to <= text@.len(),
            (to - from) % 4 == 0,
            (i - from) % 4 == 0,
            forall|k: int| from <= k < i ==> is_alphabet(#[trigger] text@[k]),
        decreases to - i,
    {
        i += 4;
    }
    let split: usize = i;
    proof {
        if split < to {
            let at = split - from;
            assert(line[at + 0] == text@[split as int]);
            assert(line[at + 1] == text@[split + 1]);
            assert(line[at + 2] == text@[split + 2]);
            assert(line[at + 3] == text@[split + 3]);
        }
    }
    while i < to
        invariant
            from <= split <= i <= to <= text@.len(),
            line == text@.subrange(from as int, to as int),
            (to - from) % 4 == 0,
            (split - from) % 4 == 0,
            (i - from) % 4 == 0,
            forall|k: int| from <= k < split ==> is_alphabet(#[trigger] text@[k]),
            forall|k: int| split <= k < i ==> fits_padded_group(#[trigger] text@[k], (k - split) % 4),
            split < to ==> exists|j: int| 0 <= j < 4 && !is_alphabet(#[trigger] line[split - from + j]),
        decreases to - i,
    {
        let fits: bool = in_alphabet(text[i]) && in_alphabet(text[i + 1]) && (text[i + 2] == PAD
            || in_alphabet(text[i + 2])) && text[i + 3] == PAD;
        if !fits {
            proof {
                let bad = i - from;
                assert(line[bad + 0] == text@[i as int]);
                assert(line[bad + 1] == text@[i + 1]);
                assert(line[bad + 2] == text@[i + 2]);
                assert(line[bad + 3] == text@[i + 3]);
                assert(exists|j: int| 0 <= j < 4 && !fits_padded_group(#[trigger] line[bad + j], j));
                lemma_not_body_line(line, split - from, bad);
            }
            return false;
        }
        proof {
            assert forall|k: int| split <= k < i + 4 implies fits_padded_group(
                #[trigger] text@[k],
                (k - split) % 4,
            ) by {
                if k >= i {
                    assert((k - split) % 4 == k - i);
                }
            }
        }
        i += 4;
    }
    proof {
        let k = split - from;
        assert(is_full_groups(line.take(k)));
        assert(is_padded_groups(line.skip(k))) by {
            assert forall|m: int| 0 <= m < line.skip(k).len() implies fits_padded_group(
                #[trigger] line.skip(k)[m],
                m % 4,
            ) by {
                assert(line.skip(k)[m] == text@[split + m]);
            }
        }
    }
    true
}

/// The length of the header line that `s` begins with, its line feed
/// counted: `-----BEGIN `, then any bytes but a line feed, then `-----` and a
/// line feed. `None` where `s` begins with no such line.
pub open spec fn header_len(s: Seq<u8>) -> Option<int> {
    let n = line_len(s);
    if starts_with(s, begin_marker()) && n < s.len() && n >= 16 && starts_with(
        s.skip(n - 5),
        dashes(),
    ) {
        Some(n + 1)
    } else {
        None
    }
}

/// The length of the longest run of body lines that `s` begins with, their
/// line feeds counted. A line that no line feed ends is no body line.
pub open spec fn body_len(s: Seq<u8>) -> int
    decreases s.len(),
{
    let n = line_len(s);
    if 0 <= n < s.len() && is_body_line(s.take(n)) {
        n + 1 + body_len(s.skip(n + 1))
    } else {
        0
    }
}

/// The largest offset up to `limit` that five dashes end and that leaves
/// room for `-----END ` before them; `None` where there is none.
pub open spec fn last_close(s: Seq<u8>, limit: int) -> Option<int>
    decreases limit,
{
    if limit < 14 || limit > s.len() {
        None
    } else if starts_with(s.skip(limit - 5), dashes()) {
        Some(limit)
    } else {
        last_close(s, limit - 1)
    }
}

/// The length of the footer that `s` begins with: `-----END `, then any bytes
/// but a line feed, then `-----`. Of several ends the last one on the line
/// counts. `None` where `s` begins with no footer.
pub open spec fn footer_len(s: Seq<u8>) -> Option<int> {
    if starts_with(s, end_marker()) {
        last_close(s, line_len(s))
    } else {
        None
    }
}

fn dashes_bytes() -> (bytes: [u8; 5])
    ensures
        bytes@ == dashes(),
{
    let bytes: [u8; 5] = [DASH, DASH, DASH, DASH, DASH];
    assert(bytes@ =~= dashes());
    bytes
}

fn begin_bytes() -> (bytes: [u8; 11])
    ensures
        bytes@ == begin_marker(),
{
    let bytes: [u8; 11] = [DASH, DASH, DASH, DASH, DASH, 0x42, 0x45, 0x47, 0x49, 0x4e, 0x20];
    assert(bytes@ =~= begin_marker());
    bytes
}

fn end_bytes() -> (bytes: [u8; 9])
    ensures
        bytes@ == end_marker(),
{
    let bytes: [u8; 9] = [DASH, DASH, DASH, DASH, DASH, 0x45, 0x4e, 0x44, 0x20];
    assert(bytes@ =~= end_marker());
    bytes
}

/// Reads a header line at `at`, and returns the offset behind its line feed.
pub fn header_end(text: &[u8], at: usize) -> (end: Option<usize>)
    requires
        at <= text@.len(),
    ensures
        match end {
            Some(e) => at < e <= text@.len() && header_len(text@.skip(at as int)) == Some(e - at),
            None => header_len(text@.skip(at as int)) is None,
        },
{
    let marker = begin_bytes();
    if !begins_with(text, at, marker.as_slice()) {
        return None;
    }
    let n: usize = line_end(text, at);
    if n == text.len() || n - at < 16 {
        return None;
    }
    let close = dashes_bytes();
    assert(text@.skip(at as int).skip(n - at - 5) =~= text@.skip(n - 5));
    if begins_with(text, n - 5, close.as_slice()) {
        Some(n + 1)
    } else {
        None
    }
}

/// Reads body lines from `at` on for as long as there are any, and returns
/// the offset behind the last of them: `at` itself where there is none.
pub fn body_end(text: &[u8], at: usize) -> (end: usize)
    requires
        at <= text@.len(),
    ensures
        at <= end <= text@.len(),
        end - at == body_len(text@.skip(at as int)),
{
    let mut end: usize = at;
    loop
        invariant
            at <= end <= text@.len(),
            body_len(text@.skip(at as int)) == end - at + body_len(text@.skip(end as int)),
        ensures
            at <= end <= text@.len(),
            end - at == body_len(text@.skip(at as int)),
        decreases text@.len() - end,
    {
        let n: usize = line_end(text, end);
        proof {
            let rest = text@.skip(end as int);
            assert(rest.take(n - end) =~= text@.subrange(end as int, n as int));
            if n < text@.len() {
                assert(rest.skip(n - end + 1) =~= text@.skip(n + 1));
            }
        }
        if n == text.len() || !is_body_line_at(text, end, n) {
            break;
        }
        end = n + 1;
    }
    end
}

/// Reads a footer at `at`, and returns the offset behind its last dash.
pub fn footer_end(text: &[u8], at: usize) -> (end: Option<usize>)
    requires
        at <= text@.len(),
    ensures
        match end {
            Some(e) => at < e <= text@.len() && footer_len(text@.skip(at as int)) == Some(e - at),
            None => footer_len(text@.skip(at as int)) is None,
        },
{
    let marker = end_bytes();
    if !begins_with(text, at, marker.as_slice()) {
        return None;
    }
    let close = dashes_bytes();
    let ghost rest = text@.skip(at as int);
    let mut limit: usize = line_end(text, at);
    while limit - at >= 14
        invariant
            at <= limit <= text@.len(),
            rest == text@.skip(at as int),
            close@ == dashes(),
            footer_len(rest) == last_close(rest, limit - at),
        decreases limit,
    {
        assert(rest.skip(limit - at - 5) =~= text@.skip(limit - 5));
        if begins_with(text, limit - 5, close.as_slice()) {
            return Some(limit);
        }
        limit -= 1;
    }
    None
}

/// Where an envelope lies in a text, as mathematical offsets.
pub struct Span {
    /// The offset of the header's first dash.
    pub start: int,
    /// The offset behind the header's line feed, where the body starts.
    pub body_start: int,
    /// The offset behind the last body line's line feed, where the footer starts.
    pub body_end: int,
    /// The offset behind the footer's last dash.
    pub end: int,
}

/// Where an envelope lies in a text.
#[derive(Clone, Copy, Debug, PartialEq, Eq, Structural)]
pub struct Envelope {
    /// The offset of the header's first dash.
    pub start: usize,
    /// The offset behind the header's line feed, where the body starts.
    pub body_start: usize,
    /// The offset behind the last body line's line feed, where the footer starts.
    pub body_end: usize,
    /// The offset behind the footer's last dash.
    pub end: usize,
}

impl View for Envelope {
    type V = Span;

    open spec fn view(&self) -> Span {
        Span {
            start: self.start as int,
            body_start: self.body_start as int,
            body_end: self.body_end as int,
            end: self.end as int,
        }
    }
}

/// The envelope that starts at offset `at` of `text`: a header line, the
/// longest run of body lines behind it, which holds at least one line, and a
/// footer right behind them. `None` where no envelope starts there.
pub open spec fn envelope_at(text: Seq<u8>, at: int) -> Option<Span> {
    let s = text.skip(at);
    match header_len(s) {
        None => None,
        Some(h) => {
            let b = body_len(s.skip(h));
            match footer_len(s.skip(h + b)) {
                None => None,
                Some(f) => if b > 0 {
                    Some(
                        Span {
                            start: at,
                            body_start: at + h,
                            body_end: at + h + b,
                            end: at + h + b + f,
                        },
                    )
                } else {
                    None
                },
            }
        },
    }
}

/// The envelope with the least start among those that start at `from` or
/// later.
pub open spec fn first_envelope_from(text: Seq<u8>, from: int) -> Option<Span>
    decreases text.len() - from,
{
    if from < 0 || from >= text.len() {
        None
    } else if envelope_at(text, from) is Some {
        envelope_at(text, from)
    } else {
        first_envelope_from(text, from + 1)
    }
}

/// The first envelope of `text`: the one that starts at the least offset.
pub open spec fn first_envelope(text: Seq<u8>) -> Option<Span> {
    first_envelope_from(text, 0)
}

/// The bounds of an envelope: its four offsets are in order, the header
/// takes at least sixteen bytes, the body one, the footer fourteen, and all
/// lie within the text.
pub proof fn lemma_envelope_bounds(text: Seq<u8>, at: int)
    requires
        0 <= at <= text.len(),
        envelope_at(text, at) is Some,
    ensures
        envelope_at(text, at)->0.start == at,
        at + 17 <= envelope_at(text, at)->0.body_start,
        envelope_at(text, at)->0.body_start < envelope_at(text, at)->0.body_end,
        envelope_at(text, at)->0.body_end + 14 <= envelope_at(text, at)->0.end,
        envelope_at(text, at)->0.end <= text.len(),
{
    let s = text.skip(at);
    lemma_line_len(s);
    let h = header_len(s)->0;
    lemma_body_len_bounds(s.skip(h));
    let b = body_len(s.skip(h));
    lemma_line_len(s.skip(h + b));
    lemma_last_close_bounds(s.skip(h + b), line_len(s.skip(h + b)));
}

/// A run of body lines ends within the text.
pub proof fn lemma_body_len_bounds(s: Seq<u8>)
    ensures
        0 <= body_len(s) <= s.len(),
    decreases s.len(),
{
    let n = line_len(s);
    lemma_line_len(s);
    if 0 <= n < s.len() && is_body_line(s.take(n)) {
        lemma_body_len_bounds(s.skip(n + 1));
    }
}

/// Where a footer closes: at fourteen bytes or more, and no later than the limit.
pub proof fn lemma_last_close_bounds(s: Seq<u8>, limit: int)
    ensures
        last_close(s, limit) matches Some(k) ==> 14 <= k <= limit && k <= s.len(),
    decreases limit,
{
    if limit < 14 || limit > s.len() {
    } else if starts_with(s.skip(limit - 5), dashes()) {
    } else {
        lemma_last_close_bounds(s, limit - 1);
    }
}

/// The first envelope starts within the text and has the bounds of
/// `lemma_envelope_bounds`; no envelope starts before it.
pub proof fn lemma_first_envelope_from(text: Seq<u8>, from: int)
    requires
        0 <= from,
    ensures
        match first_envelope_from(text, from) {
            Some(e) => {
                &&& from <= e.start < text.len()
                &&& envelope_at(text, e.start) == Some(e)
                &&& e.start + 17 <= e.body_start < e.body_end
                &&& e.body_end + 14 <= e.end <= text.len()
                &&& forall|i: int| from <= i < e.start ==> envelope_at(text, i) is None
            },
            None => forall|i: int| from <= i < text.len() ==> envelope_at(text, i) is None,
        },
    decreases text.len() - from,
{
    if from >= text.len() {
    } else if envelope_at(text, from) is Some {
        lemma_envelope_bounds(text, from);
    } else {
        lemma_first_envelope_from(text, from + 1);
    }
}

/// `lemma_first_envelope_from` for the whole text.
pub proof fn lemma_first_envelope_bounds(text: Seq<u8>)
    ensures
        match first_envelope(text) {
            Some(e) => {
                &&& 0 <= e.start < text.len()
                &&& envelope_at(text, e.start) == Some(e)
                &&& e.start + 17 <= e.body_start < e.body_end
                &&& e.body_end + 14 <= e.end <= text.len()
                &&& forall|i: int| 0 <= i < e.start ==> envelope_at(text, i) is None
            },
            None => forall|i: int| 0 <= i < text.len() ==> envelope_at(text, i) is None,
        },
{
    lemma_first_envelope_from(text, 0);
}

/// Reads an envelope that starts at `at`.
pub fn read_envelope(text: &[u8], at: usize) -> (found: Option<Envelope>)
    requires
        at <= text@.len(),
    ensures
        match found {
            Some(e) => envelope_at(text@, at as int) == Some(e@) && e.end <= text@.len(),
            None => envelope_at(text@, at as int) is None,
        },
{
    let body_start: usize = match header_end(text, at) {
        Some(e) => e,
        None => { return None; },
    };
    let body_end: usize = body_end(text, body_start);
    proof {
        let s = text@.skip(at as int);
        assert(s.skip(body_start - at) =~= text@.skip(body_start as int));
        assert(s.skip(body_start - at + (body_end - body_start)) =~= text@.skip(body_end as int));
    }
    if body_end == body_start {
        return None;
    }
    match footer_end(text, body_end) {
        Some(end) => Some(Envelope { start: at, body_start, body_end, end }),
        None => None,
    }
}

/// Finds the first envelope of `text`.
pub fn find_envelope(text: &[u8]) -> (found: Option<Envelope>)
    ensures
        match found {
            Some(e) => first_envelope(text@) == Some(e@) && e.end <= text@.len(),
            None => first_envelope(text@) is None,
        },
{
    let mut at: usize = 0;
    while at < text.len()
        invariant
            at <= text@.len(),
            first_envelope(text@) == first_envelope_from(text@, at as int),
        decreases text@.len() - at,
    {
        let found = read_envelope(text, at);
        if found.is_some() {
            return found;
        }
        at += 1;
    }
    None
}

} // verus!
