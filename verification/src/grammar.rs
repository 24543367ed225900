//! The envelope as a grammar, and the proof that the reader of
//! [`crate::envelope`] finds what the grammar describes: its envelope at an
//! offset is an envelope of the grammar, and of all envelopes of the grammar
//! at that offset it is the one with the longest footer.

use crate::armor::footer;
use crate::armor::has_line_feed;
use crate::armor::header_line;
use crate::armor::lemma_header_line;
use crate::armor::lemma_no_body;
use crate::base64::is_alphabet;
use crate::envelope::begin_marker;
use crate::envelope::body_len;
use crate::envelope::dashes;
use crate::envelope::end_marker;
use crate::envelope::envelope_at;
use crate::envelope::footer_len;
use crate::envelope::header_len;
use crate::envelope::is_body_line;
use crate::envelope::last_close;
use crate::envelope::lemma_body_len_bounds;
use crate::envelope::lemma_envelope_bounds;
use crate::envelope::lemma_last_close_bounds;
use crate::envelope::lemma_line_len;
use crate::envelope::lemma_line_len_is;
use crate::envelope::line_len;
use crate::envelope::starts_with;
use crate::envelope::Span;
use crate::envelope::DASH;
use crate::envelope::LINE_FEED;
use vstd::prelude::*;

verus! {

/// Whether `s` is a header line: `-----BEGIN `, a label without a line feed,
/// `-----`, and a line feed.
pub open spec fn is_header_line(s: Seq<u8>) -> bool {
    exists|label: Seq<u8>| !has_line_feed(label) && s == #[trigger] header_line(label)
}

/// Whether `s` is a footer: `-----END `, a label without a line feed, and
/// `-----`.
pub open spec fn is_footer(s: Seq<u8>) -> bool {
    exists|label: Seq<u8>| !has_line_feed(label) && s == #[trigger] footer(label)
}

/// Whether `s` is a body: one or more body lines, a line feed behind each.
pub open spec fn is_body(s: Seq<u8>) -> bool
    decreases s.len(),
{
    let n = line_len(s);
    &&& 0 <= n < s.len()
    &&& is_body_line(s.take(n))
    &&& (n + 1 == s.len() || is_body(s.skip(n + 1)))
}

/// Whether the four offsets of `e` cut a header line, a body and a footer
/// out of `text`, one behind the other.
pub open spec fn is_envelope(text: Seq<u8>, e: Span) -> bool {
    &&& 0 <= e.start <= e.body_start <= e.body_end <= e.end <= text.len()
    &&& is_header_line(text.subrange(e.start, e.body_start))
    &&& is_body(text.subrange(e.body_start, e.body_end))
    &&& is_footer(text.subrange(e.body_end, e.end))
}

/// The header that the reader measures is a header line.
proof fn lemma_header_is_header_line(s: Seq<u8>)
    requires
        header_len(s) is Some,
    ensures
        17 <= header_len(s)->0 <= s.len(),
        is_header_line(s.take(header_len(s)->0)),
{
    let h = header_len(s)->0;
    let n = h - 1;
    lemma_line_len(s);
    let label = s.subrange(11, n - 5);
    assert(!has_line_feed(label)) by {
        if has_line_feed(label) {
            let i = choose|i: int| 0 <= i < label.len() && label[i] == LINE_FEED;
            assert(s[i + 11] == LINE_FEED);
        }
    }
    let line = header_line(label);
    assert(line.len() == h);
    assert forall|i: int| 0 <= i < h implies s.take(h)[i] == line[i] by {
        if i < 11 {
            assert(s.take(11)[i] == begin_marker()[i]);
        } else if i < n - 5 {
            assert(label[i - 11] == s[i]);
        } else if i < n {
            assert(s.skip(n - 5).take(5)[i - (n - 5)] == dashes()[i - (n - 5)]);
        }
    }
    assert(s.take(h) =~= line);
}

/// The first line of a text is the first line of every piece of it that
/// reaches behind the line's line feed.
proof fn lemma_line_len_of_piece(s: Seq<u8>, b: int)
    requires
        line_len(s) < b <= s.len(),
    ensures
        line_len(s.take(b)) == line_len(s),
{
    lemma_line_len(s);
    lemma_line_len_is(s.take(b), line_len(s));
}

/// The first line of a piece that ends in a line feed is the first line of
/// the text.
proof fn lemma_line_len_from_piece(s: Seq<u8>, b: int)
    requires
        0 <= b <= s.len(),
        line_len(s.take(b)) < b,
    ensures
        line_len(s) == line_len(s.take(b)),
{
    let piece = s.take(b);
    lemma_line_len(piece);
    let n = line_len(piece);
    assert forall|k: int| 0 <= k < n implies s[k] != LINE_FEED by {
        assert(piece[k] == s[k]);
    }
    assert(piece[n] == s[n]);
    lemma_line_len_is(s, n);
}

/// The run of body lines that the reader measures is a body, where it is not
/// empty.
proof fn lemma_run_is_body(s: Seq<u8>)
    requires
        body_len(s) > 0,
    ensures
        body_len(s) <= s.len(),
        is_body(s.take(body_len(s))),
    decreases s.len(),
{
    let b = body_len(s);
    let n = line_len(s);
    lemma_body_len_bounds(s);
    lemma_body_len_bounds(s.skip(n + 1));
    let piece = s.take(b);
    lemma_line_len_of_piece(s, b);
    assert(piece.take(n) =~= s.take(n));
    let more = body_len(s.skip(n + 1));
    if more > 0 {
        lemma_run_is_body(s.skip(n + 1));
        assert(piece.skip(n + 1) =~= s.skip(n + 1).take(more));
    }
}

/// Where the reader sees a footer close, five dashes end.
proof fn lemma_last_close_is_close(s: Seq<u8>, limit: int)
    requires
        last_close(s, limit) is Some,
    ensures
        starts_with(s.skip(last_close(s, limit)->0 - 5), dashes()),
    decreases limit,
{
    if limit < 14 || limit > s.len() {
    } else if starts_with(s.skip(limit - 5), dashes()) {
    } else {
        lemma_last_close_is_close(s, limit - 1);
    }
}

/// The reader sees a footer close at every place up to the limit where five
/// dashes end, or at a later one.
proof fn lemma_last_close_is_last(s: Seq<u8>, limit: int, k: int)
    requires
        14 <= k <= limit <= s.len(),
        starts_with(s.skip(k - 5), dashes()),
    ensures
        last_close(s, limit) is Some,
        last_close(s, limit)->0 >= k,
    decreases limit,
{
    if starts_with(s.skip(limit - 5), dashes()) {
    } else {
        lemma_last_close_is_last(s, limit - 1, k);
    }
}

/// The footer that the reader measures is a footer.
proof fn lemma_footer_is_footer(s: Seq<u8>)
    requires
        footer_len(s) is Some,
    ensures
        14 <= footer_len(s)->0 <= s.len(),
        is_footer(s.take(footer_len(s)->0)),
{
    let f = footer_len(s)->0;
    lemma_line_len(s);
    lemma_last_close_bounds(s, line_len(s));
    lemma_last_close_is_close(s, line_len(s));
    let label = s.subrange(9, f - 5);
    assert(!has_line_feed(label)) by {
        if has_line_feed(label) {
            let i = choose|i: int| 0 <= i < label.len() && label[i] == LINE_FEED;
            assert(s[i + 9] == LINE_FEED);
        }
    }
    let foot = footer(label);
    assert forall|i: int| 0 <= i < f implies s.take(f)[i] == foot[i] by {
        if i < 9 {
            assert(s.take(9)[i] == end_marker()[i]);
        } else if i < f - 5 {
            assert(label[i - 9] == s[i]);
        } else {
            assert(s.skip(f - 5).take(5)[i - (f - 5)] == dashes()[i - (f - 5)]);
        }
    }
    assert(s.take(f) =~= foot);
}

/// What the reader finds at an offset is an envelope of the grammar.
pub proof fn envelope_is_sound(text: Seq<u8>, at: int)
    requires
        0 <= at <= text.len(),
        envelope_at(text, at) is Some,
    ensures
        is_envelope(text, envelope_at(text, at)->0),
{
    let e = envelope_at(text, at)->0;
    lemma_envelope_bounds(text, at);
    let s = text.skip(at);
    let h = e.body_start - at;
    let b = e.body_end - e.body_start;
    let f = e.end - e.body_end;
    lemma_header_is_header_line(s);
    assert(s.take(h) =~= text.subrange(e.start, e.body_start));
    lemma_run_is_body(s.skip(h));
    assert(s.skip(h).take(b) =~= text.subrange(e.body_start, e.body_end));
    lemma_footer_is_footer(s.skip(h + b));
    assert(s.skip(h + b).take(f) =~= text.subrange(e.body_end, e.end));
}

/// A body is the whole run of body lines, where the byte that follows it is
/// neither of the alphabet nor a line feed.
proof fn lemma_body_is_run(s: Seq<u8>, b: int)
    requires
        0 <= b < s.len(),
        is_body(s.take(b)),
        !is_alphabet(s[b]),
        s[b] != LINE_FEED,
    ensures
        body_len(s) == b,
    decreases b,
{
    let piece = s.take(b);
    let n = line_len(piece);
    lemma_line_len_from_piece(s, b);
    assert(piece.take(n) =~= s.take(n));
    let rest = s.skip(n + 1);
    if n + 1 == b {
        assert(rest[0] == s[b]);
        lemma_no_body(rest);
    } else {
        assert(piece.skip(n + 1) =~= rest.take(b - n - 1));
        assert(rest[b - n - 1] == s[b]);
        lemma_body_is_run(rest, b - n - 1);
    }
}

/// A text that begins with a header line has a header of that length.
proof fn lemma_header_line_is_header(s: Seq<u8>, h: int)
    requires
        0 <= h <= s.len(),
        is_header_line(s.take(h)),
    ensures
        header_len(s) == Some(h),
{
    let label = choose|label: Seq<u8>|
        !has_line_feed(label) && s.take(h) == #[trigger] header_line(label);
    assert(s =~= header_line(label) + s.skip(h));
    lemma_header_line(label, s.skip(h));
}

/// A text that begins with a footer has a footer of that length or a longer
/// one, and its first byte is a dash.
proof fn lemma_footer_is_found(s: Seq<u8>, f: int)
    requires
        0 <= f <= s.len(),
        is_footer(s.take(f)),
    ensures
        footer_len(s) is Some,
        footer_len(s)->0 >= f,
        f >= 14,
        s[0] == DASH,
{
    let label = choose|label: Seq<u8>| !has_line_feed(label) && s.take(f) == #[trigger] footer(label);
    let foot = footer(label);
    assert(foot.len() == label.len() + 14);
    assert forall|i: int| 0 <= i < f implies s[i] == foot[i] by {
        assert(s.take(f)[i] == s[i]);
    }
    assert(s.take(9) =~= end_marker());
    assert(s.skip(f - 5).take(5) =~= dashes());
    lemma_line_len(s);
    let n = line_len(s);
    if n < f {
        assert(s[n] == foot[n]);
        if 9 <= n < 9 + label.len() {
            assert(foot[n] == label[n - 9]);
        }
    }
    lemma_last_close_is_last(s, n, f);
}

/// Of the envelopes of the grammar that start at one offset, the reader
/// finds the one with the longest footer: all of them have its header and
/// its body, and none ends behind it.
pub proof fn envelope_is_greedy(text: Seq<u8>, e: Span)
    requires
        is_envelope(text, e),
    ensures
        envelope_at(text, e.start) matches Some(found) && found.start == e.start
            && found.body_start == e.body_start && found.body_end == e.body_end && found.end
            >= e.end,
{
    let s = text.skip(e.start);
    let h = e.body_start - e.start;
    let b = e.body_end - e.body_start;
    let f = e.end - e.body_end;
    assert(s.take(h) =~= text.subrange(e.start, e.body_start));
    lemma_header_line_is_header(s, h);
    let rest = s.skip(h);
    let behind = s.skip(h + b);
    assert(behind.take(f) =~= text.subrange(e.body_end, e.end));
    lemma_footer_is_found(behind, f);
    assert(rest.take(b) =~= text.subrange(e.body_start, e.body_end));
    assert(rest[b] == behind[0]);
    lemma_body_is_run(rest, b);
}

} // verus!
