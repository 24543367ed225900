//! PEM texts as they are written, and what decoding gives for them.
//!
//! Nothing here runs: the functions describe how bytes are put into an
//! envelope, and the theorems say what [`crate::der_of`] makes of such a text.

use crate::base64::base64_encode;
use crate::base64::is_alphabet;
use crate::base64::is_base64;
use crate::base64::lemma_decode_encode;
use crate::base64::lemma_encode_is_base64;
use crate::base64::lemma_encode_len;
use crate::base64::lemma_stray_byte;
use crate::base64::padding;
use crate::base64::PAD;
use crate::der_of;
use crate::envelope::begin_marker;
use crate::envelope::body_len;
use crate::envelope::dashes;
use crate::envelope::end_marker;
use crate::envelope::envelope_at;
use crate::envelope::first_envelope;
use crate::envelope::footer_len;
use crate::envelope::header_len;
use crate::envelope::is_body_line;
use crate::envelope::is_full_groups;
use crate::envelope::is_padded_groups;
use crate::envelope::last_close;
use crate::envelope::lemma_body_len_bounds;
use crate::envelope::lemma_envelope_bounds;
use crate::envelope::lemma_first_envelope_bounds;
use crate::envelope::lemma_last_close_bounds;
use crate::envelope::lemma_line_len;
use crate::envelope::lemma_line_len_is;
use crate::envelope::line_len;
use crate::envelope::Span;
use crate::envelope::DASH;
use crate::envelope::LINE_FEED;
use crate::payload::lemma_all_dropped;
use crate::payload::lemma_byte_stays;
use crate::payload::lemma_drop_in_parts;
use crate::payload::lemma_nothing_to_drop;
use crate::payload::payload;
use crate::payload::unwrapped;
use crate::payload::without_line_feeds;
use crate::PemError;
use vstd::prelude::*;

verus! {

/// Whether a line feed occurs in `s`.
pub open spec fn has_line_feed(s: Seq<u8>) -> bool {
    exists|i: int| 0 <= i < s.len() && s[i] == LINE_FEED
}

/// Whether `s` holds line feeds and nothing else.
pub open spec fn is_line_feeds(s: Seq<u8>) -> bool {
    forall|i: int| 0 <= i < s.len() ==> s[i] == LINE_FEED
}

/// Whether `c` can stand nowhere in a payload: it is no character of the
/// alphabet, no `=` and no line feed.
pub open spec fn is_stray(c: u8) -> bool {
    !is_alphabet(c) && c != PAD && c != LINE_FEED
}

/// The header line with `label` in it, its line feed included.
pub open spec fn header_line(label: Seq<u8>) -> Seq<u8> {
    begin_marker() + label + dashes() + seq![LINE_FEED]
}

/// The footer with `label` in it. No line feed ends it.
pub open spec fn footer(label: Seq<u8>) -> Seq<u8> {
    end_marker() + label + dashes()
}

/// `text` cut into lines of `width` bytes, the last of them shorter where
/// the length is no multiple of `width`; a line feed ends each line. A width
/// that is not positive leaves the text on one line.
pub open spec fn wrap_lines(text: Seq<u8>, width: int) -> Seq<u8>
    decreases text.len(),
{
    if text.len() == 0 {
        Seq::empty()
    } else if width <= 0 || text.len() <= width {
        text.push(LINE_FEED)
    } else {
        text.take(width).push(LINE_FEED) + wrap_lines(text.skip(width), width)
    }
}

/// Whether lines of `width` characters cut no group of four characters in
/// two, in a Base64 text of `len` characters: the width is a multiple of
/// four, or the text fits on one line.
pub open spec fn keeps_groups_whole(width: int, len: nat) -> bool {
    width % 4 == 0 || len <= width
}

/// The PEM text of `der`: a header line, the Base64 of `der` in lines of
/// `width` characters, and a footer with the same label.
pub open spec fn pem_text(label: Seq<u8>, width: int, der: Seq<u8>) -> Seq<u8> {
    header_line(label) + wrap_lines(base64_encode(der), width) + footer(label)
}

/// A text that begins with a header line has a header of that line's length.
pub(crate) proof fn lemma_header_line(label: Seq<u8>, rest: Seq<u8>)
    requires
        !has_line_feed(label),
    ensures
        header_len(header_line(label) + rest) == Some(header_line(label).len() as int),
        header_line(label).len() == label.len() + 17,
        (header_line(label) + rest)[0] == DASH,
{
    let s = header_line(label) + rest;
    let n = (label.len() + 16) as int;
    assert forall|k: int| 0 <= k < n implies s[k] != LINE_FEED by {
        if 11 <= k < 11 + label.len() {
            assert(s[k] == label[k - 11]);
        }
    }
    assert(s[n] == LINE_FEED);
    lemma_line_len_is(s, n);
    assert(s.take(11) =~= begin_marker());
    assert(s.skip(n - 5).take(5) =~= dashes());
}

/// A line that begins with a byte outside the alphabet is no body line.
proof fn lemma_not_a_body_line(line: Seq<u8>)
    requires
        line.len() > 0,
        !is_alphabet(line[0]),
    ensures
        !is_body_line(line),
{
    assert forall|k: int| 0 <= k <= line.len() && is_full_groups(line.take(k)) implies
        !#[trigger] is_padded_groups(line.skip(k)) by {
        if k > 0 {
            assert(line.take(k)[0] == line[0]);
        } else {
            assert(line.skip(k)[0] == line[0]);
        }
    }
}

/// No body line begins a text whose first byte is neither of the alphabet
/// nor a line feed.
pub(crate) proof fn lemma_no_body(s: Seq<u8>)
    requires
        s.len() > 0,
        !is_alphabet(s[0]),
        s[0] != LINE_FEED,
    ensures
        body_len(s) == 0,
{
    lemma_line_len(s);
    let n = line_len(s);
    if 0 <= n < s.len() {
        assert(n > 0);
        assert(s.take(n)[0] == s[0]);
        lemma_not_a_body_line(s.take(n));
    }
}

/// A text that begins with a footer, and goes on with a line feed or not at
/// all, has a footer of that length and no body line before it.
proof fn lemma_footer(label: Seq<u8>, tail: Seq<u8>)
    requires
        !has_line_feed(label),
        tail.len() == 0 || tail[0] == LINE_FEED,
    ensures
        footer_len(footer(label) + tail) == Some(footer(label).len() as int),
        footer(label).len() == label.len() + 14,
        body_len(footer(label) + tail) == 0,
        (footer(label) + tail)[0] == DASH,
{
    let s = footer(label) + tail;
    let n = (label.len() + 14) as int;
    assert forall|k: int| 0 <= k < n implies s[k] != LINE_FEED by {
        if 9 <= k < 9 + label.len() {
            assert(s[k] == label[k - 9]);
        }
    }
    if n < s.len() {
        assert(s[n] == tail[0]);
    }
    lemma_line_len_is(s, n);
    assert(s.take(9) =~= end_marker());
    assert(s.skip(n - 5).take(5) =~= dashes());
    assert(last_close(s, n) == Some(n));
    lemma_no_body(s);
}

/// Base64 holds no stray byte and no line feed.
proof fn lemma_base64_bytes(text: Seq<u8>)
    requires
        is_base64(text),
    ensures
        forall|i: int| 0 <= i < text.len() ==> is_alphabet(#[trigger] text[i]) || text[i] == PAD,
        !has_line_feed(text),
{
    assert forall|i: int| 0 <= i < text.len() implies is_alphabet(#[trigger] text[i]) || text[i]
        == PAD by {
        if i >= text.len() - padding(text) {
            assert(text[i] == PAD);
        }
    }
}

/// Base64 on one line is a body line.
proof fn lemma_base64_is_body_line(text: Seq<u8>)
    requires
        is_base64(text),
    ensures
        is_body_line(text),
{
    let k: int = if padding(text) > 0 {
        text.len() - 4
    } else {
        text.len() as int
    };
    assert(is_full_groups(text.take(k)));
    assert(is_padded_groups(text.skip(k)));
}

/// The first `width` characters of a longer Base64 text are full groups, and
/// the rest is Base64 again, where `width` is a multiple of four.
proof fn lemma_base64_split(text: Seq<u8>, width: int)
    requires
        is_base64(text),
        0 < width < text.len(),
        width % 4 == 0,
    ensures
        is_full_groups(text.take(width)),
        is_body_line(text.take(width)),
        is_base64(text.skip(width)),
{
    let head = text.take(width);
    let rest = text.skip(width);
    assert(rest.len() >= 4);
    assert(rest[rest.len() - 1] == text[text.len() - 1]);
    assert(rest[rest.len() - 2] == text[text.len() - 2]);
    assert(padding(rest) == padding(text));
    assert(is_full_groups(head));
    assert(is_padded_groups(head.skip(width)));
    assert(head.take(width) =~= head);
}

/// What `wrap_lines` gives is at least as long as the text, and empty only
/// for the empty text.
proof fn lemma_wrap_len(text: Seq<u8>, width: int)
    ensures
        wrap_lines(text, width).len() >= text.len(),
        text.len() > 0 ==> wrap_lines(text, width).len() > 0,
    decreases text.len(),
{
    if text.len() == 0 {
    } else if width <= 0 || text.len() <= width {
    } else {
        lemma_wrap_len(text.skip(width), width);
    }
}

/// Base64 in lines whose width is a multiple of four, or on one line, is a
/// run of body lines, and the run ends with it where what follows is no body
/// line.
proof fn lemma_wrapped_body(text: Seq<u8>, width: int, rest: Seq<u8>)
    requires
        is_base64(text),
        width > 0,
        width % 4 == 0 || text.len() <= width,
        body_len(rest) == 0,
    ensures
        body_len(wrap_lines(text, width) + rest) == wrap_lines(text, width).len(),
    decreases text.len(),
{
    let lines = wrap_lines(text, width);
    let s = lines + rest;
    lemma_base64_bytes(text);
    if text.len() == 0 {
        assert(s =~= rest);
    } else if text.len() <= width {
        let n = text.len() as int;
        assert forall|k: int| 0 <= k < n implies s[k] != LINE_FEED by {
            assert(s[k] == text[k]);
        }
        assert(s[n] == LINE_FEED);
        lemma_line_len_is(s, n);
        assert(s.take(n) =~= text);
        lemma_base64_is_body_line(text);
        assert(s.skip(n + 1) =~= rest);
    } else {
        let n = width;
        let more = wrap_lines(text.skip(width), width);
        assert forall|k: int| 0 <= k < n implies s[k] != LINE_FEED by {
            assert(s[k] == text[k]);
        }
        assert(s[n] == LINE_FEED);
        lemma_line_len_is(s, n);
        assert(s.take(n) =~= text.take(width));
        lemma_base64_split(text, width);
        assert(s.skip(n + 1) =~= more + rest);
        lemma_wrapped_body(text.skip(width), width, rest);
    }
}

/// Of a line and what follows it, the line stays and its line feed goes.
proof fn lemma_unwrap_line(line: Seq<u8>, rest: Seq<u8>)
    requires
        !has_line_feed(line),
    ensures
        without_line_feeds(line.push(LINE_FEED) + rest) == line + without_line_feeds(rest),
{
    let feed = seq![LINE_FEED];
    assert forall|i: int| 0 <= i < line.len() implies line[i] != LINE_FEED by {
        if line[i] == LINE_FEED {
            assert(has_line_feed(line));
        }
    }
    lemma_nothing_to_drop(line);
    lemma_all_dropped(feed);
    lemma_drop_in_parts(line, feed);
    lemma_drop_in_parts(line + feed, rest);
    assert(line.push(LINE_FEED) =~= line + feed);
    assert(line + Seq::<u8>::empty() =~= line);
}

/// Taking the line feeds out of wrapped lines gives the text back, where the
/// text holds none itself.
proof fn lemma_unwrap_lines(text: Seq<u8>, width: int)
    requires
        !has_line_feed(text),
    ensures
        without_line_feeds(wrap_lines(text, width)) == text,
    decreases text.len(),
{
    let none = Seq::<u8>::empty();
    lemma_all_dropped(none);
    if text.len() == 0 {
    } else if width <= 0 || text.len() <= width {
        lemma_unwrap_line(text, none);
        assert(text.push(LINE_FEED) + none =~= text.push(LINE_FEED));
        assert(text + none =~= text);
    } else {
        let head = text.take(width);
        let tail = text.skip(width);
        assert(!has_line_feed(head)) by {
            if has_line_feed(head) {
                let i = choose|i: int| 0 <= i < head.len() && head[i] == LINE_FEED;
                assert(text[i] == LINE_FEED);
            }
        }
        assert(!has_line_feed(tail)) by {
            if has_line_feed(tail) {
                let i = choose|i: int| 0 <= i < tail.len() && tail[i] == LINE_FEED;
                assert(text[i + width] == LINE_FEED);
            }
        }
        lemma_unwrap_lines(tail, width);
        lemma_unwrap_line(head, wrap_lines(tail, width));
        assert(head + tail =~= text);
    }
}

/// The first envelope of a text that is put together from a header, a run
/// of body lines and what begins with a footer starts at offset 0; without
/// its marker lines the run and what follows the footer are left.
proof fn lemma_envelope_from_parts(head: Seq<u8>, lines: Seq<u8>, rest: Seq<u8>)
    requires
        header_len(head + (lines + rest)) == Some(head.len() as int),
        body_len(lines + rest) == lines.len(),
        lines.len() > 0,
        footer_len(rest) is Some,
    ensures
        first_envelope(head + (lines + rest)) == Some(
            Span {
                start: 0,
                body_start: head.len() as int,
                body_end: (head.len() + lines.len()) as int,
                end: head.len() + lines.len() + footer_len(rest)->0,
            },
        ),
        unwrapped(head + (lines + rest)) == lines + rest.skip(footer_len(rest)->0),
{
    let whole = head + (lines + rest);
    let h = head.len() as int;
    let b = lines.len() as int;
    let f = footer_len(rest)->0;
    lemma_footer_on_line(rest);
    assert(whole.skip(0) =~= whole);
    assert(whole.skip(h) =~= lines + rest);
    assert(whole.skip(h + b) =~= rest);
    assert(envelope_at(whole, 0) == Some(
        Span { start: 0, body_start: h, body_end: h + b, end: h + b + f },
    ));
    assert(whole.take(0) + whole.subrange(h, h + b) + whole.skip(h + b + f) =~= lines + rest.skip(
        f,
    ));
}

/// Of a text that is made of a header line, wrapped Base64 and a footer, the
/// wrapped Base64 and what follows the footer are left when the marker lines
/// are gone.
proof fn lemma_envelope_of_pem_text(
    label: Seq<u8>,
    closing: Seq<u8>,
    width: int,
    text: Seq<u8>,
    tail: Seq<u8>,
)
    requires
        !has_line_feed(label),
        !has_line_feed(closing),
        is_base64(text),
        text.len() > 0,
        width > 0,
        width % 4 == 0 || text.len() <= width,
        tail.len() == 0 || tail[0] == LINE_FEED,
    ensures
        unwrapped(header_line(label) + wrap_lines(text, width) + footer(closing) + tail)
            == wrap_lines(text, width) + tail,
{
    let head = header_line(label);
    let lines = wrap_lines(text, width);
    let foot = footer(closing);
    lemma_wrap_len(text, width);
    lemma_header_line(label, lines + (foot + tail));
    lemma_footer(closing, tail);
    lemma_wrapped_body(text, width, foot + tail);
    lemma_envelope_from_parts(head, lines, foot + tail);
    assert((foot + tail).skip(foot.len() as int) =~= tail);
    assert(head + lines + foot + tail =~= head + (lines + (foot + tail)));
}

/// A stray byte that is not in the header or the footer of the first
/// envelope is refused: a text does not decode where a byte that is neither
/// of the alphabet, nor `=`, nor a line feed is left once the two marker
/// lines are gone.
pub proof fn stray_byte_kept_is_refused(text: Seq<u8>, i: int)
    requires
        0 <= i < unwrapped(text).len(),
        is_stray(unwrapped(text)[i]),
    ensures
        der_of(text) == Err::<Seq<u8>, PemError>(PemError::MalformedBase64),
{
    let plain = unwrapped(text);
    lemma_byte_stays(plain, i);
    let j = choose|j: int|
        0 <= j < without_line_feeds(plain).len() && without_line_feeds(plain)[j] == plain[i];
    lemma_stray_byte(payload(text), j);
}

/// A text that begins with a stray byte, and at whose first byte no envelope
/// starts, is refused.
proof fn lemma_stray_at_start(text: Seq<u8>)
    requires
        text.len() > 0,
        is_stray(text[0]),
        envelope_at(text, 0) is None,
    ensures
        der_of(text) == Err::<Seq<u8>, PemError>(PemError::MalformedBase64),
{
    lemma_first_envelope_bounds(text);
    match first_envelope(text) {
        Some(e) => {
            assert(e.start > 0);
            assert(unwrapped(text)[0] == text[0]);
        },
        None => {},
    }
    stray_byte_kept_is_refused(text, 0);
}

/// A header line and a footer with no line between them make no envelope:
/// the text is refused.
proof fn lemma_empty_body_refused(label: Seq<u8>, tail: Seq<u8>)
    requires
        !has_line_feed(label),
        is_line_feeds(tail),
    ensures
        der_of(header_line(label) + footer(label) + tail) == Err::<Seq<u8>, PemError>(
            PemError::MalformedBase64,
        ),
{
    let head = header_line(label);
    let whole = head + footer(label) + tail;
    assert(whole =~= head + (footer(label) + tail));
    lemma_header_line(label, footer(label) + tail);
    lemma_footer(label, tail);
    assert(whole.skip(0) =~= whole);
    assert(whole.skip(head.len() as int) =~= footer(label) + tail);
    lemma_stray_at_start(whole);
}

/// A line whose length is no multiple of four is no body line.
proof fn lemma_body_line_len(line: Seq<u8>)
    requires
        line.len() % 4 != 0,
    ensures
        !is_body_line(line),
{
    assert forall|k: int| 0 <= k <= line.len() && is_full_groups(line.take(k)) implies
        !#[trigger] is_padded_groups(line.skip(k)) by {
        assert(line.take(k).len() + line.skip(k).len() == line.len());
    }
}

/// Lines that cut a group in two make no envelope: the text is refused.
proof fn lemma_cut_group_refused(label: Seq<u8>, width: int, der: Seq<u8>, tail: Seq<u8>)
    requires
        !has_line_feed(label),
        width > 0,
        !keeps_groups_whole(width, base64_encode(der).len()),
    ensures
        der_of(pem_text(label, width, der) + tail) == Err::<Seq<u8>, PemError>(
            PemError::MalformedBase64,
        ),
{
    let text = base64_encode(der);
    lemma_encode_is_base64(der);
    lemma_base64_bytes(text);
    let head = header_line(label);
    let more = wrap_lines(text.skip(width), width) + footer(label) + tail;
    let rest = text.take(width).push(LINE_FEED) + more;
    let whole = pem_text(label, width, der) + tail;
    assert(whole =~= head + rest);
    lemma_header_line(label, rest);
    assert(whole.skip(0) =~= whole);
    assert(whole.skip(head.len() as int) =~= rest);
    assert forall|k: int| 0 <= k < width implies rest[k] != LINE_FEED by {
        assert(rest[k] == text[k]);
        if text[k] == LINE_FEED {
            assert(has_line_feed(text));
        }
    }
    assert(rest[width] == LINE_FEED);
    lemma_line_len_is(rest, width);
    lemma_body_line_len(rest.take(width));
    lemma_stray_at_start(whole);
}

/// Round trip: the PEM text of bytes decodes to those bytes.
///
/// The bytes are not empty, the label holds no line feed, the lines are of a
/// width that cuts no group of four characters in two, and behind the footer
/// there is nothing or line feeds.
pub proof fn round_trip(label: Seq<u8>, width: int, der: Seq<u8>, tail: Seq<u8>)
    requires
        der.len() > 0,
        !has_line_feed(label),
        width > 0,
        keeps_groups_whole(width, base64_encode(der).len()),
        is_line_feeds(tail),
    ensures
        der_of(pem_text(label, width, der) + tail) == Ok::<Seq<u8>, PemError>(der),
{
    let text = base64_encode(der);
    lemma_encode_is_base64(der);
    lemma_encode_len(der);
    lemma_decode_encode(der);
    lemma_base64_bytes(text);
    lemma_envelope_of_pem_text(label, label, width, text, tail);
    lemma_drop_in_parts(wrap_lines(text, width), tail);
    lemma_unwrap_lines(text, width);
    lemma_all_dropped(tail);
    assert(text + Seq::<u8>::empty() =~= text);
}

/// Where the round trip ends: the PEM text of no bytes at all, which has no
/// body line, and a PEM text whose lines cut a group of four characters in
/// two are refused.
pub proof fn pem_text_refused(label: Seq<u8>, width: int, der: Seq<u8>, tail: Seq<u8>)
    requires
        der.len() == 0 || !keeps_groups_whole(width, base64_encode(der).len()),
        !has_line_feed(label),
        width > 0,
        is_line_feeds(tail),
    ensures
        der_of(pem_text(label, width, der) + tail) == Err::<Seq<u8>, PemError>(
            PemError::MalformedBase64,
        ),
{
    if !keeps_groups_whole(width, base64_encode(der).len()) {
        lemma_cut_group_refused(label, width, der, tail);
    } else {
        let none = wrap_lines(base64_encode(der), width);
        assert(none =~= Seq::<u8>::empty());
        assert(header_line(label) + none =~= header_line(label));
        lemma_empty_body_refused(label, tail);
    }
}

/// The width of the lines does not matter: two PEM texts of the same bytes
/// that differ in nothing but the width of their lines decode alike, where
/// both widths cut a group of four characters in two or neither does.
pub proof fn width_independence(
    label: Seq<u8>,
    width: int,
    other_width: int,
    der: Seq<u8>,
    tail: Seq<u8>,
)
    requires
        !has_line_feed(label),
        width > 0,
        other_width > 0,
        keeps_groups_whole(width, base64_encode(der).len()) == keeps_groups_whole(
            other_width,
            base64_encode(der).len(),
        ),
        is_line_feeds(tail),
    ensures
        der_of(pem_text(label, width, der) + tail) == der_of(
            pem_text(label, other_width, der) + tail,
        ),
{
    if !keeps_groups_whole(width, base64_encode(der).len()) {
        lemma_cut_group_refused(label, width, der, tail);
        lemma_cut_group_refused(label, other_width, der, tail);
    } else if der.len() > 0 {
        round_trip(label, width, der, tail);
        round_trip(label, other_width, der, tail);
    } else {
        assert(wrap_lines(base64_encode(der), width) =~= wrap_lines(
            base64_encode(der),
            other_width,
        ));
    }
}

/// The label does not matter: two PEM texts of the same bytes that differ in
/// nothing but the label of their marker lines decode alike.
pub proof fn label_independence(
    label: Seq<u8>,
    other_label: Seq<u8>,
    width: int,
    der: Seq<u8>,
    tail: Seq<u8>,
)
    requires
        !has_line_feed(label),
        !has_line_feed(other_label),
        width > 0,
        is_line_feeds(tail),
    ensures
        der_of(pem_text(label, width, der) + tail) == der_of(
            pem_text(other_label, width, der) + tail,
        ),
{
    if der.len() > 0 && keeps_groups_whole(width, base64_encode(der).len()) {
        round_trip(label, width, der, tail);
        round_trip(other_label, width, der, tail);
    } else {
        pem_text_refused(label, width, der, tail);
        pem_text_refused(other_label, width, der, tail);
    }
}

/// A body line holds characters of the alphabet and `=`, and nothing else.
proof fn lemma_body_line_bytes(line: Seq<u8>)
    requires
        is_body_line(line),
    ensures
        forall|i: int| 0 <= i < line.len() ==> is_alphabet(#[trigger] line[i]) || line[i] == PAD,
{
    let k = choose|k: int|
        0 <= k <= line.len() && is_full_groups(line.take(k)) && #[trigger] is_padded_groups(
            line.skip(k),
        );
    assert forall|i: int| 0 <= i < line.len() implies is_alphabet(#[trigger] line[i]) || line[i]
        == PAD by {
        if i < k {
            assert(line.take(k)[i] == line[i]);
        } else {
            assert(line.skip(k)[i - k] == line[i]);
        }
    }
}

/// A run of body lines holds no stray byte.
proof fn lemma_body_bytes(s: Seq<u8>, i: int)
    requires
        0 <= i < body_len(s),
    ensures
        i < s.len(),
        !is_stray(s[i]),
    decreases s.len(),
{
    let n = line_len(s);
    lemma_line_len(s);
    lemma_body_len_bounds(s);
    if i < n {
        lemma_body_line_bytes(s.take(n));
        assert(s.take(n)[i] == s[i]);
    } else if i > n {
        lemma_body_bytes(s.skip(n + 1), i - n - 1);
        assert(s.skip(n + 1)[i - n - 1] == s[i]);
    }
}

/// A footer lies on one line: it holds no line feed.
proof fn lemma_footer_on_line(s: Seq<u8>)
    requires
        footer_len(s) is Some,
    ensures
        14 <= footer_len(s)->0 <= s.len(),
        forall|i: int| 0 <= i < footer_len(s)->0 ==> s[i] != LINE_FEED,
{
    lemma_line_len(s);
    lemma_last_close_bounds(s, line_len(s));
}

/// What an envelope at the start of a text holds: no stray byte in its body,
/// no line feed in its footer.
proof fn lemma_envelope_bytes(text: Seq<u8>)
    requires
        envelope_at(text, 0) is Some,
    ensures
        first_envelope(text) == envelope_at(text, 0),
        0 < envelope_at(text, 0)->0.body_start < envelope_at(text, 0)->0.body_end,
        envelope_at(text, 0)->0.body_end < envelope_at(text, 0)->0.end <= text.len(),
        forall|i: int|
            envelope_at(text, 0)->0.body_start <= i < envelope_at(text, 0)->0.body_end
                ==> !is_stray(#[trigger] text[i]),
        forall|i: int|
            envelope_at(text, 0)->0.body_end <= i < envelope_at(text, 0)->0.end ==> #[trigger] text[i]
                != LINE_FEED,
{
    let e = envelope_at(text, 0)->0;
    lemma_envelope_bounds(text, 0);
    assert(text.skip(0) =~= text);
    let rest = text.skip(e.body_start);
    let behind = text.skip(e.body_end);
    assert(body_len(rest) == e.body_end - e.body_start);
    assert(footer_len(behind) == Some(e.end - e.body_end));
    lemma_footer_on_line(behind);
    assert forall|i: int| e.body_start <= i < e.body_end implies !is_stray(#[trigger] text[i]) by {
        lemma_body_bytes(rest, i - e.body_start);
        assert(rest[i - e.body_start] == text[i]);
    }
    assert forall|i: int| e.body_end <= i < e.end implies #[trigger] text[i] != LINE_FEED by {
        assert(behind[i - e.body_end] == text[i]);
    }
}

/// A byte behind the first envelope is left when the marker lines are gone.
proof fn lemma_kept_behind(text: Seq<u8>, i: int)
    requires
        first_envelope(text) is Some,
        first_envelope(text)->0.end <= i < text.len(),
        is_stray(text[i]),
    ensures
        der_of(text) == Err::<Seq<u8>, PemError>(PemError::MalformedBase64),
{
    let e = first_envelope(text)->0;
    lemma_first_envelope_bounds(text);
    let front = text.take(e.start) + text.subrange(e.body_start, e.body_end);
    assert(unwrapped(text) == front + text.skip(e.end));
    assert(unwrapped(text)[front.len() + i - e.end] == text[i]);
    stray_byte_kept_is_refused(text, front.len() + i - e.end);
}

/// Behind the body of an envelope that starts a text there is no way for a
/// stray byte to get lost, where a line feed and one more stray byte follow
/// it: the footer, which lies on one line, can take in only the first.
proof fn lemma_stray_behind_header(text: Seq<u8>, p: int, q: int)
    requires
        envelope_at(text, 0) is Some,
        envelope_at(text, 0)->0.body_start <= p < q < text.len() - 1,
        is_stray(text[p]),
        text[q] == LINE_FEED,
        is_stray(text[q + 1]),
    ensures
        der_of(text) == Err::<Seq<u8>, PemError>(PemError::MalformedBase64),
{
    let e = envelope_at(text, 0)->0;
    lemma_envelope_bytes(text);
    if p >= e.end {
        lemma_kept_behind(text, p);
    } else {
        lemma_kept_behind(text, q + 1);
    }
}

/// Where the bytes of a body and the first byte of a footer lie in a text
/// that is put together from four parts.
proof fn lemma_parts(head: Seq<u8>, body: Seq<u8>, foot: Seq<u8>, tail: Seq<u8>, at: int)
    requires
        0 <= at < body.len(),
        foot.len() > 0,
    ensures
        head + body + foot + tail == head + (body + foot + tail),
        (head + body + foot + tail)[head.len() + at] == body[at],
        (head + body + foot + tail)[(head.len() + body.len()) as int] == foot[0],
        (head + body + foot + tail).len() == head.len() + body.len() + foot.len() + tail.len(),
{
    assert(head + body + foot + tail =~= head + (body + foot + tail));
}

/// A footer begins with a dash.
proof fn lemma_footer_start(label: Seq<u8>)
    ensures
        footer(label).len() == label.len() + 14,
        footer(label)[0] == DASH,
{
}

/// A stray byte in the body is refused: a text made of a header line, lines
/// of which one holds a byte that is neither of the alphabet, nor `=`, nor a
/// line feed, and a footer, does not decode, whatever follows the footer.
pub proof fn stray_byte_refused(
    label: Seq<u8>,
    closing: Seq<u8>,
    body: Seq<u8>,
    at: int,
    tail: Seq<u8>,
)
    requires
        !has_line_feed(label),
        body.len() > 0,
        body.last() == LINE_FEED,
        0 <= at < body.len(),
        is_stray(body[at]),
    ensures
        der_of(header_line(label) + body + footer(closing) + tail) == Err::<Seq<u8>, PemError>(
            PemError::MalformedBase64,
        ),
{
    let head = header_line(label);
    let foot = footer(closing);
    let whole = head + body + foot + tail;
    let p = head.len() + at;
    let q = head.len() + body.len() - 1;
    lemma_footer_start(closing);
    lemma_parts(head, body, foot, tail, at);
    lemma_parts(head, body, foot, tail, body.len() - 1);
    lemma_header_line(label, body + foot + tail);
    assert(whole.skip(0) =~= whole);
    assert(is_stray(DASH));
    if envelope_at(whole, 0) is None {
        lemma_stray_at_start(whole);
    } else {
        assert(envelope_at(whole, 0)->0.body_start == head.len());
        lemma_stray_behind_header(whole, p, q);
    }
}

} // verus!
