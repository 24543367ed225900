//! The payload of a PEM text: what is left of it once the marker lines of its
//! first envelope and every line feed are gone.

use crate::envelope::find_envelope;
use crate::envelope::first_envelope;
use crate::envelope::lemma_first_envelope_bounds;
use crate::envelope::LINE_FEED;
use vstd::prelude::*;

verus! {

/// `s` without its line feeds.
#[verifier::opaque]
pub open spec fn without_line_feeds(s: Seq<u8>) -> Seq<u8> {
    s.filter(|b: u8| b != LINE_FEED)
}

/// `text` with its first envelope replaced by the body of that envelope: the
/// header and the footer are gone, the body lines and whatever stands before
/// and behind the envelope stay. A text without an envelope stays as it is.
pub open spec fn unwrapped(text: Seq<u8>) -> Seq<u8> {
    match first_envelope(text) {
        Some(e) => text.take(e.start) + text.subrange(e.body_start, e.body_end) + text.skip(e.end),
        None => text,
    }
}

/// The Base64 that `text` carries: `unwrapped(text)` without its line feeds.
pub open spec fn payload(text: Seq<u8>) -> Seq<u8> {
    without_line_feeds(unwrapped(text))
}

/// Nothing is left of the empty text.
pub proof fn lemma_drop_empty()
    ensures
        without_line_feeds(Seq::<u8>::empty()) == Seq::<u8>::empty(),
{
    reveal(without_line_feeds);
    reveal(Seq::filter);
}

/// One more byte at the end is one more byte in what is left, unless it is a
/// line feed.
pub proof fn lemma_drop_push(s: Seq<u8>, b: u8)
    ensures
        without_line_feeds(s.push(b)) == if b != LINE_FEED {
            without_line_feeds(s).push(b)
        } else {
            without_line_feeds(s)
        },
{
    reveal(without_line_feeds);
    reveal(Seq::filter);
    assert(s.push(b).drop_last() =~= s);
}

/// Dropping line feeds goes through concatenation.
pub proof fn lemma_drop_in_parts(a: Seq<u8>, b: Seq<u8>)
    ensures
        without_line_feeds(a + b) == without_line_feeds(a) + without_line_feeds(b),
    decreases b.len(),
{
    if b.len() == 0 {
        lemma_drop_empty();
        assert(b =~= Seq::<u8>::empty());
        assert(a + b =~= a);
        assert(without_line_feeds(a) + without_line_feeds(b) =~= without_line_feeds(a));
    } else {
        let front = b.drop_last();
        lemma_drop_in_parts(a, front);
        lemma_drop_push(a + front, b.last());
        lemma_drop_push(front, b.last());
        assert((a + front).push(b.last()) =~= a + b);
        assert(front.push(b.last()) =~= b);
        if b.last() != LINE_FEED {
            assert((without_line_feeds(a) + without_line_feeds(front)).push(b.last())
                =~= without_line_feeds(a) + without_line_feeds(front).push(b.last()));
        }
    }
}

/// A text without line feeds stays as it is.
pub proof fn lemma_nothing_to_drop(s: Seq<u8>)
    requires
        forall|i: int| 0 <= i < s.len() ==> s[i] != LINE_FEED,
    ensures
        without_line_feeds(s) == s,
    decreases s.len(),
{
    if s.len() == 0 {
        lemma_drop_empty();
        assert(s =~= Seq::<u8>::empty());
    } else {
        lemma_nothing_to_drop(s.drop_last());
        lemma_drop_push(s.drop_last(), s.last());
        assert(s.drop_last().push(s.last()) =~= s);
    }
}

/// Of a text of line feeds nothing is left.
pub proof fn lemma_all_dropped(s: Seq<u8>)
    requires
        forall|i: int| 0 <= i < s.len() ==> s[i] == LINE_FEED,
    ensures
        without_line_feeds(s) == Seq::<u8>::empty(),
    decreases s.len(),
{
    if s.len() == 0 {
        lemma_drop_empty();
        assert(s =~= Seq::<u8>::empty());
    } else {
        lemma_all_dropped(s.drop_last());
        lemma_drop_push(s.drop_last(), s.last());
        assert(s.drop_last().push(s.last()) =~= s);
    }
}

/// A byte that is no line feed is still there when the line feeds are gone.
pub proof fn lemma_byte_stays(s: Seq<u8>, i: int)
    requires
        0 <= i < s.len(),
        s[i] != LINE_FEED,
    ensures
        exists|j: int| 0 <= j < without_line_feeds(s).len() && without_line_feeds(s)[j] == s[i],
    decreases s.len(),
{
    let front = s.drop_last();
    lemma_drop_push(front, s.last());
    assert(front.push(s.last()) =~= s);
    if i == s.len() - 1 {
        let j = without_line_feeds(front).len() as int;
        assert(without_line_feeds(s)[j] == s[i]);
    } else {
        lemma_byte_stays(front, i);
        let j = choose|j: int|
            0 <= j < without_line_feeds(front).len() && without_line_feeds(front)[j] == front[i];
        assert(without_line_feeds(s)[j] == s[i]);
    }
}

/// Appends to `out` the bytes of `text` from `from` up to `to`, line feeds
/// left out.
fn push_without_line_feeds(out: &mut Vec<u8>, text: &[u8], from: usize, to: usize)
    requires
        from <= to <= text@.len(),
    ensures
        final(out)@ == old(out)@ + without_line_feeds(text@.subrange(from as int, to as int)),
{
    let ghost before = out@;
    let mut i: usize = from;
    proof {
        lemma_drop_empty();
        assert(text@.subrange(from as int, from as int) =~= Seq::<u8>::empty());
        assert(before + Seq::<u8>::empty() =~= before);
    }
    while i < to
        invariant
            from <= i <= to <= text@.len(),
            out@ == before + without_line_feeds(text@.subrange(from as int, i as int)),
        decreases to - i,
    {
        let ghost done = text@.subrange(from as int, i as int);
        proof {
            lemma_drop_push(done, text@[i as int]);
            assert(done.push(text@[i as int]) =~= text@.subrange(from as int, i + 1));
        }
        if text[i] != LINE_FEED {
            out.push(text[i]);
            assert(out@ =~= before + without_line_feeds(done).push(text@[i as int]));
        }
        i += 1;
    }
}

/// Computes the payload of `text`.
pub fn extract_payload(text: &[u8]) -> (out: Vec<u8>)
    ensures
        out@ == payload(text@),
{
    let mut out: Vec<u8> = Vec::new();
    match find_envelope(text) {
        Some(e) => {
            proof {
                lemma_first_envelope_bounds(text@);
            }
            push_without_line_feeds(&mut out, text, 0, e.start);
            push_without_line_feeds(&mut out, text, e.body_start, e.body_end);
            push_without_line_feeds(&mut out, text, e.end, text.len());
            proof {
                let a = text@.subrange(0, e.start as int);
                let b = text@.subrange(e.body_start as int, e.body_end as int);
                let c = text@.subrange(e.end as int, text@.len() as int);
                lemma_drop_in_parts(a, b);
                lemma_drop_in_parts(a + b, c);
                assert(Seq::<u8>::empty() + without_line_feeds(a) =~= without_line_feeds(a));
            }
        },
        None => {
            push_without_line_feeds(&mut out, text, 0, text.len());
            assert(text@.subrange(0, text@.len() as int) =~= text@);
            assert(Seq::<u8>::empty() + without_line_feeds(text@) =~= without_line_feeds(text@));
        },
    }
    out
}

} // verus!
