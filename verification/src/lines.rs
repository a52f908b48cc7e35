//! The lines of a file and their lengths.
//!
//! A file is a sequence of bytes. Its lines are the stretches between line
//! feeds; a carriage return before a line feed belongs to the line end, and
//! what follows the last line feed is a line if it is not empty. A line that
//! is not valid UTF-8 is passed over. The length of a line is the number of
//! its characters, and lines without characters do not count.

use vstd::prelude::*;
use vstd::slice::slice_subrange;
use vstd::string::{StrSliceExecFns, StringSliceAdditionalSpecFns};
use vstd::utf8::{decode_utf8, encode_utf8_decode_utf8, valid_utf8};

verus! {

/// The byte that ends a line.
pub const LINE_FEED: u8 = 10;

/// The byte that may stand before the line feed and then belongs to the line
/// end.
pub const CARRIAGE_RETURN: u8 = 13;

/// Where the first line feed of `bytes` stands; the length of `bytes` where
/// there is none.
pub open spec fn first_line_feed(bytes: Seq<u8>) -> int
    decreases bytes.len(),
{
    if bytes.len() == 0 || bytes[0] == LINE_FEED {
        0
    } else {
        1 + first_line_feed(bytes.drop_first())
    }
}

/// `line` without the carriage return at its end, if there is one.
pub open spec fn without_carriage_return(line: Seq<u8>) -> Seq<u8> {
    if line.len() > 0 && line.last() == CARRIAGE_RETURN {
        line.drop_last()
    } else {
        line
    }
}

/// The lines of `bytes`, as bytes and without their line ends.
pub open spec fn raw_lines(bytes: Seq<u8>) -> Seq<Seq<u8>>
    decreases bytes.len(),
{
    let end = first_line_feed(bytes);
    if bytes.len() == 0 {
        Seq::empty()
    } else if 0 <= end < bytes.len() {
        seq![without_carriage_return(bytes.take(end))] + raw_lines(bytes.skip(end + 1))
    } else {
        seq![bytes]
    }
}

/// A raw line that is valid UTF-8.
pub open spec fn is_text() -> spec_fn(Seq<u8>) -> bool {
    |raw: Seq<u8>| valid_utf8(raw)
}

/// The characters that a raw line encodes.
pub open spec fn text_of() -> spec_fn(Seq<u8>) -> Seq<char> {
    |raw: Seq<u8>| decode_utf8(raw)
}

/// The raw lines that are valid UTF-8, decoded, in their order.
pub open spec fn texts_of(raws: Seq<Seq<u8>>) -> Seq<Seq<char>> {
    raws.filter(is_text()).map_values(text_of())
}

/// The lines of a file that holds `bytes`.
pub open spec fn lines_in(bytes: Seq<u8>) -> Seq<Seq<char>> {
    texts_of(raw_lines(bytes))
}

/// A line that holds at least one character.
pub open spec fn is_nonempty() -> spec_fn(Seq<char>) -> bool {
    |line: Seq<char>| line.len() > 0
}

/// The number of characters of a line.
pub open spec fn char_count() -> spec_fn(Seq<char>) -> usize {
    |line: Seq<char>| line.len() as usize
}

/// The line lengths that a file with the lines `lines` has: the number of
/// characters of each line that is not empty, in the order of the lines.
pub open spec fn line_lengths_of(lines: Seq<Seq<char>>) -> Seq<usize> {
    lines.filter(is_nonempty()).map_values(char_count())
}

/// `first_line_feed` is where the first line feed stands.
pub proof fn lemma_first_line_feed(bytes: Seq<u8>)
    ensures
        0 <= first_line_feed(bytes) <= bytes.len(),
        forall|i: int| 0 <= i < first_line_feed(bytes) ==> bytes[i] != LINE_FEED,
        first_line_feed(bytes) < bytes.len() ==> bytes[first_line_feed(bytes)] == LINE_FEED,
    decreases bytes.len(),
{
    if bytes.len() > 0 && bytes[0] != LINE_FEED {
        let rest = bytes.drop_first();
        lemma_first_line_feed(rest);
        assert forall|i: int| 0 <= i < first_line_feed(bytes) implies bytes[i] != LINE_FEED by {
            if i > 0 {
                assert(bytes[i] == rest[i - 1]);
            }
        }
        if first_line_feed(bytes) < bytes.len() {
            assert(bytes[first_line_feed(bytes)] == rest[first_line_feed(rest)]);
        }
    }
}

/// A place with no line feed before it, and with a line feed at it or at
/// the end of `bytes`, is `first_line_feed`.
pub proof fn lemma_first_line_feed_is(bytes: Seq<u8>, end: int)
    requires
        0 <= end <= bytes.len(),
        forall|i: int| 0 <= i < end ==> bytes[i] != LINE_FEED,
        end < bytes.len() ==> bytes[end] == LINE_FEED,
    ensures
        first_line_feed(bytes) == end,
{
    lemma_first_line_feed(bytes);
}

/// One more raw line adds its text, if it is valid UTF-8.
proof fn lemma_texts_of_push(raws: Seq<Seq<u8>>, raw: Seq<u8>)
    ensures
        texts_of(raws.push(raw)) == if valid_utf8(raw) {
            texts_of(raws).push(decode_utf8(raw))
        } else {
            texts_of(raws)
        },
{
    raws.lemma_filter_push(raw, is_text());
    raws.filter(is_text()).lemma_push_map_commute(text_of(), raw);
}

/// One more line adds its length, if it is not empty.
proof fn lemma_line_lengths_of_push(lines: Seq<Seq<char>>, line: Seq<char>)
    ensures
        line_lengths_of(lines.push(line)) == if line.len() > 0 {
            line_lengths_of(lines).push(line.len() as usize)
        } else {
            line_lengths_of(lines)
        },
{
    lines.lemma_filter_push(line, is_nonempty());
    lines.filter(is_nonempty()).lemma_push_map_commute(char_count(), line);
}

/// The text that `bytes` encode, by `std::str::from_utf8`. Its contract is
/// taken on trust, not proved: there is a text exactly where `bytes` are
/// valid UTF-8, and the text is made of these very bytes.
#[verifier::external_body]
fn decoded(bytes: &[u8]) -> (text: Option<&str>)
    ensures
        text is Some <==> valid_utf8(bytes@),
        text matches Some(s) ==> s.spec_bytes() == bytes@,
{
    std::str::from_utf8(bytes).ok()
}

/// Adds the length of the raw line `raw` to `lengths`: the number of its
/// characters, unless it is not valid UTF-8 or holds no character.
fn count_line(lengths: &mut Vec<usize>, raw: &[u8], Ghost(done): Ghost<Seq<Seq<u8>>>)
    requires
        old(lengths)@ == line_lengths_of(texts_of(done)),
        forall|k: int| 0 <= k < old(lengths).len() ==> old(lengths)[k] > 0,
    ensures
        final(lengths)@ == line_lengths_of(texts_of(done.push(raw@))),
        forall|k: int| 0 <= k < final(lengths).len() ==> final(lengths)[k] > 0,
{
    proof {
        lemma_texts_of_push(done, raw@);
        lemma_line_lengths_of_push(texts_of(done), decode_utf8(raw@));
    }
    match decoded(raw) {
        Some(text) => {
            proof {
                encode_utf8_decode_utf8(text@);
            }
            let n: usize = text.unicode_len();
            if n > 0 {
                lengths.push(n);
            }
        },
        None => {},
    }
}

/// The line lengths of a file that holds `bytes`: the number of characters
/// of each line that is valid UTF-8 and not empty, in the order of the
/// lines.
pub fn line_lengths(bytes: &[u8]) -> (lengths: Vec<usize>)
    ensures
        lengths@ == line_lengths_of(lines_in(bytes@)),
        forall|k: int| 0 <= k < lengths.len() ==> lengths[k] > 0,
{
    let mut lengths: Vec<usize> = Vec::new();
    let mut start: usize = 0;
    let mut i: usize = 0;
    let ghost mut done: Seq<Seq<u8>> = Seq::empty();
    proof {
        reveal(Seq::filter);
        assert(bytes@.skip(0) == bytes@);
        assert(texts_of(done) == Seq::<Seq<char>>::empty());
        assert(line_lengths_of(texts_of(done)) == Seq::<usize>::empty());
    }
    while i < bytes.len()
        invariant
            start <= i <= bytes.len(),
            forall|k: int| start <= k < i ==> bytes[k] != LINE_FEED,
            done + raw_lines(bytes@.skip(start as int)) == raw_lines(bytes@),
            lengths@ == line_lengths_of(texts_of(done)),
            forall|k: int| 0 <= k < lengths.len() ==> lengths[k] > 0,
        decreases bytes.len() - i,
    {
        if bytes[i] == LINE_FEED {
            let end: usize = if i > start && bytes[i - 1] == CARRIAGE_RETURN {
                i - 1
            } else {
                i
            };
            let raw = slice_subrange(bytes, start, end);
            proof {
                let rest = bytes@.skip(start as int);
                lemma_first_line_feed_is(rest, i - start);
                assert(rest.take(i - start) == bytes@.subrange(start as int, i as int));
                assert(raw@ == without_carriage_return(rest.take(i - start)));
                assert(rest.skip(i - start + 1) == bytes@.skip(i + 1));
                assert(done + (seq![raw@] + raw_lines(bytes@.skip(i + 1))) == done.push(raw@)
                    + raw_lines(bytes@.skip(i + 1)));
            }
            count_line(&mut lengths, raw, Ghost(done));
            proof {
                done = done.push(raw@);
            }
            start = i + 1;
        }
        i += 1;
    }
    if start < bytes.len() {
        let raw = slice_subrange(bytes, start, bytes.len());
        proof {
            let rest = bytes@.skip(start as int);
            lemma_first_line_feed_is(rest, rest.len() as int);
            assert(raw@ == rest);
            assert(done + seq![raw@] == done.push(raw@));
        }
        count_line(&mut lengths, raw, Ghost(done));
    } else {
        proof {
            assert(done + Seq::<Seq<u8>>::empty() == done);
        }
    }
    lengths
}

/// The raw lines of bytes that end in a line feed, with more bytes after
/// them, are the raw lines of the first followed by those of the others.
pub proof fn lemma_raw_lines_concat(head: Seq<u8>, tail: Seq<u8>)
    requires
        head.len() == 0 || head.last() == LINE_FEED,
    ensures
        raw_lines(head + tail) == raw_lines(head) + raw_lines(tail),
    decreases head.len(),
{
    if head.len() == 0 {
        assert(head + tail == tail);
    } else {
        let whole = head + tail;
        let end = first_line_feed(head);
        lemma_first_line_feed(head);
        assert(head[head.len() - 1] == LINE_FEED);
        assert forall|i: int| 0 <= i <= end implies whole[i] == head[i] by {}
        lemma_first_line_feed_is(whole, end);
        let after = head.skip(end + 1);
        assert(whole.take(end) == head.take(end));
        assert(whole.skip(end + 1) == after + tail);
        if after.len() > 0 {
            assert(after.last() == head.last());
        }
        lemma_raw_lines_concat(after, tail);
        let first = seq![without_carriage_return(head.take(end))];
        assert(first + (raw_lines(after) + raw_lines(tail)) == (first + raw_lines(after))
            + raw_lines(tail));
    }
}

/// The texts of raw lines, one sequence after another.
proof fn lemma_texts_of_concat(a: Seq<Seq<u8>>, b: Seq<Seq<u8>>)
    ensures
        texts_of(a + b) == texts_of(a) + texts_of(b),
{
    Seq::filter_distributes_over_add(a, b, is_text());
}

/// The line lengths of lines, one sequence after another.
proof fn lemma_line_lengths_of_concat(a: Seq<Seq<char>>, b: Seq<Seq<char>>)
    ensures
        line_lengths_of(a + b) == line_lengths_of(a) + line_lengths_of(b),
{
    Seq::filter_distributes_over_add(a, b, is_nonempty());
}

/// A file can be taken in pieces that end in a line feed: the line lengths
/// of the whole are those of the first piece followed by those of the rest.
pub proof fn lemma_line_lengths_in_pieces(head: Seq<u8>, tail: Seq<u8>)
    requires
        head.len() == 0 || head.last() == LINE_FEED,
    ensures
        line_lengths_of(lines_in(head + tail)) == line_lengths_of(lines_in(head))
            + line_lengths_of(lines_in(tail)),
{
    lemma_raw_lines_concat(head, tail);
    lemma_texts_of_concat(raw_lines(head), raw_lines(tail));
    lemma_line_lengths_of_concat(lines_in(head), lines_in(tail));
}

/// Empty lines never count: a file has the same line lengths with a line
/// feed, or a carriage return and a line feed, put in where a line begins.
pub proof fn lemma_blank_lines_do_not_count(head: Seq<u8>, tail: Seq<u8>)
    requires
        head.len() == 0 || head.last() == LINE_FEED,
    ensures
        line_lengths_of(lines_in(head + seq![LINE_FEED] + tail)) == line_lengths_of(
            lines_in(head + tail),
        ),
        line_lengths_of(lines_in(head + seq![CARRIAGE_RETURN, LINE_FEED] + tail))
            == line_lengths_of(lines_in(head + tail)),
{
    let none = Seq::<u8>::empty();
    reveal(Seq::filter);
    assert(valid_utf8(none));
    assert(decode_utf8(none) == Seq::<char>::empty());
    assert(raw_lines(none) == Seq::<Seq<u8>>::empty());
    assert(line_lengths_of(texts_of(seq![none])) == Seq::<usize>::empty()) by {
        lemma_texts_of_push(Seq::<Seq<u8>>::empty(), none);
        lemma_line_lengths_of_push(Seq::<Seq<char>>::empty(), Seq::<char>::empty());
        assert(Seq::<Seq<u8>>::empty().push(none) == seq![none]);
        assert(texts_of(Seq::<Seq<u8>>::empty()) == Seq::<Seq<char>>::empty());
    }
    lemma_line_lengths_in_pieces(head, tail);

    let feed = seq![LINE_FEED];
    lemma_first_line_feed_is(feed, 0);
    assert(feed.take(0) == none);
    assert(feed.skip(1) == none);
    assert(raw_lines(feed) == seq![none]);
    assert(head + feed + tail == head + (feed + tail));
    lemma_line_lengths_in_pieces(head, feed + tail);
    lemma_line_lengths_in_pieces(feed, tail);

    let end = seq![CARRIAGE_RETURN, LINE_FEED];
    lemma_first_line_feed_is(end, 1);
    assert(end.take(1) == seq![CARRIAGE_RETURN]);
    assert(seq![CARRIAGE_RETURN].drop_last() == none);
    assert(end.skip(2) == none);
    assert(raw_lines(end) == seq![none]);
    assert(head + end + tail == head + (end + tail));
    lemma_line_lengths_in_pieces(head, end + tail);
    lemma_line_lengths_in_pieces(end, tail);
}

/// Empty lines never count: lines have the same lengths with an empty line
/// put in anywhere.
pub proof fn lemma_empty_lines_do_not_count(lines: Seq<Seq<char>>, i: int)
    requires
        0 <= i <= lines.len(),
    ensures
        line_lengths_of(lines.insert(i, Seq::<char>::empty())) == line_lengths_of(lines),
{
    let keep = is_nonempty();
    let head = lines.take(i);
    let tail = lines.skip(i);
    let empty = Seq::<char>::empty();
    assert(lines == head + tail);
    assert(lines.insert(i, empty) == head.push(empty) + tail);
    Seq::filter_distributes_over_add(head, tail, keep);
    Seq::filter_distributes_over_add(head.push(empty), tail, keep);
    head.lemma_filter_push(empty, keep);
}

/// No line length of a file is 0, as long as the lines are no longer than
/// `usize` can tell.
pub proof fn lemma_line_lengths_are_positive(lines: Seq<Seq<char>>)
    requires
        forall|i: int| 0 <= i < lines.len() ==> lines[i].len() <= usize::MAX,
    ensures
        forall|k: int| 0 <= k < line_lengths_of(lines).len() ==> line_lengths_of(lines)[k] > 0,
{
    let kept = lines.filter(is_nonempty());
    assert forall|k: int| 0 <= k < line_lengths_of(lines).len() implies line_lengths_of(lines)[k]
        > 0 by {
        lines.lemma_filter_pred(is_nonempty(), k);
        assert(kept.contains(kept[k]));
        lines.lemma_filter_contains_rev(is_nonempty(), kept[k]);
    }
}

} // verus!
