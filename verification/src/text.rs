//! Text primitives the line engine is built on: what a line is, how received
//! text falls apart into lines, how a line is framed for the wire, and the two
//! places where the standard library is taken on trust.

use vstd::prelude::*;
use vstd::utf8::{
    decode_utf8, decode_utf8_encode_utf8, encode_utf8, encode_utf8_decode_utf8, valid_utf8,
    valid_utf8_concat,
};

verus! {

/// The line terminator of the protocol.
pub const LINE_TERMINATOR: char = '\n';

/// The line terminator as it travels on the wire.
pub const LINE_TERMINATOR_BYTE: u8 = 0x0A;

/// Padding that a reused receive buffer may carry; never part of a line.
pub const PADDING: char = '\0';

/// `text` holds no line terminator.
pub open spec fn terminator_free(text: Seq<char>) -> bool {
    forall|i: int| 0 <= i < text.len() ==> text[i] != LINE_TERMINATOR
}

/// `text` can stand as one line: it holds neither a terminator nor padding.
pub open spec fn is_line(text: Seq<char>) -> bool {
    forall|i: int| 0 <= i < text.len() ==> text[i] != LINE_TERMINATOR && text[i] != PADDING
}

/// `text` without its padding characters; what is left keeps its order.
pub open spec fn strip_padding(text: Seq<char>) -> Seq<char> {
    text.filter(|c: char| c != PADDING)
}

/// The segments of `text` between its terminators: one more segment than
/// there are terminators, the last one being what follows the last terminator.
pub open spec fn split_lines(text: Seq<char>) -> Seq<Seq<char>>
    decreases text.len(),
{
    if text.len() == 0 {
        seq![Seq::<char>::empty()]
    } else {
        let before = split_lines(text.drop_last());
        if text.last() == LINE_TERMINATOR {
            before.push(Seq::<char>::empty())
        } else {
            before.drop_last().push(before.last().push(text.last()))
        }
    }
}

/// The number of terminators in `text`.
pub open spec fn terminators(text: Seq<char>) -> nat {
    text.filter(|c: char| c == LINE_TERMINATOR).len()
}

/// The segments of `text` once its padding is removed.
pub open spec fn segments(text: Seq<char>) -> Seq<Seq<char>> {
    split_lines(strip_padding(text))
}

/// Every line of `lines` followed by a terminator, one after another.
pub open spec fn join_terminated(lines: Seq<Seq<char>>) -> Seq<char>
    decreases lines.len(),
{
    if lines.len() == 0 {
        Seq::<char>::empty()
    } else {
        join_terminated(lines.drop_last()) + lines.last().push(LINE_TERMINATOR)
    }
}

/// What a line looks like on the wire: its UTF-8 bytes and one terminator.
pub open spec fn frame(line: Seq<char>) -> Seq<u8> {
    encode_utf8(line).push(LINE_TERMINATOR_BYTE)
}

/// A split always yields at least one segment.
pub proof fn lemma_split_lines_len(text: Seq<char>)
    ensures
        split_lines(text).len() >= 1,
    decreases text.len(),
{
    if text.len() > 0 {
        lemma_split_lines_len(text.drop_last());
    }
}

/// A split yields one segment more than the text holds terminators.
pub proof fn lemma_split_lines_count(text: Seq<char>)
    ensures
        split_lines(text).len() == terminators(text) + 1,
    decreases text.len(),
{
    reveal_with_fuel(Seq::filter, 1);
    if text.len() > 0 {
        lemma_split_lines_count(text.drop_last());
        lemma_split_lines_len(text.drop_last());
    }
}

/// No segment of a split holds a terminator.
pub proof fn lemma_split_lines_terminator_free(text: Seq<char>)
    ensures
        forall|i: int|
            0 <= i < split_lines(text).len() ==> terminator_free(#[trigger] split_lines(text)[i]),
    decreases text.len(),
{
    if text.len() > 0 {
        lemma_split_lines_terminator_free(text.drop_last());
        lemma_split_lines_len(text.drop_last());
    }
}

/// A split loses nothing: its segments, each but the last followed by a
/// terminator, spell the text again.
pub proof fn lemma_split_lines_joins(text: Seq<char>)
    ensures
        join_terminated(split_lines(text).drop_last()) + split_lines(text).last() == text,
    decreases text.len(),
{
    if text.len() == 0 {
        assert(split_lines(text).drop_last() =~= Seq::<Seq<char>>::empty());
        assert(join_terminated(split_lines(text).drop_last()) + split_lines(text).last()
            =~= text);
    } else {
        let shorter = text.drop_last();
        let before = split_lines(shorter);
        lemma_split_lines_joins(shorter);
        lemma_split_lines_len(shorter);
        assert(text =~= shorter.push(text.last()));
        if text.last() == LINE_TERMINATOR {
            let all = before.push(Seq::<char>::empty());
            assert(all.drop_last() =~= before);
            assert(before =~= before.drop_last().push(before.last()));
            assert(before.drop_last() =~= all.drop_last().drop_last());
            assert(join_terminated(before) == join_terminated(before.drop_last())
                + before.last().push(LINE_TERMINATOR));
            assert(join_terminated(before) + Seq::<char>::empty() =~= text);
        } else {
            let all = before.drop_last().push(before.last().push(text.last()));
            assert(all.drop_last() =~= before.drop_last());
            assert(join_terminated(before.drop_last()) + before.last().push(text.last())
                =~= text);
        }
    }
}

/// A split is the only way to take a text apart into terminator-free lines:
/// whatever lines and tail spell the text are its segments.
pub proof fn lemma_split_lines_unique(lines: Seq<Seq<char>>, tail: Seq<char>)
    requires
        forall|i: int| 0 <= i < lines.len() ==> terminator_free(#[trigger] lines[i]),
        terminator_free(tail),
    ensures
        split_lines(join_terminated(lines) + tail) == lines.push(tail),
    decreases lines.len(), tail.len(),
{
    let text = join_terminated(lines) + tail;
    if tail.len() > 0 {
        assert(terminator_free(tail.drop_last()));
        lemma_split_lines_unique(lines, tail.drop_last());
        assert(text.drop_last() =~= join_terminated(lines) + tail.drop_last());
        assert(text.last() == tail.last());
        assert(lines.push(tail.drop_last()).drop_last() =~= lines);
        assert(tail.drop_last().push(tail.last()) =~= tail);
    } else if lines.len() > 0 {
        let last = lines.last();
        assert(text =~= (join_terminated(lines.drop_last()) + last).push(LINE_TERMINATOR));
        assert(text.drop_last() =~= join_terminated(lines.drop_last()) + last);
        lemma_split_lines_unique(lines.drop_last(), last);
        assert(lines.drop_last().push(last) =~= lines);
        assert(tail =~= Seq::<char>::empty());
    } else {
        assert(text =~= Seq::<char>::empty());
        assert(lines.push(tail) =~= seq![Seq::<char>::empty()]);
    }
}

/// Joining two runs of lines is joining each and putting the results together.
pub proof fn lemma_join_terminated_concat(front: Seq<Seq<char>>, back: Seq<Seq<char>>)
    ensures
        join_terminated(front + back) == join_terminated(front) + join_terminated(back),
    decreases back.len(),
{
    if back.len() == 0 {
        assert(front + back =~= front);
        assert(join_terminated(front) + join_terminated(back) =~= join_terminated(front));
    } else {
        lemma_join_terminated_concat(front, back.drop_last());
        assert((front + back).drop_last() =~= front + back.drop_last());
        assert(join_terminated(front + back) =~= join_terminated(front) + join_terminated(back));
    }
}

/// Removing padding from a text in two parts is removing it from each part.
pub proof fn lemma_strip_padding_concat(a: Seq<char>, b: Seq<char>)
    ensures
        strip_padding(a + b) == strip_padding(a) + strip_padding(b),
{
    Seq::filter_distributes_over_add(a, b, |c: char| c != PADDING);
}

/// What is left after removing padding holds no padding.
pub proof fn lemma_strip_padding_chars(text: Seq<char>)
    ensures
        forall|i: int|
            0 <= i < strip_padding(text).len() ==> #[trigger] strip_padding(text)[i] != PADDING,
{
    broadcast use vstd::seq_lib::group_filter_ensures;
}

/// Every segment of a received text can stand as a line.
pub proof fn lemma_segments_are_lines(text: Seq<char>)
    ensures
        segments(text).len() >= 1,
        forall|i: int| 0 <= i < segments(text).len() ==> is_line(#[trigger] segments(text)[i]),
{
    let stripped = strip_padding(text);
    lemma_strip_padding_chars(text);
    lemma_split_lines_len(stripped);
    lemma_split_lines_padding_free(stripped);
    lemma_split_lines_terminator_free(stripped);
}

/// A split adds no padding: where the text holds none, no segment does.
pub proof fn lemma_split_lines_padding_free(text: Seq<char>)
    requires
        forall|i: int| 0 <= i < text.len() ==> text[i] != PADDING,
    ensures
        forall|i: int, j: int|
            0 <= i < split_lines(text).len() && 0 <= j < split_lines(text)[i].len()
                ==> #[trigger] split_lines(text)[i][j] != PADDING,
    decreases text.len(),
{
    if text.len() > 0 {
        lemma_split_lines_padding_free(text.drop_last());
        lemma_split_lines_len(text.drop_last());
    }
}

/// How one more character changes the segments of a received text.
pub proof fn lemma_segments_push(text: Seq<char>, c: char)
    ensures
        c == PADDING ==> segments(text.push(c)) == segments(text),
        c == LINE_TERMINATOR ==> segments(text.push(c)) == segments(text).push(
            Seq::<char>::empty(),
        ),
        c != PADDING && c != LINE_TERMINATOR ==> segments(text.push(c)) == segments(
            text,
        ).drop_last().push(segments(text).last().push(c)),
{
    let keep = |c: char| c != PADDING;
    assert(text.push(c).drop_last() =~= text);
    reveal_with_fuel(Seq::filter, 2);
    assert(text.push(c).filter(keep) == if c != PADDING {
        text.filter(keep).push(c)
    } else {
        text.filter(keep)
    });
    if c != PADDING {
        assert(strip_padding(text).push(c).drop_last() =~= strip_padding(text));
    }
}

/// What `String::from_utf8_lossy` makes of `bytes`: the text they encode, with
/// U+FFFD in place of each part that is no valid UTF-8.
pub uninterp spec fn utf8_lossy(bytes: Seq<u8>) -> Seq<char>;

/// The text of a received chunk: what its bytes encode where they are valid
/// UTF-8, and what lossy decoding makes of them where they are not.
pub open spec fn chunk_text(bytes: Seq<u8>) -> Seq<char> {
    if valid_utf8(bytes) {
        decode_utf8(bytes)
    } else {
        utf8_lossy(bytes)
    }
}

/// The texts of chunks received one after another.
pub open spec fn chunk_texts(chunks: Seq<Seq<u8>>) -> Seq<Seq<char>> {
    chunks.map_values(|chunk: Seq<u8>| chunk_text(chunk))
}

/// An empty chunk carries no text.
pub proof fn lemma_chunk_text_empty()
    ensures
        chunk_text(Seq::<u8>::empty()) == Seq::<char>::empty(),
{
    assert(decode_utf8(Seq::<u8>::empty()) =~= Seq::<char>::empty());
}

/// Encoding a text in two parts is encoding each part.
pub proof fn lemma_encode_utf8_concat(a: Seq<char>, b: Seq<char>)
    ensures
        encode_utf8(a + b) == encode_utf8(a) + encode_utf8(b),
    decreases a.len(),
{
    if a.len() == 0 {
        assert(a + b =~= b);
        assert(encode_utf8(a) + encode_utf8(b) =~= encode_utf8(b));
    } else {
        lemma_encode_utf8_concat(a.drop_first(), b);
        assert((a + b).drop_first() =~= a.drop_first() + b);
        assert(encode_utf8(a + b) =~= encode_utf8(a) + encode_utf8(b));
    }
}

/// Two valid UTF-8 chunks, one after the other, decode to the text of the
/// first followed by the text of the second.
pub proof fn lemma_decode_utf8_concat(a: Seq<u8>, b: Seq<u8>)
    requires
        valid_utf8(a),
        valid_utf8(b),
    ensures
        valid_utf8(a + b),
        decode_utf8(a + b) == decode_utf8(a) + decode_utf8(b),
{
    valid_utf8_concat(a, b);
    decode_utf8_encode_utf8(a);
    decode_utf8_encode_utf8(b);
    lemma_encode_utf8_concat(decode_utf8(a), decode_utf8(b));
    encode_utf8_decode_utf8(decode_utf8(a) + decode_utf8(b));
}

/// Chunks that are valid UTF-8 each carry, put together, the text that all
/// their bytes encode.
pub proof fn lemma_chunk_texts_flatten(chunks: Seq<Seq<u8>>)
    requires
        forall|i: int| 0 <= i < chunks.len() ==> valid_utf8(#[trigger] chunks[i]),
    ensures
        valid_utf8(chunks.flatten()),
        chunk_texts(chunks).flatten() == decode_utf8(chunks.flatten()),
    decreases chunks.len(),
{
    if chunks.len() == 0 {
        assert(chunks.flatten() =~= Seq::<u8>::empty());
        assert(chunk_texts(chunks).flatten() =~= Seq::<char>::empty());
        lemma_chunk_text_empty();
    } else {
        let earlier = chunks.drop_last();
        let chunk = chunks.last();
        lemma_chunk_texts_flatten(earlier);
        assert(earlier.push(chunk) =~= chunks);
        earlier.lemma_flatten_push(chunk);
        assert(chunk_texts(earlier).push(chunk_text(chunk)) =~= chunk_texts(chunks));
        chunk_texts(earlier).lemma_flatten_push(chunk_text(chunk));
        lemma_decode_utf8_concat(earlier.flatten(), chunk);
    }
}

/// A text without padding is left as it is when padding is removed.
pub proof fn lemma_strip_padding_identity(text: Seq<char>)
    requires
        forall|i: int| 0 <= i < text.len() ==> text[i] != PADDING,
    ensures
        strip_padding(text) == text,
    decreases text.len(),
{
    reveal_with_fuel(Seq::filter, 1);
    if text.len() > 0 {
        lemma_strip_padding_identity(text.drop_last());
        assert(text.drop_last().push(text.last()) =~= text);
    }
}

/// Lines that hold no padding are joined into a text that holds none.
pub proof fn lemma_join_terminated_padding_free(lines: Seq<Seq<char>>)
    requires
        forall|i: int| 0 <= i < lines.len() ==> is_line(#[trigger] lines[i]),
    ensures
        forall|i: int|
            0 <= i < join_terminated(lines).len() ==> join_terminated(lines)[i] != PADDING,
    decreases lines.len(),
{
    if lines.len() > 0 {
        let front = join_terminated(lines.drop_last());
        let last = lines.last();
        lemma_join_terminated_padding_free(lines.drop_last());
        assert(is_line(last));
        assert forall|i: int| 0 <= i < join_terminated(lines).len() implies join_terminated(
            lines,
        )[i] != PADDING by {
            if i < front.len() {
                assert(join_terminated(lines)[i] == front[i]);
            } else if i < front.len() + last.len() {
                assert(join_terminated(lines)[i] == last[i - front.len()]);
            }
        }
    }
}

/// Trusted: `String::from_utf8_lossy`, made into an owned string. The result
/// depends on the bytes alone. Where they are valid UTF-8 it is the text they
/// encode, unchanged; what becomes of other bytes is left to the name.
#[verifier::external_body]
pub(crate) fn decode_lossy(bytes: &[u8]) -> (text: String)
    ensures
        text@ == utf8_lossy(bytes@),
        valid_utf8(bytes@) ==> text@ == decode_utf8(bytes@),
{
    String::from_utf8_lossy(bytes).into_owned()
}

/// Trusted: `String::push` appends one character to the end of the string.
pub assume_specification[ String::push ](s: &mut String, ch: char)
    ensures
        final(s)@ == old(s)@.push(ch),
;

/// Takes a received text apart: the lines it completes, in order, and what
/// follows its last terminator.
pub fn split_text(text: &str) -> (parts: (Vec<String>, String))
    ensures
        parts.0.deep_view().push(parts.1@) == segments(text@),
{
    let mut complete: Vec<String> = Vec::new();
    let mut current = String::new();
    for c in it: text.chars()
        invariant
            it.seq() == text@,
            complete.deep_view().push(current@) == segments(text@.take(it.index() as int)),
    {
        proof {
            let seen = text@.take(it.index() as int);
            lemma_segments_push(seen, c);
            assert(text@.take(it.index() + 1) =~= seen.push(c));
        }
        let ghost before = complete.deep_view();
        let ghost tail = current@;
        if c == LINE_TERMINATOR {
            complete.push(current);
            current = String::new();
            assert(complete.deep_view() =~= before.push(tail));
        } else if c != PADDING {
            current.push(c);
            assert(before.push(tail).drop_last() =~= before);
        }
    }
    assert(text@.take(text@.len() as int) =~= text@);
    (complete, current)
}

/// Whether `text` begins with `prefix`.
pub fn starts_with(text: &str, prefix: &str) -> (found: bool)
    ensures
        found == prefix@.is_prefix_of(text@),
{
    let wanted = prefix.unicode_len();
    if text.unicode_len() < wanted {
        return false;
    }
    let mut i: usize = 0;
    while i < wanted
        invariant
            i <= wanted == prefix@.len() <= text@.len(),
            forall|k: int| 0 <= k < i ==> text@[k] == prefix@[k],
        decreases wanted - i,
    {
        if text.get_char(i) != prefix.get_char(i) {
            return false;
        }
        i += 1;
    }
    assert(text@.subrange(0, prefix@.len() as int) =~= prefix@);
    true
}

/// The bytes to write for one line: the line, then a single terminator.
pub fn frame_line(line: &str) -> (bytes: Vec<u8>)
    ensures
        bytes@ == frame(line@),
{
    let mut bytes = line.as_bytes_vec();
    bytes.push(LINE_TERMINATOR_BYTE);
    bytes
}

} // verus!
