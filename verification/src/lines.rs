//! The line buffer engine: turns received chunks, however the transport cut
//! them, into complete lines, each exactly once.

use crate::text::{
    chunk_text, chunk_texts, decode_lossy, is_line, join_terminated, lemma_chunk_text_empty,
    lemma_chunk_texts_flatten, lemma_join_terminated_concat, lemma_join_terminated_padding_free,
    lemma_segments_are_lines, lemma_split_lines_count, lemma_split_lines_joins,
    lemma_split_lines_len, lemma_split_lines_unique, lemma_strip_padding_concat,
    lemma_strip_padding_identity, segments, split_text, strip_padding, terminator_free,
    terminators, LINE_TERMINATOR,
};
use vstd::prelude::*;
use vstd::utf8::{encode_utf8, encode_utf8_decode_utf8, valid_utf8};

verus! {

/// What a line buffer holds.
pub struct LineState {
    /// The completed lines that were not consumed yet, oldest first.
    pub lines: Seq<Seq<char>>,
    /// What was received of a line whose terminator has not arrived.
    pub pending: Seq<char>,
}

impl LineState {
    /// Nothing buffered.
    pub open spec fn empty() -> LineState {
        LineState { lines: Seq::empty(), pending: Seq::empty() }
    }

    /// Neither a buffered line nor the pending fragment holds a terminator or
    /// padding.
    pub open spec fn well_formed(self) -> bool {
        &&& forall|i: int| 0 <= i < self.lines.len() ==> is_line(#[trigger] self.lines[i])
        &&& is_line(self.pending)
    }

    /// The text that the buffer stands for: its lines, each followed by a
    /// terminator, and then the pending fragment.
    pub open spec fn stream(self) -> Seq<char> {
        join_terminated(self.lines) + self.pending
    }

    /// The number of lines that a received text completes: one for each
    /// terminator in it.
    pub open spec fn completed_by(text: Seq<char>) -> nat {
        terminators(strip_padding(text))
    }

    /// The buffer after a chunk with the given text was received.
    ///
    /// The pending fragment goes in front of the first segment of the text.
    /// Every segment but the last is then a completed line, and the last one,
    /// which no terminator follows yet, is the new pending fragment.
    pub open spec fn ingest(self, text: Seq<char>) -> LineState {
        let parts = segments(text);
        let joined = parts.update(0, self.pending + parts[0]);
        LineState { lines: self.lines + joined.drop_last(), pending: joined.last() }
    }

    /// The line that the next `pop` hands out: the one completed last.
    pub open spec fn top(self) -> Option<Seq<char>> {
        if self.lines.len() > 0 {
            Some(self.lines.last())
        } else {
            None
        }
    }

    /// The buffer after one `pop`.
    pub open spec fn pop(self) -> LineState {
        if self.lines.len() > 0 {
            LineState { lines: self.lines.drop_last(), pending: self.pending }
        } else {
            self
        }
    }

    /// The buffer without its completed lines; the pending fragment stays.
    pub open spec fn without_lines(self) -> LineState {
        LineState { lines: Seq::empty(), pending: self.pending }
    }

    /// The buffer after the given texts were received, one after another.
    pub open spec fn ingest_all(self, texts: Seq<Seq<char>>) -> LineState
        decreases texts.len(),
    {
        if texts.len() == 0 {
            self
        } else {
            self.ingest_all(texts.drop_last()).ingest(texts.last())
        }
    }

    /// The buffer after `count` calls of `pop`.
    pub open spec fn pop_n(self, count: nat) -> LineState
        decreases count,
    {
        if count == 0 {
            self
        } else {
            self.pop_n((count - 1) as nat).pop()
        }
    }
}

/// Popping the buffer again and again hands out exactly the given lines, the
/// last of them first, each once, and then nothing.
pub open spec fn drains_in_reverse(state: LineState, lines: Seq<Seq<char>>) -> bool {
    &&& forall|count: nat|
        count < lines.len() ==> (#[trigger] state.pop_n(count)).top() == Some(
            lines[lines.len() - 1 - count],
        )
    &&& state.pop_n(lines.len()).top() == None::<Seq<char>>
}

/// What a text does to the buffer, by what the text holds. One that is all
/// padding changes nothing. One without a terminator grows the pending
/// fragment and completes no line. One that ends on a terminator leaves
/// nothing pending: the fragment is the start of the first line added.
pub proof fn lemma_ingest_by_text(state: LineState, text: Seq<char>)
    ensures
        strip_padding(text).len() == 0 ==> state.ingest(text) == state,
        terminator_free(strip_padding(text)) ==> state.ingest(text) == (LineState {
            lines: state.lines,
            pending: state.pending + strip_padding(text),
        }),
        strip_padding(text).len() > 0 && strip_padding(text).last() == LINE_TERMINATOR ==> ({
            let complete = segments(text).drop_last();
            &&& complete.len() > 0
            &&& state.ingest(text).pending == Seq::<char>::empty()
            &&& state.ingest(text).lines == state.lines.push(state.pending + complete[0])
                + complete.drop_first()
        }),
{
    let stripped = strip_padding(text);
    let parts = segments(text);
    let joined = parts.update(0, state.pending + parts[0]);
    lemma_split_lines_len(stripped);
    if terminator_free(stripped) {
        lemma_split_lines_unique(Seq::<Seq<char>>::empty(), stripped);
        assert(join_terminated(Seq::<Seq<char>>::empty()) + stripped =~= stripped);
        assert(parts =~= seq![stripped]);
        assert(joined.drop_last() =~= Seq::<Seq<char>>::empty());
        assert(state.lines + joined.drop_last() =~= state.lines);
        if stripped.len() == 0 {
            assert(state.pending + stripped =~= state.pending);
        }
    }
    if stripped.len() > 0 && stripped.last() == LINE_TERMINATOR {
        lemma_split_lines_len(stripped.drop_last());
        let complete = parts.drop_last();
        assert(joined.drop_last() =~= seq![state.pending + complete[0]] + complete.drop_first());
        assert(state.lines + joined.drop_last() =~= state.lines.push(state.pending + complete[0])
            + complete.drop_first());
    }
}

/// Receiving a text keeps a well-formed buffer well-formed.
pub proof fn lemma_ingest_well_formed(state: LineState, text: Seq<char>)
    requires
        state.well_formed(),
    ensures
        state.ingest(text).well_formed(),
{
    lemma_segments_are_lines(text);
    let parts = segments(text);
    let joined = parts.update(0, state.pending + parts[0]);
    assert forall|i: int| 0 <= i < joined.len() implies is_line(#[trigger] joined[i]) by {
        if i > 0 {
            assert(joined[i] == parts[i]);
        }
    }
    let after = state.ingest(text);
    assert forall|i: int| 0 <= i < after.lines.len() implies is_line(#[trigger] after.lines[i]) by {
        if i >= state.lines.len() {
            assert(after.lines[i] == joined[i - state.lines.len()]);
        }
    }
}

/// Nothing is lost and nothing is added: the buffer stands, after a text was
/// received, for what it stood for before followed by the text without its
/// padding. The text completes one line for each terminator in it.
pub proof fn lemma_ingest_extends_stream(state: LineState, text: Seq<char>)
    ensures
        state.ingest(text).stream() == state.stream() + strip_padding(text),
        state.ingest(text).lines.len() == state.lines.len() + LineState::completed_by(text),
{
    let stripped = strip_padding(text);
    let parts = segments(text);
    let first = state.pending + parts[0];
    let joined = parts.update(0, first);
    let old_lines = join_terminated(state.lines);
    lemma_split_lines_len(stripped);
    lemma_split_lines_count(stripped);
    lemma_split_lines_joins(stripped);
    if parts.len() == 1 {
        assert(parts.drop_last() =~= Seq::<Seq<char>>::empty());
        assert(stripped =~= parts[0]);
        assert(joined.drop_last() =~= Seq::<Seq<char>>::empty());
        assert(state.lines + joined.drop_last() =~= state.lines);
        assert(old_lines + first =~= (old_lines + state.pending) + stripped);
    } else {
        let mid = parts.drop_last().drop_first();
        let rest = join_terminated(mid);
        assert(parts.drop_last() =~= seq![parts[0]] + mid);
        assert(joined.drop_last() =~= seq![first] + mid);
        lemma_join_terminated_concat(seq![parts[0]], mid);
        lemma_join_terminated_concat(seq![first], mid);
        lemma_join_terminated_concat(state.lines, seq![first] + mid);
        assert(join_terminated(seq![parts[0]]) =~= parts[0].push(LINE_TERMINATOR)) by {
            reveal_with_fuel(join_terminated, 2);
        }
        assert(join_terminated(seq![first]) =~= first.push(LINE_TERMINATOR)) by {
            reveal_with_fuel(join_terminated, 2);
        }
        assert(stripped == (parts[0].push(LINE_TERMINATOR) + rest) + parts.last());
        assert((old_lines + (first.push(LINE_TERMINATOR) + rest)) + parts.last() =~= (old_lines
            + state.pending) + ((parts[0].push(LINE_TERMINATOR) + rest) + parts.last()));
    }
}

/// The same of any number of texts received one after another.
pub proof fn lemma_ingest_all_extends_stream(state: LineState, texts: Seq<Seq<char>>)
    ensures
        state.ingest_all(texts).stream() == state.stream() + strip_padding(texts.flatten()),
        state.well_formed() ==> state.ingest_all(texts).well_formed(),
    decreases texts.len(),
{
    if texts.len() == 0 {
        assert(texts.flatten() =~= Seq::<char>::empty());
        lemma_strip_padding_identity(Seq::<char>::empty());
        assert(state.stream() + Seq::<char>::empty() =~= state.stream());
    } else {
        let earlier = texts.drop_last();
        let text = texts.last();
        let before = state.ingest_all(earlier);
        lemma_ingest_all_extends_stream(state, earlier);
        lemma_ingest_extends_stream(before, text);
        if state.well_formed() {
            lemma_ingest_well_formed(before, text);
        }
        assert(texts.flatten() == earlier.flatten() + text) by {
            assert(earlier.push(text) =~= texts);
            earlier.lemma_flatten_push(text);
        }
        lemma_strip_padding_concat(earlier.flatten(), text);
        assert((state.stream() + strip_padding(earlier.flatten())) + strip_padding(text)
            =~= state.stream() + (strip_padding(earlier.flatten()) + strip_padding(text)));
    }
}

/// Reassembly. Let the texts received, put together and without their
/// padding, spell the given lines, each followed by a terminator. Then,
/// wherever the texts were cut, a buffer that was empty holds exactly these
/// lines, in their order, each once, and nothing is pending.
pub proof fn lemma_reassembly(texts: Seq<Seq<char>>, lines: Seq<Seq<char>>)
    requires
        forall|i: int| 0 <= i < lines.len() ==> terminator_free(#[trigger] lines[i]),
        strip_padding(texts.flatten()) == join_terminated(lines),
    ensures
        LineState::empty().ingest_all(texts) == (LineState { lines, pending: Seq::empty() }),
        drains_in_reverse(LineState::empty().ingest_all(texts), lines),
{
    let held = LineState::empty().ingest_all(texts);
    lemma_ingest_all_extends_stream(LineState::empty(), texts);
    assert(LineState::empty().stream() =~= Seq::<char>::empty());
    assert(held.stream() =~= join_terminated(lines) + Seq::<char>::empty());
    assert forall|i: int| 0 <= i < held.lines.len() implies terminator_free(
        #[trigger] held.lines[i],
    ) by {
        assert(is_line(held.lines[i]));
    }
    lemma_split_lines_unique(held.lines, held.pending);
    lemma_split_lines_unique(lines, Seq::<char>::empty());
    assert(held.lines.push(held.pending).drop_last() =~= held.lines);
    assert(lines.push(Seq::<char>::empty()).drop_last() =~= lines);
    lemma_drains_in_reverse(held);
}

/// Reassembly of a byte stream. Let the stream be the UTF-8 encoding of the
/// given lines, each followed by a terminator, and let it arrive in chunks
/// that are valid UTF-8 each. Then, wherever the chunks were cut, a buffer
/// that was empty holds exactly these lines, in their order, each once, and
/// nothing is pending.
pub proof fn lemma_reassembly_of_chunks(chunks: Seq<Seq<u8>>, lines: Seq<Seq<char>>)
    requires
        forall|i: int| 0 <= i < lines.len() ==> is_line(#[trigger] lines[i]),
        forall|i: int| 0 <= i < chunks.len() ==> valid_utf8(#[trigger] chunks[i]),
        chunks.flatten() == encode_utf8(join_terminated(lines)),
    ensures
        LineState::empty().ingest_all(chunk_texts(chunks)) == (LineState {
            lines,
            pending: Seq::empty(),
        }),
        drains_in_reverse(LineState::empty().ingest_all(chunk_texts(chunks)), lines),
{
    lemma_chunk_texts_flatten(chunks);
    encode_utf8_decode_utf8(join_terminated(lines));
    lemma_join_terminated_padding_free(lines);
    lemma_strip_padding_identity(join_terminated(lines));
    assert forall|i: int| 0 <= i < lines.len() implies terminator_free(#[trigger] lines[i]) by {
        assert(is_line(lines[i]));
    }
    lemma_reassembly(chunk_texts(chunks), lines);
}

/// Pop order. Lines leave the buffer last in, first out: after `count` pops
/// the lines completed first are left, and the next pop hands out the last of
/// them.
pub proof fn lemma_pop_order(state: LineState, count: nat)
    requires
        count <= state.lines.len(),
    ensures
        state.pop_n(count) == (LineState {
            lines: state.lines.take(state.lines.len() - count),
            pending: state.pending,
        }),
        count < state.lines.len() ==> state.pop_n(count).top() == Some(
            state.lines[state.lines.len() - 1 - count],
        ),
        count == state.lines.len() ==> state.pop_n(count).top() == None::<Seq<char>>,
    decreases count,
{
    if count == 0 {
        assert(state.lines.take(state.lines.len() as int) =~= state.lines);
    } else {
        lemma_pop_order(state, (count - 1) as nat);
        let kept = state.lines.take(state.lines.len() - count + 1);
        assert(kept.drop_last() =~= state.lines.take(state.lines.len() - count));
    }
}

/// Whatever a buffer holds, popping drains it last in, first out.
pub proof fn lemma_drains_in_reverse(state: LineState)
    ensures
        drains_in_reverse(state, state.lines),
{
    assert forall|count: nat| count < state.lines.len() implies (#[trigger] state.pop_n(
        count,
    )).top() == Some(state.lines[state.lines.len() - 1 - count]) by {
        lemma_pop_order(state, count);
    }
    lemma_pop_order(state, state.lines.len());
}

/// The receive side of one connection: the backlog of completed lines and the
/// fragment of the line in progress.
pub struct LineBuffer {
    lines: Vec<String>,
    unfinished_line: String,
}

impl View for LineBuffer {
    type V = LineState;

    closed spec fn view(&self) -> LineState {
        LineState { lines: self.lines.deep_view(), pending: self.unfinished_line@ }
    }
}

impl LineBuffer {
    /// Holds of every buffer: what it holds is well-formed.
    #[verifier::type_invariant]
    pub open spec fn holds_lines(self) -> bool {
        self@.well_formed()
    }

    /// An empty buffer.
    pub fn new() -> (buffer: LineBuffer)
        ensures
            buffer@ == LineState::empty(),
    {
        let buffer = LineBuffer { lines: Vec::new(), unfinished_line: String::new() };
        assert(buffer.lines.deep_view() =~= Seq::<Seq<char>>::empty());
        buffer
    }

    /// Moves the contents out and leaves the buffer empty, so that they can be
    /// worked on and put back whole.
    fn take(&mut self) -> (parts: (Vec<String>, String))
        ensures
            parts.0.deep_view() == old(self)@.lines,
            parts.1@ == old(self)@.pending,
            old(self)@.well_formed(),
            final(self)@ == LineState::empty(),
    {
        proof {
            use_type_invariant(&*self);
        }
        let mut taken = LineBuffer::new();
        core::mem::swap(self, &mut taken);
        let LineBuffer { lines, unfinished_line } = taken;
        (lines, unfinished_line)
    }

    /// Takes in the text of one received chunk and returns the number of lines
    /// that it completed.
    pub fn ingest_text(&mut self, text: &str) -> (count: usize)
        ensures
            final(self)@ == old(self)@.ingest(text@),
            count == LineState::completed_by(text@),
            final(self)@.lines.len() == old(self)@.lines.len() + count,
            final(self)@.well_formed(),
    {
        let ghost before = self@;
        let (mut lines, mut pending) = self.take();
        let (mut complete, tail) = split_text(text);
        let count = complete.len();
        let ghost parts = segments(text@);
        let ghost joined = parts.update(0, before.pending + parts[0]);
        proof {
            lemma_ingest_well_formed(before, text@);
            lemma_ingest_extends_stream(before, text@);
            lemma_split_lines_count(strip_padding(text@));
            assert(complete.deep_view().push(tail@).drop_last() =~= complete.deep_view());
        }
        if count == 0 {
            pending.append(tail.as_str());
            assert(complete.deep_view() =~= joined.drop_last());
        } else {
            pending.append(complete[0].as_str());
            complete.set(0, pending);
            pending = tail;
            assert(complete.deep_view() =~= joined.drop_last());
        }
        let ghost backlog = lines.deep_view();
        let ghost added = complete.deep_view();
        lines.append(&mut complete);
        assert(lines.deep_view() =~= backlog + added);
        *self = LineBuffer { lines, unfinished_line: pending };
        count
    }

    /// Takes in one received chunk and returns the number of lines that it
    /// completed. The chunk is read as UTF-8, with U+FFFD in place of what is
    /// none; an empty chunk changes nothing.
    pub fn ingest(&mut self, chunk: &[u8]) -> (count: usize)
        ensures
            final(self)@ == old(self)@.ingest(chunk_text(chunk@)),
            count == LineState::completed_by(chunk_text(chunk@)),
            final(self)@.lines.len() == old(self)@.lines.len() + count,
            final(self)@.well_formed(),
    {
        if chunk.len() == 0 {
            proof {
                use_type_invariant(&*self);
                assert(chunk@ =~= Seq::<u8>::empty());
                lemma_chunk_text_empty();
                lemma_strip_padding_identity(Seq::<char>::empty());
                lemma_ingest_by_text(self@, Seq::<char>::empty());
                lemma_ingest_extends_stream(self@, Seq::<char>::empty());
            }
            return 0;
        }
        let text = decode_lossy(chunk);
        self.ingest_text(text.as_str())
    }

    /// Removes and returns the line that was completed last, if any is
    /// buffered.
    pub fn pop(&mut self) -> (line: Option<String>)
        ensures
            final(self)@ == old(self)@.pop(),
            line.deep_view() == old(self)@.top(),
            line matches Some(l) ==> is_line(l@),
            final(self)@.well_formed(),
    {
        let (mut lines, pending) = self.take();
        let ghost backlog = lines.deep_view();
        let line = lines.pop();
        proof {
            if backlog.len() > 0 {
                assert(lines.deep_view() =~= backlog.drop_last());
                assert(line->0@ == backlog.last());
            } else {
                assert(lines.deep_view() =~= backlog);
            }
        }
        *self = LineBuffer { lines, unfinished_line: pending };
        line
    }

    /// Discards the completed lines; the pending fragment stays.
    pub fn discard_lines(&mut self)
        ensures
            final(self)@ == old(self)@.without_lines(),
            final(self)@.well_formed(),
    {
        let (mut lines, pending) = self.take();
        lines.clear();
        assert(lines.deep_view() =~= Seq::<Seq<char>>::empty());
        *self = LineBuffer { lines, unfinished_line: pending };
    }

    /// The number of completed lines that wait to be consumed.
    pub fn len(&self) -> (count: usize)
        ensures
            count == self@.lines.len(),
    {
        self.lines.len()
    }

    /// Whether a fragment of an unterminated line is buffered.
    pub fn has_pending(&self) -> (pending: bool)
        ensures
            pending == (self@.pending.len() > 0),
    {
        !self.unfinished_line.as_str().is_empty()
    }
}

} // verus!
