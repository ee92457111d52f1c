//! The state of one open connection: its line buffer and whether the server
//! has accepted the password. The transport itself lives with the caller, who
//! hands over what was read and writes what it is handed.

use crate::lines::{LineBuffer, LineState};
use crate::text::{chunk_text, frame, frame_line, is_line, starts_with};
use vstd::prelude::*;

verus! {

/// A line that begins with this text reports that the password was accepted.
pub const AUTH_MARKER: &'static str = "Authentication successful";

/// The line reports a successful authentication.
pub open spec fn confirms(line: Seq<char>) -> bool {
    AUTH_MARKER@.is_prefix_of(line)
}

/// One of the lines reports a successful authentication.
pub open spec fn any_confirms(lines: Seq<Seq<char>>) -> bool {
    exists|i: int| 0 <= i < lines.len() && confirms(#[trigger] lines[i])
}

/// Where the authentication handshake stands when bytes arrive.
#[derive(Clone, Copy, Debug, PartialEq, Eq, Structural)]
pub enum AuthStep {
    /// Nothing was sent yet: what arrives is the banner that the server sends
    /// to whoever connects.
    Banner,
    /// The password was sent: what arrives is the server's answer to it.
    Reply,
}

/// What the caller of the handshake has to do next.
#[derive(Debug, PartialEq, Eq)]
pub enum AuthAction {
    /// Write these bytes, flush, read once, and hand what was read to the
    /// step given.
    Send(Vec<u8>, AuthStep),
    /// The handshake is over. The flag says whether the session is
    /// authenticated.
    Done(bool),
}

/// What a connection holds.
pub struct RawState {
    /// The receive side.
    pub buffer: LineState,
    /// Whether the server has accepted the password.
    pub authed: bool,
}

impl RawState {
    /// A connection that was just opened.
    pub open spec fn fresh() -> RawState {
        RawState { buffer: LineState::empty(), authed: false }
    }

    /// What the connection buffers is well-formed: no line and no fragment
    /// holds a terminator or padding.
    pub open spec fn well_formed(self) -> bool {
        self.buffer.well_formed()
    }

    /// The connection after a chunk with the given text was read.
    pub open spec fn read(self, text: Seq<char>) -> RawState {
        RawState { buffer: self.buffer.ingest(text), authed: self.authed }
    }

    /// The connection after one line was taken from the backlog.
    pub open spec fn pop_line(self) -> RawState {
        RawState { buffer: self.buffer.pop(), authed: self.authed }
    }

    /// The connection after the banner was read: its lines are dropped, a
    /// fragment it ended with stays pending.
    pub open spec fn absorb_banner(self, text: Seq<char>) -> RawState {
        RawState { buffer: self.buffer.ingest(text).without_lines(), authed: self.authed }
    }

    /// The connection after the answer to the password was read: every
    /// buffered line is consumed, and the session is authenticated if one of
    /// them confirms it or if it was before.
    pub open spec fn conclude(self, text: Seq<char>) -> RawState {
        let received = self.buffer.ingest(text);
        RawState {
            buffer: received.without_lines(),
            authed: self.authed || any_confirms(received.lines),
        }
    }

    /// The connection after one step of the handshake.
    pub open spec fn auth(self, step: AuthStep, text: Seq<char>) -> RawState {
        match step {
            AuthStep::Banner => self.absorb_banner(text),
            AuthStep::Reply => self.conclude(text),
        }
    }
}

/// The first of some lines aside: one of them confirms exactly if the first
/// does or one of the others.
pub proof fn lemma_any_confirms_first(lines: Seq<Seq<char>>)
    requires
        lines.len() > 0,
    ensures
        any_confirms(lines) == (confirms(lines[0]) || any_confirms(lines.drop_first())),
{
    let rest = lines.drop_first();
    if any_confirms(rest) {
        let i = choose|i: int| 0 <= i < rest.len() && confirms(#[trigger] rest[i]);
        assert(confirms(lines[i + 1]));
    }
    if any_confirms(lines) && !confirms(lines[0]) {
        let i = choose|i: int| 0 <= i < lines.len() && confirms(#[trigger] lines[i]);
        assert(confirms(rest[i - 1]));
    }
}

/// Handshake. Whatever banner and answer arrive, no line is left in the
/// backlog when the handshake is over, and the session is then authenticated
/// exactly if it was before or a line that the answer completed confirms it.
pub proof fn lemma_handshake(state: RawState, banner: Seq<char>, reply: Seq<char>)
    ensures
        ({
            let sent = state.auth(AuthStep::Banner, banner);
            let done = sent.auth(AuthStep::Reply, reply);
            &&& sent.buffer.lines.len() == 0
            &&& sent.authed == state.authed
            &&& done.buffer.lines.len() == 0
            &&& done.authed == (state.authed || any_confirms(sent.buffer.ingest(reply).lines))
        }),
{
}

/// Once authenticated, a connection stays so whatever is read, popped or
/// answered in a handshake.
pub proof fn lemma_authentication_lasts(state: RawState, step: AuthStep, text: Seq<char>)
    requires
        state.authed,
    ensures
        state.read(text).authed,
        state.pop_line().authed,
        state.auth(step, text).authed,
{
}

/// The state of one open connection.
pub struct EconRaw {
    buffer: LineBuffer,
    authed: bool,
}

impl View for EconRaw {
    type V = RawState;

    closed spec fn view(&self) -> RawState {
        RawState { buffer: self.buffer@, authed: self.authed }
    }
}

impl EconRaw {
    /// The state of a connection whose transport was just opened: nothing
    /// buffered, not authenticated.
    pub fn connect() -> (raw: EconRaw)
        ensures
            raw@ == RawState::fresh(),
            raw@.well_formed(),
    {
        EconRaw { buffer: LineBuffer::new(), authed: false }
    }

    /// Forgets everything about the connection: the buffered lines, the
    /// pending fragment and the authentication.
    pub fn disconnect(&mut self)
        ensures
            final(self)@ == RawState::fresh(),
            final(self)@.well_formed(),
    {
        self.buffer = LineBuffer::new();
        self.authed = false;
    }

    /// One step of the authentication handshake, taken when bytes were read.
    ///
    /// At the banner the lines it completes are dropped and the password is
    /// to be sent as one line. At the reply every buffered line is consumed;
    /// the session becomes authenticated if one of them begins with
    /// [`AUTH_MARKER`]. A wrong password is no error: the handshake is done
    /// with `false`.
    pub fn auth(&mut self, step: AuthStep, received: &[u8], password: &str) -> (action: AuthAction)
        ensures
            final(self)@ == old(self)@.auth(step, chunk_text(received@)),
            step == AuthStep::Banner ==> (action matches AuthAction::Send(bytes, next)
                && bytes@ == frame(password@) && next == AuthStep::Reply),
            step == AuthStep::Reply ==> action == AuthAction::Done(final(self)@.authed),
            final(self)@.well_formed(),
    {
        self.buffer.ingest(received);
        match step {
            AuthStep::Banner => {
                self.buffer.discard_lines();
                AuthAction::Send(frame_line(password), AuthStep::Reply)
            },
            AuthStep::Reply => {
                let ghost received_lines = self.buffer@.lines;
                loop
                    invariant
                        self.buffer@.pending == old(self)@.buffer.ingest(
                            chunk_text(received@),
                        ).pending,
                        self.buffer@.lines.len() <= received_lines.len(),
                        self.buffer@.lines == received_lines.take(self.buffer@.lines.len() as int),
                        self.authed == (old(self)@.authed || any_confirms(
                            received_lines.skip(self.buffer@.lines.len() as int),
                        )),
                    ensures
                        self.buffer@.lines.len() == 0,
                    decreases self.buffer@.lines.len(),
                {
                    let ghost left = self.buffer@.lines.len();
                    match self.buffer.pop() {
                        None => {
                            break ;
                        },
                        Some(line) => {
                            if starts_with(line.as_str(), AUTH_MARKER) {
                                self.authed = true;
                            }
                            proof {
                                let scanned = received_lines.skip(left - 1);
                                lemma_any_confirms_first(scanned);
                                assert(scanned.drop_first() =~= received_lines.skip(left as int));
                                assert(received_lines.take(left as int).drop_last()
                                    =~= received_lines.take(left - 1));
                            }
                        },
                    }
                }
                proof {
                    assert(self.buffer@.lines =~= Seq::<Seq<char>>::empty());
                    assert(received_lines.skip(0) =~= received_lines);
                }
                AuthAction::Done(self.authed)
            },
        }
    }

    /// Takes in what one read of the transport returned, and returns the
    /// number of lines that it completed.
    pub fn read(&mut self, received: &[u8]) -> (count: usize)
        ensures
            final(self)@ == old(self)@.read(chunk_text(received@)),
            count == LineState::completed_by(chunk_text(received@)),
            final(self)@.buffer.lines.len() == old(self)@.buffer.lines.len() + count,
            final(self)@.well_formed(),
    {
        self.buffer.ingest(received)
    }

    /// The bytes to write and flush for one line: the line, then a single
    /// terminator.
    pub fn send(&self, line: &str) -> (bytes: Vec<u8>)
        ensures
            bytes@ == frame(line@),
    {
        frame_line(line)
    }

    /// Removes and returns the line that was completed last, if any is
    /// buffered.
    pub fn pop_line(&mut self) -> (line: Option<String>)
        ensures
            final(self)@ == old(self)@.pop_line(),
            line.deep_view() == old(self)@.buffer.top(),
            line matches Some(l) ==> is_line(l@),
            final(self)@.well_formed(),
    {
        self.buffer.pop()
    }

    /// Whether the server has accepted the password.
    pub fn is_authed(&self) -> (authed: bool)
        ensures
            authed == self@.authed,
            self@.well_formed(),
    {
        proof {
            use_type_invariant(&self.buffer);
        }
        self.authed
    }
}

} // verus!
