//! The session state machine: `Disconnected`, then `Connected`, then
//! `Authenticated`. Every operation is weighed against the state first; one
//! that the state forbids is refused with an error, changes nothing and hands
//! the transport nothing.

use crate::raw::{AuthAction, AuthStep, EconRaw, RawState};
use crate::text::{chunk_text, frame, is_line};
use vstd::prelude::*;

verus! {

/// The capacity, in bytes, of the buffer that the transport reads into.
pub const RECEIVE_BUFFER_SIZE: usize = 2048;

/// The time, in seconds, that opening the transport may take.
pub const CONNECT_TIMEOUT_SECS: u64 = 5;

/// Where a session stands.
#[derive(Clone, Copy, Debug, PartialEq, Eq, Structural)]
pub enum SessionState {
    /// No transport is open.
    Disconnected,
    /// The transport is open; the server has not accepted a password.
    Connected,
    /// The server has accepted the password.
    Authenticated,
}

/// What a caller can ask of a session.
#[derive(Clone, Copy, Debug, PartialEq, Eq, Structural)]
pub enum Operation {
    /// Open the transport.
    Connect,
    /// Close the transport and forget the session.
    Disconnect,
    /// Run the authentication handshake.
    Authenticate,
    /// Send one line.
    Send,
    /// Read once from the transport.
    Fetch,
    /// Take one line from the backlog.
    PopLine,
}

/// Why an operation was refused: the caller asked for it in a state that
/// forbids it.
#[derive(Clone, Copy, Debug, PartialEq, Eq, Structural)]
pub enum EconError {
    /// The session is connected already.
    AlreadyConnected,
    /// The session is not connected.
    NotConnected,
    /// The session is connected, but the server has not accepted a password.
    NotAuthenticated,
}

/// What a session holds: the connection, while there is one.
pub struct Session {
    /// The open connection, if any.
    pub raw: Option<RawState>,
}

impl Session {
    /// A session that was never connected.
    pub open spec fn start() -> Session {
        Session { raw: None }
    }

    /// What the connection buffers, while there is one, is well-formed.
    pub open spec fn well_formed(self) -> bool {
        self.raw matches Some(raw) ==> raw.well_formed()
    }

    /// Where the session stands.
    pub open spec fn state(self) -> SessionState {
        match self.raw {
            None => SessionState::Disconnected,
            Some(raw) => if raw.authed {
                SessionState::Authenticated
            } else {
                SessionState::Connected
            },
        }
    }

    /// Whether the session admits the operation, and if not, why.
    ///
    /// Connecting takes a session that is disconnected. Disconnecting, the
    /// handshake and taking a line take one that is connected. Sending and
    /// fetching take one that is authenticated.
    pub open spec fn verdict(self, op: Operation) -> Result<(), EconError> {
        match (op, self.state()) {
            (Operation::Connect, SessionState::Disconnected) => Ok(()),
            (Operation::Connect, _) => Err(EconError::AlreadyConnected),
            (_, SessionState::Disconnected) => Err(EconError::NotConnected),
            (Operation::Send, SessionState::Connected) => Err(EconError::NotAuthenticated),
            (Operation::Fetch, SessionState::Connected) => Err(EconError::NotAuthenticated),
            _ => Ok(()),
        }
    }

    /// The session after the transport was opened.
    pub open spec fn connect(self) -> Session {
        if self.verdict(Operation::Connect) is Ok {
            Session { raw: Some(RawState::fresh()) }
        } else {
            self
        }
    }

    /// The session after a disconnect: nothing of the connection is left.
    pub open spec fn disconnect(self) -> Session {
        Session { raw: None }
    }

    /// The session after one step of the handshake.
    pub open spec fn try_auth(self, step: AuthStep, text: Seq<char>) -> Session {
        match self.raw {
            Some(raw) => Session { raw: Some(raw.auth(step, text)) },
            None => self,
        }
    }

    /// The session after a chunk with the given text was fetched.
    pub open spec fn fetch(self, text: Seq<char>) -> Session {
        match self.raw {
            Some(raw) if raw.authed => Session { raw: Some(raw.read(text)) },
            _ => self,
        }
    }

    /// The session after one line was taken from the backlog.
    pub open spec fn pop_line(self) -> Session {
        match self.raw {
            Some(raw) => Session { raw: Some(raw.pop_line()) },
            None => self,
        }
    }

    /// The line that the next `pop_line` hands out.
    pub open spec fn top(self) -> Option<Seq<char>> {
        match self.raw {
            Some(raw) => raw.buffer.top(),
            None => None,
        }
    }
}

/// Gating. Lines are sent and fetched in the authenticated state and in no
/// other; a session that refuses either is left as it was.
pub proof fn lemma_traffic_needs_authentication(session: Session, text: Seq<char>)
    ensures
        session.verdict(Operation::Send) is Ok <==> session.state() == SessionState::Authenticated,
        session.verdict(Operation::Fetch) is Ok <==> session.state()
            == SessionState::Authenticated,
        session.verdict(Operation::Fetch) is Err ==> session.fetch(text) == session,
{
}

/// A disconnect resets the session: it is disconnected, so not authenticated
/// and without a backlog, and the connection that a following connect opens
/// holds no line, no fragment and no authentication of the one before.
pub proof fn lemma_disconnect_resets(session: Session)
    ensures
        session.disconnect().state() == SessionState::Disconnected,
        session.disconnect().top() == None::<Seq<char>>,
        session.disconnect().connect().raw == Some(RawState::fresh()),
        session.disconnect().connect().state() == SessionState::Connected,
{
}

/// Only a handshake authenticates and only a disconnect takes authentication
/// away: fetching and taking lines leave the state of a session where it is.
pub proof fn lemma_state_is_kept(session: Session, text: Seq<char>)
    ensures
        session.fetch(text).state() == session.state(),
        session.pop_line().state() == session.state(),
        session.state() == SessionState::Authenticated ==> forall|step: AuthStep|
            #[trigger] session.try_auth(step, text).state() == SessionState::Authenticated,
{
}

/// A session with a remote console: the connection, while there is one, and
/// the rules on what may be asked of it when.
pub struct Econ {
    raw: Option<EconRaw>,
}

impl View for Econ {
    type V = Session;

    closed spec fn view(&self) -> Session {
        Session {
            raw: match self.raw {
                Some(raw) => Some(raw@),
                None => None,
            },
        }
    }
}

impl Econ {
    /// A session that is not connected.
    pub fn new() -> (econ: Econ)
        ensures
            econ@ == Session::start(),
            econ@.well_formed(),
    {
        Econ { raw: None }
    }

    /// Where the session stands.
    pub fn state(&self) -> (state: SessionState)
        ensures
            state == self@.state(),
            self@.well_formed(),
    {
        match &self.raw {
            None => SessionState::Disconnected,
            Some(raw) => if raw.is_authed() {
                SessionState::Authenticated
            } else {
                SessionState::Connected
            },
        }
    }

    /// Whether the session admits the operation now. To be asked before the
    /// transport is touched for it.
    pub fn verdict(&self, op: Operation) -> (verdict: Result<(), EconError>)
        ensures
            verdict == self@.verdict(op),
            self@.well_formed(),
    {
        match (op, self.state()) {
            (Operation::Connect, SessionState::Disconnected) => Ok(()),
            (Operation::Connect, _) => Err(EconError::AlreadyConnected),
            (_, SessionState::Disconnected) => Err(EconError::NotConnected),
            (Operation::Send, SessionState::Connected) => Err(EconError::NotAuthenticated),
            (Operation::Fetch, SessionState::Connected) => Err(EconError::NotAuthenticated),
            _ => Ok(()),
        }
    }

    /// Records that the transport was opened. Refused unless the session is
    /// disconnected.
    pub fn connect(&mut self) -> (result: Result<(), EconError>)
        ensures
            result == old(self)@.verdict(Operation::Connect),
            final(self)@ == old(self)@.connect(),
            final(self)@.well_formed(),
    {
        self.verdict(Operation::Connect)?;
        self.raw = Some(EconRaw::connect());
        Ok(())
    }

    /// Ends the session: the connection is forgotten, with its lines, its
    /// pending fragment and its authentication. Refused unless the session is
    /// connected.
    pub fn disconnect(&mut self) -> (result: Result<(), EconError>)
        ensures
            result == old(self)@.verdict(Operation::Disconnect),
            final(self)@ == old(self)@.disconnect(),
            final(self)@.well_formed(),
    {
        self.verdict(Operation::Disconnect)?;
        self.raw = None;
        Ok(())
    }

    /// One step of the authentication handshake, taken when bytes were read;
    /// see [`EconRaw::auth`]. Refused unless the session is connected.
    pub fn try_auth(&mut self, step: AuthStep, received: &[u8], password: &str) -> (result: Result<
        AuthAction,
        EconError,
    >)
        ensures
            final(self)@ == old(self)@.try_auth(step, chunk_text(received@)),
            old(self)@.verdict(Operation::Authenticate) matches Err(e) ==> result == Err::<
                AuthAction,
                EconError,
            >(e),
            old(self)@.verdict(Operation::Authenticate) is Ok && step == AuthStep::Banner ==> (
            result matches Ok(AuthAction::Send(bytes, next)) && bytes@ == frame(password@) && next
                == AuthStep::Reply),
            old(self)@.verdict(Operation::Authenticate) is Ok && step == AuthStep::Reply ==> result
                == Ok::<AuthAction, EconError>(
                AuthAction::Done(final(self)@.state() == SessionState::Authenticated),
            ),
            final(self)@.well_formed(),
    {
        match &mut self.raw {
            Some(raw) => Ok(raw.auth(step, received, password)),
            None => Err(EconError::NotConnected),
        }
    }

    /// The bytes to write and flush for one line. Refused unless the session
    /// is authenticated; then nothing is handed out.
    pub fn send_line(&self, line: &str) -> (result: Result<Vec<u8>, EconError>)
        ensures
            self@.verdict(Operation::Send) matches Err(e) ==> result == Err::<Vec<u8>, EconError>(
                e,
            ),
            self@.verdict(Operation::Send) is Ok ==> (result matches Ok(bytes) && bytes@ == frame(
                line@,
            )),
    {
        self.verdict(Operation::Send)?;
        match &self.raw {
            Some(raw) => Ok(raw.send(line)),
            None => Err(EconError::NotConnected),
        }
    }

    /// Takes in what one read of the transport returned. Refused unless the
    /// session is authenticated; then nothing is taken in.
    pub fn fetch(&mut self, received: &[u8]) -> (result: Result<(), EconError>)
        ensures
            result == old(self)@.verdict(Operation::Fetch),
            final(self)@ == old(self)@.fetch(chunk_text(received@)),
            final(self)@.well_formed(),
    {
        self.verdict(Operation::Fetch)?;
        match &mut self.raw {
            Some(raw) => {
                raw.read(received);
                Ok(())
            },
            None => Err(EconError::NotConnected),
        }
    }

    /// Removes and returns the line that was completed last, if any is
    /// buffered. Refused unless the session is connected; authentication is
    /// not asked for.
    pub fn pop_line(&mut self) -> (result: Result<Option<String>, EconError>)
        ensures
            final(self)@ == old(self)@.pop_line(),
            old(self)@.verdict(Operation::PopLine) matches Err(e) ==> result == Err::<
                Option<String>,
                EconError,
            >(e),
            old(self)@.verdict(Operation::PopLine) is Ok ==> (result matches Ok(line)
                && line.deep_view() == old(self)@.top()),
            result matches Ok(Some(l)) ==> is_line(l@),
            final(self)@.well_formed(),
    {
        match &mut self.raw {
            Some(raw) => Ok(raw.pop_line()),
            None => Err(EconError::NotConnected),
        }
    }
}

} // verus!
