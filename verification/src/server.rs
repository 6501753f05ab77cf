//! One connection: an array is read, handed to the compute function, and
//! the result is written back. The session decides; whoever owns the socket
//! and the compute function performs each action and reports what came of
//! it. A session knows nothing of any other, so no failure leaves its
//! connection.

use crate::array::{Array, ArrayView};
use crate::error::{Error, ErrorView, FormatErrorView, IoError};
use crate::io::{encoding, write_numpy};
use crate::reader::{step, wanted, Reader, ReaderState};
use vstd::prelude::*;

verus! {

/// What the owner of the connection is asked to do next.
#[derive(Debug, PartialEq, Eq)]
pub enum Action {
    /// Read exactly this many bytes and report them.
    Read(usize),
    /// Run the compute function on this array and report its result.
    Compute(Array),
    /// Send all of these bytes and report that they went out.
    Write(Vec<u8>),
    /// Close the connection: the session is over.
    Close,
}

/// The mathematical content of an `Action`.
pub enum ActionView {
    Read(nat),
    Compute(ArrayView),
    Write(Seq<u8>),
    Close,
}

impl View for Action {
    type V = ActionView;

    open spec fn view(&self) -> ActionView {
        match *self {
            Action::Read(n) => ActionView::Read(n as nat),
            Action::Compute(a) => ActionView::Compute(a@),
            Action::Write(bytes) => ActionView::Write(bytes@),
            Action::Close => ActionView::Close,
        }
    }
}

/// What came of the last action.
#[derive(Debug, PartialEq, Eq)]
pub enum Event {
    /// The bytes that were read.
    Bytes(Vec<u8>),
    /// The array that the compute function returned.
    Computed(Array),
    /// The bytes were sent.
    Written,
    /// The action could not be carried out.
    Failed,
}

/// The mathematical content of an `Event`.
pub enum EventView {
    Bytes(Seq<u8>),
    Computed(ArrayView),
    Written,
    Failed,
}

impl View for Event {
    type V = EventView;

    open spec fn view(&self) -> EventView {
        match *self {
            Event::Bytes(bytes) => EventView::Bytes(bytes@),
            Event::Computed(a) => EventView::Computed(a@),
            Event::Written => EventView::Written,
            Event::Failed => EventView::Failed,
        }
    }
}

/// Where a session stands.
pub enum SessionState {
    /// The request is being read.
    Reading { reader: ReaderState },
    /// The compute function is at work.
    Computing,
    /// The response is being sent.
    Writing,
    /// The session is over: served, or ended by an error.
    Closed { error: Option<ErrorView> },
}

/// A state with the action that it asks for.
pub struct TurnView {
    pub state: SessionState,
    pub action: ActionView,
}

/// The end of a session by an error: nothing more is sent.
pub open spec fn fail(e: ErrorView) -> TurnView {
    TurnView { state: SessionState::Closed { error: Some(e) }, action: ActionView::Close }
}

/// How a session goes on once its reader has moved: with the next read, or
/// with the compute function once the array is there.
pub open spec fn resume(reader: ReaderState) -> TurnView {
    match reader {
        ReaderState::Done { array } => TurnView {
            state: SessionState::Computing,
            action: ActionView::Compute(array),
        },
        _ => TurnView {
            state: SessionState::Reading { reader },
            action: ActionView::Read(wanted(reader)->Some_0),
        },
    }
}

/// The first turn of a session: the reader's first read.
pub open spec fn first() -> TurnView {
    resume(ReaderState::Magic)
}

/// The turn that follows an event. In each state one event lets the session
/// go on: the bytes asked for, the computed array, the news that the
/// response went out. Anything else is the failure of what was under way: a
/// short read (fewer bytes than asked for are one, too), a compute error, a
/// failed write. A closed session stays closed.
pub open spec fn next(s: SessionState, ev: EventView) -> TurnView {
    match s {
        SessionState::Reading { reader } => match ev {
            EventView::Bytes(bytes) => match step(reader, bytes) {
                Ok(r) => resume(r),
                Err(e) => fail(e),
            },
            _ => fail(ErrorView::Io(IoError::ShortRead)),
        },
        SessionState::Computing => match ev {
            EventView::Computed(a) => match encoding(a) {
                Ok(bytes) => TurnView {
                    state: SessionState::Writing,
                    action: ActionView::Write(bytes),
                },
                Err(e) => fail(ErrorView::Format(e)),
            },
            _ => fail(ErrorView::Compute),
        },
        SessionState::Writing => match ev {
            EventView::Written => TurnView {
                state: SessionState::Closed { error: None },
                action: ActionView::Close,
            },
            _ => fail(ErrorView::Io(IoError::WriteFailed)),
        },
        SessionState::Closed { error } => TurnView { state: s, action: ActionView::Close },
    }
}

enum Phase {
    Reading(Reader),
    Computing,
    Writing,
    Closed(Option<Error>),
}

/// The decisions of one connection.
pub struct Session {
    phase: Phase,
}

impl View for Session {
    type V = SessionState;

    closed spec fn view(&self) -> SessionState {
        match self.phase {
            Phase::Reading(reader) => SessionState::Reading { reader: reader@ },
            Phase::Computing => SessionState::Computing,
            Phase::Writing => SessionState::Writing,
            Phase::Closed(error) => SessionState::Closed {
                error: match error {
                    Some(e) => Some(e@),
                    None => None,
                },
            },
        }
    }
}

/// A session with the action that it asks for.
pub struct Turn {
    pub session: Session,
    pub action: Action,
}

impl View for Turn {
    type V = TurnView;

    open spec fn view(&self) -> TurnView {
        TurnView { state: self.session@, action: self.action@ }
    }
}

/// Ends a session by an error.
fn failed(e: Error) -> (r: Turn)
    ensures
        r@ == fail(e@),
{
    Turn { session: Session { phase: Phase::Closed(Some(e)) }, action: Action::Close }
}

/// Goes on after the reader has moved.
fn resumed(reader: Reader) -> (r: Turn)
    ensures
        r@ == resume(reader@),
{
    match reader.wanted() {
        Some(n) => Turn { session: Session { phase: Phase::Reading(reader) }, action: Action::Read(n) },
        None => match reader.finish() {
            Some(array) => Turn {
                session: Session { phase: Phase::Computing },
                action: Action::Compute(array),
            },
            None => {
                assert(false);
                failed(Error::Compute)
            },
        },
    }
}

impl Session {
    /// Opens a session: it asks for the first bytes of the request.
    pub fn open() -> (r: Turn)
        ensures
            r@ == first(),
    {
        resumed(Reader::new())
    }

    /// Whether the session is over.
    pub fn is_closed(&self) -> (r: bool)
        ensures
            r == (self@ is Closed),
    {
        match &self.phase {
            Phase::Closed(_) => true,
            _ => false,
        }
    }

    /// The error that ended the session, once it is over; none where the
    /// response went out.
    pub fn error(&self) -> (r: Option<&Error>)
        ensures
            match r {
                Some(e) => self@ == (SessionState::Closed { error: Some(e@) }),
                None => !(self@ matches SessionState::Closed { error: Some(_) }),
            },
    {
        match &self.phase {
            Phase::Closed(Some(e)) => Some(e),
            _ => None,
        }
    }

    /// Takes what came of the last action and decides the next one.
    pub fn on(self, event: Event) -> (r: Turn)
        ensures
            r@ == next(self@, event@),
    {
        match self.phase {
            Phase::Reading(reader) => match event {
                Event::Bytes(bytes) => match reader.feed(bytes.as_slice()) {
                    Ok(r) => resumed(r),
                    Err(e) => failed(e),
                },
                _ => failed(Error::Io(IoError::ShortRead)),
            },
            Phase::Computing => match event {
                Event::Computed(a) => match write_numpy(&a) {
                    Ok(bytes) => Turn {
                        session: Session { phase: Phase::Writing },
                        action: Action::Write(bytes),
                    },
                    Err(e) => failed(Error::Format(e)),
                },
                _ => failed(Error::Compute),
            },
            Phase::Writing => match event {
                Event::Written => Turn {
                    session: Session { phase: Phase::Closed(None) },
                    action: Action::Close,
                },
                _ => failed(Error::Io(IoError::WriteFailed)),
            },
            Phase::Closed(error) => Turn {
                session: Session { phase: Phase::Closed(error) },
                action: Action::Close,
            },
        }
    }
}

/// A closed session stays as it is and asks for nothing but to be closed.
pub proof fn lemma_closed_is_final(error: Option<ErrorView>, ev: EventView)
    ensures
        next(SessionState::Closed { error }, ev) == (TurnView {
            state: SessionState::Closed { error },
            action: ActionView::Close,
        }),
{
}

/// A failure at any stage ends the session with an error and without a
/// response.
pub proof fn lemma_failure_closes(s: SessionState)
    requires
        !(s is Closed),
    ensures
        next(s, EventView::Failed).state matches SessionState::Closed { error: Some(_) },
        next(s, EventView::Failed).action == ActionView::Close,
{
}

/// A response is sent only for the array that the compute function
/// returned, and it is that array's encoding.
pub proof fn lemma_response_follows_compute(s: SessionState, ev: EventView)
    requires
        next(s, ev).action is Write,
    ensures
        s is Computing,
        ev is Computed,
        encoding(ev->Computed_0) == Ok::<Seq<u8>, FormatErrorView>(next(s, ev).action->Write_0),
{
}

} // verus!
