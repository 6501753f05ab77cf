use socket_nn::array::Array;
use socket_nn::dtype::DType;
use socket_nn::error::{Error, FormatError, FormatErrorKind, FramingError, IoError};
use socket_nn::io::{read_numpy, write_numpy};
use socket_nn::server::{Action, Event, Session, Turn};

/// One end of a connection, as a test sees it: the bytes that the client
/// sent, and what the session did with them.
struct Connection {
    session: Option<Session>,
    action: Option<Action>,
    input: Vec<u8>,
    pos: usize,
    done: Vec<&'static str>,
    sent: Option<Vec<u8>>,
    closed: bool,
}

fn ones(shape: &[usize]) -> Array {
    let n = shape.iter().product();
    Array::new(DType::F64, shape.to_vec(), vec![1.0f64.to_bits(); n]).unwrap()
}

/// The compute function of the tests: it adds a model of ones to the input.
fn add(model: &Array, input: Array) -> Option<Array> {
    if model.shape() != input.shape() {
        return None;
    }
    let sum = model
        .data()
        .iter()
        .zip(input.data())
        .map(|(a, b)| (f64::from_bits(*a) + f64::from_bits(*b)).to_bits())
        .collect();
    Array::new(DType::F64, input.shape().to_vec(), sum)
}

impl Connection {
    fn open(input: Vec<u8>) -> Connection {
        let Turn { session, action } = Session::open();
        Connection {
            session: Some(session),
            action: Some(action),
            input,
            pos: 0,
            done: Vec::new(),
            sent: None,
            closed: false,
        }
    }

    /// Performs the action that the session asked for and reports the event.
    fn advance(&mut self, model: &Array) {
        if self.closed {
            return;
        }
        let event = match self.action.take().unwrap() {
            Action::Read(n) => {
                self.done.push("read");
                if self.pos + n <= self.input.len() {
                    let chunk = self.input[self.pos..self.pos + n].to_vec();
                    self.pos += n;
                    Event::Bytes(chunk)
                } else {
                    Event::Failed
                }
            }
            Action::Compute(array) => {
                self.done.push("compute");
                match add(model, array) {
                    Some(result) => Event::Computed(result),
                    None => Event::Failed,
                }
            }
            Action::Write(bytes) => {
                self.done.push("write");
                self.sent = Some(bytes);
                Event::Written
            }
            Action::Close => {
                self.done.push("close");
                self.closed = true;
                assert!(self.session.as_ref().unwrap().is_closed());
                return;
            }
        };
        let Turn { session, action } = self.session.take().unwrap().on(event);
        self.session = Some(session);
        self.action = Some(action);
    }

    fn run(&mut self, model: &Array) {
        while !self.closed {
            self.advance(model);
        }
    }

    fn error(&self) -> Option<Error> {
        self.session.as_ref().unwrap().error().cloned()
    }
}

fn request(shape: &[usize]) -> Vec<u8> {
    write_numpy(&ones(shape)).unwrap()
}

fn format(kind: FormatErrorKind, text: &str) -> Error {
    Error::Format(FormatError { kind, text: text.to_string() })
}

#[test]
fn session_opens_by_asking_for_the_magic_marker() {
    let Turn { session, action } = Session::open();
    assert_eq!(action, Action::Read(6));
    assert!(!session.is_closed());
    assert_eq!(session.error(), None);
}

#[test]
fn session_serves_a_request() {
    let model = ones(&[2, 2]);
    let mut c = Connection::open(request(&[2, 2]));
    c.run(&model);
    assert_eq!(
        c.done,
        vec!["read", "read", "read", "read", "read", "read", "read", "read", "compute", "write", "close"]
    );
    assert_eq!(c.error(), None);
    let response = read_numpy(&c.sent.unwrap()).unwrap();
    assert_eq!(response.shape(), &[2, 2]);
    assert_eq!(response.data(), &[2.0f64.to_bits(); 4]);
}

#[test]
fn session_hands_the_array_to_the_compute_function() {
    let bytes = request(&[3]);
    let mut turn = Session::open();
    let mut pos = 0;
    while let Action::Read(n) = turn.action {
        turn = turn.session.on(Event::Bytes(bytes[pos..pos + n].to_vec()));
        pos += n;
    }
    assert_eq!(pos, bytes.len());
    assert_eq!(turn.action, Action::Compute(ones(&[3])));
    assert!(!turn.session.is_closed());
}

#[test]
fn session_writes_the_encoding_of_the_result() {
    let mut c = Connection::open(request(&[2, 2]));
    c.run(&ones(&[2, 2]));
    let twos = Array::new(DType::F64, vec![2, 2], vec![2.0f64.to_bits(); 4]).unwrap();
    assert_eq!(c.sent, Some(write_numpy(&twos).unwrap()));
}

#[test]
fn two_connections_do_not_disturb_each_other() {
    let model = ones(&[2, 2]);
    let mut malformed = b"\x93NUMPY\x01\x00\x11\x00this is no header".to_vec();
    malformed.extend_from_slice(&[0; 32]);
    for order in 0..3 {
        let mut bad = Connection::open(malformed.clone());
        let mut good = Connection::open(request(&[2, 2]));
        while !(bad.closed && good.closed) {
            match order {
                0 => {
                    bad.advance(&model);
                    good.advance(&model);
                }
                1 => {
                    good.advance(&model);
                    bad.advance(&model);
                }
                _ => {
                    good.advance(&model);
                    good.advance(&model);
                    bad.advance(&model);
                }
            }
        }
        assert_eq!(bad.sent, None);
        assert_eq!(bad.error(), Some(format(FormatErrorKind::MalformedField, "this is no header")));
        assert_eq!(bad.done, vec!["read", "read", "read", "read", "close"]);
        assert_eq!(good.error(), None);
        let response = read_numpy(&good.sent.unwrap()).unwrap();
        assert_eq!(response.shape(), &[2, 2]);
        assert_eq!(response.data(), &[2.0f64.to_bits(); 4]);
    }
}

#[test]
fn session_closes_on_bad_magic_without_a_response() {
    let mut c = Connection::open(b"GET / HTTP/1.1\r\n\r\n".to_vec());
    c.run(&ones(&[2, 2]));
    assert_eq!(c.done, vec!["read", "close"]);
    assert_eq!(c.pos, 6);
    assert_eq!(c.sent, None);
    assert_eq!(c.error(), Some(Error::Framing(FramingError::MagicMismatch)));
}

#[test]
fn session_closes_on_a_short_read() {
    let mut bytes = request(&[2, 2]);
    bytes.truncate(bytes.len() - 1);
    let mut c = Connection::open(bytes);
    c.run(&ones(&[2, 2]));
    assert_eq!(c.sent, None);
    assert_eq!(c.error(), Some(Error::Io(IoError::ShortRead)));
    assert_eq!(c.done.last(), Some(&"close"));
    assert!(!c.done.contains(&"compute"));
}

#[test]
fn session_closes_when_too_few_bytes_are_reported() {
    let Turn { session, action } = Session::open();
    assert_eq!(action, Action::Read(6));
    let turn = session.on(Event::Bytes(b"\x93NUMP".to_vec()));
    assert_eq!(turn.action, Action::Close);
    assert_eq!(turn.session.error(), Some(&Error::Io(IoError::ShortRead)));
}

#[test]
fn session_closes_on_a_compute_error() {
    let mut c = Connection::open(request(&[3]));
    c.run(&ones(&[2, 2]));
    assert_eq!(c.done.iter().filter(|d| **d == "compute").count(), 1);
    assert_eq!(c.sent, None);
    assert_eq!(c.error(), Some(Error::Compute));
}

#[test]
fn session_closes_when_the_result_cannot_be_written() {
    let bytes = request(&[1]);
    let mut turn = Session::open();
    let mut pos = 0;
    while let Action::Read(n) = turn.action {
        turn = turn.session.on(Event::Bytes(bytes[pos..pos + n].to_vec()));
        pos += n;
    }
    let result = Array::new(DType::BF16, vec![1], vec![0]).unwrap();
    let turn = turn.session.on(Event::Computed(result));
    assert_eq!(turn.action, Action::Close);
    assert_eq!(turn.session.error(), Some(&format(FormatErrorKind::UnsupportedDType, "")));
}

#[test]
fn session_closes_on_a_failed_write() {
    let bytes = request(&[1]);
    let mut turn = Session::open();
    let mut pos = 0;
    while let Action::Read(n) = turn.action {
        turn = turn.session.on(Event::Bytes(bytes[pos..pos + n].to_vec()));
        pos += n;
    }
    let turn = turn.session.on(Event::Computed(ones(&[1])));
    assert!(matches!(turn.action, Action::Write(_)));
    let turn = turn.session.on(Event::Failed);
    assert_eq!(turn.action, Action::Close);
    assert_eq!(turn.session.error(), Some(&Error::Io(IoError::WriteFailed)));
}

#[test]
fn session_takes_an_event_that_does_not_fit_as_a_failure() {
    let turn = Session::open().session.on(Event::Written);
    assert_eq!(turn.action, Action::Close);
    assert_eq!(turn.session.error(), Some(&Error::Io(IoError::ShortRead)));
    let turn = Session::open().session.on(Event::Computed(ones(&[1])));
    assert_eq!(turn.session.error(), Some(&Error::Io(IoError::ShortRead)));
}

#[test]
fn session_that_is_closed_stays_closed() {
    let turn = Session::open().session.on(Event::Failed);
    assert!(turn.session.is_closed());
    let error = turn.session.error().cloned();
    let events = vec![
        Event::Bytes(b"\x93NUMPY".to_vec()),
        Event::Computed(ones(&[1])),
        Event::Written,
        Event::Failed,
    ];
    let mut session = turn.session;
    for event in events {
        let turn = session.on(event);
        assert_eq!(turn.action, Action::Close);
        assert!(turn.session.is_closed());
        assert_eq!(turn.session.error().cloned(), error);
        session = turn.session;
    }
}

#[test]
fn session_served_has_no_error() {
    let mut c = Connection::open(request(&[]));
    c.run(&ones(&[]));
    assert!(c.session.as_ref().unwrap().is_closed());
    assert_eq!(c.error(), None);
    assert_eq!(c.done.last(), Some(&"close"));
}
