//! Reading an array from a stream piece by piece. The reader says how many
//! bytes it wants next; whoever owns the stream reads exactly that many and
//! feeds them in, until the reader holds the array or refuses the stream.

use crate::array::{Array, ArrayView};
use crate::dtype::DType;
use crate::error::{
    bare_fault, Error, ErrorView, FormatError, FormatErrorKind, FramingError, IoError,
};
use crate::header::{elem_count, element_count, parse_header, Header, HeaderView};
use crate::io::magic;
use crate::text::{decode_lossy, lossy_text};
use vstd::bytes::{spec_u64_from_le_bytes, u64_from_le_bytes};
use vstd::prelude::*;

verus! {

/// Where a reader stands.
pub enum ReaderState {
    /// Before the magic marker.
    Magic,
    /// Before the two version bytes.
    Version,
    /// Before the length of the header block, which takes `width` bytes.
    Length { width: nat },
    /// Before the header block of `len` bytes.
    Text { len: nat },
    /// Amid the elements: `data` holds those read so far.
    Payload { shape: Seq<usize>, data: Seq<u64> },
    /// At the end, with the array.
    Done { array: ArrayView },
}

/// The number that bytes write, least significant byte first.
pub open spec fn le_value(bytes: Seq<u8>) -> nat
    decreases bytes.len(),
{
    if bytes.len() == 0 {
        0
    } else {
        bytes[0] as nat + 256 * le_value(bytes.skip(1))
    }
}

/// How many bytes a reader in state `s` wants next; none once it is done.
pub open spec fn wanted(s: ReaderState) -> Option<nat> {
    match s {
        ReaderState::Magic => Some(6),
        ReaderState::Version => Some(2),
        ReaderState::Length { width } => Some(width),
        ReaderState::Text { len } => Some(len),
        ReaderState::Payload { .. } => Some(8),
        ReaderState::Done { .. } => None,
    }
}

/// The state with the elements read so far: done once they are as many as
/// the shape demands. The elements are 64-bit floats on the wire whatever
/// the header declares, so that is the kind of the array.
pub open spec fn collect(shape: Seq<usize>, data: Seq<u64>) -> ReaderState {
    if data.len() >= element_count(shape) {
        ReaderState::Done { array: ArrayView { dtype: DType::F64, shape, data } }
    } else {
        ReaderState::Payload { shape, data }
    }
}

/// The state after a header: column-major data is refused, and so is a
/// shape with more elements than `usize` can count.
pub open spec fn after_header(h: HeaderView) -> Result<ReaderState, ErrorView> {
    if h.fortran_order {
        Err(ErrorView::Format(bare_fault(FormatErrorKind::FortranOrder)))
    } else if element_count(h.shape) > usize::MAX {
        Err(ErrorView::Format(bare_fault(FormatErrorKind::ShapeTooLarge)))
    } else {
        Ok(collect(h.shape, Seq::<u64>::empty()))
    }
}

/// The state that follows `s` once it is fed `chunk`, or the error that
/// ends the reading. A reader wants a certain number of bytes: a chunk of
/// any other length is a short read. A reader that is done stays as it is.
pub open spec fn step(s: ReaderState, chunk: Seq<u8>) -> Result<ReaderState, ErrorView> {
    match s {
        ReaderState::Done { array } => Ok(s),
        _ => if wanted(s) != Some(chunk.len()) {
            Err(ErrorView::Io(IoError::ShortRead))
        } else {
            match s {
                ReaderState::Magic => if chunk == magic() {
                    Ok(ReaderState::Version)
                } else {
                    Err(ErrorView::Framing(FramingError::MagicMismatch))
                },
                ReaderState::Version => if chunk[0] == 1 {
                    Ok(ReaderState::Length { width: 2 })
                } else if chunk[0] == 2 {
                    Ok(ReaderState::Length { width: 4 })
                } else {
                    Err(ErrorView::Framing(FramingError::UnsupportedVersion(chunk[0])))
                },
                ReaderState::Length { width } => Ok(ReaderState::Text { len: le_value(chunk) }),
                ReaderState::Text { len } => match parse_header(lossy_text(chunk)) {
                    Err(e) => Err(ErrorView::Format(e)),
                    Ok(h) => after_header(h),
                },
                ReaderState::Payload { shape, data } => Ok(
                    collect(shape, data.push(spec_u64_from_le_bytes(chunk))),
                ),
                ReaderState::Done { array } => Ok(s),
            }
        },
    }
}

/// How far a reader is from its end, by stage.
pub open spec fn rank(s: ReaderState) -> nat {
    match s {
        ReaderState::Magic => 5,
        ReaderState::Version => 4,
        ReaderState::Length { .. } => 3,
        ReaderState::Text { .. } => 2,
        ReaderState::Payload { .. } => 1,
        ReaderState::Done { .. } => 0,
    }
}

/// How many elements a reader still lacks.
pub open spec fn pending(s: ReaderState) -> nat {
    match s {
        ReaderState::Payload { shape, data } => if data.len() < element_count(shape) {
            (element_count(shape) - data.len()) as nat
        } else {
            0
        },
        _ => 0,
    }
}

/// Every step brings a reader nearer to its end.
pub proof fn lemma_step_progress(s: ReaderState, chunk: Seq<u8>)
    requires
        wanted(s) is Some,
        step(s, chunk) is Ok,
    ensures
        rank(step(s, chunk)->Ok_0) < rank(s) || (rank(step(s, chunk)->Ok_0) == rank(s) && pending(
            step(s, chunk)->Ok_0,
        ) < pending(s)),
{
}

/// What a reader in state `s` makes of the bytes that the stream still
/// holds: it takes what it wants, as long as the stream has it, until it is
/// done or fails. A stream that ends too early is a short read.
pub open spec fn read_from(s: ReaderState, bytes: Seq<u8>) -> Result<ArrayView, ErrorView>
    decreases rank(s), pending(s),
{
    match s {
        ReaderState::Done { array } => Ok(array),
        _ => {
            let n = wanted(s)->Some_0 as int;
            if bytes.len() < n {
                Err(ErrorView::Io(IoError::ShortRead))
            } else {
                match step(s, bytes.take(n)) {
                    Err(e) => Err(e),
                    Ok(next) => read_from(next, bytes.skip(n)),
                }
            }
        },
    }
}

enum Stage {
    Magic,
    Version,
    Length { wide: bool },
    Text { len: usize },
    Payload { shape: Vec<usize>, count: usize, data: Vec<u64> },
    Done { array: Array },
}

/// An incremental reader of one array.
pub struct Reader {
    stage: Stage,
}

impl View for Reader {
    type V = ReaderState;

    closed spec fn view(&self) -> ReaderState {
        match self.stage {
            Stage::Magic => ReaderState::Magic,
            Stage::Version => ReaderState::Version,
            Stage::Length { wide } => ReaderState::Length {
                width: if wide {
                    4
                } else {
                    2
                },
            },
            Stage::Text { len } => ReaderState::Text { len: len as nat },
            Stage::Payload { shape, count, data } => ReaderState::Payload {
                shape: shape@,
                data: data@,
            },
            Stage::Done { array } => ReaderState::Done { array: array@ },
        }
    }
}

/// The state for the elements read so far.
fn collected(shape: Vec<usize>, count: usize, data: Vec<u64>) -> (r: Reader)
    requires
        count == element_count(shape@),
        data@.len() <= count,
    ensures
        r@ == collect(shape@, data@),
{
    if data.len() == count {
        match Array::new(DType::F64, shape, data) {
            Some(array) => Reader { stage: Stage::Done { array } },
            None => {
                assert(false);
                Reader { stage: Stage::Magic }
            },
        }
    } else {
        Reader { stage: Stage::Payload { shape, count, data } }
    }
}

impl Reader {
    #[verifier::type_invariant]
    spec fn sound(self) -> bool {
        match self.stage {
            Stage::Payload { shape, count, data } => count == element_count(shape@) && data@.len()
                < count,
            _ => true,
        }
    }

    /// A reader at the start of a stream.
    pub fn new() -> (r: Reader)
        ensures
            r@ == ReaderState::Magic,
    {
        Reader { stage: Stage::Magic }
    }

    /// How many bytes the reader wants next; none once it is done.
    pub fn wanted(&self) -> (r: Option<usize>)
        ensures
            match r {
                Some(n) => wanted(self@) == Some(n as nat),
                None => wanted(self@) is None,
            },
    {
        match &self.stage {
            Stage::Magic => Some(6),
            Stage::Version => Some(2),
            Stage::Length { wide } => if *wide {
                Some(4)
            } else {
                Some(2)
            },
            Stage::Text { len } => Some(*len),
            Stage::Payload { .. } => Some(8),
            Stage::Done { .. } => None,
        }
    }

    /// Takes the bytes that the reader wanted and moves on. A chunk of
    /// another length than the reader wanted is a short read.
    pub fn feed(self, chunk: &[u8]) -> (r: Result<Reader, Error>)
        ensures
            match r {
                Ok(next) => step(self@, chunk@) == Ok::<ReaderState, ErrorView>(next@),
                Err(e) => step(self@, chunk@) == Err::<ReaderState, ErrorView>(e@),
            },
    {
        proof {
            use_type_invariant(&self);
        }
        let fits = match self.wanted() {
            Some(n) => n == chunk.len(),
            None => true,
        };
        if !fits {
            return Err(Error::Io(IoError::ShortRead));
        }
        match self.stage {
            Stage::Magic => {
                if chunk[0] == 0x93 && chunk[1] == 0x4e && chunk[2] == 0x55 && chunk[3] == 0x4d
                    && chunk[4] == 0x50 && chunk[5] == 0x59 {
                    assert(chunk@ =~= magic());
                    Ok(Reader { stage: Stage::Version })
                } else {
                    Err(Error::Framing(FramingError::MagicMismatch))
                }
            },
            Stage::Version => {
                let major = chunk[0];
                if major == 1 {
                    Ok(Reader { stage: Stage::Length { wide: false } })
                } else if major == 2 {
                    Ok(Reader { stage: Stage::Length { wide: true } })
                } else {
                    Err(Error::Framing(FramingError::UnsupportedVersion(major)))
                }
            },
            Stage::Length { wide } => {
                let len = read_length(chunk);
                Ok(Reader { stage: Stage::Text { len } })
            },
            Stage::Text { len } => {
                let text = decode_lossy(chunk);
                let header = match Header::parse(text.as_str()) {
                    Ok(h) => h,
                    Err(e) => { return Err(Error::Format(e)); },
                };
                if header.fortran_order {
                    return Err(Error::Format(FormatError::bare(FormatErrorKind::FortranOrder)));
                }
                match elem_count(header.shape.as_slice()) {
                    None => Err(
                        Error::Format(FormatError::bare(FormatErrorKind::ShapeTooLarge)),
                    ),
                    Some(count) => Ok(collected(header.shape, count, Vec::new())),
                }
            },
            Stage::Payload { shape, count, data } => {
                let mut data = data;
                data.push(u64_from_le_bytes(chunk));
                Ok(collected(shape, count, data))
            },
            Stage::Done { array } => Ok(Reader { stage: Stage::Done { array } }),
        }
    }

    /// The array, once the reader is done.
    pub fn finish(self) -> (r: Option<Array>)
        ensures
            match r {
                Some(a) => self@ == (ReaderState::Done { array: a@ }),
                None => wanted(self@) is Some,
            },
    {
        match self.stage {
            Stage::Done { array } => Some(array),
            _ => None,
        }
    }
}

/// Reads a length of two or four bytes, least significant byte first.
fn read_length(chunk: &[u8]) -> (r: usize)
    requires
        chunk@.len() == 2 || chunk@.len() == 4,
    ensures
        r == le_value(chunk@),
{
    reveal_with_fuel(le_value, 5);
    let ghost s = chunk@;
    assert(s.skip(1).skip(1) =~= s.skip(2));
    let low: usize = chunk[0] as usize + 256 * (chunk[1] as usize);
    if chunk.len() == 2 {
        assert(s.skip(2).len() == 0);
        low
    } else {
        assert(s.skip(2).skip(1) =~= s.skip(3));
        assert(s.skip(3).skip(1) =~= s.skip(4));
        assert(s.skip(4).len() == 0);
        low + 65536 * (chunk[2] as usize) + 16777216 * (chunk[3] as usize)
    }
}

} // verus!
