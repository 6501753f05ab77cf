//! Arrays as bytes: the magic marker, the version, the length of the header
//! block, the header padded to a multiple of 16 bytes, then the elements as
//! little-endian 64-bit numbers.

use crate::array::{Array, ArrayView};
use crate::dtype::DType;
use crate::error::{
    bare_fault, Error, ErrorView, FormatError, FormatErrorKind, FormatErrorView, FramingError,
    IoError,
};
use crate::header::{element_count, format_header, parse_header, Header, HeaderView};
use crate::reader::{
    collect, le_value, lemma_step_progress, pending, rank, read_from, step, Reader, ReaderState,
};
use crate::text::{chars_of, lossy_text, string_of};
use vstd::bytes::{spec_u64_from_le_bytes, spec_u64_to_le_bytes, u64_to_le_bytes};
use vstd::prelude::*;
use vstd::slice::{slice_subrange, slice_to_vec};
use vstd::utf8::encode_utf8;

verus! {

/// The six bytes that open every message.
pub open spec fn magic() -> Seq<u8> {
    seq![0x93u8, 0x4eu8, 0x55u8, 0x4du8, 0x50u8, 0x59u8]
}

/// The number of spaces that follow a header of `len` bytes, so that the
/// payload starts at a multiple of 16: the marker, the version and a
/// two-byte length take 10 bytes, the closing newline one more.
pub open spec fn padding(len: nat) -> nat {
    ((16 - (11 + len) % 16) % 16) as nat
}

/// A run of `n` spaces.
pub open spec fn spaces(n: nat) -> Seq<char> {
    Seq::new(n, |i: int| ' ')
}

/// A header text with its padding and the closing newline.
pub open spec fn padded(text: Seq<char>) -> Seq<char> {
    text + spaces(padding(encode_utf8(text).len())) + seq!['\n']
}

/// The bytes of the header block: the padded header text in UTF-8.
pub open spec fn header_block(text: Seq<char>) -> Seq<u8> {
    encode_utf8(padded(text))
}

/// The bytes of the elements: eight for each, least significant first.
pub open spec fn payload(data: Seq<u64>) -> Seq<u8>
    decreases data.len(),
{
    if data.len() == 0 {
        Seq::<u8>::empty()
    } else {
        payload(data.drop_last()) + spec_u64_to_le_bytes(data.last())
    }
}

/// A whole message: the marker, version 1 and 0, the length of the header
/// block in two bytes, least significant first, the block, the payload.
pub open spec fn message(block: Seq<u8>, data: Seq<u64>) -> Seq<u8> {
    magic() + seq![1u8, 0u8] + seq![(block.len() % 256) as u8, (block.len() / 256) as u8]
        + block + payload(data)
}

/// The header that is written for an array: its kind and shape, in
/// row-major order.
pub open spec fn header_of(a: ArrayView) -> HeaderView {
    HeaderView { descr: a.dtype, fortran_order: false, shape: a.shape }
}

/// The bytes that write an array, or the error where its element kind has
/// no type code or its header block is longer than two bytes can say.
pub open spec fn encoding(a: ArrayView) -> Result<Seq<u8>, FormatErrorView> {
    match format_header(header_of(a)) {
        Err(e) => Err(e),
        Ok(text) => if header_block(text).len() > 0xffff {
            Err(bare_fault(FormatErrorKind::HeaderTooLong))
        } else {
            Ok(message(header_block(text), a.data))
        },
    }
}

/// Computes `padding`.
fn pad_len(len: usize) -> (r: usize)
    ensures
        r == padding(len as nat),
{
    let low = len % 16;
    assert((11 + len) % 16 == (low + 11) % 16) by (nonlinear_arith)
        requires
            low == len % 16,
    ;
    (16 - (low + 11) % 16) % 16
}

/// The header block for a header text.
fn block_of(text: &str) -> (r: Vec<u8>)
    ensures
        r@ == header_block(text@),
{
    let pad = pad_len(text.as_bytes().len());
    let mut line = chars_of(text);
    let mut k: usize = 0;
    assert(line@ =~= text@ + spaces(0));
    while k < pad
        invariant
            k <= pad,
            line@ == text@ + spaces(k as nat),
        decreases pad - k,
    {
        line.push(' ');
        assert(line@ =~= text@ + spaces((k + 1) as nat));
        k += 1;
    }
    line.push('\n');
    assert(line@ =~= padded(text@));
    let block_text = string_of(line.as_slice());
    let block = slice_to_vec(block_text.as_str().as_bytes());
    assert(block@ == encode_utf8(padded(text@)));
    block
}

/// Appends the bytes of the elements to `out`.
fn push_payload(out: &mut Vec<u8>, data: &[u64])
    ensures
        final(out)@ == old(out)@ + payload(data@),
{
    let n = data.len();
    let mut i: usize = 0;
    assert(data@.take(0) =~= Seq::<u64>::empty());
    assert(out@ =~= old(out)@ + payload(data@.take(0)));
    while i < n
        invariant
            n == data@.len(),
            i <= n,
            out@ == old(out)@ + payload(data@.take(i as int)),
        decreases n - i,
    {
        let bytes = u64_to_le_bytes(data[i]);
        out.extend_from_slice(bytes.as_slice());
        assert(data@.take(i + 1).drop_last() =~= data@.take(i as int));
        assert(out@ =~= old(out)@ + payload(data@.take(i + 1)));
        i += 1;
    }
    assert(data@.take(n as int) =~= data@);
}

/// Writes an array as bytes.
pub fn write_numpy(array: &Array) -> (r: Result<Vec<u8>, FormatError>)
    ensures
        match r {
            Ok(bytes) => encoding(array@) == Ok::<Seq<u8>, FormatErrorView>(bytes@),
            Err(e) => encoding(array@) == Err::<Seq<u8>, FormatErrorView>(e@),
        },
{
    let header = Header {
        descr: array.dtype(),
        fortran_order: false,
        shape: slice_to_vec(array.shape()),
    };
    assert(header@ == header_of(array@));
    let text = match header.to_string() {
        Ok(s) => s,
        Err(e) => { return Err(e); },
    };
    let block = block_of(text.as_str());
    let size = block.len();
    if size > 0xffff {
        return Err(FormatError::bare(FormatErrorKind::HeaderTooLong));
    }
    let mut out: Vec<u8> = Vec::new();
    out.push(0x93u8);
    out.push(0x4eu8);
    out.push(0x55u8);
    out.push(0x4du8);
    out.push(0x50u8);
    out.push(0x59u8);
    out.push(1u8);
    out.push(0u8);
    out.push((size % 256) as u8);
    out.push((size / 256) as u8);
    out.extend_from_slice(block.as_slice());
    assert(out@ =~= magic() + seq![1u8, 0u8] + seq![
        (block@.len() % 256) as u8,
        (block@.len() / 256) as u8,
    ] + block@);
    push_payload(&mut out, array.data());
    Ok(out)
}

/// What stands before the payload of a message.
pub struct Preamble {
    /// The text of the header block.
    pub text: Seq<char>,
    /// The number of bytes up to the payload.
    pub len: nat,
}

/// The short read that ends the reading of a stream with too few bytes.
pub open spec fn short_read() -> ErrorView {
    ErrorView::Io(IoError::ShortRead)
}

/// What stands before the payload: the magic marker, two version bytes of
/// which the first says whether the length that follows takes two bytes
/// (1) or four (2), that length, and as many bytes of header block, read
/// as UTF-8 with invalid bytes replaced. Each part is looked at only once
/// all its bytes are there.
pub open spec fn preamble(bytes: Seq<u8>) -> Result<Preamble, ErrorView> {
    if bytes.len() < 6 {
        Err(short_read())
    } else if bytes.subrange(0, 6) != magic() {
        Err(ErrorView::Framing(FramingError::MagicMismatch))
    } else if bytes.len() < 8 {
        Err(short_read())
    } else if bytes[6] != 1 && bytes[6] != 2 {
        Err(ErrorView::Framing(FramingError::UnsupportedVersion(bytes[6])))
    } else {
        let width: int = if bytes[6] == 1 {
            2
        } else {
            4
        };
        if bytes.len() < 8 + width {
            Err(short_read())
        } else {
            let len = le_value(bytes.subrange(8, 8 + width));
            if bytes.len() < 8 + width + len {
                Err(short_read())
            } else {
                Ok(
                    Preamble {
                        text: lossy_text(bytes.subrange(8 + width, 8 + width + len)),
                        len: (8 + width + len) as nat,
                    },
                )
            }
        }
    }
}

/// The first `n` elements that `bytes` hold, eight bytes each, least
/// significant byte first.
pub open spec fn values(bytes: Seq<u8>, n: nat) -> Seq<u64> {
    Seq::new(n, |i: int| spec_u64_from_le_bytes(bytes.subrange(8 * i, 8 * i + 8)))
}

/// The array that a stream of bytes holds, or why it holds none. The
/// elements are read as 64-bit floats whatever kind the header declares,
/// and the array is of that kind. Bytes after the last element are left
/// alone.
pub open spec fn decode(bytes: Seq<u8>) -> Result<ArrayView, ErrorView> {
    match preamble(bytes) {
        Err(e) => Err(e),
        Ok(p) => match parse_header(p.text) {
            Err(e) => Err(ErrorView::Format(e)),
            Ok(h) => if h.fortran_order {
                Err(ErrorView::Format(bare_fault(FormatErrorKind::FortranOrder)))
            } else if element_count(h.shape) > usize::MAX {
                Err(ErrorView::Format(bare_fault(FormatErrorKind::ShapeTooLarge)))
            } else if bytes.len() < p.len + 8 * element_count(h.shape) {
                Err(short_read())
            } else {
                Ok(
                    ArrayView {
                        dtype: DType::F64,
                        shape: h.shape,
                        data: values(bytes.skip(p.len as int), element_count(h.shape)),
                    },
                )
            },
        },
    }
}

/// A reader that has `data` already makes of the stream the array of
/// `data` and the elements that the stream still had to give.
pub proof fn lemma_read_payload(shape: Seq<usize>, data: Seq<u64>, rest: Seq<u8>)
    requires
        data.len() <= element_count(shape),
    ensures
        read_from(collect(shape, data), rest) == (if rest.len() < 8 * (element_count(shape)
            - data.len()) {
            Err::<ArrayView, ErrorView>(short_read())
        } else {
            Ok::<ArrayView, ErrorView>(
                ArrayView {
                    dtype: DType::F64,
                    shape,
                    data: data + values(rest, (element_count(shape) - data.len()) as nat),
                },
            )
        }),
    decreases element_count(shape) - data.len(),
{
    let missing = (element_count(shape) - data.len()) as nat;
    if missing == 0 {
        assert(data + values(rest, 0) =~= data);
    } else if rest.len() < 8 {
    } else {
        let v = spec_u64_from_le_bytes(rest.take(8));
        let more = data.push(v);
        let tail = rest.skip(8);
        assert(step(collect(shape, data), rest.take(8)) == Ok::<ReaderState, ErrorView>(
            collect(shape, more),
        ));
        lemma_read_payload(shape, more, tail);
        if tail.len() >= 8 * (missing - 1) {
            assert(more + values(tail, (missing - 1) as nat) =~= data + values(rest, missing)) by {
                assert(rest.take(8) =~= rest.subrange(0, 8));
                let shifted = values(tail, (missing - 1) as nat);
                assert forall|i: int| 0 <= i < missing - 1 implies #[trigger] shifted[i]
                    == values(rest, missing)[i + 1] by {
                    assert(tail.subrange(8 * i, 8 * i + 8) =~= rest.subrange(
                        8 * (i + 1),
                        8 * (i + 1) + 8,
                    ));
                }
            }
        }
    }
}

/// Reading a stream from its start gives the array that the stream holds.
pub proof fn lemma_read_from_start(bytes: Seq<u8>)
    ensures
        read_from(ReaderState::Magic, bytes) == decode(bytes),
{
    reveal_with_fuel(read_from, 5);
    if bytes.len() >= 6 {
        assert(bytes.take(6) =~= bytes.subrange(0, 6));
        let b1 = bytes.skip(6);
        if bytes.subrange(0, 6) == magic() && bytes.len() >= 8 {
            assert(b1.take(2)[0] == bytes[6]);
            let b2 = b1.skip(2);
            assert(b2 =~= bytes.skip(8));
            if bytes[6] == 1 || bytes[6] == 2 {
                let width: int = if bytes[6] == 1 {
                    2
                } else {
                    4
                };
                if bytes.len() >= 8 + width {
                    assert(b2.take(width) =~= bytes.subrange(8, 8 + width));
                    let len = le_value(bytes.subrange(8, 8 + width));
                    let b3 = b2.skip(width);
                    assert(b3 =~= bytes.skip(8 + width));
                    if bytes.len() >= 8 + width + len {
                        assert(b3.take(len as int) =~= bytes.subrange(
                            8 + width,
                            8 + width + len,
                        ));
                        let b4 = b3.skip(len as int);
                        assert(b4 =~= bytes.skip(8 + width + len));
                        let text = lossy_text(bytes.subrange(8 + width, 8 + width + len));
                        match parse_header(text) {
                            Err(e) => {},
                            Ok(h) => {
                                if !h.fortran_order && element_count(h.shape) <= usize::MAX {
                                    lemma_read_payload(h.shape, Seq::<u64>::empty(), b4);
                                    assert(Seq::<u64>::empty() + values(b4, element_count(h.shape))
                                        =~= values(b4, element_count(h.shape)));
                                }
                            },
                        }
                    }
                }
            }
        }
    }
}

/// Reads an array from the bytes of a stream.
pub fn read_numpy(bytes: &[u8]) -> (r: Result<Array, Error>)
    ensures
        match r {
            Ok(a) => decode(bytes@) == Ok::<ArrayView, ErrorView>(a@),
            Err(e) => decode(bytes@) == Err::<ArrayView, ErrorView>(e@),
        },
{
    let total = bytes.len();
    let mut reader = Reader::new();
    let mut pos: usize = 0;
    proof {
        lemma_read_from_start(bytes@);
        assert(bytes@.skip(0) =~= bytes@);
    }
    loop
        invariant
            total == bytes@.len(),
            pos <= total,
            read_from(reader@, bytes@.skip(pos as int)) == decode(bytes@),
        decreases rank(reader@), pending(reader@),
    {
        let ghost before = reader@;
        let ghost rest = bytes@.skip(pos as int);
        match reader.wanted() {
            None => {
                return match reader.finish() {
                    Some(a) => Ok(a),
                    None => {
                        assert(false);
                        Err(Error::Io(IoError::ShortRead))
                    },
                };
            },
            Some(n) => {
                if total - pos < n {
                    return Err(Error::Io(IoError::ShortRead));
                }
                let chunk = slice_subrange(bytes, pos, pos + n);
                assert(chunk@ =~= rest.take(n as int));
                assert(rest.skip(n as int) =~= bytes@.skip(pos + n));
                proof {
                    if step(before, chunk@) is Ok {
                        lemma_step_progress(before, chunk@);
                    }
                }
                match reader.feed(chunk) {
                    Ok(next) => {
                        reader = next;
                        pos = pos + n;
                    },
                    Err(e) => {
                        return Err(e);
                    },
                }
            },
        }
    }
}

} // verus!
