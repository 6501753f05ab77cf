//! What holds of the wire format as a whole: what is written is read back,
//! the payload starts at a multiple of 16 bytes, and streams that are not
//! array messages are refused early.

use crate::array::ArrayView;
use crate::dtype::DType;
use crate::error::{bare_fault, ErrorView, FormatErrorKind, FormatErrorView, FramingError};
use crate::header::{element_count, format_header, header_text, parse_header, HeaderView};
use crate::header_lemmas::lemma_parse_written;
use crate::io::{
    decode, encoding, header_block, header_of, magic, message, padded, padding, payload,
    preamble, spaces, values,
};
use crate::reader::{le_value, step, wanted, ReaderState};
use crate::text::{is_whitespace, lossy_text, CharSet};
use vstd::bytes::{lemma_auto_spec_u64_to_from_le_bytes, spec_u64_to_le_bytes};
use vstd::prelude::*;
use vstd::utf8::{
    encode_utf8, encode_utf8_decode_utf8, encode_utf8_valid_utf8, is_ascii_chars,
    is_ascii_chars_encode_utf8,
};

verus! {

/// A header that can be written is read back from its text with the same
/// element kind and shape, and as row-major: for a row-major header, as it
/// was.
pub proof fn lemma_header_round_trip(h: HeaderView)
    requires
        format_header(h) is Ok,
    ensures
        parse_header(format_header(h)->Ok_0) == Ok::<HeaderView, FormatErrorView>(
            HeaderView { descr: h.descr, fortran_order: false, shape: h.shape },
        ),
        !h.fortran_order ==> parse_header(format_header(h)->Ok_0) == Ok::<
            HeaderView,
            FormatErrorView,
        >(h),
{
    let text = format_header(h)->Ok_0;
    lemma_parse_written(h.descr, h.shape, Seq::<char>::empty());
    assert(text + Seq::<char>::empty() =~= text);
}

/// The UTF-8 bytes of a concatenation are those of its parts.
proof fn lemma_encode_concat(a: Seq<char>, b: Seq<char>)
    ensures
        encode_utf8(a + b) == encode_utf8(a) + encode_utf8(b),
    decreases a.len(),
{
    if a.len() == 0 {
        assert(a + b =~= b);
        assert(encode_utf8(a) + encode_utf8(b) =~= encode_utf8(b));
    } else {
        lemma_encode_concat(a.drop_first(), b);
        assert((a + b).drop_first() =~= a.drop_first() + b);
        assert((a + b)[0] == a[0]);
        assert(encode_utf8(a + b) =~= encode_utf8(a) + encode_utf8(b));
    }
}

/// The header block is as long as the header text in bytes, its padding
/// and the newline together.
proof fn lemma_block_len(text: Seq<char>)
    ensures
        header_block(text).len() == encode_utf8(text).len() + padding(encode_utf8(text).len())
            + 1,
{
    let pad = spaces(padding(encode_utf8(text).len()));
    let end = seq!['\n'];
    lemma_encode_concat(text + pad, end);
    lemma_encode_concat(text, pad);
    assert(is_ascii_chars(pad));
    assert(is_ascii_chars(end));
    is_ascii_chars_encode_utf8(pad);
    is_ascii_chars_encode_utf8(end);
}

/// Whatever the header text, the marker, the version, the two-byte length
/// and the header block together take a multiple of 16 bytes, so that the
/// payload starts at one.
pub proof fn lemma_header_padding(text: Seq<char>)
    ensures
        (6 + 2 + 2 + header_block(text).len()) % 16 == 0,
{
    lemma_block_len(text);
}

/// The bytes before the payload of a written array are a multiple of 16.
pub proof fn lemma_payload_aligned(a: ArrayView, bytes: Seq<u8>)
    requires
        encoding(a) == Ok::<Seq<u8>, FormatErrorView>(bytes),
    ensures
        bytes.len() >= payload(a.data).len(),
        (bytes.len() - payload(a.data).len()) % 16 == 0,
        bytes.subrange(bytes.len() - payload(a.data).len(), bytes.len() as int) == payload(
            a.data,
        ),
{
    let text = format_header(header_of(a))->Ok_0;
    lemma_header_padding(text);
    let block = header_block(text);
    assert(bytes == message(block, a.data));
    assert(bytes.len() == 10 + block.len() + payload(a.data).len());
    assert(bytes.subrange(bytes.len() - payload(a.data).len(), bytes.len() as int) =~= payload(
        a.data,
    ));
}

/// The header block is read as the padded header text.
proof fn lemma_block_text(text: Seq<char>)
    ensures
        lossy_text(header_block(text)) == padded(text),
{
    encode_utf8_valid_utf8(padded(text));
    encode_utf8_decode_utf8(padded(text));
}

/// Each element takes eight bytes of the payload, in order.
proof fn lemma_payload(data: Seq<u64>, i: int)
    requires
        0 <= i < data.len(),
    ensures
        payload(data).len() == 8 * data.len(),
        payload(data).subrange(8 * i, 8 * i + 8) == spec_u64_to_le_bytes(data[i]),
    decreases data.len(),
{
    lemma_auto_spec_u64_to_from_le_bytes();
    let init = data.drop_last();
    let last = spec_u64_to_le_bytes(data.last());
    lemma_payload_len(init);
    if i == data.len() - 1 {
        assert(payload(data).subrange(8 * i, 8 * i + 8) =~= last);
    } else {
        lemma_payload(init, i);
        assert(payload(data).subrange(8 * i, 8 * i + 8) =~= payload(init).subrange(
            8 * i,
            8 * i + 8,
        ));
    }
}

/// The payload takes eight bytes for each element.
proof fn lemma_payload_len(data: Seq<u64>)
    ensures
        payload(data).len() == 8 * data.len(),
    decreases data.len(),
{
    lemma_auto_spec_u64_to_from_le_bytes();
    if data.len() > 0 {
        lemma_payload_len(data.drop_last());
    }
}

/// The elements are read back from their payload, whatever follows it.
proof fn lemma_values_of_payload(data: Seq<u64>, rest: Seq<u8>)
    ensures
        values(payload(data) + rest, data.len()) == data,
{
    lemma_auto_spec_u64_to_from_le_bytes();
    lemma_payload_len(data);
    let bytes = payload(data) + rest;
    let read = values(bytes, data.len());
    assert forall|i: int| 0 <= i < data.len() implies #[trigger] read[i] == data[i] by {
        lemma_payload(data, i);
        assert(bytes.subrange(8 * i, 8 * i + 8) =~= payload(data).subrange(8 * i, 8 * i + 8));
    }
    assert(read =~= data);
}

/// Two bytes write a length below 65536, least significant byte first.
proof fn lemma_length_bytes(len: nat)
    requires
        len <= 0xffff,
    ensures
        le_value(seq![(len % 256) as u8, (len / 256) as u8]) == len,
{
    reveal_with_fuel(le_value, 3);
    let s = seq![(len % 256) as u8, (len / 256) as u8];
    assert(s.skip(1).skip(1) =~= Seq::<u8>::empty());
    assert(s.skip(1)[0] == (len / 256) as u8);
}

/// What is written is read back: an array that can be written is read
/// from its bytes, whatever follows them on the stream, with the same shape
/// and the same elements, as an array of 64-bit floats.
pub proof fn lemma_round_trip(a: ArrayView, bytes: Seq<u8>, rest: Seq<u8>)
    requires
        a.wf(),
        encoding(a) == Ok::<Seq<u8>, FormatErrorView>(bytes),
    ensures
        decode(bytes + rest) == Ok::<ArrayView, ErrorView>(
            ArrayView { dtype: DType::F64, shape: a.shape, data: a.data },
        ),
{
    let h = header_of(a);
    let code = a.dtype.code()->Some_0;
    let text = header_text(code, a.shape);
    assert(format_header(h) == Ok::<Seq<char>, FormatErrorView>(text));
    let block = header_block(text);
    let len = block.len() as int;
    let size = seq![(len % 256) as u8, (len / 256) as u8];
    let w = bytes + rest;
    assert(bytes == message(block, a.data));
    lemma_payload_len(a.data);
    lemma_length_bytes(len as nat);
    assert(w.subrange(0, 6) =~= magic());
    assert(w[6] == 1);
    assert(w.subrange(8, 10) =~= size);
    assert(w.subrange(10, 10 + len) =~= block);
    lemma_block_text(text);
    let tail = spaces(padding(encode_utf8(text).len())) + seq!['\n'];
    assert(padded(text) =~= text + tail);
    assert forall|i: int| 0 <= i < tail.len() implies CharSet::Braces.has(#[trigger] tail[i]) by {
        assert(is_whitespace(tail[i]));
    }
    lemma_parse_written(a.dtype, a.shape, tail);
    assert(preamble(w)->Ok_0.text == padded(text));
    assert(w.skip(10 + len) =~= payload(a.data) + rest);
    lemma_values_of_payload(a.data, rest);
}

/// A stream that does not start with the magic marker is refused as soon
/// as its first six bytes are there: the reader asks for those six, and
/// fails on them with a framing error, whatever follows.
pub proof fn lemma_bad_magic_rejected(bytes: Seq<u8>)
    requires
        bytes.len() >= 6,
        bytes.subrange(0, 6) != magic(),
    ensures
        decode(bytes) == Err::<ArrayView, ErrorView>(
            ErrorView::Framing(FramingError::MagicMismatch),
        ),
        wanted(ReaderState::Magic) == Some(6nat),
        step(ReaderState::Magic, bytes.subrange(0, 6)) == Err::<ReaderState, ErrorView>(
            ErrorView::Framing(FramingError::MagicMismatch),
        ),
{
}

/// A header that the codec reads as column-major ends the reading on the
/// spot: the reader fails on the header block, before it has asked for any
/// byte of the payload.
pub proof fn lemma_fortran_order_stops_reader(chunk: Seq<u8>)
    requires
        parse_header(lossy_text(chunk)) matches Ok(h) && h.fortran_order,
    ensures
        step(ReaderState::Text { len: chunk.len() }, chunk) == Err::<ReaderState, ErrorView>(
            ErrorView::Format(bare_fault(FormatErrorKind::FortranOrder)),
        ),
{
}

/// A stream whose header is read as column-major fails with a format
/// error, whether its payload is there or not.
pub proof fn lemma_fortran_order_rejected(bytes: Seq<u8>)
    requires
        preamble(bytes) is Ok,
        parse_header(preamble(bytes)->Ok_0.text) matches Ok(h) && h.fortran_order,
    ensures
        decode(bytes) == Err::<ArrayView, ErrorView>(
            ErrorView::Format(bare_fault(FormatErrorKind::FortranOrder)),
        ),
{
}

/// An array that is read has as many elements as its shape demands, and is
/// of 64-bit floats.
pub proof fn lemma_decoded_array(bytes: Seq<u8>)
    requires
        decode(bytes) is Ok,
    ensures
        decode(bytes)->Ok_0.wf(),
        decode(bytes)->Ok_0.dtype == DType::F64,
{
}

/// What follows an array on the stream does not change what is read.
pub proof fn lemma_decode_prefix(bytes: Seq<u8>, rest: Seq<u8>)
    requires
        decode(bytes) is Ok,
    ensures
        decode(bytes + rest) == decode(bytes),
{
    let w = bytes + rest;
    let width: int = if bytes[6] == 1 {
        2
    } else {
        4
    };
    assert(w.subrange(0, 6) =~= bytes.subrange(0, 6));
    assert(w[6] == bytes[6]);
    assert(w.subrange(8, 8 + width) =~= bytes.subrange(8, 8 + width));
    let len = le_value(bytes.subrange(8, 8 + width));
    assert(w.subrange(8 + width, 8 + width + len) =~= bytes.subrange(
        8 + width,
        8 + width + len,
    ));
    let p = preamble(bytes)->Ok_0;
    assert(preamble(w) == preamble(bytes));
    let h = parse_header(p.text)->Ok_0;
    let n = element_count(h.shape);
    let a = values(bytes.skip(p.len as int), n);
    let b = values(w.skip(p.len as int), n);
    assert forall|i: int| 0 <= i < n implies #[trigger] a[i] == b[i] by {
        assert(bytes.skip(p.len as int).subrange(8 * i, 8 * i + 8) =~= w.skip(
            p.len as int,
        ).subrange(8 * i, 8 * i + 8));
    }
    assert(a =~= b);
}

} // verus!
