//! The header of an array on the wire: a line of `key: value` fields that
//! gives the element kind, the memory order and the shape.

use crate::dtype::{code_dtype, DType};
use crate::error::{bare_fault, fault, FormatError, FormatErrorKind, FormatErrorView};
use crate::text::{
    chars_of, decimal, is_text, parse_usize, parsed_usize, push_decimal, push_text, split,
    split_on, string_of, trim, trimmed, views, CharSet,
};
use vstd::prelude::*;

verus! {

/// What a header says of an array.
#[derive(Clone, Debug, PartialEq, Eq)]
pub struct Header {
    /// The element kind.
    pub descr: DType,
    /// Whether the data is in column-major order.
    pub fortran_order: bool,
    /// The size of each dimension, outermost first.
    pub shape: Vec<usize>,
}

/// The mathematical content of a `Header`.
pub struct HeaderView {
    pub descr: DType,
    pub fortran_order: bool,
    pub shape: Seq<usize>,
}

impl View for Header {
    type V = HeaderView;

    open spec fn view(&self) -> HeaderView {
        HeaderView { descr: self.descr, fortran_order: self.fortran_order, shape: self.shape@ }
    }
}

/// The header text without the braces, commas and whitespace around it.
pub open spec fn body(text: Seq<char>) -> Seq<char> {
    trimmed(text, CharSet::Braces)
}

/// The fields of a header: its body, split at the commas outside
/// parentheses.
pub open spec fn fields(text: Seq<char>) -> Seq<Seq<char>> {
    split(body(text), ',', true)
}

/// Whether a field holds whitespace only.
pub open spec fn is_blank(field: Seq<char>) -> bool {
    trimmed(field, CharSet::Space).len() == 0
}

/// A key with the value that a field gives it.
pub struct Entry {
    pub key: Seq<char>,
    pub value: Seq<char>,
}

/// The key and the value of a field: the two sides of its one colon, each
/// without the quotes and whitespace around it. A field with no colon, or
/// with more than one, has none.
pub open spec fn entry(field: Seq<char>) -> Option<Entry> {
    let sides = split(trimmed(field, CharSet::Space), ':', false);
    if sides.len() == 2 {
        Some(
            Entry {
                key: trimmed(sides[0], CharSet::Quotes),
                value: trimmed(sides[1], CharSet::Quotes),
            },
        )
    } else {
        None
    }
}

/// Whether every field is blank or has a key and a value.
pub open spec fn well_formed(fields: Seq<Seq<char>>) -> bool {
    forall|i: int|
        0 <= i < fields.len() ==> is_blank(#[trigger] fields[i]) || entry(fields[i]) is Some
}

/// The value that a field gives to `key`, if it is a field for that key.
pub open spec fn binding(field: Seq<char>, key: Seq<char>) -> Option<Seq<char>> {
    match entry(field) {
        Some(e) => if !is_blank(field) && e.key == key {
            Some(e.value)
        } else {
            None
        },
        None => None,
    }
}

/// The value that the fields give to `key`: that of the last field with
/// this key.
pub open spec fn lookup(fields: Seq<Seq<char>>, key: Seq<char>) -> Option<Seq<char>>
    decreases fields.len(),
{
    if fields.len() == 0 {
        None
    } else if binding(fields.last(), key) is Some {
        binding(fields.last(), key)
    } else {
        lookup(fields.drop_last(), key)
    }
}

/// The memory order that the value of `fortran_order` states; row-major
/// where the field is absent.
pub open spec fn fortran_order_of(value: Option<Seq<char>>) -> Result<bool, FormatErrorView> {
    match value {
        None => Ok(false),
        Some(v) => if v == "False"@ {
            Ok(false)
        } else if v == "True"@ {
            Ok(true)
        } else {
            Err(fault(FormatErrorKind::FortranOrderValue, v))
        },
    }
}

/// The element kind that the value of `descr` states: a type code with any
/// of the markers `=`, `<`, `|` around it, and no `>` in front.
pub open spec fn descr_of(value: Option<Seq<char>>) -> Result<DType, FormatErrorView> {
    match value {
        None => Err(bare_fault(FormatErrorKind::MissingDescr)),
        Some(v) => if v.len() == 0 {
            Err(bare_fault(FormatErrorKind::EmptyDescr))
        } else if v[0] == '>' {
            Err(fault(FormatErrorKind::BigEndian, v))
        } else {
            match code_dtype(trimmed(v, CharSet::Markers)) {
                Some(d) => Ok(d),
                None => Err(fault(FormatErrorKind::UnknownDescr, trimmed(v, CharSet::Markers))),
            }
        },
    }
}

/// The dimensions that the pieces of a shape write, or the error about the
/// first piece that writes none.
pub open spec fn dims_of(pieces: Seq<Seq<char>>) -> Result<Seq<usize>, FormatErrorView>
    decreases pieces.len(),
{
    if pieces.len() == 0 {
        Ok(Seq::<usize>::empty())
    } else {
        match dims_of(pieces.drop_last()) {
            Err(e) => Err(e),
            Ok(dims) => match parsed_usize(trimmed(pieces.last(), CharSet::Space)) {
                Some(d) => Ok(dims.push(d)),
                None => Err(
                    fault(
                        FormatErrorKind::InvalidDimension,
                        trimmed(pieces.last(), CharSet::Space),
                    ),
                ),
            },
        }
    }
}

/// The shape that the value of `shape` states: numbers separated by commas,
/// with any parentheses and commas around them; none at all for a scalar.
pub open spec fn shape_of(value: Option<Seq<char>>) -> Result<Seq<usize>, FormatErrorView> {
    match value {
        None => Err(bare_fault(FormatErrorKind::MissingShape)),
        Some(v) => if trimmed(v, CharSet::Parens).len() == 0 {
            Ok(Seq::<usize>::empty())
        } else {
            dims_of(split(trimmed(v, CharSet::Parens), ',', false))
        },
    }
}

/// What a header text says, or why it is not a header. A malformed field is
/// reported first, then the fields are read in the order `fortran_order`,
/// `descr`, `shape`.
pub open spec fn parse_header(text: Seq<char>) -> Result<HeaderView, FormatErrorView> {
    let all = fields(text);
    if !well_formed(all) {
        Err(fault(FormatErrorKind::MalformedField, body(text)))
    } else {
        match fortran_order_of(lookup(all, "fortran_order"@)) {
            Err(e) => Err(e),
            Ok(fortran_order) => match descr_of(lookup(all, "descr"@)) {
                Err(e) => Err(e),
                Ok(descr) => match shape_of(lookup(all, "shape"@)) {
                    Err(e) => Err(e),
                    Ok(shape) => Ok(HeaderView { descr, fortran_order, shape }),
                },
            },
        }
    }
}

/// The number of elements of an array of the given shape: the product of
/// its dimensions, which is 1 for a scalar.
pub open spec fn element_count(shape: Seq<usize>) -> nat
    decreases shape.len(),
{
    if shape.len() == 0 {
        1
    } else {
        element_count(shape.drop_last()) * (shape.last() as nat)
    }
}

/// The text of a shape's dimensions: each in decimal, followed by a comma.
pub open spec fn dims_text(shape: Seq<usize>) -> Seq<char>
    decreases shape.len(),
{
    if shape.len() == 0 {
        Seq::<char>::empty()
    } else {
        dims_text(shape.drop_last()) + decimal(shape.last() as nat) + seq![',']
    }
}

/// The text of a field: the key in quotes, a colon, a space, the value.
pub open spec fn entry_text(key: Seq<char>, value: Seq<char>) -> Seq<char> {
    "'"@ + key + "': "@ + value
}

/// The text of a header, for an element kind with the type code `code`:
/// the three fields `descr`, `fortran_order` and `shape` in braces, each
/// followed by a comma. The type code is marked little-endian, and the
/// memory order is always given as row-major: `True` is never written.
pub open spec fn header_text(code: Seq<char>, shape: Seq<usize>) -> Seq<char> {
    "{"@ + entry_text("descr"@, "'<"@ + code + "'"@) + ", "@ + entry_text(
        "fortran_order"@,
        "False"@,
    ) + ", "@ + entry_text("shape"@, "("@ + dims_text(shape) + ")"@) + ", }"@
}

/// The text that writes a header, or the error for an element kind that
/// has no type code.
pub open spec fn format_header(h: HeaderView) -> Result<Seq<char>, FormatErrorView> {
    match h.descr.code() {
        Some(code) => Ok(header_text(code, h.shape)),
        None => Err(bare_fault(FormatErrorKind::UnsupportedDType)),
    }
}

/// The text behind an optional slice.
pub open spec fn text_of(value: Option<&[char]>) -> Option<Seq<char>> {
    match value {
        Some(v) => Some(v@),
        None => None,
    }
}

/// Reads the value of `fortran_order`.
fn read_fortran_order(value: Option<&[char]>) -> (r: Result<bool, FormatError>)
    ensures
        match r {
            Ok(b) => fortran_order_of(text_of(value)) == Ok::<bool, FormatErrorView>(b),
            Err(e) => fortran_order_of(text_of(value)) == Err::<bool, FormatErrorView>(e@),
        },
{
    match value {
        None => Ok(false),
        Some(v) => {
            if is_text(v, "False") {
                Ok(false)
            } else if is_text(v, "True") {
                Ok(true)
            } else {
                Err(FormatError::new(FormatErrorKind::FortranOrderValue, v))
            }
        },
    }
}

/// Reads the value of `descr`.
fn read_descr(value: Option<&[char]>) -> (r: Result<DType, FormatError>)
    ensures
        match r {
            Ok(d) => descr_of(text_of(value)) == Ok::<DType, FormatErrorView>(d),
            Err(e) => descr_of(text_of(value)) == Err::<DType, FormatErrorView>(e@),
        },
{
    match value {
        None => Err(FormatError::bare(FormatErrorKind::MissingDescr)),
        Some(v) => {
            if v.len() == 0 {
                return Err(FormatError::bare(FormatErrorKind::EmptyDescr));
            }
            if v[0] == '>' {
                return Err(FormatError::new(FormatErrorKind::BigEndian, v));
            }
            let code = trim(v, CharSet::Markers);
            match DType::from_code(code) {
                Some(d) => Ok(d),
                None => Err(FormatError::new(FormatErrorKind::UnknownDescr, code)),
            }
        },
    }
}

/// Reads the value of `shape`.
fn read_shape(value: Option<&[char]>) -> (r: Result<Vec<usize>, FormatError>)
    ensures
        match r {
            Ok(s) => shape_of(text_of(value)) == Ok::<Seq<usize>, FormatErrorView>(s@),
            Err(e) => shape_of(text_of(value)) == Err::<Seq<usize>, FormatErrorView>(e@),
        },
{
    match value {
        None => Err(FormatError::bare(FormatErrorKind::MissingShape)),
        Some(v) => {
            let inner = trim(v, CharSet::Parens);
            let mut dims: Vec<usize> = Vec::new();
            if inner.len() == 0 {
                return Ok(dims);
            }
            let pieces = split_on(inner, ',', false);
            let ghost all = views(pieces@);
            let n = pieces.len();
            let mut i: usize = 0;
            assert(all.take(0) =~= Seq::<Seq<char>>::empty());
            while i < n
                invariant
                    n == pieces@.len(),
                    i <= n,
                    all == views(pieces@),
                    dims_of(all.take(i as int)) == Ok::<Seq<usize>, FormatErrorView>(dims@),
                    shape_of(text_of(value)) == dims_of(all),
                decreases n - i,
            {
                let piece = trim(pieces[i], CharSet::Space);
                assert(all.take(i + 1).drop_last() =~= all.take(i as int));
                assert(all.take(i + 1).last() == pieces@[i as int]@);
                match parse_usize(piece) {
                    Some(d) => {
                        dims.push(d);
                    },
                    None => {
                        proof {
                            lemma_dims_of_fails(all, i + 1);
                        }
                        return Err(FormatError::new(FormatErrorKind::InvalidDimension, piece));
                    },
                }
                i += 1;
            }
            assert(all.take(n as int) =~= all);
            Ok(dims)
        },
    }
}

/// Once the first `n` pieces of a shape fail, so does the whole, with the
/// same error.
proof fn lemma_dims_of_fails(pieces: Seq<Seq<char>>, n: int)
    requires
        0 <= n <= pieces.len(),
        dims_of(pieces.take(n)) is Err,
    ensures
        dims_of(pieces) == dims_of(pieces.take(n)),
    decreases pieces.len(),
{
    if n == pieces.len() {
        assert(pieces.take(n) =~= pieces);
    } else {
        assert(pieces.drop_last().take(n) =~= pieces.take(n));
        lemma_dims_of_fails(pieces.drop_last(), n);
    }
}

/// A product of dimensions that are all at least 1 is no smaller than the
/// product of the leading ones.
proof fn lemma_element_count_grows(shape: Seq<usize>, n: int)
    requires
        0 <= n <= shape.len(),
        forall|i: int| 0 <= i < shape.len() ==> shape[i] >= 1,
    ensures
        element_count(shape.take(n)) <= element_count(shape),
    decreases shape.len(),
{
    if n == shape.len() {
        assert(shape.take(n) =~= shape);
    } else {
        assert(shape.drop_last().take(n) =~= shape.take(n));
        lemma_element_count_grows(shape.drop_last(), n);
        let head = element_count(shape.drop_last());
        let last = shape.last() as nat;
        assert(head <= head * last) by (nonlinear_arith)
            requires
                last >= 1,
        ;
    }
}

/// A product with a zero among its dimensions is zero.
proof fn lemma_element_count_zero(shape: Seq<usize>, k: int)
    requires
        0 <= k < shape.len(),
        shape[k] == 0,
    ensures
        element_count(shape) == 0,
    decreases shape.len(),
{
    if k == shape.len() - 1 {
        assert(element_count(shape.drop_last()) * 0 == 0);
    } else {
        lemma_element_count_zero(shape.drop_last(), k);
        assert(0 * (shape.last() as nat) == 0);
    }
}

/// The number of elements of an array of the given shape, where `usize`
/// can hold it.
pub fn elem_count(shape: &[usize]) -> (r: Option<usize>)
    ensures
        r == (if element_count(shape@) <= usize::MAX {
            Some(element_count(shape@) as usize)
        } else {
            None
        }),
{
    let n = shape.len();
    let mut k: usize = 0;
    while k < n
        invariant
            n == shape@.len(),
            k <= n,
            forall|i: int| 0 <= i < k ==> shape@[i] >= 1,
        decreases n - k,
    {
        if shape[k] == 0 {
            proof {
                lemma_element_count_zero(shape@, k as int);
            }
            return Some(0);
        }
        k += 1;
    }
    let mut count: usize = 1;
    let mut i: usize = 0;
    assert(shape@.take(0) =~= Seq::<usize>::empty());
    while i < n
        invariant
            n == shape@.len(),
            i <= n,
            forall|j: int| 0 <= j < n ==> shape@[j] >= 1,
            count == element_count(shape@.take(i as int)),
        decreases n - i,
    {
        assert(shape@.take(i + 1).drop_last() =~= shape@.take(i as int));
        proof {
            lemma_element_count_grows(shape@, i + 1);
        }
        count = match count.checked_mul(shape[i]) {
            Some(c) => c,
            None => { return None; },
        };
        i += 1;
    }
    assert(shape@.take(n as int) =~= shape@);
    Some(count)
}

/// Appends a field to `out`.
fn push_entry(out: &mut Vec<char>, key: &str, value: &[char])
    ensures
        final(out)@ == old(out)@ + entry_text(key@, value@),
{
    let mut entry = chars_of("'");
    push_text(&mut entry, key);
    push_text(&mut entry, "': ");
    entry.extend_from_slice(value);
    out.extend_from_slice(entry.as_slice());
}

/// The text of a shape's dimensions.
fn dims_chars(shape: &[usize]) -> (r: Vec<char>)
    ensures
        r@ == dims_text(shape@),
{
    let mut out: Vec<char> = Vec::new();
    let n = shape.len();
    let mut i: usize = 0;
    assert(shape@.take(0) =~= Seq::<usize>::empty());
    while i < n
        invariant
            n == shape@.len(),
            i <= n,
            out@ == dims_text(shape@.take(i as int)),
        decreases n - i,
    {
        assert(shape@.take(i + 1).drop_last() =~= shape@.take(i as int));
        push_decimal(&mut out, shape[i]);
        out.push(',');
        assert(out@ =~= dims_text(shape@.take(i + 1)));
        i += 1;
    }
    assert(shape@.take(n as int) =~= shape@);
    out
}

impl Header {
    /// The size of each dimension, outermost first.
    pub fn shape(&self) -> (r: &[usize])
        ensures
            r@ == self@.shape,
    {
        self.shape.as_slice()
    }

    /// Writes the header as text. The memory order is written as
    /// row-major whatever the header says.
    pub fn to_string(&self) -> (r: Result<String, FormatError>)
        ensures
            match r {
                Ok(s) => format_header(self@) == Ok::<Seq<char>, FormatErrorView>(s@),
                Err(e) => format_header(self@) == Err::<Seq<char>, FormatErrorView>(e@),
            },
    {
        let mut descr = chars_of("'<");
        match self.descr {
            DType::BF16 => { return Err(FormatError::bare(FormatErrorKind::UnsupportedDType)); },
            DType::F16 => push_text(&mut descr, "f2"),
            DType::F32 => push_text(&mut descr, "f4"),
            DType::F64 => push_text(&mut descr, "f8"),
            DType::U32 => push_text(&mut descr, "u4"),
            DType::U8 => push_text(&mut descr, "u1"),
        }
        push_text(&mut descr, "'");
        assert(descr@ == "'<"@ + self.descr.code()->0 + "'"@);
        let order = chars_of("False");
        let mut shape = chars_of("(");
        let dims = dims_chars(self.shape.as_slice());
        shape.extend_from_slice(dims.as_slice());
        push_text(&mut shape, ")");
        assert(shape@ == "("@ + dims_text(self.shape@) + ")"@);
        let mut out = chars_of("{");
        push_entry(&mut out, "descr", descr.as_slice());
        push_text(&mut out, ", ");
        push_entry(&mut out, "fortran_order", order.as_slice());
        push_text(&mut out, ", ");
        push_entry(&mut out, "shape", shape.as_slice());
        push_text(&mut out, ", }");
        assert(out@ == header_text(self.descr.code()->0, self.shape@));
        Ok(string_of(out.as_slice()))
    }

    /// Reads a header from its text.
    pub fn parse(header: &str) -> (r: Result<Header, FormatError>)
        ensures
            match r {
                Ok(h) => parse_header(header@) == Ok::<HeaderView, FormatErrorView>(h@),
                Err(e) => parse_header(header@) == Err::<HeaderView, FormatErrorView>(e@),
            },
    {
        let chars = chars_of(header);
        let inner = trim(chars.as_slice(), CharSet::Braces);
        let parts = split_on(inner, ',', true);
        let ghost all = views(parts@);
        assert(all == fields(header@));
        let mut fortran_order: Option<&[char]> = None;
        let mut descr: Option<&[char]> = None;
        let mut shape: Option<&[char]> = None;
        let n = parts.len();
        let mut i: usize = 0;
        while i < n
            invariant
                n == parts@.len(),
                i <= n,
                all == views(parts@),
                all == fields(header@),
                inner@ == body(header@),
                well_formed(all.take(i as int)),
                text_of(fortran_order) == lookup(all.take(i as int), "fortran_order"@),
                text_of(descr) == lookup(all.take(i as int), "descr"@),
                text_of(shape) == lookup(all.take(i as int), "shape"@),
            decreases n - i,
        {
            let part = trim(parts[i], CharSet::Space);
            let ghost field = all[i as int];
            assert(field == parts@[i as int]@);
            assert(all.take(i + 1).drop_last() =~= all.take(i as int));
            assert(all.take(i + 1).last() == field);
            if part.len() > 0 {
                let sides = split_on(part, ':', false);
                if sides.len() != 2 {
                    assert(entry(field) is None);
                    assert(!well_formed(all));
                    return Err(FormatError::new(FormatErrorKind::MalformedField, inner));
                }
                let key = trim(sides[0], CharSet::Quotes);
                let value = trim(sides[1], CharSet::Quotes);
                assert(entry(field) == Some(Entry { key: key@, value: value@ }));
                if is_text(key, "fortran_order") {
                    fortran_order = Some(value);
                }
                if is_text(key, "descr") {
                    descr = Some(value);
                }
                if is_text(key, "shape") {
                    shape = Some(value);
                }
            }
            assert(well_formed(all.take(i + 1))) by {
                assert forall|j: int| 0 <= j < i + 1 implies is_blank(#[trigger] all.take(i + 1)[j])
                    || entry(all.take(i + 1)[j]) is Some by {
                    if j < i {
                        assert(all.take(i + 1)[j] == all.take(i as int)[j]);
                    }
                }
            }
            i += 1;
        }
        assert(all.take(n as int) =~= all);
        let fortran_order = match read_fortran_order(fortran_order) {
            Ok(b) => b,
            Err(e) => { return Err(e); },
        };
        let descr = match read_descr(descr) {
            Ok(d) => d,
            Err(e) => { return Err(e); },
        };
        let shape = match read_shape(shape) {
            Ok(s) => s,
            Err(e) => { return Err(e); },
        };
        Ok(Header { descr, fortran_order, shape })
    }
}

} // verus!
