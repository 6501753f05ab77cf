//! Text primitives of the header grammar: character sets, trimming,
//! splitting and decimal numbers, each as a mathematical function on
//! `Seq<char>` with an executable counterpart on `&[char]`.

use vstd::prelude::*;
use vstd::slice::slice_subrange;
use vstd::utf8::{decode_utf8, valid_utf8};

verus! {

/// Whether `c` has the Unicode property `White_Space`.
pub open spec fn is_whitespace(c: char) -> bool {
    ||| '\u{9}' <= c <= '\u{d}'
    ||| c == ' '
    ||| c == '\u{85}'
    ||| c == '\u{a0}'
    ||| c == '\u{1680}'
    ||| '\u{2000}' <= c <= '\u{200a}'
    ||| c == '\u{2028}'
    ||| c == '\u{2029}'
    ||| c == '\u{202f}'
    ||| c == '\u{205f}'
    ||| c == '\u{3000}'
}

/// Decides `is_whitespace`.
pub fn whitespace(c: char) -> (r: bool)
    ensures
        r == is_whitespace(c),
{
    ('\u{9}' <= c && c <= '\u{d}') || c == ' ' || c == '\u{85}' || c == '\u{a0}' || c
        == '\u{1680}' || ('\u{2000}' <= c && c <= '\u{200a}') || c == '\u{2028}' || c
        == '\u{2029}' || c == '\u{202f}' || c == '\u{205f}' || c == '\u{3000}'
}

/// The sets of characters that the grammar strips from the ends of a piece
/// of text.
#[derive(Clone, Copy, Debug, PartialEq, Eq)]
pub enum CharSet {
    /// Braces, commas and whitespace: what surrounds the whole header.
    Braces,
    /// Whitespace alone.
    Space,
    /// Single quotes and whitespace: what surrounds a key or a value.
    Quotes,
    /// The byte-order markers `=`, `<` and `|` of a type code.
    Markers,
    /// Parentheses and commas: what surrounds the dimensions of a shape.
    Parens,
}

impl CharSet {
    /// Membership of `c` in the set.
    pub open spec fn has(self, c: char) -> bool {
        match self {
            CharSet::Braces => c == '{' || c == '}' || c == ',' || is_whitespace(c),
            CharSet::Space => is_whitespace(c),
            CharSet::Quotes => c == '\'' || is_whitespace(c),
            CharSet::Markers => c == '=' || c == '<' || c == '|',
            CharSet::Parens => c == '(' || c == ')' || c == ',',
        }
    }

    /// Decides `has`.
    pub fn contains(self, c: char) -> (r: bool)
        ensures
            r == self.has(c),
    {
        match self {
            CharSet::Braces => c == '{' || c == '}' || c == ',' || whitespace(c),
            CharSet::Space => whitespace(c),
            CharSet::Quotes => c == '\'' || whitespace(c),
            CharSet::Markers => c == '=' || c == '<' || c == '|',
            CharSet::Parens => c == '(' || c == ')' || c == ',',
        }
    }
}

/// `s` without its longest prefix of characters of `set`.
pub open spec fn trim_start(s: Seq<char>, set: CharSet) -> Seq<char>
    decreases s.len(),
{
    if s.len() > 0 && set.has(s[0]) {
        trim_start(s.skip(1), set)
    } else {
        s
    }
}

/// `s` without its longest suffix of characters of `set`.
pub open spec fn trim_end(s: Seq<char>, set: CharSet) -> Seq<char>
    decreases s.len(),
{
    if s.len() > 0 && set.has(s.last()) {
        trim_end(s.drop_last(), set)
    } else {
        s
    }
}

/// `s` with the characters of `set` stripped from both ends.
pub open spec fn trimmed(s: Seq<char>, set: CharSet) -> Seq<char> {
    trim_end(trim_start(s, set), set)
}

/// Strips the characters of `set` from both ends of `s`.
pub fn trim<'a>(s: &'a [char], set: CharSet) -> (r: &'a [char])
    ensures
        r@ == trimmed(s@, set),
{
    let n = s.len();
    let mut start: usize = 0;
    assert(s@.skip(0) =~= s@);
    while start < n && set.contains(s[start])
        invariant
            n == s@.len(),
            start <= n,
            trim_start(s@, set) == trim_start(s@.skip(start as int), set),
        decreases n - start,
    {
        assert(s@.skip(start as int).skip(1) =~= s@.skip(start + 1));
        start += 1;
    }
    let ghost front = s@.skip(start as int);
    assert(trim_start(s@, set) == front);
    let mut end: usize = n;
    while end > start && set.contains(s[end - 1])
        invariant
            n == s@.len(),
            start <= end <= n,
            front == s@.skip(start as int),
            trim_end(front, set) == trim_end(s@.subrange(start as int, end as int), set),
        decreases end,
    {
        assert(s@.subrange(start as int, end as int).drop_last() =~= s@.subrange(
            start as int,
            end - 1,
        ));
        end -= 1;
    }
    slice_subrange(s, start, end)
}

/// The change in parenthesis depth that `c` makes.
pub open spec fn paren_step(c: char) -> int {
    if c == '(' {
        1
    } else if c == ')' {
        -1
    } else {
        0
    }
}

/// Opening minus closing parentheses among the first `i` characters of `s`.
pub open spec fn depth(s: Seq<char>, i: int) -> int
    decreases i,
{
    if i <= 0 {
        0
    } else {
        depth(s, i - 1) + paren_step(s[i - 1])
    }
}

/// Marks the positions at which `s` is split: those that hold `sep` and,
/// where `top_level` is set, stand outside any parentheses.
pub open spec fn cuts(s: Seq<char>, sep: char, top_level: bool) -> Seq<bool> {
    Seq::new(s.len(), |i: int| s[i] == sep && (top_level ==> depth(s, i) == 0))
}

/// The pieces into which the marked positions of `cut` divide the first `n`
/// characters of `s`. There is always at least one piece; the marked
/// characters themselves belong to none.
pub open spec fn split_prefix(s: Seq<char>, cut: Seq<bool>, n: int) -> Seq<Seq<char>>
    decreases n,
{
    if n <= 0 {
        seq![Seq::<char>::empty()]
    } else {
        let before = split_prefix(s, cut, n - 1);
        if cut[n - 1] {
            before.push(Seq::<char>::empty())
        } else {
            before.drop_last().push(before.last().push(s[n - 1]))
        }
    }
}

/// The pieces of `s` between the occurrences of `sep` (those outside
/// parentheses only, where `top_level` is set).
pub open spec fn split(s: Seq<char>, sep: char, top_level: bool) -> Seq<Seq<char>> {
    split_prefix(s, cuts(s, sep, top_level), s.len() as int)
}

/// The texts that a sequence of slices holds.
pub open spec fn views(pieces: Seq<&[char]>) -> Seq<Seq<char>> {
    pieces.map_values(|p: &[char]| p@)
}

/// Splits `s` at the occurrences of `sep` (those outside parentheses only,
/// where `top_level` is set).
pub fn split_on<'a>(s: &'a [char], sep: char, top_level: bool) -> (r: Vec<&'a [char]>)
    ensures
        views(r@) == split(s@, sep, top_level),
{
    let n = s.len();
    let ghost cut = cuts(s@, sep, top_level);
    let mut parts: Vec<&'a [char]> = Vec::new();
    let mut start: usize = 0;
    let mut level: i128 = 0;
    let mut i: usize = 0;
    assert(views(parts@).push(s@.subrange(0, 0)) =~~= seq![Seq::<char>::empty()]);
    while i < n
        invariant
            n == s@.len(),
            cut == cuts(s@, sep, top_level),
            start <= i <= n,
            level == depth(s@, i as int),
            -(i as int) <= level <= i,
            split_prefix(s@, cut, i as int) == views(parts@).push(
                s@.subrange(start as int, i as int),
            ),
        decreases n - i,
    {
        let c = s[i];
        let ghost done = views(parts@);
        let ghost current = s@.subrange(start as int, i as int);
        if c == sep && (!top_level || level == 0) {
            let piece = slice_subrange(s, start, i);
            parts.push(piece);
            start = i + 1;
            assert(views(parts@).push(s@.subrange(start as int, i + 1)) =~~= done.push(
                current,
            ).push(Seq::<char>::empty()));
        } else {
            assert(done.push(current).drop_last().push(current.push(c)) =~~= done.push(
                s@.subrange(start as int, i + 1),
            ));
        }
        if c == '(' {
            level += 1;
        } else if c == ')' {
            level -= 1;
        }
        i += 1;
    }
    let ghost done = views(parts@);
    parts.push(slice_subrange(s, start, n));
    assert(views(parts@) =~~= done.push(s@.subrange(start as int, n as int)));
    parts
}

/// Whether `c` is an ASCII decimal digit.
pub open spec fn is_digit(c: char) -> bool {
    '0' <= c <= '9'
}

/// The number that the digit `c` stands for.
pub open spec fn digit_value(c: char) -> nat {
    (c as int - '0' as int) as nat
}

/// Whether `s` holds decimal digits only.
pub open spec fn all_digits(s: Seq<char>) -> bool {
    forall|i: int| 0 <= i < s.len() ==> is_digit(#[trigger] s[i])
}

/// The number that the digits of `s` write in base ten.
pub open spec fn decimal_value(s: Seq<char>) -> nat
    decreases s.len(),
{
    if s.len() == 0 {
        0
    } else {
        10 * decimal_value(s.drop_last()) + digit_value(s.last())
    }
}

/// The digits of `s` once an optional leading `+` is dropped.
pub open spec fn unsigned_digits(s: Seq<char>) -> Seq<char> {
    if s.len() > 0 && s[0] == '+' {
        s.skip(1)
    } else {
        s
    }
}

/// The `usize` that `s` writes: an optional `+`, then one or more decimal
/// digits whose value fits the type. Any other text writes none.
pub open spec fn parsed_usize(s: Seq<char>) -> Option<usize> {
    let digits = unsigned_digits(s);
    if digits.len() > 0 && all_digits(digits) && decimal_value(digits) <= usize::MAX {
        Some(decimal_value(digits) as usize)
    } else {
        None
    }
}

/// A number with more digits is no smaller than the number its leading digits write.
pub proof fn lemma_decimal_value_grows(s: Seq<char>, n: int)
    requires
        0 <= n <= s.len(),
    ensures
        decimal_value(s.take(n)) <= decimal_value(s),
    decreases s.len(),
{
    if n == s.len() {
        assert(s.take(n) =~= s);
    } else {
        assert(s.drop_last().take(n) =~= s.take(n));
        lemma_decimal_value_grows(s.drop_last(), n);
    }
}

/// Reads `s` as a `usize`.
pub fn parse_usize(s: &[char]) -> (r: Option<usize>)
    ensures
        r == parsed_usize(s@),
{
    let n = s.len();
    let first: usize = if n > 0 && s[0] == '+' {
        1
    } else {
        0
    };
    let ghost digits = unsigned_digits(s@);
    assert(digits =~= s@.skip(first as int));
    if first == n {
        return None;
    }
    let mut value: usize = 0;
    let mut i: usize = first;
    assert(digits.take(0) =~= Seq::<char>::empty());
    while i < n
        invariant
            n == s@.len(),
            first <= i <= n,
            digits == s@.skip(first as int),
            digits == unsigned_digits(s@),
            all_digits(digits.take(i - first)),
            value == decimal_value(digits.take(i - first)),
        decreases n - i,
    {
        let c = s[i];
        let ghost head = digits.take(i - first);
        let ghost next = digits.take(i - first + 1);
        assert(next.drop_last() =~= head);
        assert(next.last() == c);
        assert(digits[i - first] == c);
        if !('0' <= c && c <= '9') {
            assert(!is_digit(digits[i - first]));
            assert(!all_digits(digits));
            return None;
        }
        let d: usize = (c as u32 - '0' as u32) as usize;
        assert(d == digit_value(c));
        proof {
            lemma_decimal_value_grows(digits, i - first + 1);
            assert(decimal_value(next) == 10 * decimal_value(head) + digit_value(c));
        }
        let tens = match value.checked_mul(10) {
            Some(t) => t,
            None => { return None; },
        };
        value = match tens.checked_add(d) {
            Some(v) => v,
            None => { return None; },
        };
        assert forall|j: int| 0 <= j < next.len() implies is_digit(#[trigger] next[j]) by {
            if j < head.len() {
                assert(next[j] == head[j]);
            }
        }
        i += 1;
    }
    assert(digits.take(n - first) =~= digits);
    Some(value)
}

/// The character that writes the digit `d`.
pub open spec fn digit_char(d: nat) -> char {
    ('0' as int + d as int) as char
}

/// The decimal digits of `n`, without leading zeros.
pub open spec fn decimal(n: nat) -> Seq<char>
    decreases n,
{
    if n < 10 {
        seq![digit_char(n)]
    } else {
        decimal(n / 10).push(digit_char(n % 10))
    }
}

/// Appends the decimal digits of `n` to `out`.
pub fn push_decimal(out: &mut Vec<char>, n: usize)
    ensures
        final(out)@ == old(out)@ + decimal(n as nat),
    decreases n,
{
    if n >= 10 {
        push_decimal(out, n / 10);
    }
    let d: u8 = (n % 10) as u8;
    let c: char = (48u8 + d) as char;
    assert(c == digit_char((n % 10) as nat));
    out.push(c);
    assert(final(out)@ =~= old(out)@ + decimal(n as nat));
}

/// The characters of `s`, in order.
pub fn chars_of(s: &str) -> (r: Vec<char>)
    ensures
        r@ == s@,
{
    let mut out: Vec<char> = Vec::new();
    for c in it: s.chars()
        invariant
            it.seq() == s@,
            out@ == s@.take(it.index()),
    {
        out.push(c);
    }
    out
}

/// Appends `c` to `s`, by `String::push`, which adds the one character at
/// the end and leaves what was there in place.
#[verifier::external_body]
fn push_char(s: &mut String, c: char)
    ensures
        final(s)@ == old(s)@.push(c),
{
    s.push(c)
}

/// The string that holds the characters of `chars`, in order.
pub fn string_of(chars: &[char]) -> (r: String)
    ensures
        r@ == chars@,
{
    let mut out = String::new();
    let n = chars.len();
    let mut i: usize = 0;
    while i < n
        invariant
            n == chars@.len(),
            i <= n,
            out@ == chars@.take(i as int),
        decreases n - i,
    {
        push_char(&mut out, chars[i]);
        assert(chars@.take(i + 1) =~= chars@.take(i as int).push(chars@[i as int]));
        i += 1;
    }
    assert(chars@.take(n as int) =~= chars@);
    out
}

/// Whether `a` and `b` hold the same text.
pub fn same_text(a: &[char], b: &[char]) -> (r: bool)
    ensures
        r == (a@ == b@),
{
    if a.len() != b.len() {
        return false;
    }
    let n = a.len();
    let mut i: usize = 0;
    while i < n
        invariant
            n == a@.len(),
            n == b@.len(),
            i <= n,
            a@.take(i as int) == b@.take(i as int),
        decreases n - i,
    {
        if a[i] != b[i] {
            return false;
        }
        assert(a@.take(i + 1) =~= a@.take(i as int).push(a@[i as int]));
        assert(b@.take(i + 1) =~= b@.take(i as int).push(b@[i as int]));
        i += 1;
    }
    assert(a@.take(n as int) =~= a@);
    assert(b@.take(n as int) =~= b@);
    true
}

/// Whether `a` holds the text of `literal`.
pub fn is_text(a: &[char], literal: &str) -> (r: bool)
    ensures
        r == (a@ == literal@),
{
    let other = chars_of(literal);
    same_text(a, other.as_slice())
}

/// Appends the text of `literal` to `out`.
pub fn push_text(out: &mut Vec<char>, literal: &str)
    ensures
        final(out)@ == old(out)@ + literal@,
{
    let piece = chars_of(literal);
    out.extend_from_slice(piece.as_slice());
}

/// The text that `String::from_utf8_lossy` makes of bytes that are not
/// valid UTF-8: the characters of the valid stretches, with the replacement
/// character U+FFFD for each invalid one.
pub uninterp spec fn utf8_replaced(bytes: Seq<u8>) -> Seq<char>;

/// The text that bytes stand for when invalid UTF-8 is replaced rather than
/// refused: valid UTF-8 stands for the characters it encodes.
pub open spec fn lossy_text(bytes: Seq<u8>) -> Seq<char> {
    if valid_utf8(bytes) {
        decode_utf8(bytes)
    } else {
        utf8_replaced(bytes)
    }
}

/// Decodes bytes as UTF-8 by `String::from_utf8_lossy`. On valid UTF-8 that
/// function returns the string whose bytes these are, so its characters are
/// the decoded ones; otherwise it returns a string with replacement
/// characters, of which nothing more is claimed than that it depends on
/// the bytes alone.
#[verifier::external_body]
pub(crate) fn decode_lossy(bytes: &[u8]) -> (r: String)
    ensures
        r@ == lossy_text(bytes@),
        !valid_utf8(bytes@) ==> r@ == utf8_replaced(bytes@),
{
    String::from_utf8_lossy(bytes).into_owned()
}

} // verus!
