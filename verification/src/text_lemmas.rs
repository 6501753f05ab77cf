//! Facts about trimming, splitting, joining and decimal numbers.

use crate::text::{
    all_digits, cuts, decimal, decimal_value, depth, digit_value, is_digit, paren_step,
    parsed_usize, split, split_prefix, trim_end, trim_start, trimmed, unsigned_digits, CharSet,
};
use vstd::prelude::*;

verus! {

/// Whether `c` occurs nowhere in `s`.
pub open spec fn free_of(s: Seq<char>, c: char) -> bool {
    forall|i: int| 0 <= i < s.len() ==> #[trigger] s[i] != c
}

/// Trimming the start drops exactly the leading characters of the set.
pub proof fn lemma_trim_start(s: Seq<char>, set: CharSet, k: int)
    requires
        0 <= k <= s.len(),
        forall|i: int| 0 <= i < k ==> set.has(#[trigger] s[i]),
        k < s.len() ==> !set.has(s[k]),
    ensures
        trim_start(s, set) == s.skip(k),
    decreases k,
{
    if k == 0 {
        assert(s.skip(0) =~= s);
    } else {
        assert(set.has(s[0]));
        let rest = s.skip(1);
        assert forall|i: int| 0 <= i < k - 1 implies set.has(#[trigger] rest[i]) by {
            assert(rest[i] == s[i + 1]);
        }
        lemma_trim_start(rest, set, k - 1);
        assert(rest.skip(k - 1) =~= s.skip(k));
    }
}

/// Trimming the end drops exactly the trailing characters of the set.
pub proof fn lemma_trim_end(s: Seq<char>, set: CharSet, k: int)
    requires
        0 <= k <= s.len(),
        forall|i: int| k <= i < s.len() ==> set.has(#[trigger] s[i]),
        k > 0 ==> !set.has(s[k - 1]),
    ensures
        trim_end(s, set) == s.take(k),
    decreases s.len() - k,
{
    if k == s.len() {
        assert(s.take(k) =~= s);
    } else {
        assert(set.has(s[s.len() - 1]));
        let rest = s.drop_last();
        assert forall|i: int| k <= i < rest.len() implies set.has(#[trigger] rest[i]) by {
            assert(rest[i] == s[i]);
        }
        lemma_trim_end(rest, set, k);
        assert(rest.take(k) =~= s.take(k));
    }
}

/// Trimming leaves what stands between the leading and the trailing
/// characters of the set.
pub proof fn lemma_trimmed(s: Seq<char>, set: CharSet, a: int, b: int)
    requires
        0 <= a <= b <= s.len(),
        forall|i: int| 0 <= i < a ==> set.has(#[trigger] s[i]),
        forall|i: int| b <= i < s.len() ==> set.has(#[trigger] s[i]),
        a < b ==> !set.has(s[a]) && !set.has(s[b - 1]),
    ensures
        trimmed(s, set) == s.subrange(a, b),
{
    if a < b {
        lemma_trim_start(s, set, a);
        let front = s.skip(a);
        assert forall|i: int| b - a <= i < front.len() implies set.has(#[trigger] front[i]) by {
            assert(front[i] == s[i + a]);
        }
        lemma_trim_end(front, set, b - a);
        assert(front.take(b - a) =~= s.subrange(a, b));
    } else {
        lemma_trim_start(s, set, s.len() as int);
        assert(s.skip(s.len() as int) =~= Seq::<char>::empty());
        assert(s.subrange(a, b) =~= Seq::<char>::empty());
    }
}

/// The digits of a number are digits, and they write that number.
pub proof fn lemma_decimal(n: nat)
    ensures
        decimal(n).len() >= 1,
        all_digits(decimal(n)),
        decimal_value(decimal(n)) == n,
    decreases n,
{
    if n < 10 {
        let s = decimal(n);
        assert(s.drop_last() =~= Seq::<char>::empty());
        assert(is_digit(s[0]));
        assert(digit_value(s.last()) == n);
        assert(decimal_value(Seq::<char>::empty()) == 0);
        assert(decimal_value(s) == 10 * decimal_value(s.drop_last()) + digit_value(s.last()));
    } else {
        lemma_decimal(n / 10);
        let s = decimal(n);
        let head = decimal(n / 10);
        assert(s.drop_last() =~= head);
        assert(digit_value(s.last()) == n % 10);
        assert(decimal_value(s) == 10 * decimal_value(s.drop_last()) + digit_value(s.last()));
        assert forall|i: int| 0 <= i < s.len() implies is_digit(#[trigger] s[i]) by {
            if i < head.len() {
                assert(s[i] == head[i]);
            }
        }
    }
}

/// A number is read back from its digits.
pub proof fn lemma_parsed_decimal(n: usize)
    ensures
        parsed_usize(decimal(n as nat)) == Some(n),
{
    lemma_decimal(n as nat);
    let s = decimal(n as nat);
    assert(is_digit(s[0]));
    assert(unsigned_digits(s) == s);
}

/// Digits have no whitespace around them.
pub proof fn lemma_decimal_trimmed(n: nat, set: CharSet)
    ensures
        trimmed(decimal(n), set) == decimal(n),
{
    lemma_decimal(n);
    let s = decimal(n);
    assert(is_digit(s[0]));
    assert(is_digit(s[s.len() - 1]));
    lemma_trimmed(s, set, 0, s.len() as int);
    assert(s.subrange(0, s.len() as int) =~= s);
}

/// The pieces with `sep` between each two of them.
pub open spec fn join(pieces: Seq<Seq<char>>, sep: char) -> Seq<char>
    decreases pieces.len(),
{
    if pieces.len() == 0 {
        Seq::<char>::empty()
    } else if pieces.len() == 1 {
        pieces[0]
    } else {
        join(pieces.drop_last(), sep) + seq![sep] + pieces.last()
    }
}

/// Whether a piece survives a split whole: it is split nowhere and, where
/// parentheses count, it closes all that it opens.
pub open spec fn sealed(p: Seq<char>, sep: char, top_level: bool) -> bool {
    &&& forall|i: int| 0 <= i < p.len() ==> !(#[trigger] cuts(p, sep, top_level)[i])
    &&& top_level ==> depth(p, p.len() as int) == 0
}

/// The depth at a position depends on the characters before it alone.
pub proof fn lemma_depth_agree(s1: Seq<char>, s2: Seq<char>, n: int)
    requires
        0 <= n <= s1.len(),
        n <= s2.len(),
        forall|i: int| 0 <= i < n ==> s1[i] == s2[i],
    ensures
        depth(s1, n) == depth(s2, n),
    decreases n,
{
    if n > 0 {
        lemma_depth_agree(s1, s2, n - 1);
    }
}

/// Depths add up over a concatenation.
pub proof fn lemma_depth_concat(a: Seq<char>, b: Seq<char>, j: int)
    requires
        0 <= j <= b.len(),
    ensures
        depth(a + b, a.len() + j) == depth(a, a.len() as int) + depth(b, j),
    decreases j,
{
    if j == 0 {
        lemma_depth_agree(a + b, a, a.len() as int);
    } else {
        lemma_depth_concat(a, b, j - 1);
        assert((a + b)[a.len() + j - 1] == b[j - 1]);
    }
}

/// Text without parentheses has depth zero throughout.
pub proof fn lemma_depth_flat(s: Seq<char>, n: int)
    requires
        0 <= n <= s.len(),
        free_of(s, '('),
        free_of(s, ')'),
    ensures
        depth(s, n) == 0,
    decreases n,
{
    if n > 0 {
        lemma_depth_flat(s, n - 1);
        assert(s[n - 1] != '(' && s[n - 1] != ')');
    }
}

/// A split always yields at least one piece.
pub proof fn lemma_split_prefix_len(s: Seq<char>, cut: Seq<bool>, n: int)
    ensures
        split_prefix(s, cut, n).len() >= 1,
    decreases n,
{
    if n > 0 {
        lemma_split_prefix_len(s, cut, n - 1);
    }
}

/// The pieces of a prefix depend on that prefix alone.
pub proof fn lemma_split_prefix_agree(
    s1: Seq<char>,
    c1: Seq<bool>,
    s2: Seq<char>,
    c2: Seq<bool>,
    n: int,
)
    requires
        forall|i: int| 0 <= i < n ==> s1[i] == s2[i] && c1[i] == c2[i],
    ensures
        split_prefix(s1, c1, n) == split_prefix(s2, c2, n),
    decreases n,
{
    if n > 0 {
        lemma_split_prefix_agree(s1, c1, s2, c2, n - 1);
    }
}

/// Over a stretch without a cut the last piece grows by that stretch.
pub proof fn lemma_split_prefix_extend(s: Seq<char>, cut: Seq<bool>, a: int, b: int)
    requires
        0 <= a <= b <= s.len(),
        forall|i: int| a <= i < b ==> !cut[i],
    ensures
        split_prefix(s, cut, b) == split_prefix(s, cut, a).drop_last().push(
            split_prefix(s, cut, a).last() + s.subrange(a, b),
        ),
    decreases b - a,
{
    let start = split_prefix(s, cut, a);
    lemma_split_prefix_len(s, cut, a);
    if a == b {
        assert(start.last() + s.subrange(a, b) =~= start.last());
        assert(start.drop_last().push(start.last()) =~= start);
    } else {
        lemma_split_prefix_extend(s, cut, a, b - 1);
        let before = split_prefix(s, cut, b - 1);
        assert(before.last().push(s[b - 1]) =~= start.last() + s.subrange(a, b));
        assert(before.drop_last() =~= start.drop_last());
    }
}

/// Text that is split nowhere is its own single piece.
pub proof fn lemma_split_sealed(p: Seq<char>, sep: char, top_level: bool)
    requires
        sealed(p, sep, top_level),
    ensures
        split(p, sep, top_level) == seq![p],
{
    let cut = cuts(p, sep, top_level);
    assert forall|i: int| 0 <= i < p.len() implies !cut[i] by {
        assert(!cuts(p, sep, top_level)[i]);
    }
    lemma_split_prefix_extend(p, cut, 0, p.len() as int);
    assert(p.subrange(0, p.len() as int) =~= p);
    assert(Seq::<char>::empty() + p =~= p);
    assert(split_prefix(p, cut, 0) =~~= seq![Seq::<char>::empty()]);
    assert(split(p, sep, top_level) =~~= seq![p]);
}

/// Splitting what was joined gives the pieces back, as long as each piece
/// survives a split whole.
pub proof fn lemma_split_join(pieces: Seq<Seq<char>>, sep: char, top_level: bool)
    requires
        pieces.len() >= 1,
        sep != '(',
        sep != ')',
        forall|k: int| 0 <= k < pieces.len() ==> sealed(#[trigger] pieces[k], sep, top_level),
    ensures
        split(join(pieces, sep), sep, top_level) == pieces,
        top_level ==> depth(join(pieces, sep), join(pieces, sep).len() as int) == 0,
    decreases pieces.len(),
{
    if pieces.len() == 1 {
        assert(sealed(pieces[0], sep, top_level));
        lemma_split_sealed(pieces[0], sep, top_level);
        assert(seq![pieces[0]] =~~= pieces);
    } else {
        let init = pieces.drop_last();
        let last = pieces.last();
        let j = join(init, sep);
        let head = j + seq![sep];
        let s = head + last;
        let m = j.len() as int;
        assert(s == join(pieces, sep));
        assert forall|k: int| 0 <= k < init.len() implies sealed(
            #[trigger] init[k],
            sep,
            top_level,
        ) by {
            assert(init[k] == pieces[k]);
        }
        lemma_split_join(init, sep, top_level);
        assert(sealed(last, sep, top_level));
        let cut = cuts(s, sep, top_level);
        let cut_j = cuts(j, sep, top_level);
        assert forall|i: int| 0 <= i < m implies s[i] == j[i] && cut[i] == cut_j[i] by {
            lemma_depth_agree(s, j, i);
        }
        lemma_split_prefix_agree(s, cut, j, cut_j, m);
        lemma_depth_agree(s, j, m);
        lemma_depth_agree(head, j, m);
        assert(s[m] == sep);
        assert(cut[m]);
        assert(split_prefix(s, cut, m + 1) == init.push(Seq::<char>::empty()));
        assert(depth(head, m + 1) == depth(head, m) + paren_step(head[m]));
        assert forall|i: int| m + 1 <= i < s.len() implies !cut[i] by {
            lemma_depth_concat(head, last, i - (m + 1));
            assert(s[i] == last[i - (m + 1)]);
            assert(!cuts(last, sep, top_level)[i - (m + 1)]);
        }
        lemma_split_prefix_extend(s, cut, m + 1, s.len() as int);
        assert(s.subrange(m + 1, s.len() as int) =~= last);
        assert(Seq::<char>::empty() + last =~= last);
        assert(init.push(Seq::<char>::empty()).drop_last().push(last) =~~= pieces);
        lemma_depth_concat(head, last, last.len() as int);
    }
}

} // verus!
