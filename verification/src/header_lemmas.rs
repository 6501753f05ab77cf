//! Why a header that was written is read back as it was.

use crate::dtype::{code_dtype, DType};
use crate::error::FormatErrorView;
use crate::header::{
    binding, body, descr_of, dims_of, dims_text, entry, entry_text, fields, fortran_order_of,
    header_text, is_blank, lookup, parse_header, shape_of, well_formed, Entry, HeaderView,
};
use crate::text::{cuts, decimal, depth, is_digit, is_whitespace, split, trimmed, CharSet};
use crate::text_lemmas::{
    free_of, join, lemma_decimal, lemma_decimal_trimmed, lemma_depth_agree, lemma_depth_concat,
    lemma_depth_flat, lemma_parsed_decimal, lemma_split_join, lemma_trimmed, sealed,
};
use vstd::prelude::*;

verus! {

/// Whether `c` is a character that the grammar gives no meaning: no
/// separator, bracket, quote or byte-order marker, and no whitespace.
pub open spec fn plain_char(c: char) -> bool {
    c != ':' && c != ',' && c != '(' && c != ')' && c != '{' && c != '}' && c != '\''
        && c != '=' && c != '<' && c != '|' && c != '>' && !is_whitespace(c)
}

/// Whether `s` holds such characters only.
pub open spec fn is_plain(s: Seq<char>) -> bool {
    forall|i: int| 0 <= i < s.len() ==> plain_char(#[trigger] s[i])
}

/// Whether `s` holds single quotes only.
pub open spec fn is_quotes(s: Seq<char>) -> bool {
    forall|i: int| 0 <= i < s.len() ==> #[trigger] s[i] == '\''
}

/// Whether `s` holds whitespace only.
pub open spec fn is_space(s: Seq<char>) -> bool {
    forall|i: int| 0 <= i < s.len() ==> is_whitespace(#[trigger] s[i])
}

/// The keys and the words that a header is written with are plain.
pub proof fn lemma_words_plain()
    ensures
        is_plain("descr"@) && "descr"@.len() == 5,
        is_plain("fortran_order"@) && "fortran_order"@.len() == 13,
        is_plain("shape"@) && "shape"@.len() == 5,
        is_plain("False"@) && "False"@.len() == 5,
        is_plain("f2"@) && "f2"@.len() == 2,
        is_plain("f4"@) && "f4"@.len() == 2,
        is_plain("f8"@) && "f8"@.len() == 2,
        is_plain("u1"@) && "u1"@.len() == 2,
        is_plain("u4"@) && "u4"@.len() == 2,
{
    reveal_strlit("descr");
    reveal_strlit("fortran_order");
    reveal_strlit("shape");
    reveal_strlit("False");
    reveal_strlit("f2");
    reveal_strlit("f4");
    reveal_strlit("f8");
    reveal_strlit("u1");
    reveal_strlit("u4");
}

/// A written field is read as its key and the core of its value: the
/// whitespace before the field, the quotes around the key and those around
/// the core fall away.
pub proof fn lemma_entry(
    lead: Seq<char>,
    key: Seq<char>,
    pre: Seq<char>,
    core: Seq<char>,
    post: Seq<char>,
)
    requires
        is_space(lead),
        key.len() > 0,
        is_plain(key),
        is_quotes(pre),
        is_quotes(post),
        core.len() > 0,
        free_of(core, ':'),
        !CharSet::Quotes.has(core[0]),
        !CharSet::Quotes.has(core.last()),
    ensures
        !is_blank(lead + entry_text(key, pre + core + post)),
        entry(lead + entry_text(key, pre + core + post)) == Some(Entry { key, value: core }),
{
    reveal_strlit("'");
    reveal_strlit("': ");
    let value = pre + core + post;
    let e = entry_text(key, value);
    let f = lead + e;
    assert(f[lead.len() as int] == '\'');
    assert(!is_whitespace(f[f.len() - 1])) by {
        if post.len() > 0 {
            assert(f[f.len() - 1] == post[post.len() - 1]);
        } else {
            assert(f[f.len() - 1] == core[core.len() - 1]);
        }
    }
    lemma_trimmed(f, CharSet::Space, lead.len() as int, f.len() as int);
    assert(f.subrange(lead.len() as int, f.len() as int) =~= e);
    assert(trimmed(f, CharSet::Space) == e);

    let p0 = seq!['\''] + key + seq!['\''];
    let p1 = seq![' '] + value;
    let pieces = seq![p0, p1];
    assert(e =~= p0 + seq![':'] + p1);
    assert(pieces.drop_last() =~~= seq![p0]);
    assert(join(pieces.drop_last(), ':') == p0);
    assert(join(pieces, ':') == p0 + seq![':'] + p1);
    assert(sealed(p0, ':', false)) by {
        assert forall|i: int| 0 <= i < p0.len() implies !(#[trigger] cuts(p0, ':', false)[i]) by {
            if 1 <= i < p0.len() - 1 {
                assert(p0[i] == key[i - 1]);
            }
        }
    }
    assert(sealed(p1, ':', false)) by {
        assert forall|i: int| 0 <= i < p1.len() implies !(#[trigger] cuts(p1, ':', false)[i]) by {
            if 1 <= i {
                let j = i - 1;
                if j < pre.len() {
                    assert(p1[i] == pre[j]);
                } else if j < pre.len() + core.len() {
                    assert(p1[i] == core[j - pre.len()]);
                } else {
                    assert(p1[i] == post[j - pre.len() - core.len()]);
                }
            }
        }
    }
    assert forall|k: int| 0 <= k < pieces.len() implies sealed(#[trigger] pieces[k], ':', false) by {
    }
    lemma_split_join(pieces, ':', false);
    assert(split(e, ':', false) == pieces);

    assert(p0[1] == key[0]);
    assert(p0[p0.len() - 2] == key[key.len() - 1]);
    lemma_trimmed(p0, CharSet::Quotes, 1, p0.len() - 1);
    assert(p0.subrange(1, p0.len() - 1) =~= key);

    let a = 1 + pre.len() as int;
    let b = a + core.len();
    assert forall|i: int| 0 <= i < a implies CharSet::Quotes.has(#[trigger] p1[i]) by {
        if i >= 1 {
            assert(p1[i] == pre[i - 1]);
        }
    }
    assert forall|i: int| b <= i < p1.len() implies CharSet::Quotes.has(#[trigger] p1[i]) by {
        assert(p1[i] == post[i - b]);
    }
    assert(p1[a] == core[0]);
    assert(p1[b - 1] == core[core.len() - 1]);
    lemma_trimmed(p1, CharSet::Quotes, a, b);
    assert(p1.subrange(a, b) =~= core);
}

/// Whether `s` has neither commas nor parentheses.
pub open spec fn is_flat(s: Seq<char>) -> bool {
    forall|i: int| 0 <= i < s.len() ==> {
        let c = #[trigger] s[i];
        c != ',' && c != '(' && c != ')'
    }
}

/// Flat texts make a flat text.
pub proof fn lemma_flat_concat(a: Seq<char>, b: Seq<char>)
    requires
        is_flat(a),
        is_flat(b),
    ensures
        is_flat(a + b),
{
    assert forall|i: int| 0 <= i < (a + b).len() implies {
        let c = #[trigger] (a + b)[i];
        c != ',' && c != '(' && c != ')'
    } by {
        if i < a.len() {
            assert((a + b)[i] == a[i]);
        } else {
            assert((a + b)[i] == b[i - a.len()]);
        }
    }
}

/// A flat text is not split at commas.
pub proof fn lemma_flat_sealed(s: Seq<char>)
    requires
        is_flat(s),
    ensures
        sealed(s, ',', true),
{
    assert(free_of(s, '(')) by {
        assert forall|i: int| 0 <= i < s.len() implies #[trigger] s[i] != '(' by {}
    }
    assert(free_of(s, ')')) by {
        assert forall|i: int| 0 <= i < s.len() implies #[trigger] s[i] != ')' by {}
    }
    lemma_depth_flat(s, s.len() as int);
    assert forall|i: int| 0 <= i < s.len() implies !(#[trigger] cuts(s, ',', true)[i]) by {
        assert(s[i] != ',');
    }
}

/// A flat text followed by a parenthesized text without further
/// parentheses is not split at its commas: those stand inside.
pub proof fn lemma_parens_sealed(x: Seq<char>, d: Seq<char>)
    requires
        is_flat(x),
        free_of(d, '('),
        free_of(d, ')'),
    ensures
        sealed(x + seq!['('] + d + seq![')'], ',', true),
{
    let open = x + seq!['('];
    let inner = open + d;
    let s = inner + seq![')'];
    let n = x.len() as int;
    assert(free_of(x, '(')) by {
        assert forall|i: int| 0 <= i < x.len() implies #[trigger] x[i] != '(' by {}
    }
    assert(free_of(x, ')')) by {
        assert forall|i: int| 0 <= i < x.len() implies #[trigger] x[i] != ')' by {}
    }
    lemma_depth_flat(x, n);
    lemma_depth_agree(open, x, n);
    assert(open[n] == '(');
    assert(depth(open, n + 1) == depth(open, n) + 1);
    assert forall|i: int| 0 <= i < s.len() implies !(#[trigger] cuts(s, ',', true)[i]) by {
        if i < n {
            assert(s[i] == x[i]);
        } else if i == n {
            assert(s[i] == '(');
        } else if i < s.len() - 1 {
            let j = i - (n + 1);
            lemma_depth_concat(open, d, j);
            lemma_depth_flat(d, j);
            lemma_depth_agree(s, inner, i);
            assert(depth(s, i) == 1);
        } else {
            assert(s[i] == ')');
        }
    }
    let m = inner.len() as int;
    lemma_depth_concat(open, d, d.len() as int);
    lemma_depth_flat(d, d.len() as int);
    lemma_depth_agree(s, inner, m);
    assert(s[m] == ')');
    assert(depth(s, m + 1) == depth(s, m) - 1);
}

/// The digits of each dimension of a shape.
pub open spec fn decimals(shape: Seq<usize>) -> Seq<Seq<char>> {
    Seq::new(shape.len(), |i: int| decimal(shape[i] as nat))
}

/// Whether `s` holds digits and commas only.
pub open spec fn is_dims(s: Seq<char>) -> bool {
    forall|i: int| 0 <= i < s.len() ==> is_digit(#[trigger] s[i]) || s[i] == ','
}

/// The dimensions joined by commas are digits and commas, with a digit at
/// either end.
pub proof fn lemma_join_decimals(shape: Seq<usize>)
    requires
        shape.len() > 0,
    ensures
        join(decimals(shape), ',').len() > 0,
        is_dims(join(decimals(shape), ',')),
        is_digit(join(decimals(shape), ',')[0]),
        is_digit(join(decimals(shape), ',').last()),
    decreases shape.len(),
{
    let decs = decimals(shape);
    let last = decimal(shape.last() as nat);
    lemma_decimal(shape.last() as nat);
    assert(decs.last() == last);
    assert(is_digit(last[0]));
    assert(is_digit(last[last.len() - 1]));
    if shape.len() == 1 {
        assert(join(decs, ',') == last);
    } else {
        let init = shape.drop_last();
        assert(decs.drop_last() =~~= decimals(init));
        lemma_join_decimals(init);
        let j = join(decimals(init), ',');
        let s = j + seq![','] + last;
        assert(join(decs, ',') == s);
        assert(s[0] == j[0]);
        assert(s.last() == last[last.len() - 1]);
        assert forall|i: int| 0 <= i < s.len() implies is_digit(#[trigger] s[i]) || s[i] == ',' by {
            if i < j.len() {
                assert(s[i] == j[i]);
            } else if i > j.len() {
                assert(s[i] == last[i - j.len() - 1]);
            }
        }
    }
}

/// The text of the dimensions is their digits joined by commas, with one
/// more comma at the end.
pub proof fn lemma_dims_text_join(shape: Seq<usize>)
    requires
        shape.len() > 0,
    ensures
        dims_text(shape) == join(decimals(shape), ',') + seq![','],
    decreases shape.len(),
{
    let decs = decimals(shape);
    let init = shape.drop_last();
    assert(decs.last() == decimal(shape.last() as nat));
    if shape.len() == 1 {
        assert(dims_text(init) =~= Seq::<char>::empty());
        assert(dims_text(shape) =~= join(decs, ',') + seq![',']);
    } else {
        assert(decs.drop_last() =~~= decimals(init));
        lemma_dims_text_join(init);
        assert(dims_text(shape) =~= join(decs, ',') + seq![',']);
    }
}

/// The digits of the dimensions are read back as the dimensions.
pub proof fn lemma_dims_of_decimals(shape: Seq<usize>)
    ensures
        dims_of(decimals(shape)) == Ok::<Seq<usize>, FormatErrorView>(shape),
    decreases shape.len(),
{
    let decs = decimals(shape);
    if shape.len() == 0 {
        assert(shape =~= Seq::<usize>::empty());
    } else {
        let init = shape.drop_last();
        assert(decs.drop_last() =~~= decimals(init));
        lemma_dims_of_decimals(init);
        assert(decs.last() == decimal(shape.last() as nat));
        lemma_decimal_trimmed(shape.last() as nat, CharSet::Space);
        lemma_parsed_decimal(shape.last());
        assert(init.push(shape.last()) =~= shape);
    }
}

/// The text of the dimensions has no parentheses and no colon.
pub proof fn lemma_dims_text_chars(shape: Seq<usize>)
    ensures
        is_dims(dims_text(shape)),
        free_of(dims_text(shape), '('),
        free_of(dims_text(shape), ')'),
        free_of(dims_text(shape), ':'),
{
    let d = dims_text(shape);
    if shape.len() > 0 {
        lemma_dims_text_join(shape);
        lemma_join_decimals(shape);
        let j = join(decimals(shape), ',');
        assert forall|i: int| 0 <= i < d.len() implies is_digit(#[trigger] d[i]) || d[i] == ',' by {
            if i < j.len() {
                assert(d[i] == j[i]);
            }
        }
    }
    assert forall|i: int| 0 <= i < d.len() implies #[trigger] d[i] != '(' by {
        assert(is_digit(d[i]) || d[i] == ',');
    }
    assert forall|i: int| 0 <= i < d.len() implies #[trigger] d[i] != ')' by {
        assert(is_digit(d[i]) || d[i] == ',');
    }
    assert forall|i: int| 0 <= i < d.len() implies #[trigger] d[i] != ':' by {
        assert(is_digit(d[i]) || d[i] == ',');
    }
}

/// The written value of a shape is read back as the shape.
pub proof fn lemma_shape_value(shape: Seq<usize>)
    ensures
        shape_of(Some("("@ + dims_text(shape) + ")"@)) == Ok::<Seq<usize>, FormatErrorView>(
            shape,
        ),
{
    reveal_strlit("(");
    reveal_strlit(")");
    let d = dims_text(shape);
    let v = "("@ + d + ")"@;
    if shape.len() == 0 {
        assert(shape =~= Seq::<usize>::empty());
        assert(v.len() == 2);
        lemma_trimmed(v, CharSet::Parens, 0, 0);
        assert(v.subrange(0, 0) =~= Seq::<char>::empty());
    } else {
        let decs = decimals(shape);
        let j = join(decs, ',');
        lemma_dims_text_join(shape);
        lemma_join_decimals(shape);
        let n = j.len() as int;
        assert(v.len() == n + 3);
        assert(v[0] == '(');
        assert(v[n + 1] == ',');
        assert(v[n + 2] == ')');
        assert(v[1] == j[0]);
        assert(v[n] == j[n - 1]);
        lemma_trimmed(v, CharSet::Parens, 1, n + 1);
        assert(v.subrange(1, n + 1) =~= j);
        assert forall|k: int| 0 <= k < decs.len() implies sealed(#[trigger] decs[k], ',', false) by {
            let p = decs[k];
            lemma_decimal(shape[k] as nat);
            assert forall|i: int| 0 <= i < p.len() implies !(#[trigger] cuts(p, ',', false)[i]) by {
                assert(is_digit(p[i]));
            }
        }
        lemma_split_join(decs, ',', false);
        lemma_dims_of_decimals(shape);
    }
}

/// The first field of a written header.
pub open spec fn descr_field(code: Seq<char>) -> Seq<char> {
    entry_text("descr"@, "'<"@ + code + "'"@)
}

/// The second field of a written header, with the space before it.
pub open spec fn order_field() -> Seq<char> {
    " "@ + entry_text("fortran_order"@, "False"@)
}

/// The third field of a written header, with the space before it.
pub open spec fn shape_field(shape: Seq<usize>) -> Seq<char> {
    " "@ + entry_text("shape"@, "("@ + dims_text(shape) + ")"@)
}

/// The three fields of a written header.
pub open spec fn written_fields(code: Seq<char>, shape: Seq<usize>) -> Seq<Seq<char>> {
    seq![descr_field(code), order_field(), shape_field(shape)]
}

/// A plain text is flat.
proof fn lemma_plain_flat(s: Seq<char>)
    requires
        is_plain(s),
    ensures
        is_flat(s),
{
    assert forall|i: int| 0 <= i < s.len() implies {
        let c = #[trigger] s[i];
        c != ',' && c != '(' && c != ')'
    } by {
        assert(plain_char(s[i]));
    }
}

/// The start of a field, up to its value, is flat.
proof fn lemma_key_flat(lead: Seq<char>, key: Seq<char>)
    requires
        is_space(lead),
        is_plain(key),
    ensures
        is_flat(lead + "'"@ + key + "': "@),
{
    reveal_strlit("'");
    reveal_strlit("': ");
    lemma_plain_flat(key);
    assert(is_flat(lead)) by {
        assert forall|i: int| 0 <= i < lead.len() implies {
            let c = #[trigger] lead[i];
            c != ',' && c != '(' && c != ')'
        } by {
            assert(is_whitespace(lead[i]));
        }
    }
    lemma_flat_concat(lead, "'"@);
    lemma_flat_concat(lead + "'"@, key);
    lemma_flat_concat(lead + "'"@ + key, "': "@);
}

/// The body of a written header, whatever braces, commas and whitespace
/// follow it, is its three fields joined by commas.
pub proof fn lemma_written_body(code: Seq<char>, shape: Seq<usize>, tail: Seq<char>)
    requires
        forall|i: int| 0 <= i < tail.len() ==> CharSet::Braces.has(#[trigger] tail[i]),
    ensures
        body(header_text(code, shape) + tail) == join(written_fields(code, shape), ','),
{
    reveal_strlit("{");
    reveal_strlit(", ");
    reveal_strlit(", }");
    reveal_strlit("'");
    reveal_strlit(" ");
    reveal_strlit(")");
    let f1 = descr_field(code);
    let f2 = order_field();
    let f3 = shape_field(shape);
    let pieces = written_fields(code, shape);
    let x = f1 + seq![','] + f2 + seq![','] + f3;
    let w = header_text(code, shape) + tail;
    let n = x.len() as int;
    assert(pieces.drop_last() =~~= seq![f1, f2]);
    assert(pieces.drop_last().drop_last() =~~= seq![f1]);
    assert(join(seq![f1], ',') == f1);
    assert(join(seq![f1, f2], ',') == f1 + seq![','] + f2);
    assert(join(pieces, ',') == x);
    assert(w =~= seq!['{'] + x + seq![',', ' ', '}'] + tail);
    assert(w[1] == '\'');
    assert(w[n] == ')') by {
        assert(f3[f3.len() - 1] == ')');
        assert(x[n - 1] == f3[f3.len() - 1]);
    }
    assert forall|i: int| n + 1 <= i < w.len() implies CharSet::Braces.has(#[trigger] w[i]) by {
        if i >= n + 4 {
            assert(w[i] == tail[i - (n + 4)]);
        }
    }
    lemma_trimmed(w, CharSet::Braces, 1, n + 1);
    assert(w.subrange(1, n + 1) =~= x);
}

/// A written header, whatever braces, commas and whitespace follow it, has
/// its three fields.
pub proof fn lemma_written_fields(code: Seq<char>, shape: Seq<usize>, tail: Seq<char>)
    requires
        is_plain(code),
        forall|i: int| 0 <= i < tail.len() ==> CharSet::Braces.has(#[trigger] tail[i]),
    ensures
        fields(header_text(code, shape) + tail) == written_fields(code, shape),
{
    lemma_words_plain();
    reveal_strlit("'<");
    reveal_strlit("'");
    reveal_strlit(" ");
    reveal_strlit("(");
    reveal_strlit(")");
    let none = Seq::<char>::empty();
    let f1 = descr_field(code);
    let f2 = order_field();
    let f3 = shape_field(shape);
    let pieces = written_fields(code, shape);
    lemma_written_body(code, shape, tail);

    assert(sealed(f1, ',', true)) by {
        lemma_key_flat(none, "descr"@);
        let start = none + "'"@ + "descr"@ + "': "@;
        lemma_plain_flat(code);
        lemma_flat_concat(start, "'<"@);
        lemma_flat_concat(start + "'<"@, code);
        lemma_flat_concat(start + "'<"@ + code, "'"@);
        assert(f1 =~= start + "'<"@ + code + "'"@);
        lemma_flat_sealed(f1);
    }
    assert(sealed(f2, ',', true)) by {
        lemma_key_flat(" "@, "fortran_order"@);
        let start = " "@ + "'"@ + "fortran_order"@ + "': "@;
        lemma_plain_flat("False"@);
        lemma_flat_concat(start, "False"@);
        assert(f2 =~= start + "False"@);
        lemma_flat_sealed(f2);
    }
    assert(sealed(f3, ',', true)) by {
        lemma_key_flat(" "@, "shape"@);
        let start = " "@ + "'"@ + "shape"@ + "': "@;
        lemma_dims_text_chars(shape);
        lemma_parens_sealed(start, dims_text(shape));
        assert(f3 =~= start + seq!['('] + dims_text(shape) + seq![')']);
    }
    assert forall|k: int| 0 <= k < pieces.len() implies sealed(#[trigger] pieces[k], ',', true) by {
    }
    lemma_split_join(pieces, ',', true);
}

/// The element kind is read back from its type code.
proof fn lemma_code_dtype(dtype: DType)
    requires
        dtype.code() is Some,
    ensures
        code_dtype(dtype.code()->Some_0) == Some(dtype),
        is_plain(dtype.code()->Some_0),
        dtype.code()->Some_0.len() == 2,
{
    lemma_words_plain();
    reveal_strlit("f2");
    reveal_strlit("f4");
    reveal_strlit("f8");
    reveal_strlit("u1");
    reveal_strlit("u4");
    reveal_strlit("d");
    reveal_strlit("B");
    reveal_strlit("I");
    let code = dtype.code()->Some_0;
    match dtype {
        DType::F16 => {},
        DType::F32 => {
            assert(code[1] != "f2"@[1]);
        },
        DType::F64 => {
            assert(code[1] != "f2"@[1]);
            assert(code[1] != "f4"@[1]);
        },
        DType::U8 => {
            assert(code[0] != "f2"@[0]);
            assert(code[0] != "f4"@[0]);
            assert(code[0] != "f8"@[0]);
        },
        DType::U32 => {
            assert(code[0] != "f2"@[0]);
            assert(code[0] != "f4"@[0]);
            assert(code[0] != "f8"@[0]);
            assert(code[1] != "u1"@[1]);
        },
        DType::BF16 => {},
    }
}

/// The first field of a written header gives `descr` the marked type code.
proof fn lemma_descr_entry(code: Seq<char>)
    requires
        is_plain(code),
        code.len() == 2,
    ensures
        !is_blank(descr_field(code)),
        entry(descr_field(code)) == Some(Entry { key: "descr"@, value: "<"@ + code }),
        code_dtype(code) is Some ==> descr_of(Some("<"@ + code)) == Ok::<DType, FormatErrorView>(
            code_dtype(code)->Some_0,
        ),
{
    lemma_words_plain();
    reveal_strlit("'<");
    reveal_strlit("<");
    reveal_strlit("'");
    let none = Seq::<char>::empty();
    let marked = "<"@ + code;
    assert("'<"@ + code + "'"@ =~= "'"@ + marked + "'"@);
    assert(plain_char(code[0]) && plain_char(code[1]));
    assert forall|i: int| 0 <= i < marked.len() implies #[trigger] marked[i] != ':' by {
        if i > 0 {
            assert(marked[i] == code[i - 1]);
            assert(plain_char(code[i - 1]));
        }
    }
    lemma_entry(none, "descr"@, "'"@, marked, "'"@);
    assert(none + entry_text("descr"@, "'"@ + marked + "'"@) =~= descr_field(code));
    lemma_trimmed(marked, CharSet::Markers, 1, 3);
    assert(marked.subrange(1, 3) =~= code);
}

/// The second field of a written header gives `fortran_order` the value
/// `False`.
proof fn lemma_order_entry()
    ensures
        !is_blank(order_field()),
        entry(order_field()) == Some(Entry { key: "fortran_order"@, value: "False"@ }),
        fortran_order_of(Some("False"@)) == Ok::<bool, FormatErrorView>(false),
{
    lemma_words_plain();
    reveal_strlit(" ");
    let none = Seq::<char>::empty();
    let flag = "False"@;
    assert(plain_char(flag[0]) && plain_char(flag.last()));
    assert forall|i: int| 0 <= i < flag.len() implies #[trigger] flag[i] != ':' by {
        assert(plain_char(flag[i]));
    }
    lemma_entry(" "@, "fortran_order"@, none, flag, none);
    assert(none + flag + none =~= flag);
}

/// The third field of a written header gives `shape` its tuple.
proof fn lemma_shape_entry(shape: Seq<usize>)
    ensures
        !is_blank(shape_field(shape)),
        entry(shape_field(shape)) == Some(
            Entry { key: "shape"@, value: "("@ + dims_text(shape) + ")"@ },
        ),
{
    lemma_words_plain();
    reveal_strlit(" ");
    reveal_strlit("(");
    reveal_strlit(")");
    let none = Seq::<char>::empty();
    let dims = dims_text(shape);
    let tuple = "("@ + dims + ")"@;
    lemma_dims_text_chars(shape);
    assert forall|i: int| 0 <= i < tuple.len() implies #[trigger] tuple[i] != ':' by {
        if 0 < i < tuple.len() - 1 {
            assert(tuple[i] == dims[i - 1]);
        }
    }
    lemma_entry(" "@, "shape"@, none, tuple, none);
    assert(none + tuple + none =~= tuple);
}

/// The three keys differ.
proof fn lemma_keys_differ()
    ensures
        "descr"@ != "fortran_order"@,
        "descr"@ != "shape"@,
        "fortran_order"@ != "shape"@,
{
    reveal_strlit("descr");
    reveal_strlit("fortran_order");
    reveal_strlit("shape");
    assert("descr"@[0] != "shape"@[0]);
}

/// Three fields for the three keys give each key the value of its field.
proof fn lemma_lookup_three(f1: Seq<char>, f2: Seq<char>, f3: Seq<char>, v1: Seq<char>, v2: Seq<char>, v3: Seq<char>)
    requires
        !is_blank(f1) && entry(f1) == Some(Entry { key: "descr"@, value: v1 }),
        !is_blank(f2) && entry(f2) == Some(Entry { key: "fortran_order"@, value: v2 }),
        !is_blank(f3) && entry(f3) == Some(Entry { key: "shape"@, value: v3 }),
    ensures
        well_formed(seq![f1, f2, f3]),
        lookup(seq![f1, f2, f3], "descr"@) == Some(v1),
        lookup(seq![f1, f2, f3], "fortran_order"@) == Some(v2),
        lookup(seq![f1, f2, f3], "shape"@) == Some(v3),
{
    lemma_keys_differ();
    let all = seq![f1, f2, f3];
    reveal_with_fuel(lookup, 4);
    assert(all.drop_last() =~~= seq![f1, f2]);
    assert(all.drop_last().drop_last() =~~= seq![f1]);
    assert(all.last() == f3);
    assert(all.drop_last().last() == f2);
    assert(all.drop_last().drop_last().last() == f1);
    assert(binding(f3, "shape"@) == Some(v3));
    assert(binding(f3, "descr"@) is None);
    assert(binding(f3, "fortran_order"@) is None);
    assert(binding(f2, "fortran_order"@) == Some(v2));
    assert(binding(f2, "descr"@) is None);
    assert(binding(f1, "descr"@) == Some(v1));
}

/// A written header is read back with its element kind and its shape, in
/// row-major order, whatever braces, commas and whitespace follow it.
pub proof fn lemma_parse_written(descr: DType, shape: Seq<usize>, tail: Seq<char>)
    requires
        descr.code() is Some,
        forall|i: int| 0 <= i < tail.len() ==> CharSet::Braces.has(#[trigger] tail[i]),
    ensures
        parse_header(header_text(descr.code()->Some_0, shape) + tail) == Ok::<
            HeaderView,
            FormatErrorView,
        >(HeaderView { descr, fortran_order: false, shape }),
{
    let code = descr.code()->Some_0;
    let text = header_text(code, shape) + tail;
    let f1 = descr_field(code);
    let f2 = order_field();
    let f3 = shape_field(shape);
    lemma_code_dtype(descr);
    lemma_written_fields(code, shape, tail);
    assert(fields(text) == seq![f1, f2, f3]);
    lemma_descr_entry(code);
    lemma_order_entry();
    lemma_shape_entry(shape);
    lemma_lookup_three(f1, f2, f3, "<"@ + code, "False"@, "("@ + dims_text(shape) + ")"@);
    lemma_shape_value(shape);
}

} // verus!
