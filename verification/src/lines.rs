//! Splitting a text into lines, each keeping its terminating newline.
//!
//! A text is handled as its UTF-8 bytes. A line runs up to and including
//! the next `\n`; the last line may lack one. Concatenating the lines gives
//! the text back, and every position between two lines is a character
//! boundary of the text.

use vstd::prelude::*;
use vstd::string::StringSliceAdditionalSpecFns;
use vstd::utf8::*;

use crate::bytes::str_from_utf8;

verus! {

/// The byte that ends a line.
pub const NEWLINE: u8 = 10;

/// The length of the first line of `t`: up to and including the first
/// newline, or all of `t` when it holds none.
pub open spec fn first_line_len(t: Seq<u8>) -> nat
    decreases t.len(),
{
    if t.len() == 0 {
        0
    } else if t[0] == NEWLINE {
        1
    } else {
        1 + first_line_len(t.drop_first())
    }
}

/// The lines of `t`, in order, each with its newline.
pub open spec fn lines_of(t: Seq<u8>) -> Seq<Seq<u8>>
    decreases t.len(),
{
    if t.len() == 0 {
        Seq::empty()
    } else {
        proof {
            lemma_first_line_len(t);
        }
        let k = first_line_len(t) as int;
        seq![t.take(k)] + lines_of(t.skip(k))
    }
}

/// The bytes of a sequence of string slices.
pub open spec fn views(ls: Seq<&str>) -> Seq<Seq<u8>> {
    ls.map_values(|l: &str| l.spec_bytes())
}

/// The bytes of a sequence of byte slices.
pub open spec fn slice_views(ls: Seq<&[u8]>) -> Seq<Seq<u8>> {
    ls.map_values(|l: &[u8]| l@)
}

/// The number of bytes in the first `k` lines of `ls`.
pub open spec fn span_len(ls: Seq<Seq<u8>>, k: int) -> int {
    ls.take(k).flatten().len() as int
}

/// A position of `t` at which one line ends and the next begins: the start,
/// the end, or just after a newline.
pub open spec fn line_cut(t: Seq<u8>, x: int) -> bool {
    ||| x == 0
    ||| x == t.len()
    ||| (0 < x < t.len() && t[x - 1] == NEWLINE)
}

pub proof fn lemma_first_line_len(t: Seq<u8>)
    ensures
        t.len() > 0 ==> 1 <= first_line_len(t) <= t.len(),
        t.len() == 0 ==> first_line_len(t) == 0,
        first_line_len(t) < t.len() ==> t[first_line_len(t) - 1] == NEWLINE,
        forall|i: int| 0 <= i < first_line_len(t) - 1 ==> t[i] != NEWLINE,
    decreases t.len(),
{
    if t.len() > 0 && t[0] != NEWLINE {
        lemma_first_line_len(t.drop_first());
        assert forall|i: int| 0 <= i < first_line_len(t) - 1 implies t[i] != NEWLINE by {
            if i > 0 {
                assert(t[i] == t.drop_first()[i - 1]);
            }
        }
    }
}

/// When none of the bytes before `a` is a newline and byte `a` is one (or
/// `a` is the end), the first line ends just after `a`.
proof fn lemma_first_line_len_at(t: Seq<u8>, a: int)
    requires
        0 <= a <= t.len(),
        forall|i: int| 0 <= i < a ==> t[i] != NEWLINE,
        a < t.len() ==> t[a] == NEWLINE,
    ensures
        first_line_len(t) == (if a < t.len() { a + 1 } else { a }),
    decreases a,
{
    if a > 0 {
        let r = t.drop_first();
        assert forall|i: int| 0 <= i < a - 1 implies r[i] != NEWLINE by {
            assert(r[i] == t[i + 1]);
        }
        lemma_first_line_len_at(r, a - 1);
    }
}

/// The lines partition the text: they are non-empty, concatenate back to
/// the text, every one but the last ends with a newline, and no line holds
/// a newline anywhere but at its end.
pub proof fn lines_partition_the_text(t: Seq<u8>)
    ensures
        lines_of(t).flatten() == t,
        forall|i: int| 0 <= i < lines_of(t).len() ==> #[trigger] lines_of(t)[i].len() > 0,
        forall|i: int|
            0 <= i < lines_of(t).len() - 1 ==> #[trigger] lines_of(t)[i].last() == NEWLINE,
        forall|i: int, j: int|
            0 <= i < lines_of(t).len() && 0 <= j < lines_of(t)[i].len() - 1
                ==> #[trigger] lines_of(t)[i][j] != NEWLINE,
        t.len() > 0 && t.last() == NEWLINE ==> lines_of(t).last().last() == NEWLINE,
    decreases t.len(),
{
    lemma_lines_flatten(t);
    if t.len() > 0 {
        lemma_first_line_len(t);
        let k = first_line_len(t) as int;
        let rest = t.skip(k);
        lines_partition_the_text(rest);
        let ls = lines_of(t);
        let f = t.take(k);
        assert(ls == seq![f] + lines_of(rest));
        assert forall|i: int| 0 <= i < ls.len() implies #[trigger] ls[i].len() > 0 by {
            if i > 0 {
                assert(ls[i] == lines_of(rest)[i - 1]);
            }
        }
        assert forall|i: int| 0 <= i < ls.len() - 1 implies #[trigger] ls[i].last()
            == NEWLINE by {
            if i > 0 {
                assert(ls[i] == lines_of(rest)[i - 1]);
            } else {
                assert(lines_of(rest).len() > 0);
                assert(rest.len() > 0);
            }
        }
        assert forall|i: int, j: int|
            0 <= i < ls.len() && 0 <= j < ls[i].len() - 1 implies #[trigger] ls[i][j]
            != NEWLINE by {
            if i > 0 {
                assert(ls[i] == lines_of(rest)[i - 1]);
            } else {
                assert(f[j] == t[j]);
            }
        }
        if t.last() == NEWLINE {
            if rest.len() > 0 {
                assert(ls.last() == lines_of(rest).last());
                assert(rest.last() == t.last());
            } else {
                assert(lines_of(rest).len() == 0);
                assert(ls.last() == f);
                assert(f =~= t);
            }
        }
    }
}

/// The lines concatenate back to the text.
pub proof fn lemma_lines_flatten(t: Seq<u8>)
    ensures
        lines_of(t).flatten() == t,
    decreases t.len(),
{
    if t.len() > 0 {
        lemma_first_line_len(t);
        let k = first_line_len(t) as int;
        let rest = t.skip(k);
        lemma_lines_flatten(rest);
        let ls = lines_of(t);
        assert(ls.first() == t.take(k));
        assert(ls.drop_first() =~= lines_of(rest));
        assert(t =~= t.take(k) + rest);
    }
}

/// Flattening splits at any index.
pub proof fn lemma_flatten_split(ls: Seq<Seq<u8>>, k: int)
    requires
        0 <= k <= ls.len(),
    ensures
        ls.flatten() == ls.take(k).flatten() + ls.skip(k).flatten(),
{
    vstd::seq_lib::lemma_flatten_concat(ls.take(k), ls.skip(k));
    assert(ls.take(k) + ls.skip(k) =~= ls);
}

/// The bytes of lines `a..b` are the bytes of the text between their cuts.
pub proof fn lemma_lines_span(t: Seq<u8>, a: int, b: int)
    requires
        0 <= a <= b <= lines_of(t).len(),
    ensures
        0 <= span_len(lines_of(t), a) <= span_len(lines_of(t), b) <= t.len(),
        lines_of(t).subrange(a, b).flatten() == t.subrange(
            span_len(lines_of(t), a),
            span_len(lines_of(t), b),
        ),
        lines_of(t).take(a).flatten() == t.take(span_len(lines_of(t), a)),
        lines_of(t).skip(b).flatten() == t.skip(span_len(lines_of(t), b)),
{
    let ls = lines_of(t);
    lemma_lines_flatten(t);
    lemma_flatten_split(ls, b);
    let pre = ls.take(b);
    lemma_flatten_split(pre, a);
    assert(pre.take(a) =~= ls.take(a));
    assert(pre.skip(a) =~= ls.subrange(a, b));
    let x = ls.take(a).flatten();
    let y = ls.subrange(a, b).flatten();
    let z = ls.skip(b).flatten();
    assert(t == x + y + z);
    assert(t.take(x.len() as int) =~= x);
    assert(t.subrange(x.len() as int, (x.len() + y.len()) as int) =~= y);
    assert(t.skip((x.len() + y.len()) as int) =~= z);
}

/// The boundary after `k` lines is a line cut.
pub proof fn lemma_lines_cut(t: Seq<u8>, k: int)
    requires
        0 <= k <= lines_of(t).len(),
    ensures
        line_cut(t, span_len(lines_of(t), k)),
    decreases t.len(),
{
    let ls = lines_of(t);
    if k > 0 {
        lemma_first_line_len(t);
        let f = first_line_len(t) as int;
        let rest = t.skip(f);
        assert(ls == seq![t.take(f)] + lines_of(rest));
        lemma_lines_cut(rest, k - 1);
        let x = span_len(lines_of(rest), k - 1);
        let lt = ls.take(k);
        assert(lt.first() == t.take(f));
        assert(lt.drop_first() =~= lines_of(rest).take(k - 1));
        assert(span_len(ls, k) == f + x);
        lemma_lines_span(rest, k - 1, k - 1);
        if x == 0 {
            if rest.len() > 0 {
                assert(f < t.len());
            }
        } else if x == rest.len() {
        } else {
            assert(rest[x - 1] == t[f + x - 1]);
        }
    }
}

/// An ASCII byte ends a character.
pub proof fn lemma_ascii_boundary(t: Seq<u8>, k: int)
    requires
        valid_utf8(t),
        0 < k <= t.len(),
        is_leading_byte_width_1(t[k - 1]),
    ensures
        is_char_boundary(t, k),
    decreases t.len(),
{
    let l = length_of_first_scalar(t);
    if k - 1 < l {
        if k - 1 > 0 {
            assert(is_continuation_byte(t[k - 1]));
        }
        assert(l == 1);
        assert(is_char_boundary(pop_first_scalar(t), k - l));
    } else {
        let p = pop_first_scalar(t);
        assert(p[k - l - 1] == t[k - 1]);
        lemma_ascii_boundary(p, k - l);
    }
}

/// A line cut of a valid text is a character boundary.
pub proof fn lemma_cut_boundary(t: Seq<u8>, x: int)
    requires
        valid_utf8(t),
        line_cut(t, x),
    ensures
        is_char_boundary(t, x),
{
    is_char_boundary_start_end_of_seq(t);
    if 0 < x < t.len() {
        lemma_ascii_boundary(t, x);
    }
}

/// The bytes between two line cuts of a valid text are valid.
pub proof fn lemma_cut_valid(t: Seq<u8>, a: int, b: int)
    requires
        valid_utf8(t),
        line_cut(t, a),
        line_cut(t, b),
        a <= b,
    ensures
        valid_utf8(t.subrange(a, b)),
{
    lemma_cut_boundary(t, b);
    valid_utf8_split(t, b);
    let pre = t.subrange(0, b);
    if a == b {
        assert(t.subrange(a, b) =~= Seq::<u8>::empty());
    } else {
        assert(line_cut(pre, a)) by {
            if 0 < a {
                assert(pre[a - 1] == t[a - 1]);
            }
        }
        lemma_cut_boundary(pre, a);
        valid_utf8_split(pre, a);
        assert(pre.subrange(a, pre.len() as int) =~= t.subrange(a, b));
    }
}

/// Splits the bytes `text` into its lines, each keeping its newline; the
/// last line may lack one.
pub(crate) fn byte_lines(text: &[u8]) -> (out: Vec<&[u8]>)
    ensures
        slice_views(out@) == lines_of(text@),
{
    let mut out: Vec<&[u8]> = Vec::new();
    let mut start: usize = 0;
    let ghost t = text@;
    assert(t.subrange(0, t.len() as int) =~= t);
    while start < text.len()
        invariant
            t == text@,
            start <= text.len(),
            slice_views(out@) + lines_of(t.subrange(start as int, t.len() as int)) == lines_of(t),
        decreases text.len() - start,
    {
        let mut at: usize = start;
        while at < text.len() && text[at] != NEWLINE
            invariant
                t == text@,
                start <= at <= text.len(),
                forall|i: int| start <= i < at ==> t[i] != NEWLINE,
            decreases text.len() - at,
        {
            at = at + 1;
        }
        let end: usize = if at < text.len() {
            at + 1
        } else {
            at
        };
        let ghost rest = t.subrange(start as int, t.len() as int);
        proof {
            lemma_first_line_len_at(rest, at - start);
            assert(rest.take(end - start) =~= t.subrange(start as int, end as int));
            assert(rest.skip(end - start) =~= t.subrange(end as int, t.len() as int));
        }
        let line = &text[start..end];
        let ghost before = out@;
        out.push(line);
        proof {
            assert(slice_views(out@) =~= slice_views(before).push(line@));
            assert(lines_of(rest) == seq![line@] + lines_of(
                t.subrange(end as int, t.len() as int),
            ));
            assert(slice_views(before) + lines_of(rest) =~= slice_views(out@) + lines_of(
                t.subrange(end as int, t.len() as int),
            ));
        }
        start = end;
    }
    assert(lines_of(t.subrange(start as int, t.len() as int)) =~= Seq::<Seq<u8>>::empty());
    assert(slice_views(out@) + Seq::<Seq<u8>>::empty() =~= slice_views(out@));
    out
}

/// Line `k` of `t` is the bytes between the cuts around it.
pub proof fn lemma_line_bytes(t: Seq<u8>, k: int)
    requires
        0 <= k < lines_of(t).len(),
    ensures
        span_len(lines_of(t), k + 1) == span_len(lines_of(t), k) + lines_of(t)[k].len(),
        lines_of(t)[k] == t.subrange(span_len(lines_of(t), k), span_len(lines_of(t), k + 1)),
        line_cut(t, span_len(lines_of(t), k)),
        line_cut(t, span_len(lines_of(t), k + 1)),
        span_len(lines_of(t), k + 1) <= t.len(),
{
    let ls = lines_of(t);
    lemma_span_step(ls, k);
    lemma_lines_span(t, k, k + 1);
    assert(ls.subrange(k, k + 1) =~= seq![ls[k]]);
    seq![ls[k]].lemma_flatten_singleton();
    lemma_lines_cut(t, k);
    lemma_lines_cut(t, k + 1);
}

/// Adding one line to a prefix adds its bytes.
pub proof fn lemma_span_step(ls: Seq<Seq<u8>>, k: int)
    requires
        0 <= k < ls.len(),
    ensures
        ls.take(k + 1).flatten() == ls.take(k).flatten() + ls[k],
        span_len(ls, k + 1) == span_len(ls, k) + ls[k].len(),
{
    assert(ls.take(k + 1) =~= ls.take(k).push(ls[k]));
    ls.take(k).lemma_flatten_push(ls[k]);
}

/// Splits `text` into its lines, each keeping its newline; the last line
/// may lack one. An empty text has no lines.
pub fn lines(text: &str) -> (out: Vec<&str>)
    ensures
        views(out@) == lines_of(text.spec_bytes()),
{
    let ghost t = text.spec_bytes();
    let pieces = byte_lines(text.as_bytes());
    proof {
        encode_utf8_valid_utf8(text@);
    }
    let mut out: Vec<&str> = Vec::new();
    let mut k: usize = 0;
    while k < pieces.len()
        invariant
            t == text.spec_bytes(),
            valid_utf8(t),
            slice_views(pieces@) == lines_of(t),
            k <= pieces@.len(),
            views(out@) == lines_of(t).take(k as int),
        decreases pieces.len() - k,
    {
        proof {
            lemma_line_bytes(t, k as int);
            lemma_cut_valid(t, span_len(lines_of(t), k as int), span_len(lines_of(t), k + 1));
            assert(pieces@[k as int]@ == lines_of(t)[k as int]);
        }
        let line = str_from_utf8(pieces[k]).unwrap();
        proof {
            decode_utf8_encode_utf8(pieces@[k as int]@);
        }
        let ghost before = out@;
        out.push(line);
        assert(views(out@) =~= views(before).push(line.spec_bytes()));
        assert(lines_of(t).take(k + 1) =~= lines_of(t).take(k as int).push(lines_of(t)[k as int]));
        k = k + 1;
    }
    assert(lines_of(t).take(k as int) =~= lines_of(t));
    out
}

} // verus!
