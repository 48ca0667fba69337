//! The line diff: byte hunks over the old text that turn it into the new
//! one. The common prefix and suffix of lines are trimmed first; the middle
//! is resolved by the line script, or becomes one replacement when the
//! script is not affordable.

use vstd::prelude::*;
use vstd::string::StringSliceAdditionalSpecFns;
use vstd::utf8::*;

use crate::bytes::{concat_lines, copy_bytes, string_from_utf8, total_len};
use crate::lcs::{
    keeps_old_line, lcs_script, lcs_steps, lemma_kept_bounds, lemma_script_valid, same_bytes, script,
    valid_script, Step, CELL_CAP,
};
use crate::lines::{
    lemma_cut_valid, lemma_flatten_split, lemma_line_bytes, lemma_lines_cut, lemma_lines_flatten,
    lemma_lines_span, lemma_span_step, line_cut, lines, lines_of, lines_partition_the_text, span_len,
    views,
};

verus! {

/// A hunk as plain values: the byte span `start..end` of the old text and
/// the bytes that replace it.
pub type HunkView = (int, int, Seq<u8>);

/// One replacement at the byte level: `start..end` of the old text become
/// `text`.
pub struct ByteHunk {
    pub start: usize,
    pub end: usize,
    pub text: Vec<u8>,
}

pub open spec fn byte_hunk_view(h: ByteHunk) -> HunkView {
    (h.start as int, h.end as int, h.text@)
}

pub open spec fn byte_hunk_views(hs: Seq<ByteHunk>) -> Seq<HunkView> {
    hs.map_values(|h: ByteHunk| byte_hunk_view(h))
}

/// Appends a hunk: an empty one (nothing replaced by nothing) is dropped,
/// and one that starts where the last one ends is merged into it.
pub open spec fn push_hunk(hs: Seq<HunkView>, h: HunkView) -> Seq<HunkView> {
    if h.0 == h.1 && h.2.len() == 0 {
        hs
    } else if hs.len() > 0 && hs.last().1 == h.0 {
        hs.drop_last().push((hs.last().0, h.1, hs.last().2 + h.2))
    } else {
        hs.push(h)
    }
}

/// Where the last hunk ends, or the start of the text.
pub open spec fn end_of(hs: Seq<HunkView>) -> int {
    if hs.len() == 0 {
        0
    } else {
        hs.last().1
    }
}

/// The output of the hunks up to where the last one ends: the untouched
/// bytes between them and their texts.
pub open spec fn emitted(t: Seq<u8>, hs: Seq<HunkView>) -> Seq<u8>
    decreases hs.len(),
{
    if hs.len() == 0 {
        Seq::empty()
    } else {
        let prev = hs.drop_last();
        emitted(t, prev) + t.subrange(end_of(prev), hs.last().0) + hs.last().2
    }
}

/// The text `t` with each hunk's span replaced by its text.
pub open spec fn apply_hunks(t: Seq<u8>, hs: Seq<HunkView>) -> Seq<u8> {
    emitted(t, hs) + t.subrange(end_of(hs), t.len() as int)
}

/// Hunks over `t` that are non-empty, lie between line cuts of `t`, and come
/// in order with untouched bytes between any two.
pub open spec fn hunks_wf(t: Seq<u8>, hs: Seq<HunkView>) -> bool {
    &&& forall|i: int|
        0 <= i < hs.len() ==> {
            &&& 0 <= #[trigger] hs[i].0 <= hs[i].1 <= t.len()
            &&& line_cut(t, hs[i].0)
            &&& line_cut(t, hs[i].1)
            &&& !(hs[i].0 == hs[i].1 && hs[i].2.len() == 0)
        }
    &&& forall|i: int, j: int| 0 <= i < j < hs.len() ==> #[trigger] hs[i].1 < #[trigger] hs[j].0
}

/// Every hunk text is valid UTF-8.
pub open spec fn texts_valid(hs: Seq<HunkView>) -> bool {
    forall|i: int| 0 <= i < hs.len() ==> valid_utf8(#[trigger] hs[i].2)
}

/// The number of leading lines, from `k` on, that `o` and `n` share.
pub open spec fn common_prefix(o: Seq<Seq<u8>>, n: Seq<Seq<u8>>, k: int) -> int
    decreases o.len() - k,
{
    if 0 <= k < o.len() && k < n.len() && o[k] == n[k] {
        common_prefix(o, n, k + 1)
    } else {
        k
    }
}

/// The number of trailing lines, from `s` on, that `o` and `n` share outside
/// their first `p` lines.
pub open spec fn common_suffix(o: Seq<Seq<u8>>, n: Seq<Seq<u8>>, p: int, s: int) -> int
    decreases o.len() - p - s,
{
    if 0 <= s < o.len() - p && s < n.len() - p && o[o.len() - 1 - s] == n[n.len() - 1 - s] {
        common_suffix(o, n, p, s + 1)
    } else {
        s
    }
}

/// The hunks that a script yields from old line `oi`, new line `ni` and
/// old byte position `pos`, appended to `hs`.
pub open spec fn build(
    o: Seq<Seq<u8>>,
    n: Seq<Seq<u8>>,
    steps: Seq<Step>,
    pos: int,
    oi: int,
    ni: int,
    hs: Seq<HunkView>,
) -> Seq<HunkView>
    decreases steps.len(),
{
    if steps.len() == 0 {
        hs
    } else {
        let rest = steps.drop_first();
        match steps[0] {
            Step::Keep => build(o, n, rest, pos + o[oi].len(), oi + 1, ni + 1, hs),
            Step::Delete => build(
                o,
                n,
                rest,
                pos + o[oi].len(),
                oi + 1,
                ni,
                push_hunk(hs, (pos, pos + o[oi].len(), Seq::empty())),
            ),
            Step::Insert => build(o, n, rest, pos, oi, ni + 1, push_hunk(hs, (pos, pos, n[ni]))),
        }
    }
}

/// The line diff of `old` against `new`, as hunks over `old`.
pub open spec fn diff(old: Seq<u8>, new: Seq<u8>) -> Seq<HunkView> {
    let o = lines_of(old);
    let n = lines_of(new);
    let p = common_prefix(o, n, 0);
    let s = common_suffix(o, n, p, 0);
    let om = o.subrange(p, o.len() - s);
    let nm = n.subrange(p, n.len() - s);
    let offset = span_len(o, p);
    match lcs_script(om, nm) {
        Some(steps) => build(om, nm, steps, offset, 0, 0, Seq::empty()),
        None => push_hunk(Seq::empty(), (offset, offset + om.flatten().len(), nm.flatten())),
    }
}

pub proof fn lemma_common_prefix(o: Seq<Seq<u8>>, n: Seq<Seq<u8>>, k: int)
    requires
        0 <= k <= o.len(),
        k <= n.len(),
    ensures
        k <= common_prefix(o, n, k) <= o.len(),
        common_prefix(o, n, k) <= n.len(),
        forall|i: int| k <= i < common_prefix(o, n, k) ==> o[i] == n[i],
    decreases o.len() - k,
{
    if 0 <= k < o.len() && k < n.len() && o[k] == n[k] {
        lemma_common_prefix(o, n, k + 1);
    }
}

pub proof fn lemma_common_suffix(o: Seq<Seq<u8>>, n: Seq<Seq<u8>>, p: int, s: int)
    requires
        0 <= p <= o.len(),
        p <= n.len(),
        0 <= s <= o.len() - p,
        s <= n.len() - p,
    ensures
        s <= common_suffix(o, n, p, s) <= o.len() - p,
        common_suffix(o, n, p, s) <= n.len() - p,
        forall|k: int|
            o.len() - common_suffix(o, n, p, s) <= k < o.len() - s ==> #[trigger] o[k] == n[k + (
            n.len() - o.len())],
    decreases o.len() - p - s,
{
    if 0 <= s < o.len() - p && s < n.len() - p && o[o.len() - 1 - s] == n[n.len() - 1 - s] {
        lemma_common_suffix(o, n, p, s + 1);
    }
}

/// What pushing a hunk does to the output, its end and its shape.
pub proof fn lemma_push_hunk(t: Seq<u8>, hs: Seq<HunkView>, h: HunkView, x: int)
    requires
        hunks_wf(t, hs),
        end_of(hs) <= h.0 <= h.1 <= x <= t.len(),
        line_cut(t, h.0),
        line_cut(t, h.1),
    ensures
        hunks_wf(t, push_hunk(hs, h)),
        end_of(push_hunk(hs, h)) <= x,
        end_of(hs) <= end_of(push_hunk(hs, h)),
        emitted(t, push_hunk(hs, h)) + t.subrange(end_of(push_hunk(hs, h)), x) == emitted(t, hs)
            + t.subrange(end_of(hs), h.0) + h.2 + t.subrange(h.1, x),
        texts_valid(hs) && valid_utf8(h.2) ==> texts_valid(push_hunk(hs, h)),
{
    let r = push_hunk(hs, h);
    if h.0 == h.1 && h.2.len() == 0 {
        assert(t.subrange(end_of(hs), x) =~= t.subrange(end_of(hs), h.0) + h.2 + t.subrange(
            h.1,
            x,
        ));
    } else if hs.len() > 0 && hs.last().1 == h.0 {
        let prev = hs.drop_last();
        let last = hs.last();
        let merged_hunk = (last.0, h.1, last.2 + h.2);
        assert(r.drop_last() =~= prev);
        assert(r.last() == merged_hunk);
        assert(emitted(t, r) == emitted(t, prev) + t.subrange(end_of(prev), last.0) + (last.2
            + h.2));
        assert(emitted(t, hs) == emitted(t, prev) + t.subrange(end_of(prev), last.0) + last.2);
        assert(t.subrange(end_of(hs), h.0) =~= Seq::<u8>::empty());
        assert(emitted(t, r) + t.subrange(end_of(r), x) =~= emitted(t, hs) + t.subrange(
            end_of(hs),
            h.0,
        ) + h.2 + t.subrange(h.1, x));
        assert forall|i: int| 0 <= i < r.len() implies {
            &&& 0 <= #[trigger] r[i].0 <= r[i].1 <= t.len()
            &&& line_cut(t, r[i].0)
            &&& line_cut(t, r[i].1)
            &&& !(r[i].0 == r[i].1 && r[i].2.len() == 0)
        } by {
            if i < r.len() - 1 {
                assert(r[i] == hs[i]);
            } else {
                assert(hs[hs.len() - 1] == last);
            }
        }
        assert forall|i: int, j: int| 0 <= i < j < r.len() implies #[trigger] r[i].1
            < #[trigger] r[j].0 by {
            assert(r[i] == hs[i]);
            if j < r.len() - 1 {
                assert(r[j] == hs[j]);
            } else {
                assert(hs[hs.len() - 1] == last);
            }
        }
        if texts_valid(hs) && valid_utf8(h.2) {
            assert forall|i: int| 0 <= i < r.len() implies valid_utf8(#[trigger] r[i].2) by {
                if i < r.len() - 1 {
                    assert(r[i] == hs[i]);
                } else {
                    assert(hs[hs.len() - 1] == last);
                    valid_utf8_concat(last.2, h.2);
                }
            }
        }
    } else {
        assert(r.drop_last() =~= hs);
        assert(r.last() == h);
        if hs.len() > 0 {
            assert(hs.last().1 < h.0);
        }
        assert forall|i: int, j: int| 0 <= i < j < r.len() implies #[trigger] r[i].1
            < #[trigger] r[j].0 by {
            assert(r[i] == hs[i]);
            if j < r.len() - 1 {
                assert(r[j] == hs[j]);
            } else {
                assert(hs[hs.len() - 1].1 <= hs[hs.len() - 1].1);
                if i < hs.len() - 1 {
                    assert(hs[i].1 < hs[hs.len() - 1].0);
                }
            }
        }
        assert(emitted(t, r) + t.subrange(end_of(r), x) =~= emitted(t, hs) + t.subrange(
            end_of(hs),
            h.0,
        ) + h.2 + t.subrange(h.1, x));
        if texts_valid(hs) && valid_utf8(h.2) {
            assert forall|i: int| 0 <= i < r.len() implies valid_utf8(#[trigger] r[i].2) by {
                if i < r.len() - 1 {
                    assert(r[i] == hs[i]);
                }
            }
        }
    }
}


/// What a script builds: well-formed hunks whose output, together with the
/// untouched bytes after the last one, is the new text up to the end of the
/// middle.
pub proof fn lemma_build(
    old: Seq<u8>,
    new: Seq<u8>,
    p: int,
    om: Seq<Seq<u8>>,
    nm: Seq<Seq<u8>>,
    steps: Seq<Step>,
    pos: int,
    oi: int,
    ni: int,
    hs: Seq<HunkView>,
)
    requires
        0 <= p,
        p + om.len() <= lines_of(old).len(),
        p + nm.len() <= lines_of(new).len(),
        om == lines_of(old).subrange(p, p + om.len()),
        nm == lines_of(new).subrange(p, p + nm.len()),
        valid_script(om, nm, steps, oi, ni),
        0 <= oi <= om.len(),
        0 <= ni <= nm.len(),
        pos == span_len(lines_of(old), p + oi),
        hunks_wf(old, hs),
        end_of(hs) <= pos,
        emitted(old, hs) + old.subrange(end_of(hs), pos) == lines_of(new).take(p + ni).flatten(),
        valid_utf8(new) ==> texts_valid(hs),
    ensures
        hunks_wf(old, build(om, nm, steps, pos, oi, ni, hs)),
        end_of(build(om, nm, steps, pos, oi, ni, hs)) <= span_len(lines_of(old), p + om.len()),
        emitted(old, build(om, nm, steps, pos, oi, ni, hs)) + old.subrange(
            end_of(build(om, nm, steps, pos, oi, ni, hs)),
            span_len(lines_of(old), p + om.len()),
        ) == lines_of(new).take(p + nm.len()).flatten(),
        valid_utf8(new) ==> texts_valid(build(om, nm, steps, pos, oi, ni, hs)),
    decreases steps.len(),
{
    let o = lines_of(old);
    let n = lines_of(new);
    if steps.len() > 0 {
        let rest = steps.drop_first();
        match steps[0] {
            Step::Keep => {
                lemma_line_bytes(old, p + oi);
                lemma_span_step(n, p + ni);
                assert(om[oi] == o[p + oi]);
                assert(nm[ni] == n[p + ni]);
                let next = pos + om[oi].len();
                assert(old.subrange(end_of(hs), next) =~= old.subrange(end_of(hs), pos)
                    + old.subrange(pos, next));
                assert(old.subrange(pos, next) == n[p + ni]);
                assert(emitted(old, hs) + old.subrange(end_of(hs), next) =~= (emitted(old, hs)
                    + old.subrange(end_of(hs), pos)) + n[p + ni]);
                lemma_build(old, new, p, om, nm, rest, next, oi + 1, ni + 1, hs);
            },
            Step::Delete => {
                lemma_line_bytes(old, p + oi);
                assert(om[oi] == o[p + oi]);
                let next = pos + om[oi].len();
                let h: HunkView = (pos, next, Seq::empty());
                lemma_push_hunk(old, hs, h, next);
                let r = push_hunk(hs, h);
                assert(emitted(old, hs) + old.subrange(end_of(hs), pos) + h.2 + old.subrange(
                    next,
                    next,
                ) =~= emitted(old, hs) + old.subrange(end_of(hs), pos));
                if valid_utf8(new) {
                    assert(valid_utf8(h.2));
                }
                lemma_build(old, new, p, om, nm, rest, next, oi + 1, ni, r);
            },
            Step::Insert => {
                lemma_lines_cut(old, p + oi);
                lemma_lines_span(old, p + oi, p + oi);
                lemma_line_bytes(new, p + ni);
                lemma_span_step(n, p + ni);
                assert(nm[ni] == n[p + ni]);
                let h: HunkView = (pos, pos, nm[ni]);
                lemma_push_hunk(old, hs, h, pos);
                let r = push_hunk(hs, h);
                assert(old.subrange(pos, pos) =~= Seq::<u8>::empty());
                assert(emitted(old, hs) + old.subrange(end_of(hs), pos) + h.2 + old.subrange(
                    pos,
                    pos,
                ) =~= (emitted(old, hs) + old.subrange(end_of(hs), pos)) + n[p + ni]);
                if valid_utf8(new) {
                    lemma_cut_valid(new, span_len(n, p + ni), span_len(n, p + ni + 1));
                }
                lemma_build(old, new, p, om, nm, rest, pos, oi, ni + 1, r);
            },
        }
    }
}

/// The facts about trimming that the diff rests on.
proof fn lemma_trim(old: Seq<u8>, new: Seq<u8>)
    ensures
        ({
            let o = lines_of(old);
            let n = lines_of(new);
            let p = common_prefix(o, n, 0);
            let s = common_suffix(o, n, p, 0);
            let om = o.subrange(p, o.len() - s);
            let nm = n.subrange(p, n.len() - s);
            &&& 0 <= p <= o.len() - s
            &&& p <= n.len() - s
            &&& 0 <= s
            &&& 0 <= span_len(o, p) <= span_len(o, o.len() - s) <= old.len()
            &&& om.flatten() == old.subrange(span_len(o, p), span_len(o, o.len() - s))
            &&& nm.flatten() == new.subrange(span_len(n, p), span_len(n, n.len() - s))
            &&& old.subrange(0, span_len(o, p)) == n.take(p).flatten()
            &&& old.subrange(span_len(o, o.len() - s), old.len() as int) == n.skip(
                n.len() - s,
            ).flatten()
            &&& new == n.take(p).flatten() + nm.flatten() + n.skip(n.len() - s).flatten()
            &&& line_cut(old, span_len(o, p))
            &&& line_cut(old, span_len(o, o.len() - s))
            &&& line_cut(new, span_len(n, p))
            &&& line_cut(new, span_len(n, n.len() - s))
            &&& span_len(n, p) <= span_len(n, n.len() - s)
        }),
{
    let o = lines_of(old);
    let n = lines_of(new);
    lemma_common_prefix(o, n, 0);
    let p = common_prefix(o, n, 0);
    lemma_common_suffix(o, n, p, 0);
    let s = common_suffix(o, n, p, 0);
    let nm = n.subrange(p, n.len() - s);
    lemma_lines_span(old, p, o.len() - s);
    lemma_lines_span(new, p, n.len() - s);
    lemma_lines_cut(old, p);
    lemma_lines_cut(old, o.len() - s);
    lemma_lines_cut(new, p);
    lemma_lines_cut(new, n.len() - s);
    assert(o.take(p) =~= n.take(p));
    assert(old.subrange(0, span_len(o, p)) =~= old.take(span_len(o, p)));
    assert(o.skip(o.len() - s) =~= n.skip(n.len() - s));
    assert(old.subrange(span_len(o, o.len() - s), old.len() as int) =~= old.skip(
        span_len(o, o.len() - s),
    ));
    lemma_lines_flatten(new);
    lemma_flatten_split(n, n.len() - s);
    assert(n.take(n.len() - s) =~= n.take(p) + nm);
    vstd::seq_lib::lemma_flatten_concat(n.take(p), nm);
}

/// Applying the diff of `old` against `new` to `old` gives `new`; its hunks
/// are non-empty, in order, apart from each other, and lie between line
/// cuts of `old`; their texts are valid UTF-8 when `new` is.
pub proof fn diff_reconstructs_the_target(old: Seq<u8>, new: Seq<u8>)
    ensures
        hunks_wf(old, diff(old, new)),
        apply_hunks(old, diff(old, new)) == new,
        valid_utf8(new) ==> texts_valid(diff(old, new)),
{
    let o = lines_of(old);
    let n = lines_of(new);
    let p = common_prefix(o, n, 0);
    let s = common_suffix(o, n, p, 0);
    let om = o.subrange(p, o.len() - s);
    let nm = n.subrange(p, n.len() - s);
    let offset = span_len(o, p);
    let big_p = span_len(o, o.len() - s);
    lemma_trim(old, new);
    let pre = n.take(p).flatten();
    let mid = nm.flatten();
    let post = n.skip(n.len() - s).flatten();
    let tail = old.subrange(big_p, old.len() as int);
    let r = diff(old, new);
    match lcs_script(om, nm) {
        Some(steps) => {
            lemma_script_valid(om, nm, 0, 0);
            let e: Seq<HunkView> = Seq::empty();
            assert(emitted(old, e) + old.subrange(end_of(e), offset) =~= pre);
            assert(om.len() == o.len() - s - p);
            assert(nm.len() == n.len() - s - p);
            assert(o.subrange(p, p + om.len()) == om);
            assert(n.subrange(p, p + nm.len()) == nm);
            lemma_build(old, new, p, om, nm, steps, offset, 0, 0, e);
            assert(n.take(n.len() - s).flatten() == pre + mid) by {
                assert(n.take(n.len() - s) =~= n.take(p) + nm);
                vstd::seq_lib::lemma_flatten_concat(n.take(p), nm);
            }
            assert(old.subrange(end_of(r), old.len() as int) =~= old.subrange(end_of(r), big_p)
                + tail);
            assert(apply_hunks(old, r) =~= pre + mid + post);
        },
        None => {
            let e: Seq<HunkView> = Seq::empty();
            let h: HunkView = (offset, offset + om.flatten().len(), nm.flatten());
            lemma_push_hunk(old, e, h, old.len() as int);
            assert(emitted(old, e) =~= Seq::<u8>::empty());
            assert(old.subrange(end_of(e), offset) == pre);
            assert(apply_hunks(old, r) =~= pre + mid + post);
            if valid_utf8(new) {
                lemma_cut_valid(new, span_len(n, p), span_len(n, n.len() - s));
            }
        },
    }
}



pub proof fn lemma_common_prefix_same(o: Seq<Seq<u8>>, k: int)
    requires
        0 <= k <= o.len(),
    ensures
        common_prefix(o, o, k) == o.len(),
    decreases o.len() - k,
{
    if k < o.len() {
        lemma_common_prefix_same(o, k + 1);
    }
}

/// A text diffed against itself has no hunks.
pub proof fn diff_of_equal_texts_is_empty(t: Seq<u8>)
    ensures
        diff(t, t) == Seq::<HunkView>::empty(),
{
    let o = lines_of(t);
    lemma_common_prefix_same(o, 0);
    let p = common_prefix(o, o, 0);
    assert(common_suffix(o, o, p, 0) == 0);
    let om = o.subrange(p, o.len() as int);
    assert(om =~= Seq::<Seq<u8>>::empty());
    assert(script(om, om, 0, 0) =~= Seq::<Step>::empty());
}


/// No hunk of `hs` overlaps the bytes `a..b`: each ends by `a` or starts
/// from `b` on.
pub open spec fn avoids(hs: Seq<HunkView>, a: int, b: int) -> bool {
    forall|x: int| 0 <= x < hs.len() ==> #[trigger] hs[x].1 <= a || b <= hs[x].0
}

/// Every hunk of `hs` ends by `x`.
pub open spec fn ends_by(hs: Seq<HunkView>, x: int) -> bool {
    forall|i: int| 0 <= i < hs.len() ==> #[trigger] hs[i].1 <= x
}

proof fn lemma_push_avoids(hs: Seq<HunkView>, h: HunkView, a: int, b: int)
    requires
        avoids(hs, a, b),
        a < b,
        h.0 >= b || h.1 <= a,
    ensures
        avoids(push_hunk(hs, h), a, b),
{
    let r = push_hunk(hs, h);
    if h.0 == h.1 && h.2.len() == 0 {
    } else if hs.len() > 0 && hs.last().1 == h.0 {
        assert(hs[hs.len() - 1] == hs.last());
        assert forall|x: int| 0 <= x < r.len() implies #[trigger] r[x].1 <= a || b <= r[x].0 by {
            if x < r.len() - 1 {
                assert(r[x] == hs[x]);
            }
        }
    } else {
        assert forall|x: int| 0 <= x < r.len() implies #[trigger] r[x].1 <= a || b <= r[x].0 by {
            if x < r.len() - 1 {
                assert(r[x] == hs[x]);
            }
        }
    }
}

proof fn lemma_push_ends(hs: Seq<HunkView>, h: HunkView, x: int)
    requires
        ends_by(hs, x),
        h.1 <= x,
    ensures
        ends_by(push_hunk(hs, h), x),
{
    let r = push_hunk(hs, h);
    if h.0 == h.1 && h.2.len() == 0 {
    } else {
        assert forall|i: int| 0 <= i < r.len() implies #[trigger] r[i].1 <= x by {
            if i < r.len() - 1 {
                assert(r[i] == hs[i]);
            }
        }
    }
}

/// Hunks built from a position at or past `b` leave `a..b` alone.
proof fn lemma_build_avoids_after(
    om: Seq<Seq<u8>>,
    nm: Seq<Seq<u8>>,
    steps: Seq<Step>,
    pos: int,
    oi: int,
    ni: int,
    hs: Seq<HunkView>,
    a: int,
    b: int,
)
    requires
        avoids(hs, a, b),
        a < b,
        b <= pos,
    ensures
        avoids(build(om, nm, steps, pos, oi, ni, hs), a, b),
    decreases steps.len(),
{
    if steps.len() > 0 {
        let rest = steps.drop_first();
        match steps[0] {
            Step::Keep => lemma_build_avoids_after(
                om,
                nm,
                rest,
                pos + om[oi].len(),
                oi + 1,
                ni + 1,
                hs,
                a,
                b,
            ),
            Step::Delete => {
                let h: HunkView = (pos, pos + om[oi].len(), Seq::empty());
                lemma_push_avoids(hs, h, a, b);
                lemma_build_avoids_after(
                    om,
                    nm,
                    rest,
                    pos + om[oi].len(),
                    oi + 1,
                    ni,
                    push_hunk(hs, h),
                    a,
                    b,
                );
            },
            Step::Insert => {
                let h: HunkView = (pos, pos, nm[ni]);
                lemma_push_avoids(hs, h, a, b);
                lemma_build_avoids_after(om, nm, rest, pos, oi, ni + 1, push_hunk(hs, h), a, b);
            },
        }
    }
}

/// Hunks built by a script that keeps old middle line `k` leave that line's
/// bytes alone.
proof fn lemma_build_avoids_kept(
    old: Seq<u8>,
    p: int,
    om: Seq<Seq<u8>>,
    nm: Seq<Seq<u8>>,
    steps: Seq<Step>,
    pos: int,
    oi: int,
    ni: int,
    hs: Seq<HunkView>,
    k: int,
)
    requires
        0 <= p,
        p + om.len() <= lines_of(old).len(),
        om == lines_of(old).subrange(p, p + om.len()),
        valid_script(om, nm, steps, oi, ni),
        0 <= oi <= om.len(),
        0 <= ni <= nm.len(),
        pos == span_len(lines_of(old), p + oi),
        ends_by(hs, pos),
        keeps_old_line(steps, oi, k),
    ensures
        avoids(
            build(om, nm, steps, pos, oi, ni, hs),
            span_len(lines_of(old), p + k),
            span_len(lines_of(old), p + k + 1),
        ),
    decreases steps.len(),
{
    let o = lines_of(old);
    lemma_kept_bounds(om, nm, steps, oi, ni, k);
    let a = span_len(o, p + k);
    let b = span_len(o, p + k + 1);
    lines_partition_the_text(old);
    lemma_line_bytes(old, p + k);
    lemma_line_bytes(old, p + oi);
    assert(om[oi] == o[p + oi]);
    assert(o[p + k].len() > 0);
    lemma_lines_span(old, p + oi, p + k);
    if oi < k {
        lemma_lines_span(old, p + oi + 1, p + k);
    }
    let rest = steps.drop_first();
    match steps[0] {
        Step::Keep => {
            let next = pos + om[oi].len();
            if oi == k {
                assert forall|x: int| 0 <= x < hs.len() implies #[trigger] hs[x].1 <= a || b
                    <= hs[x].0 by {
                    assert(hs[x].1 <= pos);
                }
                lemma_build_avoids_after(om, nm, rest, next, oi + 1, ni + 1, hs, a, b);
            } else {
                assert forall|i: int| 0 <= i < hs.len() implies #[trigger] hs[i].1 <= next by {
                    assert(hs[i].1 <= pos);
                }
                lemma_build_avoids_kept(old, p, om, nm, rest, next, oi + 1, ni + 1, hs, k);
            }
        },
        Step::Delete => {
            let next = pos + om[oi].len();
            let h: HunkView = (pos, next, Seq::empty());
            assert forall|i: int| 0 <= i < hs.len() implies #[trigger] hs[i].1 <= next by {
                assert(hs[i].1 <= pos);
            }
            lemma_push_ends(hs, h, next);
            lemma_build_avoids_kept(old, p, om, nm, rest, next, oi + 1, ni, push_hunk(hs, h), k);
        },
        Step::Insert => {
            let h: HunkView = (pos, pos, nm[ni]);
            lemma_push_ends(hs, h, pos);
            lemma_build_avoids_kept(old, p, om, nm, rest, pos, oi, ni + 1, push_hunk(hs, h), k);
        },
    }
}

/// The number of leading lines that `old` and `new` share.
pub open spec fn lead(old: Seq<u8>, new: Seq<u8>) -> int {
    common_prefix(lines_of(old), lines_of(new), 0)
}

/// The lines of `old` between the shared leading and trailing lines.
pub open spec fn old_middle(old: Seq<u8>, new: Seq<u8>) -> Seq<Seq<u8>> {
    let o = lines_of(old);
    let n = lines_of(new);
    o.subrange(lead(old, new), o.len() - common_suffix(o, n, lead(old, new), 0))
}

/// The lines of `new` between the shared leading and trailing lines.
pub open spec fn new_middle(old: Seq<u8>, new: Seq<u8>) -> Seq<Seq<u8>> {
    let o = lines_of(old);
    let n = lines_of(new);
    n.subrange(lead(old, new), n.len() - common_suffix(o, n, lead(old, new), 0))
}

/// When the middle between the shared leading and trailing lines is small
/// enough for the line script, no hunk touches an old line that the script
/// keeps: the diff rewrites only the middle lines that a longest common
/// subsequence of the two middles leaves out.
pub proof fn diff_leaves_kept_lines_untouched(old: Seq<u8>, new: Seq<u8>, k: int)
    requires
        old_middle(old, new).len() * new_middle(old, new).len() <= CELL_CAP,
        keeps_old_line(script(old_middle(old, new), new_middle(old, new), 0, 0), 0, k),
    ensures
        avoids(
            diff(old, new),
            span_len(lines_of(old), lead(old, new) + k),
            span_len(lines_of(old), lead(old, new) + k + 1),
        ),
{
    let o = lines_of(old);
    let n = lines_of(new);
    let p = lead(old, new);
    let om = old_middle(old, new);
    let nm = new_middle(old, new);
    lemma_trim(old, new);
    lemma_script_valid(om, nm, 0, 0);
    assert(o.subrange(p, p + om.len()) == om);
    let e: Seq<HunkView> = Seq::empty();
    lemma_build_avoids_kept(old, p, om, nm, script(om, nm, 0, 0), span_len(o, p), 0, 0, e, k);
}

/// One replacement: `start..end` bytes of the old text become `text`.
#[derive(Clone, Debug, PartialEq, Eq)]
pub struct Hunk {
    pub start: usize,
    pub end: usize,
    pub text: String,
}

pub open spec fn hunk_view(h: Hunk) -> HunkView {
    (h.start as int, h.end as int, encode_utf8(h.text@))
}

pub open spec fn hunk_views(hs: Seq<Hunk>) -> Seq<HunkView> {
    hs.map_values(|h: Hunk| hunk_view(h))
}

/// Appends a hunk to `out` by the rule of `push_hunk`.
fn push_edit(out: &mut Vec<ByteHunk>, start: usize, end: usize, text: Vec<u8>)
    ensures
        byte_hunk_views(final(out)@) == push_hunk(
            byte_hunk_views(old(out)@),
            (start as int, end as int, text@),
        ),
{
    let ghost before = byte_hunk_views(out@);
    if start == end && text.len() == 0 {
        return;
    }
    let count = out.len();
    if count > 0 && out[count - 1].end == start {
        let mut last = out.pop().unwrap();
        proof {
            assert(before.last() == byte_hunk_view(last));
            assert(byte_hunk_views(out@) =~= before.drop_last());
        }
        let ghost last_text = last.text@;
        let ghost added = text@;
        last.end = end;
        let mut text = text;
        last.text.append(&mut text);
        out.push(last);
        proof {
            assert(byte_hunk_views(out@) =~= before.drop_last().push(
                (before.last().0, end as int, last_text + added),
            ));
        }
        return;
    }
    let ghost text_view = text@;
    out.push(ByteHunk { start, end, text });
    proof {
        assert(byte_hunk_views(out@) =~= before.push((start as int, end as int, text_view)));
    }
}

/// The line diff of `old` against `new` as byte hunks.
pub(crate) fn byte_hunks(old: &str, new: &str) -> (out: Vec<ByteHunk>)
    ensures
        byte_hunk_views(out@) == diff(old.spec_bytes(), new.spec_bytes()),
{
    let ghost ob = old.spec_bytes();
    let ghost nb = new.spec_bytes();
    let ghost o = lines_of(ob);
    let ghost n = lines_of(nb);
    let old_lines = lines(old);
    let new_lines = lines(new);
    proof {
        lemma_trim(ob, nb);
        lemma_common_prefix(o, n, 0);
    }
    let mut prefix: usize = 0;
    while prefix < old_lines.len() && prefix < new_lines.len() && same_bytes(
        old_lines[prefix].as_bytes(),
        new_lines[prefix].as_bytes(),
    )
        invariant
            o == views(old_lines@),
            n == views(new_lines@),
            prefix <= old_lines@.len(),
            prefix <= new_lines@.len(),
            common_prefix(o, n, prefix as int) == common_prefix(o, n, 0),
        decreases old_lines.len() - prefix,
    {
        prefix = prefix + 1;
    }
    let ghost p = prefix as int;
    assert(common_prefix(o, n, p) == p);
    proof {
        lemma_common_suffix(o, n, p, 0);
    }
    let mut suffix: usize = 0;
    while suffix < old_lines.len() - prefix && suffix < new_lines.len() - prefix && same_bytes(
        old_lines[old_lines.len() - 1 - suffix].as_bytes(),
        new_lines[new_lines.len() - 1 - suffix].as_bytes(),
    )
        invariant
            o == views(old_lines@),
            n == views(new_lines@),
            p == prefix,
            prefix <= old_lines@.len(),
            prefix <= new_lines@.len(),
            suffix <= old_lines@.len() - prefix,
            suffix <= new_lines@.len() - prefix,
            common_suffix(o, n, p, suffix as int) == common_suffix(o, n, p, 0),
        decreases old_lines.len() - suffix,
    {
        suffix = suffix + 1;
    }
    let ghost s = suffix as int;
    assert(common_suffix(o, n, p, s) == s);
    let ghost om = o.subrange(p, o.len() - s);
    let ghost nm = n.subrange(p, n.len() - s);
    let old_slice = old_lines.as_slice();
    let new_slice = new_lines.as_slice();
    let old_mid = &old_slice[prefix..old_lines.len() - suffix];
    let new_mid = &new_slice[prefix..new_lines.len() - suffix];
    let head = &old_slice[0..prefix];
    assert(views(old_mid@) =~= om);
    assert(views(new_mid@) =~= nm);
    assert(views(head@) =~= o.take(p));
    let old_total = old.as_bytes().len();
    proof {
        lemma_lines_span(ob, p, p);
        assert(views(head@).flatten() == ob.take(span_len(o, p)));
    }
    let offset = total_len(head);
    assert(offset == span_len(o, p));
    let mut out: Vec<ByteHunk> = Vec::new();
    match lcs_steps(old_mid, new_mid) {
        Some(steps) => {
            let ghost all = steps@;
            proof {
                lemma_script_valid(om, nm, 0, 0);
                assert(all.skip(0) =~= all);
            }
            let mut old_pos: usize = offset;
            let mut oi: usize = 0;
            let mut ni: usize = 0;
            let mut k: usize = 0;
            let new_count = new_mid.len();
            assert(byte_hunk_views(out@) =~= Seq::<HunkView>::empty());
            while k < steps.len()
                invariant
                    all == steps@,
                    om == views(old_mid@),
                    nm == views(new_mid@),
                    o == lines_of(ob),
                    ob == old.spec_bytes(),
                    old_total == ob.len(),
                    new_count == nm.len(),
                    0 <= p,
                    p + om.len() <= o.len(),
                    om == o.subrange(p, p + om.len()),
                    k <= all.len(),
                    oi <= om.len(),
                    ni <= nm.len(),
                    valid_script(om, nm, all.skip(k as int), oi as int, ni as int),
                    old_pos == span_len(o, p + oi),
                    build(om, nm, all.skip(k as int), old_pos as int, oi as int, ni as int, byte_hunk_views(out@))
                        == build(om, nm, all, offset as int, 0, 0, Seq::empty()),
                decreases all.len() - k,
            {
                let ghost rest = all.skip(k as int);
                assert(rest.len() > 0);
                assert(rest[0] == all[k as int]);
                assert(rest.drop_first() =~= all.skip(k + 1));
                assert(steps@[k as int] == all[k as int]);
                match steps[k] {
                    Step::Keep => {
                        proof {
                            assert(rest[0] == Step::Keep);
                            lemma_line_bytes(ob, p + oi);
                            assert(om[oi as int] == o[p + oi]);
                        }
                        old_pos = old_pos + old_mid[oi].len();
                        oi = oi + 1;
                        ni = ni + 1;
                    },
                    Step::Delete => {
                        proof {
                            lemma_line_bytes(ob, p + oi);
                            assert(om[oi as int] == o[p + oi]);
                        }
                        let len = old_mid[oi].len();
                        push_edit(&mut out, old_pos, old_pos + len, Vec::new());
                        old_pos = old_pos + len;
                        oi = oi + 1;
                    },
                    Step::Insert => {
                        let text = copy_bytes(new_mid[ni].as_bytes());
                        push_edit(&mut out, old_pos, old_pos, text);
                        ni = ni + 1;
                    },
                }
                k = k + 1;
            }
        },
        None => {
            let old_len = total_len(old_mid);
            let text = concat_lines(new_mid);
            push_edit(&mut out, offset, offset + old_len, text);
        },
    }
    out
}

/// The line diff of `old` against `new`: byte hunks over `old`, in order,
/// that turn it into `new`. The common prefix and suffix of lines are
/// trimmed first; the middle follows the line script, or is one
/// replacement when the script is not affordable.
pub fn hunks(old: &str, new: &str) -> (out: Vec<Hunk>)
    ensures
        hunk_views(out@) == diff(old.spec_bytes(), new.spec_bytes()),
{
    let edits = byte_hunks(old, new);
    let ghost d = diff(old.spec_bytes(), new.spec_bytes());
    proof {
        diff_reconstructs_the_target(old.spec_bytes(), new.spec_bytes());
        encode_utf8_valid_utf8(new@);
    }
    let mut out: Vec<Hunk> = Vec::new();
    let mut k: usize = 0;
    while k < edits.len()
        invariant
            d == byte_hunk_views(edits@),
            texts_valid(d),
            k <= edits@.len(),
            hunk_views(out@) == d.take(k as int),
        decreases edits.len() - k,
    {
        let edit = &edits[k];
        assert(valid_utf8(d[k as int].2));
        let bytes = copy_bytes(edit.text.as_slice());
        let text = string_from_utf8(bytes).unwrap();
        proof {
            decode_utf8_encode_utf8(bytes@);
        }
        let ghost before = out@;
        let hunk = Hunk { start: edit.start, end: edit.end, text };
        assert(hunk_view(hunk) == d[k as int]);
        out.push(hunk);
        assert(hunk_views(out@) == hunk_views(before).push(hunk_view(hunk)));
        assert(d.take(k + 1) == d.take(k as int).push(d[k as int]));
        assert(hunk_views(out@) =~= d.take(k + 1));
        k = k + 1;
    }
    assert(d.take(k as int) =~= d);
    out
}


/// A wire span: `start..end` bytes of the old text become `text`.
#[derive(Clone, Debug, PartialEq, Eq)]
pub struct Span {
    pub start: usize,
    pub end: usize,
    pub text: String,
}

pub open spec fn span_view(s: Span) -> HunkView {
    (s.start as int, s.end as int, encode_utf8(s.text@))
}

pub open spec fn span_views(ss: Seq<Span>) -> Seq<HunkView> {
    ss.map_values(|s: Span| span_view(s))
}

/// The wire spans that turn `old` into `new`: its hunks, one span each.
pub fn spans(old: &str, new: &str) -> (out: Vec<Span>)
    ensures
        span_views(out@) == diff(old.spec_bytes(), new.spec_bytes()),
{
    let hs = hunks(old, new);
    let ghost d = hunk_views(hs@);
    let mut out: Vec<Span> = Vec::new();
    let mut k: usize = 0;
    while k < hs.len()
        invariant
            d == hunk_views(hs@),
            k <= hs@.len(),
            span_views(out@) == d.take(k as int),
        decreases hs.len() - k,
    {
        let hunk = &hs[k];
        let span = Span { start: hunk.start, end: hunk.end, text: hunk.text.clone() };
        assert(span_view(span) == d[k as int]);
        let ghost before = out@;
        out.push(span);
        assert(span_views(out@) == span_views(before).push(span_view(span)));
        assert(d.take(k + 1) == d.take(k as int).push(d[k as int]));
        assert(span_views(out@) =~= d.take(k + 1));
        k = k + 1;
    }
    assert(d.take(k as int) =~= d);
    out
}

} // verus!
