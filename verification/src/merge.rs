//! The three-way merge of two descendants of one base text: the hunks of
//! each side against the base are replayed over it in order. Shared hunks
//! land once; genuine conflicts keep both sides' bytes, ours first.

use vstd::prelude::*;
use vstd::string::StringSliceAdditionalSpecFns;
use vstd::utf8::*;

use crate::bytes::{has_prefix, push_bytes, starts_with, string_from_utf8};
use crate::diff::{
    apply_hunks, byte_hunk_views, byte_hunks, ByteHunk, diff, emitted, end_of, hunks_wf, diff_reconstructs_the_target,
    texts_valid, HunkView, diff_of_equal_texts_is_empty,
};
use crate::lines::{lemma_cut_valid, line_cut};

verus! {

/// The bytes of `t` from `pos` up to `to`, or nothing when `to` is not past
/// `pos`.
pub open spec fn copy_span(t: Seq<u8>, pos: int, to: int) -> Seq<u8> {
    if to > pos {
        t.subrange(pos, to)
    } else {
        Seq::empty()
    }
}

/// The text for one base span replaced on both sides: the longer one when
/// one side's text begins with the other's, else both, ours first.
pub open spec fn shared_text(ours: Seq<u8>, theirs: Seq<u8>) -> Seq<u8> {
    if starts_with(theirs, ours) {
        theirs
    } else if starts_with(ours, theirs) {
        ours
    } else {
        ours + theirs
    }
}

/// The merge output from hunk `i` of ours, hunk `j` of theirs and base
/// position `pos` on.
pub open spec fn merge_from(
    t: Seq<u8>,
    a: Seq<HunkView>,
    b: Seq<HunkView>,
    i: int,
    j: int,
    pos: int,
) -> Seq<u8>
    decreases (a.len() - i) + (b.len() - j),
{
    if i < 0 || j < 0 || i > a.len() || j > b.len() {
        Seq::empty()
    } else if i < a.len() && j < b.len() {
        let o = a[i];
        let th = b[j];
        if o.1 <= th.0 && o.0 != th.0 {
            copy_span(t, pos, o.0) + o.2 + merge_from(t, a, b, i + 1, j, o.1)
        } else if th.1 <= o.0 && o.0 != th.0 {
            copy_span(t, pos, th.0) + th.2 + merge_from(t, a, b, i, j + 1, th.1)
        } else if o.0 == th.0 && o.1 == th.1 {
            copy_span(t, pos, o.0) + shared_text(o.2, th.2) + merge_from(
                t,
                a,
                b,
                i + 1,
                j + 1,
                o.1,
            )
        } else {
            let union_start = if o.0 <= th.0 {
                o.0
            } else {
                th.0
            };
            let union_end = if o.1 >= th.1 {
                o.1
            } else {
                th.1
            };
            copy_span(t, pos, union_start) + o.2 + th.2 + merge_from(
                t,
                a,
                b,
                i + 1,
                j + 1,
                union_end,
            )
        }
    } else if i < a.len() {
        copy_span(t, pos, a[i].0) + a[i].2 + merge_from(t, a, b, i + 1, j, a[i].1)
    } else if j < b.len() {
        copy_span(t, pos, b[j].0) + b[j].2 + merge_from(t, a, b, i, j + 1, b[j].1)
    } else {
        t.subrange(pos, t.len() as int)
    }
}

/// The three-way merge of `ours` and `theirs`, both descended from `base`,
/// as bytes.
pub open spec fn merge_text(base: Seq<u8>, ours: Seq<u8>, theirs: Seq<u8>) -> Seq<u8> {
    merge_from(base, diff(base, ours), diff(base, theirs), 0, 0, 0)
}


/// The output of hunks `i..` of `hs` over `t` from base position `pos` on.
pub open spec fn replay(t: Seq<u8>, hs: Seq<HunkView>, i: int, pos: int) -> Seq<u8>
    decreases hs.len() - i,
{
    if 0 <= i < hs.len() {
        copy_span(t, pos, hs[i].0) + hs[i].2 + replay(t, hs, i + 1, hs[i].1)
    } else {
        t.subrange(pos, t.len() as int)
    }
}

/// Hunks over `t` in order: each within `t`, none starting before an
/// earlier one ends.
pub open spec fn hunks_ordered(t: Seq<u8>, hs: Seq<HunkView>) -> bool {
    &&& forall|i: int| 0 <= i < hs.len() ==> 0 <= #[trigger] hs[i].0 <= hs[i].1 <= t.len()
    &&& forall|i: int, j: int| 0 <= i < j < hs.len() ==> #[trigger] hs[i].1 <= #[trigger] hs[j].0
}

proof fn lemma_wf_ordered(t: Seq<u8>, hs: Seq<HunkView>)
    requires
        hunks_wf(t, hs),
    ensures
        hunks_ordered(t, hs),
{
}

/// Replaying ordered hunks from the start is applying them.
proof fn lemma_replay(t: Seq<u8>, hs: Seq<HunkView>, k: int)
    requires
        hunks_ordered(t, hs),
        0 <= k <= hs.len(),
    ensures
        apply_hunks(t, hs) == emitted(t, hs.take(k)) + replay(t, hs, k, end_of(hs.take(k))),
    decreases hs.len() - k,
{
    if k == hs.len() {
        assert(hs.take(k) =~= hs);
    } else {
        lemma_replay(t, hs, k + 1);
        let pre = hs.take(k);
        let next = hs.take(k + 1);
        assert(next.drop_last() =~= pre);
        assert(next.last() == hs[k]);
        let e = end_of(pre);
        assert(0 <= hs[k].0 <= hs[k].1 <= t.len());
        if k > 0 {
            assert(pre.last() == hs[k - 1]);
            assert(hs[k - 1].1 <= hs[k].0);
        }
        assert(copy_span(t, e, hs[k].0) =~= t.subrange(e, hs[k].0));
        assert(emitted(t, next) == emitted(t, pre) + t.subrange(e, hs[k].0) + hs[k].2);
        assert(emitted(t, pre) + replay(t, hs, k, e) =~= emitted(t, next) + replay(
            t,
            hs,
            k + 1,
            hs[k].1,
        ));
    }
}

/// With the same hunks on both sides the merge replays them once.
proof fn lemma_merge_same(t: Seq<u8>, a: Seq<HunkView>, i: int, pos: int)
    requires
        0 <= i <= a.len(),
    ensures
        merge_from(t, a, a, i, i, pos) == replay(t, a, i, pos),
    decreases a.len() - i,
{
    if i < a.len() {
        lemma_merge_same(t, a, i + 1, a[i].1);
        assert(a[i].2.take(a[i].2.len() as int) =~= a[i].2);
        assert(shared_text(a[i].2, a[i].2) == a[i].2);
    }
}

/// Once their hunks are spent the merge replays the rest of ours.
proof fn lemma_merge_ours_only(t: Seq<u8>, a: Seq<HunkView>, b: Seq<HunkView>, i: int, pos: int)
    requires
        0 <= i <= a.len(),
    ensures
        merge_from(t, a, b, i, b.len() as int, pos) == replay(t, a, i, pos),
    decreases a.len() - i,
{
    if i < a.len() {
        lemma_merge_ours_only(t, a, b, i + 1, a[i].1);
    }
}

/// Once our hunks are spent the merge replays the rest of theirs.
proof fn lemma_merge_theirs_only(t: Seq<u8>, a: Seq<HunkView>, b: Seq<HunkView>, j: int, pos: int)
    requires
        0 <= j <= b.len(),
    ensures
        merge_from(t, a, b, a.len() as int, j, pos) == replay(t, b, j, pos),
    decreases b.len() - j,
{
    if j < b.len() {
        lemma_merge_theirs_only(t, a, b, j + 1, b[j].1);
    }
}

/// Replaying the tail of a concatenation replays the tail of its second
/// part.
proof fn lemma_replay_shift(t: Seq<u8>, x: Seq<HunkView>, y: Seq<HunkView>, i: int, pos: int)
    requires
        0 <= i <= y.len(),
    ensures
        replay(t, x + y, x.len() + i, pos) == replay(t, y, i, pos),
    decreases y.len() - i,
{
    if i < y.len() {
        assert((x + y)[x.len() + i] == y[i]);
        lemma_replay_shift(t, x, y, i + 1, y[i].1);
    }
}

/// When every hunk of theirs ends before every hunk of ours starts, the merge
/// lands theirs first, then ours.
proof fn lemma_merge_theirs_first(t: Seq<u8>, a: Seq<HunkView>, d: Seq<HunkView>, j: int, pos: int)
    requires
        forall|i: int, k: int|
            0 <= i < a.len() && 0 <= k < d.len() ==> #[trigger] d[k].1 <= #[trigger] a[i].0
                && d[k].0 != a[i].0,
        forall|i: int| 0 <= i < a.len() ==> #[trigger] a[i].0 <= a[i].1,
        forall|k: int| 0 <= k < d.len() ==> #[trigger] d[k].0 <= d[k].1,
        0 <= j <= d.len(),
    ensures
        merge_from(t, a, d, 0, j, pos) == replay(t, d + a, j, pos),
    decreases d.len() - j,
{
    if j < d.len() {
        lemma_merge_theirs_first(t, a, d, j + 1, d[j].1);
        assert((d + a)[j] == d[j]);
        if a.len() > 0 {
            assert(d[j].1 <= a[0].0 && d[j].0 != a[0].0);
            assert(!(a[0].1 <= d[j].0 && a[0].0 != d[j].0));
        }
    } else {
        lemma_merge_ours_only(t, a, d, 0, pos);
        lemma_replay_shift(t, d, a, 0, pos);
    }
}

/// When every hunk of ours ends before every hunk of theirs starts, the merge
/// lands ours first, then theirs.
proof fn lemma_merge_ours_first(t: Seq<u8>, a: Seq<HunkView>, d: Seq<HunkView>, i: int, pos: int)
    requires
        forall|i: int, k: int|
            0 <= i < a.len() && 0 <= k < d.len() ==> #[trigger] a[i].1 <= #[trigger] d[k].0
                && d[k].0 != a[i].0,
        0 <= i <= a.len(),
    ensures
        merge_from(t, a, d, i, 0, pos) == replay(t, a + d, i, pos),
    decreases a.len() - i,
{
    if i < a.len() {
        lemma_merge_ours_first(t, a, d, i + 1, a[i].1);
        assert((a + d)[i] == a[i]);
        if d.len() > 0 {
            assert(a[i].1 <= d[0].0 && d[0].0 != a[i].0);
        }
    } else {
        lemma_merge_theirs_only(t, a, d, 0, pos);
        lemma_replay_shift(t, a, d, 0, pos);
    }
}

/// Two ordered lists of hunks, the first wholly before the second, are
/// ordered together.
proof fn lemma_ordered_concat(t: Seq<u8>, x: Seq<HunkView>, y: Seq<HunkView>)
    requires
        hunks_ordered(t, x),
        hunks_ordered(t, y),
        forall|i: int, k: int|
            0 <= i < x.len() && 0 <= k < y.len() ==> #[trigger] x[i].1 <= #[trigger] y[k].0,
    ensures
        hunks_ordered(t, x + y),
{
    let z = x + y;
    assert forall|i: int| 0 <= i < z.len() implies 0 <= #[trigger] z[i].0 <= z[i].1 <= t.len() by {
        if i < x.len() {
            assert(z[i] == x[i]);
        } else {
            assert(z[i] == y[i - x.len()]);
        }
    }
    assert forall|i: int, j: int| 0 <= i < j < z.len() implies #[trigger] z[i].1
        <= #[trigger] z[j].0 by {
        if j < x.len() {
            assert(z[i] == x[i] && z[j] == x[j]);
        } else if i < x.len() {
            assert(z[i] == x[i] && z[j] == y[j - x.len()]);
        } else {
            assert(z[i] == y[i - x.len()] && z[j] == y[j - x.len()]);
        }
    }
}

/// Disjoint edits merge in order: when every hunk of theirs ends at or
/// before the start of every hunk of ours (and no two start together), the
/// merge is the base with both sides' hunks applied, theirs first; every
/// base byte outside all hunks is kept.
pub proof fn disjoint_edits_merge_theirs_first(base: Seq<u8>, ours: Seq<u8>, theirs: Seq<u8>)
    requires
        forall|i: int, k: int|
            0 <= i < diff(base, ours).len() && 0 <= k < diff(base, theirs).len()
                ==> #[trigger] diff(base, theirs)[k].1 <= #[trigger] diff(base, ours)[i].0
                && diff(base, theirs)[k].0 != diff(base, ours)[i].0,
    ensures
        merge_text(base, ours, theirs) == apply_hunks(
            base,
            diff(base, theirs) + diff(base, ours),
        ),
{
    let a = diff(base, ours);
    let d = diff(base, theirs);
    diff_reconstructs_the_target(base, ours);
    diff_reconstructs_the_target(base, theirs);
    lemma_wf_ordered(base, a);
    lemma_wf_ordered(base, d);
    lemma_ordered_concat(base, d, a);
    lemma_merge_theirs_first(base, a, d, 0, 0);
    lemma_replay(base, d + a, 0);
    assert((d + a).take(0) =~= Seq::<HunkView>::empty());
}

/// Disjoint edits merge in order: when every hunk of ours ends at or before
/// the start of every hunk of theirs (and no two start together), the merge
/// is the base with both sides' hunks applied, ours first; every base byte
/// outside all hunks is kept.
pub proof fn disjoint_edits_merge_ours_first(base: Seq<u8>, ours: Seq<u8>, theirs: Seq<u8>)
    requires
        forall|i: int, k: int|
            0 <= i < diff(base, ours).len() && 0 <= k < diff(base, theirs).len()
                ==> #[trigger] diff(base, ours)[i].1 <= #[trigger] diff(base, theirs)[k].0
                && diff(base, theirs)[k].0 != diff(base, ours)[i].0,
    ensures
        merge_text(base, ours, theirs) == apply_hunks(
            base,
            diff(base, ours) + diff(base, theirs),
        ),
{
    let a = diff(base, ours);
    let d = diff(base, theirs);
    diff_reconstructs_the_target(base, ours);
    diff_reconstructs_the_target(base, theirs);
    lemma_wf_ordered(base, a);
    lemma_wf_ordered(base, d);
    lemma_ordered_concat(base, a, d);
    lemma_merge_ours_first(base, a, d, 0, 0);
    lemma_replay(base, a + d, 0);
    assert((a + d).take(0) =~= Seq::<HunkView>::empty());
}

/// When both sides made the same change, the merge is that change, landed
/// once.
pub proof fn merge_of_the_same_change(base: Seq<u8>, both: Seq<u8>)
    ensures
        merge_text(base, both, both) == both,
{
    let a = diff(base, both);
    diff_reconstructs_the_target(base, both);
    lemma_merge_same(base, a, 0, 0);
    lemma_wf_ordered(base, a);
    lemma_replay(base, a, 0);
    assert(a.take(0) =~= Seq::<HunkView>::empty());
}

/// When theirs is the base, the merge is ours.
pub proof fn merge_with_unchanged_theirs(base: Seq<u8>, ours: Seq<u8>)
    ensures
        merge_text(base, ours, base) == ours,
{
    let a = diff(base, ours);
    diff_reconstructs_the_target(base, ours);
    diff_of_equal_texts_is_empty(base);
    lemma_merge_ours_only(base, a, diff(base, base), 0, 0);
    lemma_wf_ordered(base, a);
    lemma_replay(base, a, 0);
    assert(a.take(0) =~= Seq::<HunkView>::empty());
}

/// When ours is the base, the merge is theirs.
pub proof fn merge_with_unchanged_ours(base: Seq<u8>, theirs: Seq<u8>)
    ensures
        merge_text(base, base, theirs) == theirs,
{
    let b = diff(base, theirs);
    diff_reconstructs_the_target(base, theirs);
    diff_of_equal_texts_is_empty(base);
    lemma_merge_theirs_only(base, diff(base, base), b, 0, 0);
    lemma_wf_ordered(base, b);
    lemma_replay(base, b, 0);
    assert(b.take(0) =~= Seq::<HunkView>::empty());
}

/// Appends `t[pos..to]` to `out` when `to` is past `pos`.
fn copy_to(out: &mut Vec<u8>, t: &[u8], pos: usize, to: usize)
    requires
        to <= t@.len(),
    ensures
        final(out)@ == old(out)@ + copy_span(t@, pos as int, to as int),
{
    if to > pos {
        push_bytes(out, &t[pos..to]);
    } else {
        assert(old(out)@ + copy_span(t@, pos as int, to as int) =~= old(out)@);
    }
}

/// Copying between two line cuts of a valid text keeps the output valid.
proof fn lemma_copy_valid(t: Seq<u8>, out: Seq<u8>, pos: int, to: int)
    requires
        valid_utf8(t),
        valid_utf8(out),
        line_cut(t, pos),
        line_cut(t, to),
        0 <= pos <= t.len(),
        0 <= to <= t.len(),
    ensures
        valid_utf8(out + copy_span(t, pos, to)),
{
    if to > pos {
        lemma_cut_valid(t, pos, to);
        valid_utf8_concat(out, t.subrange(pos, to));
    } else {
        assert(out + copy_span(t, pos, to) =~= out);
    }
}

/// Appends `t[pos..to]` then `text` to a valid output, which stays valid.
fn land(out: &mut Vec<u8>, t: &[u8], pos: usize, to: usize, text: &[u8])
    requires
        valid_utf8(t@),
        valid_utf8(old(out)@),
        valid_utf8(text@),
        pos <= t@.len(),
        to <= t@.len(),
        line_cut(t@, pos as int),
        line_cut(t@, to as int),
    ensures
        final(out)@ == old(out)@ + copy_span(t@, pos as int, to as int) + text@,
        valid_utf8(final(out)@),
{
    proof {
        lemma_copy_valid(t@, out@, pos as int, to as int);
    }
    copy_to(out, t, pos, to);
    proof {
        valid_utf8_concat(out@, text@);
    }
    push_bytes(out, text);
}

/// What the merge state must keep between steps.
pub open spec fn merge_state_ok(
    t: Seq<u8>,
    a: Seq<HunkView>,
    d: Seq<HunkView>,
    i: int,
    j: int,
    pos: int,
    out: Seq<u8>,
) -> bool {
    &&& hunks_wf(t, a)
    &&& hunks_wf(t, d)
    &&& texts_valid(a)
    &&& texts_valid(d)
    &&& valid_utf8(t)
    &&& 0 <= i <= a.len()
    &&& 0 <= j <= d.len()
    &&& 0 <= pos <= t.len()
    &&& line_cut(t, pos)
    &&& valid_utf8(out)
}

/// One step of the merge: lands the next hunk (or pair of hunks) and
/// returns the new hunk indices and base position.
#[verifier::spinoff_prover]
#[verifier::rlimit(40)]
fn merge_step(
    out: &mut Vec<u8>,
    bytes: &[u8],
    mine: &Vec<ByteHunk>,
    disk: &Vec<ByteHunk>,
    i: usize,
    j: usize,
    pos: usize,
) -> (next: (usize, usize, usize))
    requires
        merge_state_ok(
            bytes@,
            byte_hunk_views(mine@),
            byte_hunk_views(disk@),
            i as int,
            j as int,
            pos as int,
            old(out)@,
        ),
        i < mine@.len() || j < disk@.len(),
    ensures
        merge_state_ok(
            bytes@,
            byte_hunk_views(mine@),
            byte_hunk_views(disk@),
            next.0 as int,
            next.1 as int,
            next.2 as int,
            final(out)@,
        ),
        (mine@.len() - next.0) + (disk@.len() - next.1) < (mine@.len() - i) + (disk@.len() - j),
        old(out)@ + merge_from(
            bytes@,
            byte_hunk_views(mine@),
            byte_hunk_views(disk@),
            i as int,
            j as int,
            pos as int,
        ) == final(out)@ + merge_from(
            bytes@,
            byte_hunk_views(mine@),
            byte_hunk_views(disk@),
            next.0 as int,
            next.1 as int,
            next.2 as int,
        ),
{
    let ghost t = bytes@;
    let ghost a = byte_hunk_views(mine@);
    let ghost d = byte_hunk_views(disk@);
    let ghost before = out@;
    let disk_len = disk.len();
    if i < mine.len() && j < disk_len {
        let o = &mine[i];
        let th = &disk[j];
        assert(a[i as int] == byte_hunk_views(mine@)[i as int]);
        assert(d[j as int] == byte_hunk_views(disk@)[j as int]);
        let ghost ov = a[i as int];
        let ghost tv = d[j as int];
        assert(valid_utf8(ov.2));
        assert(valid_utf8(tv.2));
        assert(0 <= ov.0 <= ov.1 <= t.len() && line_cut(t, ov.0) && line_cut(t, ov.1));
        assert(0 <= tv.0 <= tv.1 <= t.len() && line_cut(t, tv.0) && line_cut(t, tv.1));
        if o.end <= th.start && o.start != th.start {
            land(out, bytes, pos, o.start, o.text.as_slice());
            (i + 1, j, o.end)
        } else if th.end <= o.start && o.start != th.start {
            land(out, bytes, pos, th.start, th.text.as_slice());
            (i, j + 1, th.end)
        } else if o.start == th.start && o.end == th.end {
            if has_prefix(th.text.as_slice(), o.text.as_slice()) {
                land(out, bytes, pos, o.start, th.text.as_slice());
            } else if has_prefix(o.text.as_slice(), th.text.as_slice()) {
                land(out, bytes, pos, o.start, o.text.as_slice());
            } else {
                land(out, bytes, pos, o.start, o.text.as_slice());
                proof {
                    valid_utf8_concat(out@, tv.2);
                }
                push_bytes(out, th.text.as_slice());
                assert(out@ =~= before + copy_span(t, pos as int, ov.0) + (ov.2 + tv.2));
            }
            (i + 1, j + 1, o.end)
        } else {
            let union_start = if o.start <= th.start {
                o.start
            } else {
                th.start
            };
            let union_end = if o.end >= th.end {
                o.end
            } else {
                th.end
            };
            land(out, bytes, pos, union_start, o.text.as_slice());
            proof {
                valid_utf8_concat(out@, tv.2);
            }
            push_bytes(out, th.text.as_slice());
            (i + 1, j + 1, union_end)
        }
    } else if i < mine.len() {
        let o = &mine[i];
        assert(a[i as int] == byte_hunk_views(mine@)[i as int]);
        assert(valid_utf8(a[i as int].2));
        assert(0 <= a[i as int].0 <= a[i as int].1 <= t.len());
        assert(line_cut(t, a[i as int].0) && line_cut(t, a[i as int].1));
        land(out, bytes, pos, o.start, o.text.as_slice());
        (i + 1, j, o.end)
    } else {
        let th = &disk[j];
        assert(d[j as int] == byte_hunk_views(disk@)[j as int]);
        assert(valid_utf8(d[j as int].2));
        assert(0 <= d[j as int].0 <= d[j as int].1 <= t.len());
        assert(line_cut(t, d[j as int].0) && line_cut(t, d[j as int].1));
        land(out, bytes, pos, th.start, th.text.as_slice());
        (i, j + 1, th.end)
    }
}

/// Three-way merge of the base text's two descendants: `ours` and
/// `theirs`. Each side's hunks against `base` are replayed over it in
/// order; a hunk wholly before the other side's next one lands as it is;
/// the same base span replaced on both sides lands once (the longer text
/// when one begins with the other, else both, ours first); any other
/// overlap replaces the union of the two spans by ours' text then theirs'.
pub fn merged(base: &str, ours: &str, theirs: &str) -> (r: String)
    ensures
        encode_utf8(r@) == merge_text(base.spec_bytes(), ours.spec_bytes(), theirs.spec_bytes()),
{
    let ghost t = base.spec_bytes();
    let bytes = base.as_bytes();
    let mine = byte_hunks(base, ours);
    let disk = byte_hunks(base, theirs);
    let ghost a = byte_hunk_views(mine@);
    let ghost d = byte_hunk_views(disk@);
    proof {
        diff_reconstructs_the_target(t, ours.spec_bytes());
        diff_reconstructs_the_target(t, theirs.spec_bytes());
        encode_utf8_valid_utf8(base@);
        encode_utf8_valid_utf8(ours@);
        encode_utf8_valid_utf8(theirs@);
    }
    let mut out: Vec<u8> = Vec::new();
    let mut pos: usize = 0;
    let mut i: usize = 0;
    let mut j: usize = 0;
    assert(out@ + merge_from(t, a, d, 0, 0, 0) =~= merge_from(t, a, d, 0, 0, 0));
    while i < mine.len() || j < disk.len()
        invariant
            t == bytes@,
            a == byte_hunk_views(mine@),
            d == byte_hunk_views(disk@),
            merge_state_ok(t, a, d, i as int, j as int, pos as int, out@),
            out@ + merge_from(t, a, d, i as int, j as int, pos as int) == merge_from(
                t,
                a,
                d,
                0,
                0,
                0,
            ),
        decreases (mine.len() - i) + (disk.len() - j),
    {
        let next = merge_step(&mut out, bytes, &mine, &disk, i, j, pos);
        i = next.0;
        j = next.1;
        pos = next.2;
    }
    proof {
        lemma_copy_valid(t, out@, pos as int, t.len() as int);
    }
    let tail = &bytes[pos..bytes.len()];
    push_bytes(&mut out, tail);
    assert(merge_from(t, a, d, i as int, j as int, pos as int) == t.subrange(
        pos as int,
        t.len() as int,
    ));
    assert(copy_span(t, pos as int, t.len() as int) =~= t.subrange(pos as int, t.len() as int));
    let ghost merged_bytes = out@;
    let r = string_from_utf8(out).unwrap();
    proof {
        decode_utf8_encode_utf8(merged_bytes);
    }
    r
}

} // verus!
