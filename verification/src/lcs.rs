//! An edit script between two sequences of lines, by the longest common
//! subsequence, computed with plain dynamic programming.

use vstd::prelude::*;
use vstd::string::StringSliceAdditionalSpecFns;

use crate::lines::views;

verus! {

/// One move of an edit script over two line sequences.
#[derive(Clone, Copy, Debug, PartialEq, Eq)]
pub enum Step {
    /// The line is in both: keep it.
    Keep,
    /// The old line goes.
    Delete,
    /// The new line comes.
    Insert,
}

/// The most table cells the script computation affords; beyond it there is
/// no script.
pub const CELL_CAP: usize = 1_000_000;

/// The length of a longest common subsequence of `o[i..]` and `n[j..]`.
pub open spec fn lcs_len(o: Seq<Seq<u8>>, n: Seq<Seq<u8>>, i: int, j: int) -> nat
    decreases (o.len() - i) + (n.len() - j),
{
    if i < 0 || j < 0 || i >= o.len() || j >= n.len() {
        0
    } else if o[i] == n[j] {
        1 + lcs_len(o, n, i + 1, j + 1)
    } else {
        let down = lcs_len(o, n, i + 1, j);
        let right = lcs_len(o, n, i, j + 1);
        if down >= right {
            down
        } else {
            right
        }
    }
}

/// The script from `(i, j)` to the ends: keep equal lines; otherwise delete
/// when that loses no common line (ties delete), else insert; once one
/// side is spent, delete or insert the rest.
pub open spec fn script(o: Seq<Seq<u8>>, n: Seq<Seq<u8>>, i: int, j: int) -> Seq<Step>
    decreases (o.len() - i) + (n.len() - j),
{
    if i < 0 || j < 0 || i > o.len() || j > n.len() {
        Seq::empty()
    } else if i < o.len() && j < n.len() {
        if o[i] == n[j] {
            seq![Step::Keep] + script(o, n, i + 1, j + 1)
        } else if lcs_len(o, n, i + 1, j) >= lcs_len(o, n, i, j + 1) {
            seq![Step::Delete] + script(o, n, i + 1, j)
        } else {
            seq![Step::Insert] + script(o, n, i, j + 1)
        }
    } else if i < o.len() {
        seq![Step::Delete] + script(o, n, i + 1, j)
    } else if j < n.len() {
        seq![Step::Insert] + script(o, n, i, j + 1)
    } else {
        Seq::empty()
    }
}

/// `s` is an edit script that walks from `(i, j)` to the ends of `o` and
/// `n`, keeping only equal lines.
pub open spec fn valid_script(o: Seq<Seq<u8>>, n: Seq<Seq<u8>>, s: Seq<Step>, i: int, j: int) -> bool
    decreases s.len(),
{
    if s.len() == 0 {
        i == o.len() && j == n.len()
    } else {
        match s[0] {
            Step::Keep => 0 <= i < o.len() && 0 <= j < n.len() && o[i] == n[j] && valid_script(
                o,
                n,
                s.drop_first(),
                i + 1,
                j + 1,
            ),
            Step::Delete => 0 <= i < o.len() && valid_script(o, n, s.drop_first(), i + 1, j),
            Step::Insert => 0 <= j < n.len() && valid_script(o, n, s.drop_first(), i, j + 1),
        }
    }
}

/// Whether a script for `o` and `n` is affordable.
pub open spec fn affordable(o: Seq<Seq<u8>>, n: Seq<Seq<u8>>) -> bool {
    o.len() * n.len() <= CELL_CAP
}

/// The script for two whole line sequences, or `None` when the table would
/// exceed the cap.
pub open spec fn lcs_script(o: Seq<Seq<u8>>, n: Seq<Seq<u8>>) -> Option<Seq<Step>> {
    if affordable(o, n) {
        Some(script(o, n, 0, 0))
    } else {
        None
    }
}

/// The script is refused exactly when its table would have more cells than
/// the cap: a side with no lines always has a script.
pub proof fn script_refused_exactly_past_the_cap(o: Seq<Seq<u8>>, n: Seq<Seq<u8>>)
    ensures
        lcs_script(o, n) is None <==> o.len() * n.len() > CELL_CAP,
        o.len() == 0 || n.len() == 0 ==> lcs_script(o, n) == Some(script(o, n, 0, 0)),
{
    if o.len() == 0 || n.len() == 0 {
        assert(o.len() * n.len() == 0) by (nonlinear_arith)
            requires
                o.len() == 0 || n.len() == 0,
        ;
    }
}

/// Whether old line `k` is kept by the script `s` that starts at old line
/// `i`.
pub open spec fn keeps_old_line(s: Seq<Step>, i: int, k: int) -> bool
    decreases s.len(),
{
    if s.len() == 0 {
        false
    } else {
        match s[0] {
            Step::Keep => i == k || keeps_old_line(s.drop_first(), i + 1, k),
            Step::Delete => keeps_old_line(s.drop_first(), i + 1, k),
            Step::Insert => keeps_old_line(s.drop_first(), i, k),
        }
    }
}

/// A line kept by a script lies between the script's start and the end of
/// the old lines.
pub proof fn lemma_kept_bounds(
    o: Seq<Seq<u8>>,
    n: Seq<Seq<u8>>,
    s: Seq<Step>,
    i: int,
    j: int,
    k: int,
)
    requires
        valid_script(o, n, s, i, j),
        keeps_old_line(s, i, k),
    ensures
        i <= k < o.len(),
    decreases s.len(),
{
    let rest = s.drop_first();
    match s[0] {
        Step::Keep => {
            if i != k {
                lemma_kept_bounds(o, n, rest, i + 1, j + 1, k);
            }
        },
        Step::Delete => lemma_kept_bounds(o, n, rest, i + 1, j, k),
        Step::Insert => lemma_kept_bounds(o, n, rest, i, j + 1, k),
    }
}

/// A common subsequence is no longer than what is left of `n`.
pub proof fn lemma_lcs_len_bound(o: Seq<Seq<u8>>, n: Seq<Seq<u8>>, i: int, j: int)
    requires
        0 <= j <= n.len(),
    ensures
        lcs_len(o, n, i, j) <= n.len() - j,
    decreases (o.len() - i) + (n.len() - j),
{
    if i < 0 || j < 0 || i >= o.len() || j >= n.len() {
    } else if o[i] == n[j] {
        lemma_lcs_len_bound(o, n, i + 1, j + 1);
    } else {
        lemma_lcs_len_bound(o, n, i + 1, j);
        lemma_lcs_len_bound(o, n, i, j + 1);
    }
}

/// The script walks from `(i, j)` to the ends, keeping only equal lines.
pub proof fn lemma_script_valid(o: Seq<Seq<u8>>, n: Seq<Seq<u8>>, i: int, j: int)
    requires
        0 <= i <= o.len(),
        0 <= j <= n.len(),
    ensures
        valid_script(o, n, script(o, n, i, j), i, j),
    decreases (o.len() - i) + (n.len() - j),
{
    let s = script(o, n, i, j);
    if i < o.len() && j < n.len() {
        if o[i] == n[j] {
            lemma_script_valid(o, n, i + 1, j + 1);
            assert(s.drop_first() =~= script(o, n, i + 1, j + 1));
        } else if lcs_len(o, n, i + 1, j) >= lcs_len(o, n, i, j + 1) {
            lemma_script_valid(o, n, i + 1, j);
            assert(s.drop_first() =~= script(o, n, i + 1, j));
        } else {
            lemma_script_valid(o, n, i, j + 1);
            assert(s.drop_first() =~= script(o, n, i, j + 1));
        }
    } else if i < o.len() {
        lemma_script_valid(o, n, i + 1, j);
        assert(s.drop_first() =~= script(o, n, i + 1, j));
    } else if j < n.len() {
        lemma_script_valid(o, n, i, j + 1);
        assert(s.drop_first() =~= script(o, n, i, j + 1));
    }
}


/// The number of lines a script keeps.
pub open spec fn keeps(s: Seq<Step>) -> nat
    decreases s.len(),
{
    if s.len() == 0 {
        0
    } else {
        (if s[0] == Step::Keep {
            1nat
        } else {
            0nat
        }) + keeps(s.drop_first())
    }
}

/// Dropping one line from either side loses at most one common line, and
/// never gains one.
pub proof fn lemma_lcs_len_steps(o: Seq<Seq<u8>>, n: Seq<Seq<u8>>, i: int, j: int)
    requires
        0 <= i <= o.len(),
        0 <= j <= n.len(),
    ensures
        j < n.len() ==> lcs_len(o, n, i, j) <= lcs_len(o, n, i, j + 1) + 1,
        i < o.len() ==> lcs_len(o, n, i, j) <= lcs_len(o, n, i + 1, j) + 1,
        i < o.len() ==> lcs_len(o, n, i, j) >= lcs_len(o, n, i + 1, j),
        j < n.len() ==> lcs_len(o, n, i, j) >= lcs_len(o, n, i, j + 1),
    decreases (o.len() - i) + (n.len() - j),
{
    if i < o.len() && j < n.len() {
        lemma_lcs_len_steps(o, n, i + 1, j);
        lemma_lcs_len_steps(o, n, i, j + 1);
    }
}

/// Any script that walks from `(i, j)` to the ends keeps at most
/// `lcs_len(o, n, i, j)` lines.
pub proof fn lemma_keeps_bound(o: Seq<Seq<u8>>, n: Seq<Seq<u8>>, s: Seq<Step>, i: int, j: int)
    requires
        valid_script(o, n, s, i, j),
        0 <= i <= o.len(),
        0 <= j <= n.len(),
    ensures
        keeps(s) <= lcs_len(o, n, i, j),
    decreases s.len(),
{
    if s.len() > 0 {
        let rest = s.drop_first();
        lemma_lcs_len_steps(o, n, i, j);
        match s[0] {
            Step::Keep => lemma_keeps_bound(o, n, rest, i + 1, j + 1),
            Step::Delete => lemma_keeps_bound(o, n, rest, i + 1, j),
            Step::Insert => lemma_keeps_bound(o, n, rest, i, j + 1),
        }
    }
}

/// The computed script keeps exactly `lcs_len(o, n, i, j)` lines.
pub proof fn lemma_script_keeps(o: Seq<Seq<u8>>, n: Seq<Seq<u8>>, i: int, j: int)
    requires
        0 <= i <= o.len(),
        0 <= j <= n.len(),
    ensures
        keeps(script(o, n, i, j)) == lcs_len(o, n, i, j),
    decreases (o.len() - i) + (n.len() - j),
{
    let s = script(o, n, i, j);
    if i < o.len() && j < n.len() {
        if o[i] == n[j] {
            lemma_script_keeps(o, n, i + 1, j + 1);
            assert(s.drop_first() =~= script(o, n, i + 1, j + 1));
        } else if lcs_len(o, n, i + 1, j) >= lcs_len(o, n, i, j + 1) {
            lemma_script_keeps(o, n, i + 1, j);
            assert(s.drop_first() =~= script(o, n, i + 1, j));
        } else {
            lemma_script_keeps(o, n, i, j + 1);
            assert(s.drop_first() =~= script(o, n, i, j + 1));
        }
    } else if i < o.len() {
        lemma_script_keeps(o, n, i + 1, j);
        assert(s.drop_first() =~= script(o, n, i + 1, j));
    } else if j < n.len() {
        lemma_script_keeps(o, n, i, j + 1);
        assert(s.drop_first() =~= script(o, n, i, j + 1));
    }
}

/// The computed script is an edit script from `o` to `n` that keeps as
/// many lines as any edit script does: its kept lines are a longest common
/// subsequence.
pub proof fn script_keeps_the_most_lines(o: Seq<Seq<u8>>, n: Seq<Seq<u8>>, other: Seq<Step>)
    requires
        valid_script(o, n, other, 0, 0),
    ensures
        valid_script(o, n, script(o, n, 0, 0), 0, 0),
        keeps(other) <= keeps(script(o, n, 0, 0)),
{
    lemma_script_valid(o, n, 0, 0);
    lemma_keeps_bound(o, n, other, 0, 0);
    lemma_script_keeps(o, n, 0, 0);
}

/// Whether two byte slices hold the same bytes.
pub(crate) fn same_bytes(a: &[u8], b: &[u8]) -> (r: bool)
    ensures
        r == (a@ == b@),
{
    if a.len() != b.len() {
        return false;
    }
    let mut k: usize = 0;
    while k < a.len()
        invariant
            a@.len() == b@.len(),
            k <= a@.len(),
            forall|i: int| 0 <= i < k ==> a@[i] == b@[i],
        decreases a.len() - k,
    {
        if a[k] != b[k] {
            return false;
        }
        k = k + 1;
    }
    assert(a@ =~= b@);
    true
}

/// The table row `i` is laid out right for `o` and `n`.
pub open spec fn row_ok(row: Seq<u32>, o: Seq<Seq<u8>>, n: Seq<Seq<u8>>, i: int) -> bool {
    &&& row.len() == n.len() + 1
    &&& forall|j: int| 0 <= j <= n.len() ==> #[trigger] row[j] == lcs_len(o, n, i, j)
}

/// `rows[k]` holds table row `o.len() - k`, for every row computed so far.
pub open spec fn rows_ok(rows: Seq<Vec<u32>>, o: Seq<Seq<u8>>, n: Seq<Seq<u8>>) -> bool {
    forall|k: int| 0 <= k < rows.len() ==> row_ok(#[trigger] rows[k]@, o, n, o.len() - k)
}

/// The whole table, last row first.
fn lcs_table(old: &[&str], new: &[&str]) -> (rows: Vec<Vec<u32>>)
    requires
        old.len() > 0,
        new.len() > 0,
        old.len() * new.len() <= CELL_CAP,
    ensures
        rows@.len() == old.len() + 1,
        rows_ok(rows@, views(old@), views(new@)),
{
    let ghost o = views(old@);
    let ghost nw = views(new@);
    let n = old.len();
    let m = new.len();
    assert(m <= CELL_CAP) by (nonlinear_arith)
        requires
            n > 0,
            n * m <= CELL_CAP,
    ;
    let mut rows: Vec<Vec<u32>> = Vec::new();
    rows.push(vec![0u32; m + 1]);
    assert(row_ok(rows@[0]@, o, nw, n as int));
    let mut i: usize = n;
    while i > 0
        invariant
            o == views(old@),
            nw == views(new@),
            n == old.len(),
            m == new.len(),
            m <= CELL_CAP,
            i <= n,
            rows@.len() == n - i + 1,
            rows_ok(rows@, o, nw),
        decreases i,
    {
        i = i - 1;
        let below = rows.len() - 1;
        let mut row: Vec<u32> = vec![0u32; m + 1];
        let mut j: usize = m;
        assert(row@[m as int] == lcs_len(o, nw, i as int, m as int));
        while j > 0
            invariant
                o == views(old@),
                nw == views(new@),
                n == old.len(),
                m == new.len(),
                m <= CELL_CAP,
                i < n,
                j <= m,
                below == n - i - 1,
                rows@.len() == n - i,
                rows_ok(rows@, o, nw),
                row@.len() == m + 1,
                forall|jj: int| j <= jj <= m ==> #[trigger] row@[jj] == lcs_len(o, nw, i as int, jj),
            decreases j,
        {
            j = j - 1;
            assert(row_ok(rows@[below as int]@, o, nw, i + 1));
            let value: u32 = if same_bytes(old[i].as_bytes(), new[j].as_bytes()) {
                proof {
                    lemma_lcs_len_bound(o, nw, i + 1, j + 1);
                }
                rows[below][j + 1] + 1
            } else {
                let down = rows[below][j];
                let right = row[j + 1];
                if down >= right {
                    down
                } else {
                    right
                }
            };
            row.set(j, value);
        }
        assert(row_ok(row@, o, nw, i as int));
        rows.push(row);
    }
    rows
}

/// The edit script for `old` against `new`, or `None` when the table of
/// `old.len() * new.len()` cells would exceed the cap.
pub fn lcs_steps(old: &[&str], new: &[&str]) -> (r: Option<Vec<Step>>)
    ensures
        r matches Some(steps) ==> lcs_script(views(old@), views(new@)) == Some(steps@),
        r is None ==> lcs_script(views(old@), views(new@)) is None,
        r is None <==> old@.len() * new@.len() > CELL_CAP,
        r matches Some(steps) ==> steps@ == script(views(old@), views(new@), 0, 0),
        r matches Some(steps) ==> valid_script(views(old@), views(new@), steps@, 0, 0),
{
    let ghost o = views(old@);
    let ghost nw = views(new@);
    let n = old.len();
    let m = new.len();
    let too_big = match n.checked_mul(m) {
        Some(cells) => cells > CELL_CAP,
        None => true,
    };
    if too_big {
        return None;
    }
    proof {
        lemma_script_valid(o, nw, 0, 0);
    }
    let rows: Vec<Vec<u32>> = if n > 0 && m > 0 {
        lcs_table(old, new)
    } else {
        Vec::new()
    };
    let mut steps: Vec<Step> = Vec::new();
    let mut i: usize = 0;
    let mut j: usize = 0;
    assert(steps@ + script(o, nw, 0, 0) =~= script(o, nw, 0, 0));
    while i < n && j < m
        invariant
            o == views(old@),
            nw == views(new@),
            n == old.len(),
            m == new.len(),
            i <= n,
            j <= m,
            n > 0 && m > 0 ==> rows@.len() == n + 1 && rows_ok(rows@, o, nw),
            steps@ + script(o, nw, i as int, j as int) == script(o, nw, 0, 0),
        decreases (n - i) + (m - j),
    {
        let ghost before = steps@;
        if same_bytes(old[i].as_bytes(), new[j].as_bytes()) {
            steps.push(Step::Keep);
            proof {
                assert(script(o, nw, i as int, j as int) == seq![Step::Keep] + script(o, nw, i + 1, j + 1));
                assert(before + script(o, nw, i as int, j as int) =~= steps@ + script(o, nw, i + 1, j + 1));
            }
            i = i + 1;
            j = j + 1;
        } else {
            assert(row_ok(rows@[n - i - 1]@, o, nw, i + 1));
            assert(row_ok(rows@[n - i]@, o, nw, i as int));
            if rows[n - i - 1][j] >= rows[n - i][j + 1] {
                steps.push(Step::Delete);
                proof {
                    assert(script(o, nw, i as int, j as int) == seq![Step::Delete] + script(o, nw, i + 1, j as int));
                    assert(before + script(o, nw, i as int, j as int) =~= steps@ + script(o, nw, i + 1, j as int));
                }
                i = i + 1;
            } else {
                steps.push(Step::Insert);
                proof {
                    assert(script(o, nw, i as int, j as int) == seq![Step::Insert] + script(o, nw, i as int, j + 1));
                    assert(before + script(o, nw, i as int, j as int) =~= steps@ + script(o, nw, i as int, j + 1));
                }
                j = j + 1;
            }
        }
    }
    while i < n
        invariant
            o == views(old@),
            nw == views(new@),
            n == old.len(),
            m == new.len(),
            i <= n,
            j <= m,
            i < n ==> j == m,
            steps@ + script(o, nw, i as int, j as int) == script(o, nw, 0, 0),
        decreases n - i,
    {
        let ghost before = steps@;
        steps.push(Step::Delete);
        proof {
            assert(script(o, nw, i as int, j as int) == seq![Step::Delete] + script(o, nw, i + 1, j as int));
            assert(before + script(o, nw, i as int, j as int) =~= steps@ + script(o, nw, i + 1, j as int));
        }
        i = i + 1;
    }
    while j < m
        invariant
            o == views(old@),
            nw == views(new@),
            n == old.len(),
            m == new.len(),
            i == n,
            j <= m,
            steps@ + script(o, nw, i as int, j as int) == script(o, nw, 0, 0),
        decreases m - j,
    {
        let ghost before = steps@;
        steps.push(Step::Insert);
        proof {
            assert(script(o, nw, i as int, j as int) == seq![Step::Insert] + script(o, nw, i as int, j + 1));
            assert(before + script(o, nw, i as int, j as int) =~= steps@ + script(o, nw, i as int, j + 1));
        }
        j = j + 1;
    }
    assert(steps@ + Seq::<Step>::empty() =~= steps@);
    Some(steps)
}

} // verus!
