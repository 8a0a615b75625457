//! The edit grid of two sequences and the frontier that the diagonal sweep
//! keeps over it.
//!
//! Cell `(r, c)` of the grid holds the distance between the first `r`
//! elements of `s` and the first `c` elements of `t`. The diagonal of a cell
//! is `c - r`. For a number of edits `h`, the frontier records for each
//! diagonal a row up to which every cell of that diagonal costs at most `h`.
use crate::distance::lemma_levenshtein_lower_bound;
use crate::distance::levenshtein;
use crate::distance::substitution_cost;
use crate::prefix::common_prefix_len;
use crate::prefix::is_common_prefix_len;
use crate::prefix::lemma_common_prefix_len_unique;
use vstd::prelude::*;

verus! {

/// The distance between the first `r` elements of `s` and the first `c`
/// elements of `t`.
pub open spec fn cell<T>(s: Seq<T>, t: Seq<T>, r: int, c: int) -> int {
    levenshtein(s.take(r), t.take(c)) as int
}

/// `(r, c)` names a cell of the grid of `s` and `t`.
pub open spec fn in_grid<T>(s: Seq<T>, t: Seq<T>, r: int, c: int) -> bool {
    0 <= r <= s.len() && 0 <= c <= t.len()
}

/// The least number of edits that any path needs from diagonal `d` to the
/// diagonal of the last cell.
pub open spec fn remaining<T>(s: Seq<T>, t: Seq<T>, d: int) -> int {
    let end = t.len() - s.len();
    if d <= end {
        end - d
    } else {
        d - end
    }
}

/// Diagonal `d` belongs to the band that the sweep visits for `h` edits
/// under the bound `k`.
pub open spec fn in_window<T>(s: Seq<T>, t: Seq<T>, k: int, h: int, d: int) -> bool {
    let end = t.len() - s.len();
    &&& 0 <= h
    &&& -h <= d <= h
    &&& -(1 + (k - end) / 2) <= d <= 1 + k / 2 + end
}

/// The first slot of the band for `h` edits; the slot of diagonal `d` is
/// `d + k + 1`.
pub open spec fn window_first<T>(s: Seq<T>, t: Seq<T>, k: int, h: int) -> int {
    let below = 1 + (k - (t.len() - s.len())) / 2;
    k + 1 - (if below <= h {
        below
    } else {
        h
    })
}

/// The last slot of the band for `h` edits.
pub open spec fn window_last<T>(s: Seq<T>, t: Seq<T>, k: int, h: int) -> int {
    let above = 1 + k / 2 + (t.len() - s.len());
    k + 1 + (if above <= h {
        above
    } else {
        h
    })
}

/// The band is the run of slots from its first to its last, and it lies
/// inside the frontier with a slot to spare on either side.
pub proof fn lemma_window_slots<T>(s: Seq<T>, t: Seq<T>, k: int, h: int, i: int)
    requires
        s.len() <= t.len(),
        t.len() - s.len() <= k,
        0 <= h <= k,
    ensures
        in_window(s, t, k, h, i - (k + 1)) <==> window_first(s, t, k, h) <= i <= window_last(
            s,
            t,
            k,
            h,
        ),
        1 <= window_first(s, t, k, h) <= k + 1 <= window_last(s, t, k, h) <= 2 * k + 1,
{
}

/// Every cell of diagonal `d` up to row `v` costs at most `h`.
pub open spec fn reaches<T>(s: Seq<T>, t: Seq<T>, d: int, v: int, h: int) -> bool {
    forall|r: int, c: int|
        in_grid(s, t, r, c) && c - r == d && r <= v ==> #[trigger] cell(s, t, r, c) <= h
}

/// Every cell of diagonal `d` that costs at most `h`, and from which the
/// last cell may still be within `k` edits, lies at row `v` or before it.
pub open spec fn covers<T>(s: Seq<T>, t: Seq<T>, k: int, d: int, v: int, h: int) -> bool {
    forall|r: int, c: int|
        in_grid(s, t, r, c) && c - r == d && #[trigger] cell(s, t, r, c) <= h && cell(s, t, r, c)
            + remaining(s, t, d) <= k ==> r <= v
}

/// Row `v` cannot be left along diagonal `d` for free: a sequence ends
/// there, or the next two elements differ.
pub open spec fn halts<T>(s: Seq<T>, t: Seq<T>, d: int, v: int) -> bool {
    v >= s.len() || v + d >= t.len() || s[v] != t[v + d]
}

/// `v` is a proper frontier value for diagonal `d` after `h` edits: outside
/// the band it is the mark -1 for a diagonal not reached, inside it is a row
/// that the three predicates above describe.
pub closed spec fn entry<T>(s: Seq<T>, t: Seq<T>, k: int, d: int, v: int, h: int) -> bool {
    if in_window(s, t, k, h, d) {
        &&& 0 <= v <= s.len() + h
        &&& 0 <= v + d
        &&& reaches(s, t, d, v, h)
        &&& covers(s, t, k, d, v, h)
        &&& halts(s, t, d, v)
    } else {
        v == -1
    }
}

/// `f` is the frontier after `h` edits: slot `i` stands for diagonal
/// `i - (k + 1)` and holds a proper value for it.
pub closed spec fn frontier<T>(s: Seq<T>, t: Seq<T>, k: int, f: Seq<isize>, h: int) -> bool {
    &&& f.len() == 2 * k + 3
    &&& forall|i: int| 0 <= i < f.len() ==> entry(s, t, k, i - (k + 1), #[trigger] f[i] as int, h)
}

/// The row at which diagonal `d` is entered with one more edit, from the
/// rows `lo`, `mid` and `hi` that the diagonals `d - 1`, `d` and `d + 1` had
/// reached: by an insertion, a substitution or a deletion.
pub open spec fn start_row(lo: int, mid: int, hi: int) -> int {
    let a = if lo >= mid + 1 {
        lo
    } else {
        mid + 1
    };
    if a >= hi + 1 {
        a
    } else {
        hi + 1
    }
}

/// From row `r0` on, diagonal `d` runs over equal elements up to row `v`,
/// where it halts.
pub closed spec fn run<T>(s: Seq<T>, t: Seq<T>, d: int, r0: int, v: int) -> bool {
    &&& r0 <= v
    &&& forall|j: int| r0 <= j < v ==> j < s.len() && j + d < t.len() && #[trigger] s[j] == t[j + d]
    &&& halts(s, t, d, v)
}

/// What the sweep knows when it comes to diagonal `d` for `h` edits: the
/// sequences and the bound fit together, the diagonal is in the band, and
/// its three neighbours of the frontier before hold proper values.
pub open spec fn step_ready<T>(
    s: Seq<T>,
    t: Seq<T>,
    k: int,
    h: int,
    d: int,
    lo: int,
    mid: int,
    hi: int,
) -> bool {
    &&& s.len() <= t.len()
    &&& t.len() - s.len() <= k
    &&& 0 <= h <= k
    &&& in_window(s, t, k, h, d)
    &&& entry(s, t, k, d - 1, lo, h - 1)
    &&& entry(s, t, k, d, mid, h - 1)
    &&& entry(s, t, k, d + 1, hi, h - 1)
}

/// The border of the grid, its last cell, and the least that a cell can hold.
pub proof fn lemma_cell_bounds<T>(s: Seq<T>, t: Seq<T>, r: int, c: int)
    requires
        in_grid(s, t, r, c),
    ensures
        r == 0 ==> cell(s, t, r, c) == c,
        c == 0 ==> cell(s, t, r, c) == r,
        cell(s, t, r, c) >= 0,
        cell(s, t, r, c) >= c - r,
        cell(s, t, r, c) >= r - c,
        cell(s, t, s.len() as int, t.len() as int) == levenshtein(s, t),
{
    lemma_levenshtein_lower_bound(s.take(r), t.take(c));
    assert(s.take(s.len() as int) =~= s);
    assert(t.take(t.len() as int) =~= t);
}

/// A cell inside the grid costs what the cheapest of its three neighbours
/// before it costs, with the edit that leads from there.
pub proof fn lemma_cell_step<T>(s: Seq<T>, t: Seq<T>, r: int, c: int)
    requires
        1 <= r <= s.len(),
        1 <= c <= t.len(),
    ensures
        cell(s, t, r, c) <= cell(s, t, r - 1, c) + 1,
        cell(s, t, r, c) <= cell(s, t, r, c - 1) + 1,
        cell(s, t, r, c) <= cell(s, t, r - 1, c - 1) + substitution_cost(s[r - 1], t[c - 1]),
        cell(s, t, r, c) == cell(s, t, r - 1, c) + 1 || cell(s, t, r, c) == cell(s, t, r, c - 1) + 1
            || cell(s, t, r, c) == cell(s, t, r - 1, c - 1) + substitution_cost(
            s[r - 1],
            t[c - 1],
        ),
{
    assert(s.take(r).drop_last() =~= s.take(r - 1));
    assert(t.take(c).drop_last() =~= t.take(c - 1));
    assert(s.take(r).last() == s[r - 1]);
    assert(t.take(c).last() == t[c - 1]);
}

/// A cell that costs at most `h`, and from which the last cell may still be
/// within `k` edits, lies on a diagonal of the band for `h`.
pub proof fn lemma_useful_in_window<T>(s: Seq<T>, t: Seq<T>, k: int, h: int, r: int, c: int)
    requires
        s.len() <= t.len(),
        in_grid(s, t, r, c),
        cell(s, t, r, c) <= h,
        cell(s, t, r, c) + remaining(s, t, c - r) <= k,
    ensures
        in_window(s, t, k, h, c - r),
{
    lemma_cell_bounds(s, t, r, c);
}

/// The common leading run of the two rests, from row `r0` of diagonal `d`
/// on, is a run of the diagonal.
pub proof fn lemma_prefix_is_run<T>(s: Seq<T>, t: Seq<T>, d: int, r0: int)
    requires
        0 <= r0 <= s.len(),
        0 <= r0 + d <= t.len(),
    ensures
        r0 + common_prefix_len(s.skip(r0), t.skip(r0 + d)) <= s.len(),
        run(s, t, d, r0, r0 + common_prefix_len(s.skip(r0), t.skip(r0 + d))),
{
    let ss = s.skip(r0);
    let tt = t.skip(r0 + d);
    let n = common_prefix_len(ss, tt) as int;
    lemma_common_prefix_len_unique(ss, tt, n);
    assert(is_common_prefix_len(ss, tt, n));
    let v = r0 + n;
    assert forall|j: int| r0 <= j < v implies j < s.len() && j + d < t.len() && #[trigger] s[j]
        == t[j + d] by {
        assert(ss[j - r0] == tt[j - r0]);
    }
    if n < ss.len() && n < tt.len() {
        assert(ss[n] != tt[n]);
    }
}

/// A row at which a sequence ends is a run of no length.
pub proof fn lemma_end_is_run<T>(s: Seq<T>, t: Seq<T>, d: int, r0: int)
    requires
        r0 >= s.len() || r0 + d >= t.len(),
    ensures
        run(s, t, d, r0, r0),
{
}

/// Off the band the only proper value is the mark -1, whatever the number
/// of edits.
pub proof fn lemma_entry_off_band<T>(s: Seq<T>, t: Seq<T>, k: int, d: int, h: int)
    requires
        !in_window(s, t, k, h, d),
    ensures
        forall|v: int| entry(s, t, k, d, v, h) <==> v == -1,
{
}

/// The row at which a diagonal of the band is entered lies in the grid's
/// quadrant, on the diagonal's side of both axes.
pub proof fn lemma_start_row_bounds<T>(
    s: Seq<T>,
    t: Seq<T>,
    k: int,
    h: int,
    d: int,
    lo: int,
    mid: int,
    hi: int,
)
    requires
        step_ready(s, t, k, h, d, lo, mid, hi),
    ensures
        0 <= start_row(lo, mid, hi) <= s.len() + h,
        0 <= start_row(lo, mid, hi) + d,
{
    if d < 0 {
        assert(in_window(s, t, k, h - 1, d + 1));
    }
}

/// One cell of the claim `reaches` for the value that the sweep writes.
proof fn lemma_reaches_row<T>(
    s: Seq<T>,
    t: Seq<T>,
    k: int,
    h: int,
    d: int,
    lo: int,
    mid: int,
    hi: int,
    v: int,
    r: int,
)
    requires
        step_ready(s, t, k, h, d, lo, mid, hi),
        run(s, t, d, start_row(lo, mid, hi), v),
        in_grid(s, t, r, r + d),
        r <= v,
    ensures
        cell(s, t, r, r + d) <= h,
    decreases r,
{
    let c = r + d;
    let r0 = start_row(lo, mid, hi);
    lemma_start_row_bounds(s, t, k, h, d, lo, mid, hi);
    lemma_cell_bounds(s, t, r, c);
    if r == 0 || c == 0 {
    } else if r > r0 {
        lemma_reaches_row(s, t, k, h, d, lo, mid, hi, v, r - 1);
        lemma_cell_step(s, t, r, c);
        assert(s[r - 1] == t[r - 1 + d]);
    } else {
        lemma_cell_step(s, t, r, c);
        if r <= mid + 1 {
            assert(cell(s, t, r - 1, c - 1) <= h - 1);
        } else if r <= hi + 1 {
            assert(cell(s, t, r - 1, c) <= h - 1);
        } else {
            assert(cell(s, t, r, c - 1) <= h - 1);
        }
    }
}

/// One cell of the claim `covers` for the value that the sweep writes.
proof fn lemma_covers_row<T>(
    s: Seq<T>,
    t: Seq<T>,
    k: int,
    h: int,
    d: int,
    lo: int,
    mid: int,
    hi: int,
    v: int,
    r: int,
)
    requires
        step_ready(s, t, k, h, d, lo, mid, hi),
        run(s, t, d, start_row(lo, mid, hi), v),
        in_grid(s, t, r, r + d),
        cell(s, t, r, r + d) <= h,
        cell(s, t, r, r + d) + remaining(s, t, d) <= k,
    ensures
        r <= v,
    decreases r,
{
    let c = r + d;
    lemma_start_row_bounds(s, t, k, h, d, lo, mid, hi);
    lemma_cell_bounds(s, t, r, c);
    if r == 0 || c == 0 {
    } else {
        lemma_cell_step(s, t, r, c);
        let x = cell(s, t, r, c);
        if x == cell(s, t, r - 1, c) + 1 {
            lemma_useful_in_window(s, t, k, h - 1, r - 1, c);
            assert(r - 1 <= hi);
        } else if x == cell(s, t, r, c - 1) + 1 {
            lemma_useful_in_window(s, t, k, h - 1, r, c - 1);
            assert(r <= lo);
        } else if s[r - 1] == t[c - 1] {
            lemma_covers_row(s, t, k, h, d, lo, mid, hi, v, r - 1);
        } else {
            lemma_useful_in_window(s, t, k, h - 1, r - 1, c - 1);
            assert(r - 1 <= mid);
        }
    }
}

/// The step of the sweep: the row at which diagonal `d` is entered from the
/// frontier before, run on over equal elements, is a proper value for `d`
/// in the frontier after `h` edits.
pub proof fn lemma_entry_step<T>(
    s: Seq<T>,
    t: Seq<T>,
    k: int,
    h: int,
    d: int,
    lo: int,
    mid: int,
    hi: int,
    v: int,
)
    requires
        step_ready(s, t, k, h, d, lo, mid, hi),
        run(s, t, d, start_row(lo, mid, hi), v),
    ensures
        entry(s, t, k, d, v, h),
{
    lemma_start_row_bounds(s, t, k, h, d, lo, mid, hi);
    assert(v <= s.len() + h) by {
        if v > start_row(lo, mid, hi) {
            assert(s[v - 1] == t[v - 1 + d]);
        }
    }
    assert forall|r: int, c: int|
        in_grid(s, t, r, c) && c - r == d && r <= v implies #[trigger] cell(s, t, r, c) <= h by {
        lemma_reaches_row(s, t, k, h, d, lo, mid, hi, v, r);
    }
    assert forall|r: int, c: int|
        in_grid(s, t, r, c) && c - r == d && #[trigger] cell(s, t, r, c) <= h && cell(s, t, r, c)
            + remaining(s, t, d) <= k implies r <= v by {
        lemma_covers_row(s, t, k, h, d, lo, mid, hi, v, r);
    }
}

/// A frontier has a slot for each diagonal from `-(k + 1)` to `k + 1`, and
/// each slot holds a proper value.
pub proof fn lemma_frontier_slot<T>(s: Seq<T>, t: Seq<T>, k: int, f: Seq<isize>, h: int, i: int)
    requires
        frontier(s, t, k, f, h),
    ensures
        f.len() == 2 * k + 3,
        0 <= i < f.len() ==> entry(s, t, k, i - (k + 1), f[i] as int, h),
{
}

/// Slots that hold proper values make a frontier.
pub proof fn lemma_frontier_from_slots<T>(s: Seq<T>, t: Seq<T>, k: int, f: Seq<isize>, h: int)
    requires
        f.len() == 2 * k + 3,
        forall|i: int| 0 <= i < f.len() ==> entry(s, t, k, i - (k + 1), #[trigger] f[i] as int, h),
    ensures
        frontier(s, t, k, f, h),
{
}

/// Before any edit has been counted nothing is reached: the frontier holds
/// the mark -1 in every slot.
pub proof fn lemma_frontier_blank<T>(s: Seq<T>, t: Seq<T>, k: int, f: Seq<isize>, h: int)
    requires
        h < 0,
        f.len() == 2 * k + 3,
        forall|i: int| 0 <= i < f.len() ==> f[i] == -1,
    ensures
        frontier(s, t, k, f, h),
{
}

/// A slot off the band for `h` edits held the mark -1 in every frontier
/// before, and holds a proper value for `h` with it.
pub proof fn lemma_slot_off_band<T>(
    s: Seq<T>,
    t: Seq<T>,
    k: int,
    f: Seq<isize>,
    before: int,
    h: int,
    i: int,
)
    requires
        frontier(s, t, k, f, before),
        before <= h,
        0 <= i < f.len(),
        !in_window(s, t, k, h, i - (k + 1)),
    ensures
        f[i] == -1,
        entry(s, t, k, i - (k + 1), -1, h),
{
}

/// The slots that the sweep reads for slot `i` of the band exist, and what
/// they hold makes the step ready; the values leave room for the `+ 1` of
/// the step.
pub proof fn lemma_step_ready<T>(s: Seq<T>, t: Seq<T>, k: int, f: Seq<isize>, h: int, i: int)
    requires
        s.len() <= t.len(),
        t.len() - s.len() <= k,
        0 <= h <= k,
        frontier(s, t, k, f, h - 1),
        in_window(s, t, k, h, i - (k + 1)),
    ensures
        1 <= i <= 2 * k + 1,
        f.len() == 2 * k + 3,
        step_ready(s, t, k, h, i - (k + 1), f[i - 1] as int, f[i] as int, f[i + 1] as int),
        -1 <= f[i - 1] < s.len() + h,
        -1 <= f[i] < s.len() + h,
        -1 <= f[i + 1] < s.len() + h,
        0 <= start_row(f[i - 1] as int, f[i] as int, f[i + 1] as int) <= s.len() + h,
        0 <= start_row(f[i - 1] as int, f[i] as int, f[i + 1] as int) + i - (k + 1),
{
    let d = i - (k + 1);
    assert(entry(s, t, k, d - 1, f[i - 1] as int, h - 1));
    assert(entry(s, t, k, d, f[i] as int, h - 1));
    assert(entry(s, t, k, d + 1, f[i + 1] as int, h - 1));
    lemma_start_row_bounds(s, t, k, h, d, f[i - 1] as int, f[i] as int, f[i + 1] as int);
}

/// What the value on the diagonal of the last cell tells of the distance:
/// it has come to the last row exactly when the distance is at most `h`.
pub proof fn lemma_end_diagonal<T>(s: Seq<T>, t: Seq<T>, k: int, h: int, v: int)
    requires
        s.len() <= t.len(),
        0 <= h <= k,
        entry(s, t, k, t.len() - s.len(), v, h),
    ensures
        v >= s.len() <==> levenshtein(s, t) <= h,
{
    let m = s.len() as int;
    let n = t.len() as int;
    lemma_cell_bounds(s, t, m, n);
    if levenshtein(s, t) <= h {
        lemma_useful_in_window(s, t, k, h, m, n);
    }
}

} // verus!
