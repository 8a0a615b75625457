//! The banded diagonal sweep that computes the edit distance under a bound.
use crate::distance::lemma_levenshtein_lower_bound;
use crate::distance::lemma_levenshtein_symmetric;
use crate::distance::lemma_levenshtein_upper_bound;
use crate::distance::lemma_levenshtein_zero_iff_equal;
use crate::distance::levenshtein;
use crate::distance::longer;
use crate::frontier::entry;
use crate::frontier::frontier;
use crate::frontier::in_window;
use crate::frontier::lemma_end_diagonal;
use crate::frontier::lemma_end_is_run;
use crate::frontier::lemma_entry_off_band;
use crate::frontier::lemma_entry_step;
use crate::frontier::lemma_frontier_blank;
use crate::frontier::lemma_frontier_from_slots;
use crate::frontier::lemma_frontier_slot;
use crate::frontier::lemma_prefix_is_run;
use crate::frontier::lemma_slot_off_band;
use crate::frontier::lemma_step_ready;
use crate::frontier::lemma_window_slots;
use crate::frontier::start_row;
use crate::frontier::window_first;
use crate::frontier::window_last;
use crate::prefix::Mismatch;
use vstd::prelude::*;
use vstd::slice::slice_subrange;

verus! {

/// The frontier for the bound `k` can be held: its `2k + 3` slots can be
/// counted in `usize`, and the furthest row that a slot may come to hold,
/// `k` past the end of the shorter sequence, fits in `isize`.
pub open spec fn frontier_fits(s_len: nat, t_len: nat, k: nat) -> bool {
    &&& 2 * k + 3 <= usize::MAX
    &&& (if s_len <= t_len {
        s_len
    } else {
        t_len
    }) + k <= isize::MAX
}

/// Tells whether the frontier for sequences of these lengths under the bound
/// `k` can be held, which is what the two distance functions ask of their
/// arguments.
pub fn can_hold_frontier(s_len: usize, t_len: usize, k: usize) -> (fits: bool)
    ensures
        fits == frontier_fits(s_len as nat, t_len as nat, k as nat),
{
    let shorter = if s_len <= t_len {
        s_len
    } else {
        t_len
    };
    let furthest = isize::MAX as usize;
    k <= (usize::MAX - 3) / 2 && shorter <= furthest && k <= furthest - shorter
}

/// Returns the edit distance between `s` and `t`: the least number of
/// insertions, deletions and substitutions of single elements that turn the
/// one into the other.
///
/// The distance is never more than the length of the longer slice, and it is
/// zero for equal slices only.
pub fn edit_distance<T: Mismatch>(s: &[T], t: &[T]) -> (d: usize)
    requires
        frontier_fits(s@.len(), t@.len(), longer(s@.len(), t@.len())),
    ensures
        d == levenshtein(s@, t@),
        d <= longer(s@.len(), t@.len()),
        d == 0 <==> s@ == t@,
{
    let k = if s.len() >= t.len() {
        s.len()
    } else {
        t.len()
    };
    proof {
        lemma_levenshtein_upper_bound(s@, t@);
        lemma_levenshtein_zero_iff_equal(s@, t@);
    }
    edit_distance_bounded(s, t, k).unwrap()
}

/// If the edit distance `d` between `s` and `t` is at most `k`, returns
/// `Some(d)`, otherwise `None`.
///
/// The shorter slice is swept against the longer one. Two frontiers of
/// `2k + 3` slots take turns by the parity of the number of edits: the one
/// holds what the edits before have reached, the other is filled for one
/// edit more.
pub fn edit_distance_bounded<T: Mismatch>(s: &[T], t: &[T], k: usize) -> (d: Option<usize>)
    requires
        frontier_fits(s@.len(), t@.len(), k as nat),
    ensures
        d == (if levenshtein(s@, t@) <= k {
            Some(levenshtein(s@, t@) as usize)
        } else {
            None
        }),
{
    proof {
        lemma_levenshtein_symmetric(s@, t@);
    }
    let (short, long) = if s.len() > t.len() {
        (t, s)
    } else {
        (s, t)
    };
    let diff = long.len() - short.len();
    if diff > k {
        proof {
            lemma_levenshtein_lower_bound(short@, long@);
        }
        return None;
    }
    let mut a = vec![-1isize; 2 * k + 3];
    let mut b = vec![-1isize; 2 * k + 3];
    let mut h: usize = 0;
    proof {
        lemma_frontier_blank(short@, long@, k as int, a@, -2);
        lemma_frontier_blank(short@, long@, k as int, b@, -1);
    }
    while h <= k
        invariant
            short@.len() <= long@.len(),
            long@.len() - short@.len() <= k,
            2 * k + 3 <= usize::MAX,
            short@.len() + k <= isize::MAX,
            h <= k + 1,
            levenshtein(short@, long@) == levenshtein(s@, t@),
            levenshtein(s@, t@) >= h,
            h % 2 == 0 ==> frontier(short@, long@, k as int, b@, h - 1) && frontier(
                short@,
                long@,
                k as int,
                a@,
                h - 2,
            ),
            h % 2 == 1 ==> frontier(short@, long@, k as int, a@, h - 1) && frontier(
                short@,
                long@,
                k as int,
                b@,
                h - 2,
            ),
        decreases k + 1 - h,
    {
        assert((h & 1) == 0 <==> h % 2 == 0) by (bit_vector);
        let done = if (h & 1) == 0 {
            sweep(short, long, k, h, &b, &mut a)
        } else {
            sweep(short, long, k, h, &a, &mut b)
        };
        if done {
            return Some(h);
        }
        h += 1;
    }
    None
}

/// Computes the frontier after `h` edits into `next`, from the frontier
/// after `h - 1` edits in `prev`, one diagonal of the band after the other.
/// Stops with `true` as soon as the diagonal of the last cell has come to
/// the last row: then `h` is the distance.
fn sweep<T: Mismatch>(
    s: &[T],
    t: &[T],
    k: usize,
    h: usize,
    prev: &Vec<isize>,
    next: &mut Vec<isize>,
) -> (done: bool)
    requires
        s@.len() <= t@.len(),
        t@.len() - s@.len() <= k,
        h <= k,
        2 * k + 3 <= usize::MAX,
        s@.len() + k <= isize::MAX,
        frontier(s@, t@, k as int, prev@, h - 1),
        frontier(s@, t@, k as int, old(next)@, h - 2),
    ensures
        done <==> levenshtein(s@, t@) <= h,
        !done ==> frontier(s@, t@, k as int, final(next)@, h as int),
{
    let s_length = s.len();
    let t_length = t.len();
    let diff = t_length - s_length;
    let shift = k + 1;
    let below = 1 + (k - diff) / 2;
    let above = 1 + k / 2 + diff;
    let p = shift - (if below <= h {
        below
    } else {
        h
    });
    let q = shift + (if above <= h {
        above
    } else {
        h
    });
    let mut i = p;
    proof {
        lemma_frontier_slot(s@, t@, k as int, next@, h - 2, 0);
        assert forall|j: int| 0 <= j < next@.len() && !(p <= j <= q) implies (#[trigger] next@[j])
            == -1 by {
            lemma_window_slots(s@, t@, k as int, h as int, j);
            lemma_slot_off_band(s@, t@, k as int, next@, h - 2, h as int, j);
        }
    }
    while i <= q
        invariant
            s_length == s@.len(),
            t_length == t@.len(),
            s_length <= t_length,
            h <= k,
            shift == k + 1,
            2 * k + 3 <= usize::MAX,
            s_length + k <= isize::MAX,
            p <= i <= q + 1,
            t_length - s_length <= k,
            p == window_first(s@, t@, k as int, h as int),
            q == window_last(s@, t@, k as int, h as int),
            frontier(s@, t@, k as int, prev@, h - 1),
            next@.len() == 2 * k + 3,
            forall|j: int|
                0 <= j < next@.len() && !(p <= j <= q) ==> (#[trigger] next@[j]) == -1,
            forall|j: int|
                p <= j < i ==> entry(
                    s@,
                    t@,
                    k as int,
                    j - shift,
                    (#[trigger] next@[j]) as int,
                    h as int,
                ),
            i + s_length > t_length + shift && p + s_length <= t_length + shift ==> levenshtein(
                s@,
                t@,
            ) > h,
        decreases q + 1 - i,
    {
        let ghost d = i - shift;
        proof {
            lemma_window_slots(s@, t@, k as int, h as int, i as int);
            lemma_step_ready(s@, t@, k as int, prev@, h as int, i as int);
        }
        let lo = prev[i - 1];
        let mid = prev[i];
        let hi = prev[i + 1];
        let reached = if lo >= mid + 1 {
            lo
        } else {
            mid + 1
        };
        let r = (if reached >= hi + 1 {
            reached
        } else {
            hi + 1
        }) as usize;
        assert(r == start_row(lo as int, mid as int, hi as int));
        let v = if r >= s_length || r + i - shift >= t_length {
            proof {
                lemma_end_is_run(s@, t@, d, r as int);
            }
            r
        } else {
            proof {
                lemma_prefix_is_run(s@, t@, d, r as int);
            }
            T::mismatch(
                slice_subrange(s, r, s_length),
                slice_subrange(t, r + i - shift, t_length),
            ) + r
        };
        proof {
            lemma_entry_step(
                s@,
                t@,
                k as int,
                h as int,
                d,
                lo as int,
                mid as int,
                hi as int,
                v as int,
            );
        }
        next[i] = v as isize;
        if i + s_length == t_length + shift {
            proof {
                lemma_end_diagonal(s@, t@, k as int, h as int, v as int);
            }
            if v >= s_length {
                return true;
            }
        }
        i += 1;
    }
    proof {
        lemma_window_slots(s@, t@, k as int, h as int, t_length - s_length + shift);
        if !in_window(s@, t@, k as int, h as int, t_length - s_length) {
            lemma_levenshtein_lower_bound(s@, t@);
        }
        assert forall|j: int| 0 <= j < next@.len() implies entry(
            s@,
            t@,
            k as int,
            j - (k + 1),
            (#[trigger] next@[j]) as int,
            h as int,
        ) by {
            if !(p <= j <= q) {
                lemma_window_slots(s@, t@, k as int, h as int, j);
                lemma_entry_off_band(s@, t@, k as int, j - shift, h as int);
            }
        }
        lemma_frontier_from_slots(s@, t@, k as int, next@, h as int);
    }
    false
}

} // verus!
