//! The Levenshtein distance as a mathematical function on sequences, and the
//! laws that make it a metric.
use vstd::prelude::*;

verus! {

/// The longer of two lengths.
pub open spec fn longer(s_len: nat, t_len: nat) -> nat {
    if s_len >= t_len {
        s_len
    } else {
        t_len
    }
}

/// The smallest of three numbers.
pub open spec fn min3(a: nat, b: nat, c: nat) -> nat {
    if a <= b && a <= c {
        a
    } else if b <= c {
        b
    } else {
        c
    }
}

/// What it costs to turn the element `x` into `y`: nothing where they are
/// equal, one substitution where they differ.
pub open spec fn substitution_cost<T>(x: T, y: T) -> nat {
    if x == y {
        0
    } else {
        1
    }
}

/// The Levenshtein distance between `s` and `t`: the least number of
/// insertions, deletions and substitutions of single elements that turn `s`
/// into `t`.
///
/// An empty sequence is as far from the other as that one is long. Otherwise
/// the last elements are dealt with in the cheapest of three ways: the last
/// of `s` is deleted, the last of `t` is inserted, or the one takes the place
/// of the other, which is free where they are equal.
///
/// That this number is the length of the shortest chain of single edits
/// from `s` to `t` is shown in `edits`.
pub open spec fn levenshtein<T>(s: Seq<T>, t: Seq<T>) -> nat
    decreases s.len() + t.len(),
{
    if s.len() == 0 {
        t.len()
    } else if t.len() == 0 {
        s.len()
    } else {
        min3(
            levenshtein(s.drop_last(), t) + 1,
            levenshtein(s, t.drop_last()) + 1,
            levenshtein(s.drop_last(), t.drop_last()) + substitution_cost(s.last(), t.last()),
        )
    }
}

/// The distance does not depend on the direction: turning `s` into `t` costs
/// as much as turning `t` into `s`.
pub proof fn lemma_levenshtein_symmetric<T>(s: Seq<T>, t: Seq<T>)
    ensures
        levenshtein(s, t) == levenshtein(t, s),
    decreases s.len() + t.len(),
{
    if s.len() > 0 && t.len() > 0 {
        lemma_levenshtein_symmetric(s.drop_last(), t);
        lemma_levenshtein_symmetric(s, t.drop_last());
        lemma_levenshtein_symmetric(s.drop_last(), t.drop_last());
    }
}

/// A sequence is at distance zero from itself.
pub proof fn lemma_levenshtein_identity<T>(s: Seq<T>)
    ensures
        levenshtein(s, s) == 0,
    decreases s.len(),
{
    if s.len() > 0 {
        lemma_levenshtein_identity(s.drop_last());
    }
}

/// The distance is at most the length of the longer sequence.
pub proof fn lemma_levenshtein_upper_bound<T>(s: Seq<T>, t: Seq<T>)
    ensures
        levenshtein(s, t) <= longer(s.len(), t.len()),
    decreases s.len() + t.len(),
{
    if s.len() > 0 && t.len() > 0 {
        lemma_levenshtein_upper_bound(s.drop_last(), t.drop_last());
    }
}

/// The distance is at least the difference of the two lengths.
pub proof fn lemma_levenshtein_lower_bound<T>(s: Seq<T>, t: Seq<T>)
    ensures
        levenshtein(s, t) >= s.len() - t.len(),
        levenshtein(s, t) >= t.len() - s.len(),
    decreases s.len() + t.len(),
{
    if s.len() > 0 && t.len() > 0 {
        lemma_levenshtein_lower_bound(s.drop_last(), t);
        lemma_levenshtein_lower_bound(s, t.drop_last());
        lemma_levenshtein_lower_bound(s.drop_last(), t.drop_last());
    }
}

/// Only equal sequences are at distance zero.
pub proof fn lemma_levenshtein_zero_iff_equal<T>(s: Seq<T>, t: Seq<T>)
    ensures
        levenshtein(s, t) == 0 <==> s == t,
    decreases s.len() + t.len(),
{
    if s == t {
        lemma_levenshtein_identity(s);
    }
    if levenshtein(s, t) == 0 {
        if s.len() > 0 && t.len() > 0 {
            lemma_levenshtein_zero_iff_equal(s.drop_last(), t.drop_last());
            assert(s.drop_last() == t.drop_last());
            assert(s.last() == t.last());
            assert(s =~= s.drop_last().push(s.last()));
            assert(t =~= t.drop_last().push(t.last()));
        } else {
            assert(s =~= t);
        }
    }
}

/// The triangle inequality: going from `s` to `u` directly costs no more
/// than going by way of `t`.
pub proof fn lemma_levenshtein_triangle<T>(s: Seq<T>, t: Seq<T>, u: Seq<T>)
    ensures
        levenshtein(s, u) <= levenshtein(s, t) + levenshtein(t, u),
    decreases s.len() + t.len() + u.len(),
{
    if s.len() == 0 {
        lemma_levenshtein_lower_bound(t, u);
    } else if u.len() == 0 {
        lemma_levenshtein_lower_bound(s, t);
    } else if t.len() == 0 {
        lemma_levenshtein_upper_bound(s, u);
    } else {
        let s1 = s.drop_last();
        let t1 = t.drop_last();
        let u1 = u.drop_last();
        let st = levenshtein(s, t);
        let tu = levenshtein(t, u);
        if st == levenshtein(s1, t) + 1 {
            lemma_levenshtein_triangle(s1, t, u);
        } else if tu == levenshtein(t, u1) + 1 {
            lemma_levenshtein_triangle(s, t, u1);
        } else if st == levenshtein(s, t1) + 1 {
            if tu == levenshtein(t1, u) + 1 {
                lemma_levenshtein_triangle(s, t1, u);
            } else {
                lemma_levenshtein_triangle(s, t1, u1);
            }
        } else {
            if tu == levenshtein(t1, u) + 1 {
                lemma_levenshtein_triangle(s1, t1, u);
            } else {
                lemma_levenshtein_triangle(s1, t1, u1);
            }
        }
    }
}

} // verus!
