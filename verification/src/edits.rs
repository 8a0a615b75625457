//! Edits one at a time: that the Levenshtein distance is the least number of
//! single edits that lead from one sequence to the other.
use crate::distance::lemma_levenshtein_identity;
use crate::distance::lemma_levenshtein_symmetric;
use crate::distance::lemma_levenshtein_triangle;
use crate::distance::levenshtein;
use vstd::prelude::*;

verus! {

/// `b` comes from `a` by one edit: an element is inserted, or deleted, or
/// another takes its place.
pub open spec fn one_edit<T>(a: Seq<T>, b: Seq<T>) -> bool {
    ||| exists|i: int, x: T| 0 <= i <= a.len() && b == #[trigger] a.insert(i, x)
    ||| exists|i: int| 0 <= i < a.len() && b == #[trigger] a.remove(i)
    ||| exists|i: int, x: T| 0 <= i < a.len() && b == #[trigger] a.update(i, x)
}

/// `chain` leads from `s` to `t` by one edit after the other: it starts with
/// `s`, ends with `t`, and each member comes from the one before by one edit.
/// A chain of `n + 1` members makes `n` edits.
pub open spec fn is_edit_chain<T>(chain: Seq<Seq<T>>, s: Seq<T>, t: Seq<T>) -> bool {
    &&& chain.len() >= 1
    &&& chain[0] == s
    &&& chain[chain.len() - 1] == t
    &&& forall|i: int| 0 <= i < chain.len() - 1 ==> one_edit(#[trigger] chain[i], chain[i + 1])
}

/// A chain of as few edits as can be, built along the definition of the
/// distance: the last elements are dealt with in the way that the distance
/// counts, and the rest by the chain for the shorter sequences.
pub open spec fn shortest_chain<T>(s: Seq<T>, t: Seq<T>) -> Seq<Seq<T>>
    decreases s.len() + t.len(),
{
    if s.len() == 0 && t.len() == 0 {
        seq![s]
    } else if s.len() == 0 {
        shortest_chain(s, t.drop_last()).push(t)
    } else if t.len() == 0 {
        seq![s] + shortest_chain(s.drop_last(), t)
    } else if levenshtein(s, t) == levenshtein(s.drop_last(), t) + 1 {
        seq![s] + shortest_chain(s.drop_last(), t)
    } else if levenshtein(s, t) == levenshtein(s, t.drop_last()) + 1 {
        shortest_chain(s, t.drop_last()).push(t)
    } else {
        let lifted = with_last(shortest_chain(s.drop_last(), t.drop_last()), s.last());
        if s.last() == t.last() {
            lifted
        } else {
            lifted.push(t)
        }
    }
}

/// The chain with `x` appended to each of its members.
pub open spec fn with_last<T>(chain: Seq<Seq<T>>, x: T) -> Seq<Seq<T>> {
    Seq::new(chain.len(), |i: int| chain[i].push(x))
}

/// Inserting an element costs at most one.
pub proof fn lemma_insert_costs_one<T>(a: Seq<T>, i: int, x: T)
    requires
        0 <= i <= a.len(),
    ensures
        levenshtein(a, a.insert(i, x)) <= 1,
    decreases a.len(),
{
    let b = a.insert(i, x);
    if a.len() == 0 {
    } else if i == a.len() {
        assert(b.drop_last() =~= a);
        lemma_levenshtein_identity(a);
    } else {
        assert(b.drop_last() =~= a.drop_last().insert(i, x));
        assert(b.last() == a.last());
        lemma_insert_costs_one(a.drop_last(), i, x);
    }
}

/// Putting another element in an element's place costs at most one.
pub proof fn lemma_update_costs_one<T>(a: Seq<T>, i: int, x: T)
    requires
        0 <= i < a.len(),
    ensures
        levenshtein(a, a.update(i, x)) <= 1,
    decreases a.len(),
{
    let b = a.update(i, x);
    if i == a.len() - 1 {
        assert(b.drop_last() =~= a.drop_last());
        lemma_levenshtein_identity(a.drop_last());
    } else {
        assert(b.drop_last() =~= a.drop_last().update(i, x));
        assert(b.last() == a.last());
        lemma_update_costs_one(a.drop_last(), i, x);
    }
}

/// Sequences one edit apart are at distance one at most.
pub proof fn lemma_one_edit_costs_one<T>(a: Seq<T>, b: Seq<T>)
    requires
        one_edit(a, b),
    ensures
        levenshtein(a, b) <= 1,
{
    if exists|i: int, x: T| 0 <= i <= a.len() && b == #[trigger] a.insert(i, x) {
        let (i, x) = choose|i: int, x: T| 0 <= i <= a.len() && b == #[trigger] a.insert(i, x);
        lemma_insert_costs_one(a, i, x);
    } else if exists|i: int| 0 <= i < a.len() && b == #[trigger] a.remove(i) {
        let i = choose|i: int| 0 <= i < a.len() && b == #[trigger] a.remove(i);
        assert(a =~= b.insert(i, a[i]));
        lemma_insert_costs_one(b, i, a[i]);
        lemma_levenshtein_symmetric(a, b);
    } else {
        let (i, x) = choose|i: int, x: T| 0 <= i < a.len() && b == #[trigger] a.update(i, x);
        lemma_update_costs_one(a, i, x);
    }
}

/// No chain of edits from `s` to `t` makes fewer edits than the distance
/// between them.
pub proof fn lemma_chain_is_no_shorter<T>(chain: Seq<Seq<T>>, s: Seq<T>, t: Seq<T>)
    requires
        is_edit_chain(chain, s, t),
    ensures
        levenshtein(s, t) <= chain.len() - 1,
    decreases chain.len(),
{
    if chain.len() == 1 {
        lemma_levenshtein_identity(s);
    } else {
        let before = chain.drop_last();
        let u = before[before.len() - 1];
        assert(is_edit_chain(before, s, u)) by {
            assert forall|i: int| 0 <= i < before.len() - 1 implies one_edit(
                #[trigger] before[i],
                before[i + 1],
            ) by {
                assert(one_edit(chain[i], chain[i + 1]));
            }
        }
        lemma_chain_is_no_shorter(before, s, u);
        assert(one_edit(chain[chain.len() - 2], chain[chain.len() - 2 + 1]));
        lemma_one_edit_costs_one(u, t);
        lemma_levenshtein_triangle(s, u, t);
    }
}

/// An edit stays an edit when the same element is appended on both sides.
pub proof fn lemma_one_edit_with_last<T>(a: Seq<T>, b: Seq<T>, x: T)
    requires
        one_edit(a, b),
    ensures
        one_edit(a.push(x), b.push(x)),
{
    let ax = a.push(x);
    let bx = b.push(x);
    if exists|i: int, y: T| 0 <= i <= a.len() && b == #[trigger] a.insert(i, y) {
        let (i, y) = choose|i: int, y: T| 0 <= i <= a.len() && b == #[trigger] a.insert(i, y);
        assert(bx =~= ax.insert(i, y));
    } else if exists|i: int| 0 <= i < a.len() && b == #[trigger] a.remove(i) {
        let i = choose|i: int| 0 <= i < a.len() && b == #[trigger] a.remove(i);
        assert(bx =~= ax.remove(i));
    } else {
        let (i, y) = choose|i: int, y: T| 0 <= i < a.len() && b == #[trigger] a.update(i, y);
        assert(bx =~= ax.update(i, y));
    }
}

/// A chain put before an edit, or after one, is a chain.
proof fn lemma_chain_grows<T>(chain: Seq<Seq<T>>, s: Seq<T>, t: Seq<T>, u: Seq<T>)
    requires
        is_edit_chain(chain, s, t),
    ensures
        one_edit(t, u) ==> is_edit_chain(chain.push(u), s, u),
        one_edit(u, s) ==> is_edit_chain(seq![u] + chain, u, t),
{
    if one_edit(t, u) {
        let longer = chain.push(u);
        assert forall|i: int| 0 <= i < longer.len() - 1 implies one_edit(
            #[trigger] longer[i],
            longer[i + 1],
        ) by {
            if i < chain.len() - 1 {
                assert(one_edit(chain[i], chain[i + 1]));
            }
        }
    }
    if one_edit(u, s) {
        let longer = seq![u] + chain;
        assert forall|i: int| 0 <= i < longer.len() - 1 implies one_edit(
            #[trigger] longer[i],
            longer[i + 1],
        ) by {
            if i > 0 {
                assert(one_edit(chain[i - 1], chain[i - 1 + 1]));
            }
        }
    }
}

/// Some chain of edits from `s` to `t` makes exactly as many edits as the
/// distance between them: `shortest_chain` does.
pub proof fn lemma_shortest_chain<T>(s: Seq<T>, t: Seq<T>)
    ensures
        is_edit_chain(shortest_chain(s, t), s, t),
        shortest_chain(s, t).len() - 1 == levenshtein(s, t),
    decreases s.len() + t.len(),
{
    if s.len() == 0 && t.len() == 0 {
        assert(s =~= t);
    } else if s.len() == 0 || (t.len() != 0 && levenshtein(s, t) != levenshtein(s.drop_last(), t)
        + 1 && levenshtein(s, t) == levenshtein(s, t.drop_last()) + 1) {
        let t1 = t.drop_last();
        lemma_shortest_chain(s, t1);
        assert(t =~= t1.insert(t1.len() as int, t.last()));
        assert(one_edit(t1, t));
        lemma_chain_grows(shortest_chain(s, t1), s, t1, t);
    } else if t.len() == 0 || levenshtein(s, t) == levenshtein(s.drop_last(), t) + 1 {
        let s1 = s.drop_last();
        lemma_shortest_chain(s1, t);
        assert(s1 =~= s.remove(s.len() - 1));
        assert(one_edit(s, s1));
        lemma_chain_grows(shortest_chain(s1, t), s1, t, s);
    } else {
        let s1 = s.drop_last();
        let t1 = t.drop_last();
        let x = s.last();
        lemma_shortest_chain(s1, t1);
        let inner = shortest_chain(s1, t1);
        let lifted = with_last(inner, x);
        assert(lifted[0] =~= s);
        assert(is_edit_chain(lifted, s, t1.push(x))) by {
            assert forall|i: int| 0 <= i < lifted.len() - 1 implies one_edit(
                #[trigger] lifted[i],
                lifted[i + 1],
            ) by {
                assert(one_edit(inner[i], inner[i + 1]));
                lemma_one_edit_with_last(inner[i], inner[i + 1], x);
            }
        }
        if x == t.last() {
            assert(t =~= t1.push(x));
        } else {
            assert(t =~= t1.push(x).update(t1.len() as int, t.last()));
            assert(one_edit(t1.push(x), t));
            lemma_chain_grows(lifted, s, t1.push(x), t);
        }
    }
}

} // verus!
