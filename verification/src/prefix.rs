//! The length of the common leading run of two sequences.
use vstd::laws_eq::obeys_concrete_eq;
use vstd::prelude::*;
use vstd::slice::slice_subrange;

verus! {

/// The number of leading positions at which `s` and `t` hold equal elements.
pub open spec fn common_prefix_len<T>(s: Seq<T>, t: Seq<T>) -> nat
    decreases s.len(),
{
    if s.len() == 0 || t.len() == 0 || s[0] != t[0] {
        0
    } else {
        1 + common_prefix_len(s.skip(1), t.skip(1))
    }
}

/// `n` is the length of the common leading run of `s` and `t`: the two agree
/// on their first `n` elements, and either one of them ends there or they
/// differ at position `n`.
pub open spec fn is_common_prefix_len<T>(s: Seq<T>, t: Seq<T>, n: int) -> bool {
    &&& 0 <= n <= s.len()
    &&& n <= t.len()
    &&& forall|i: int| 0 <= i < n ==> s[i] == t[i]
    &&& (n == s.len() || n == t.len() || s[n] != t[n])
}

/// `common_prefix_len` is the one number that `is_common_prefix_len` accepts.
pub proof fn lemma_common_prefix_len_unique<T>(s: Seq<T>, t: Seq<T>, n: int)
    ensures
        is_common_prefix_len(s, t, n) <==> n == common_prefix_len(s, t),
    decreases s.len(),
{
    if s.len() == 0 || t.len() == 0 || s[0] != t[0] {
        if is_common_prefix_len(s, t, n) && n > 0 {
            assert(s[0] == t[0]);
        }
    } else {
        let s1 = s.skip(1);
        let t1 = t.skip(1);
        lemma_common_prefix_len_unique(s1, t1, n - 1);
        if is_common_prefix_len(s, t, n) {
            if n == 0 {
                assert(s[0] != t[0]);
            }
            assert forall|i: int| 0 <= i < n - 1 implies s1[i] == t1[i] by {
                assert(s[i + 1] == t[i + 1]);
            }
            assert(is_common_prefix_len(s1, t1, n - 1));
        }
        if n == common_prefix_len(s, t) {
            assert(is_common_prefix_len(s1, t1, n - 1));
            assert forall|i: int| 0 <= i < n implies s[i] == t[i] by {
                if i > 0 {
                    assert(s1[i - 1] == t1[i - 1]);
                }
            }
        }
    }
}

/// The common leading run is no longer than either sequence, it reaches the
/// end of one exactly when that one is a prefix of the other, and it is the
/// same whichever sequence is named first.
pub proof fn lemma_common_prefix_len_bounds<T>(s: Seq<T>, t: Seq<T>)
    ensures
        common_prefix_len(s, t) <= s.len(),
        common_prefix_len(s, t) <= t.len(),
        common_prefix_len(s, t) == s.len() <==> s.is_prefix_of(t),
        common_prefix_len(s, t) == t.len() <==> t.is_prefix_of(s),
        common_prefix_len(s, t) == common_prefix_len(t, s),
{
    let n = common_prefix_len(s, t) as int;
    lemma_common_prefix_len_unique(s, t, n);
    lemma_common_prefix_len_unique(t, s, n);
    if n == s.len() {
        assert(s =~= t.subrange(0, s.len() as int));
    }
    if n == t.len() {
        assert(t =~= s.subrange(0, t.len() as int));
    }
    if s.is_prefix_of(t) && n < s.len() {
        assert(t.subrange(0, s.len() as int)[n] == t[n]);
    }
    if t.is_prefix_of(s) && n < t.len() {
        assert(s.subrange(0, t.len() as int)[n] == s[n]);
    }
}

/// Returns the length of the longest common prefix of `s` and `t`, found by
/// walking both in lockstep up to the first pair that differs.
///
/// The element type's `==` must decide equality of values; where it does
/// not, nothing but the bound by the two lengths is known of the result.
pub fn mismatch_naive<T: PartialEq>(s: &[T], t: &[T]) -> (n: usize)
    ensures
        n <= s@.len(),
        n <= t@.len(),
        obeys_concrete_eq::<T>() ==> n == common_prefix_len(s@, t@),
{
    let mut n: usize = 0;
    loop
        invariant
            n <= s@.len(),
            n <= t@.len(),
            obeys_concrete_eq::<T>() ==> forall|i: int| 0 <= i < n ==> s@[i] == t@[i],
        ensures
            obeys_concrete_eq::<T>() ==> is_common_prefix_len(s@, t@, n as int),
        decreases s@.len() - n,
    {
        proof {
            reveal(obeys_concrete_eq);
        }
        if n >= s.len() || n >= t.len() || !(s[n] == t[n]) {
            break;
        }
        n += 1;
    }
    proof {
        lemma_common_prefix_len_unique(s@, t@, n as int);
    }
    n
}

/// Element types over which the edit distance can be computed: they say how
/// to find the length of the common leading run of two slices.
pub trait Mismatch: Sized + PartialEq {
    /// Returns the length of the longest common prefix of `s` and `t`.
    fn mismatch(s: &[Self], t: &[Self]) -> (n: usize)
        ensures
            n == common_prefix_len(s@, t@),
    ;
}

impl Mismatch for char {
    /// Walks both slices in lockstep up to the first pair that differs.
    fn mismatch(s: &[char], t: &[char]) -> (n: usize) {
        let mut n: usize = 0;
        while n < s.len() && n < t.len() && s[n] == t[n]
            invariant
                n <= s@.len(),
                n <= t@.len(),
                forall|i: int| 0 <= i < n ==> s@[i] == t@[i],
            ensures
                is_common_prefix_len(s@, t@, n as int),
            decreases s@.len() - n,
        {
            n += 1;
        }
        proof {
            lemma_common_prefix_len_unique(s@, t@, n as int);
        }
        n
    }
}

/// Byte-sized integers, for which the common leading run is found a block
/// of elements at a time.
pub trait SimdMismatch: Sized + PartialEq {
    /// `==` on this type decides equality of values.
    proof fn lemma_eq_decides()
        ensures
            obeys_concrete_eq::<Self>(),
    ;
}

impl SimdMismatch for u8 {
    proof fn lemma_eq_decides() {
        broadcast use vstd::laws_eq::group_laws_eq;

    }
}

impl SimdMismatch for i8 {
    proof fn lemma_eq_decides() {
        broadcast use vstd::laws_eq::group_laws_eq;

    }
}

impl<T: SimdMismatch> Mismatch for T {
    /// Compares block by block (see `mismatch_simd`).
    fn mismatch(s: &[T], t: &[T]) -> (n: usize) {
        mismatch_simd(s, t)
    }
}

/// Bit `j` of `mask` is set.
pub open spec fn bit_is_set(mask: u32, j: u32) -> bool {
    (mask >> j) & 1 == 1
}

/// Compares the `width` elements of `s` and of `t` from position `off` on,
/// pair by pair, and returns the outcome as a word: bit `j` is set where the
/// elements at `off + j` are equal, and the bits from `width` on are clear.
fn equal_mask<T: SimdMismatch>(s: &[T], t: &[T], off: usize, width: u32) -> (mask: u32)
    requires
        width <= 32,
        off + width <= s@.len(),
        off + width <= t@.len(),
    ensures
        forall|j: u32|
            j < width ==> (#[trigger] bit_is_set(mask, j) <==> s@[off + j] == t@[off + j]),
        width < 32 ==> mask >> width == 0,
{
    let mut mask: u32 = 0;
    let mut j: u32 = 0;
    assert(0u32 >> 0u32 == 0) by (bit_vector);
    while j < width
        invariant
            j <= width <= 32,
            off + width <= s.len() == s@.len(),
            off + width <= t.len() == t@.len(),
            forall|b: u32|
                b < j ==> (#[trigger] bit_is_set(mask, b) <==> s@[off + b] == t@[off + b]),
            j < 32 ==> mask >> j == 0,
        decreases width - j,
    {
        proof {
            T::lemma_eq_decides();
            reveal(obeys_concrete_eq);
        }
        let ghost before = mask;
        if s[off + j as usize] == t[off + j as usize] {
            mask = mask | (1u32 << j);
        }
        proof {
            assert forall|b: u32| b < j + 1 implies (#[trigger] bit_is_set(mask, b) <==> s@[off + b]
                == t@[off + b]) by {
                assert(b < j ==> (bit_is_set(before, b) <==> s@[off + b] == t@[off + b]));
                assert(j < 32 && b <= j && before >> j == 0 ==> (((before | (1u32 << j)) >> b) & 1
                    == 1 <==> b == j || (before >> b) & 1 == 1)) by (bit_vector);
                assert(j < 32 && b <= j && before >> j == 0 ==> ((before >> b) & 1 == 1 ==> b != j))
                    by (bit_vector);
            }
            assert(j < 31 && before >> j == 0 ==> (before | (1u32 << j)) >> ((j + 1) as u32) == 0
                && before >> ((j + 1) as u32) == 0) by (bit_vector);
        }
        j += 1;
    }
    mask
}

/// What a block's comparison tells: where every element of the block is
/// equal to the other, the word is `full`; where not, the number of its
/// trailing ones is the place of the first pair that differs.
proof fn lemma_mask_tells<T>(s: Seq<T>, t: Seq<T>, off: int, width: u32, mask: u32, full: u32)
    requires
        (width == 16 && full == 0xFFFFu32) || (width == 32 && full == 0xFFFF_FFFFu32),
        forall|j: u32| j < width ==> (#[trigger] bit_is_set(mask, j) <==> s[off + j] == t[off + j]),
        width < 32 ==> mask >> width == 0,
    ensures
        mask == full ==> forall|i: int| off <= i < off + width ==> #[trigger] s[i] == t[i],
        mask != full ==> {
            let z = vstd::std_specs::bits::u32_trailing_ones(mask);
            &&& z < width
            &&& s[off + z] != t[off + z]
            &&& forall|i: int| off <= i < off + z ==> #[trigger] s[i] == t[i]
        },
{
    if mask == full {
        assert forall|i: int| off <= i < off + width implies #[trigger] s[i] == t[i] by {
            let j = (i - off) as u32;
            assert(mask == 0xFFFFu32 && j < 16 ==> (mask >> j) & 1 == 1) by (bit_vector);
            assert(mask == 0xFFFF_FFFFu32 && j < 32 ==> (mask >> j) & 1 == 1) by (bit_vector);
            assert(bit_is_set(mask, j));
        }
    } else {
        let inv: u32 = !mask;
        let z = vstd::std_specs::bits::u32_trailing_ones(mask);
        vstd::std_specs::bits::axiom_u32_trailing_zeros(inv);
        assert(mask != 0xFFFF_FFFFu32 ==> !mask != 0) by (bit_vector);
        assert(mask >> 16 == 0 ==> !mask != 0) by (bit_vector);
        assert(z < 32);
        assert(z < 32 && ((!mask) >> z) & 1 == 1 ==> (mask >> z) & 1 != 1) by (bit_vector);
        let back: u32 = (32 - z) as u32;
        assert(16 <= z < 32 && back == 32 - z && (!mask) << back == 0 && mask >> 16 == 0 ==> mask
            == 0xFFFFu32) by (bit_vector);
        assert(z < width);
        assert(!bit_is_set(mask, z));
        assert forall|i: int| off <= i < off + z implies #[trigger] s[i] == t[i] by {
            let j = (i - off) as u32;
            assert(j < 32 && ((!mask) >> j) & 1 == 0 ==> (mask >> j) & 1 == 1) by (bit_vector);
            assert(bit_is_set(mask, j));
        }
    }
}

/// Returns the length of the longest common prefix of `s` and `t`, found a
/// block of elements at a time: blocks of 32, then blocks of 16, and the
/// lockstep walk of `mismatch_naive` for what is left.
///
/// A block is compared as a whole: the outcome is a word with one bit for
/// each pair of elements. A word of ones only lets the block be passed over;
/// any other word tells by its trailing ones where the first difference is.
/// The result is that of `mismatch_naive` on the same slices.
pub fn mismatch_simd<T: SimdMismatch>(s: &[T], t: &[T]) -> (n: usize)
    ensures
        n == common_prefix_len(s@, t@),
{
    let l = if s.len() <= t.len() {
        s.len()
    } else {
        t.len()
    };
    let mut off: usize = 0;
    while l - off >= 32
        invariant
            off <= l,
            l <= s@.len(),
            l <= t@.len(),
            forall|i: int| 0 <= i < off ==> s@[i] == t@[i],
        decreases l - off,
    {
        let r = equal_mask(s, t, off, 32);
        proof {
            lemma_mask_tells(s@, t@, off as int, 32, r, 0xFFFF_FFFFu32);
        }
        if r != 0xFFFF_FFFFu32 {
            let n = off + r.trailing_ones() as usize;
            proof {
                lemma_common_prefix_len_unique(s@, t@, n as int);
            }
            return n;
        }
        off += 32;
    }
    while l - off >= 16
        invariant
            off <= l,
            l <= s@.len(),
            l <= t@.len(),
            forall|i: int| 0 <= i < off ==> s@[i] == t@[i],
        decreases l - off,
    {
        let r = equal_mask(s, t, off, 16);
        proof {
            lemma_mask_tells(s@, t@, off as int, 16, r, 0xFFFFu32);
        }
        if r != 0xFFFFu32 {
            let n = off + r.trailing_ones() as usize;
            proof {
                lemma_common_prefix_len_unique(s@, t@, n as int);
            }
            return n;
        }
        off += 16;
    }
    let rest = mismatch_naive(slice_subrange(s, off, l), slice_subrange(t, off, l));
    proof {
        T::lemma_eq_decides();
        let ss = s@.subrange(off as int, l as int);
        let tt = t@.subrange(off as int, l as int);
        lemma_common_prefix_len_unique(ss, tt, rest as int);
        assert forall|i: int| 0 <= i < off + rest implies s@[i] == t@[i] by {
            if i >= off {
                assert(ss[i - off] == tt[i - off]);
            }
        }
        if off + rest < l {
            assert(ss[rest as int] != tt[rest as int]);
        }
        lemma_common_prefix_len_unique(s@, t@, off + rest);
    }
    off + rest
}

/// The two strategies agree: on the same slices, whatever `mismatch_simd`
/// returns is what `mismatch_naive` returns.
pub proof fn lemma_strategies_agree<T: SimdMismatch>(
    s: &[T],
    t: &[T],
    by_blocks: usize,
    in_lockstep: usize,
)
    requires
        call_ensures(mismatch_simd::<T>, (s, t), by_blocks),
        call_ensures(mismatch_naive::<T>, (s, t), in_lockstep),
    ensures
        by_blocks == in_lockstep,
{
    T::lemma_eq_decides();
}

} // verus!
