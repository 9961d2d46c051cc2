//! Bits of a 128 bit word, read as a set of positions.
use vstd::prelude::*;

use crate::bits;

verus! {

/// Whether bit `i` of `x` is set.
pub open spec fn has_bit(x: u128, i: int) -> bool {
    0 <= i < 128 && (x >> (i as u128)) & 1u128 == 1u128
}

/// The number of set bits among the positions below `n`.
pub open spec fn bits_below(x: u128, n: int) -> nat
    decreases n,
{
    if n <= 0 {
        0
    } else {
        bits_below(x, n - 1) + if has_bit(x, n - 1) {
            1nat
        } else {
            0nat
        }
    }
}

/// Setting a bit sets that bit and leaves the others.
pub proof fn lemma_set_bit(x: u128, i: u128)
    requires
        i < 128,
    ensures
        forall|j: int| #[trigger] has_bit(x | (1u128 << i), j) == (0 <= j < 128 && (j == i || has_bit(x, j))),
{
    assert forall|j: int| #[trigger] has_bit(x | (1u128 << i), j) == (0 <= j < 128 && (j == i || has_bit(x, j))) by {
        if 0 <= j < 128 {
            let k = j as u128;
            assert(((x | (1u128 << i)) >> k) & 1u128 == 1u128 <==> (k == i || (x >> k) & 1u128 == 1u128))
                by (bit_vector)
                requires
                    i < 128,
                    k < 128,
            ;
        }
    }
}

/// Clearing a bit clears that bit and leaves the others.
pub proof fn lemma_clear_bit(x: u128, i: u128)
    requires
        i < 128,
    ensures
        forall|j: int| #[trigger] has_bit(x & !(1u128 << i), j) == (j != i && has_bit(x, j)),
{
    assert forall|j: int| #[trigger] has_bit(x & !(1u128 << i), j) == (j != i && has_bit(x, j)) by {
        if 0 <= j < 128 {
            let k = j as u128;
            assert(((x & !(1u128 << i)) >> k) & 1u128 == 1u128 <==> (k != i && (x >> k) & 1u128 == 1u128))
                by (bit_vector)
                requires
                    i < 128,
                    k < 128,
            ;
        }
    }
}

/// The bits of a conjunction, disjunction and exclusive disjunction of words.
pub proof fn lemma_bitwise(x: u128, y: u128)
    ensures
        forall|j: int| #[trigger] has_bit(x & y, j) == (has_bit(x, j) && has_bit(y, j)),
        forall|j: int| #[trigger] has_bit(x | y, j) == (has_bit(x, j) || has_bit(y, j)),
        forall|j: int| #[trigger] has_bit(x ^ y, j) == (has_bit(x, j) != has_bit(y, j)),
{
    assert forall|j: int| #[trigger] has_bit(x & y, j) == (has_bit(x, j) && has_bit(y, j)) by {
        if 0 <= j < 128 {
            let k = j as u128;
            assert(((x & y) >> k) & 1u128 == 1u128 <==> ((x >> k) & 1u128 == 1u128 && (y >> k) & 1u128
                == 1u128)) by (bit_vector);
        }
    }
    assert forall|j: int| #[trigger] has_bit(x | y, j) == (has_bit(x, j) || has_bit(y, j)) by {
        if 0 <= j < 128 {
            let k = j as u128;
            assert(((x | y) >> k) & 1u128 == 1u128 <==> ((x >> k) & 1u128 == 1u128 || (y >> k) & 1u128
                == 1u128)) by (bit_vector);
        }
    }
    assert forall|j: int| #[trigger] has_bit(x ^ y, j) == (has_bit(x, j) != has_bit(y, j)) by {
        if 0 <= j < 128 {
            let k = j as u128;
            assert(((x ^ y) >> k) & 1u128 == 1u128 <==> ((x >> k) & 1u128 == 1u128) != ((y >> k) & 1u128
                == 1u128)) by (bit_vector);
        }
    }
}

/// The mask of the `n` lowest bits, and the complement of a word within it.
pub proof fn lemma_low_mask(x: u128, n: u128)
    requires
        1 <= n <= 128,
    ensures
        forall|j: int| #[trigger] has_bit(u128::MAX >> ((128 - n) as u128), j) == (0 <= j < n),
        forall|j: int| #[trigger] has_bit(!x & (u128::MAX >> ((128 - n) as u128)), j) == (0 <= j < n && !has_bit(x, j)),
{
    assert forall|j: int| #[trigger] has_bit(u128::MAX >> ((128 - n) as u128), j) == (0 <= j < n) by {
        if 0 <= j < 128 {
            let k = j as u128;
            assert(((u128::MAX >> ((128 - n) as u128)) >> k) & 1u128 == 1u128 <==> k < n) by (bit_vector)
                requires
                    1 <= n <= 128,
                    k < 128,
            ;
        }
    }
    assert forall|j: int| #[trigger] has_bit(!x & (u128::MAX >> ((128 - n) as u128)), j) == (0 <= j < n
        && !has_bit(x, j)) by {
        if 0 <= j < 128 {
            let k = j as u128;
            assert(((!x & (u128::MAX >> ((128 - n) as u128))) >> k) & 1u128 == 1u128 <==> (k < n && (x
                >> k) & 1u128 != 1u128)) by (bit_vector)
                requires
                    1 <= n <= 128,
                    k < 128,
            ;
        }
    }
}

/// The bits of a word shifted towards its low end, and towards its high end.
pub proof fn lemma_shift(x: u128, s: u128)
    requires
        s < 128,
    ensures
        forall|j: int| #[trigger] has_bit(x >> s, j) == (0 <= j && has_bit(x, j + s)),
        forall|j: int| #[trigger] has_bit(x << s, j) == (s <= j < 128 && has_bit(x, j - s)),
{
    assert forall|j: int| #[trigger] has_bit(x >> s, j) == (0 <= j && has_bit(x, j + s)) by {
        if 0 <= j < 128 {
            let k = j as u128;
            assert(((x >> s) >> k) & 1u128 == 1u128 <==> (k + s < 128 && (x >> ((k + s) as u128)) & 1u128
                == 1u128)) by (bit_vector)
                requires
                    s < 128,
                    k < 128,
            ;
        }
    }
    assert forall|j: int| #[trigger] has_bit(x << s, j) == (s <= j < 128 && has_bit(x, j - s)) by {
        if 0 <= j < 128 {
            let k = j as u128;
            assert(((x << s) >> k) & 1u128 == 1u128 <==> (s <= k && (x >> ((k - s) as u128)) & 1u128
                == 1u128)) by (bit_vector)
                requires
                    s < 128,
                    k < 128,
            ;
        }
    }
}

/// A word below `2^w` has no bit at or above `w`.
pub proof fn lemma_high_bits_clear(x: u128, w: u128)
    requires
        w < 128,
        x >> w == 0,
    ensures
        forall|j: int| w <= j ==> !#[trigger] has_bit(x, j),
{
    assert forall|j: int| w <= j implies !#[trigger] has_bit(x, j) by {
        if j < 128 {
            let k = j as u128;
            assert(x >> w == 0 && w <= k && k < 128 ==> (x >> k) & 1u128 == 0u128) by (bit_vector);
        }
    }
}

/// A 128 bit word reads as its low and high 64 bit halves.
pub proof fn lemma_halves(x: u128)
    ensures
        forall|j: int| 0 <= j < 64 ==> #[trigger] has_bit(x, j) == bits::has_bit(x as u64, j),
        forall|j: int| 64 <= j < 128 ==> #[trigger] has_bit(x, j) == bits::has_bit((x >> 64u128) as u64, j - 64),
        x == 0 <==> (x as u64 == 0 && (x >> 64u128) as u64 == 0),
{
    assert forall|j: int| 0 <= j < 64 implies #[trigger] has_bit(x, j) == bits::has_bit(x as u64, j) by {
        let k = j as u64;
        let kk = j as u128;
        assert(kk == k as u128);
        assert(((x >> kk) & 1u128 == 1u128) == (((x as u64) >> k) & 1u64 == 1u64)) by (bit_vector)
            requires
                k < 64,
                kk == k as u128,
        ;
    }
    assert forall|j: int| 64 <= j < 128 implies #[trigger] has_bit(x, j) == bits::has_bit(
        (x >> 64u128) as u64,
        j - 64,
    ) by {
        let k = (j - 64) as u64;
        let kk = j as u128;
        assert(kk == k as u128 + 64);
        assert(((x >> kk) & 1u128 == 1u128) == ((((x >> 64u128) as u64) >> k) & 1u64 == 1u64))
            by (bit_vector)
            requires
                k < 64,
                kk == k as u128 + 64,
        ;
    }
    assert(x == 0 <==> (x as u64 == 0 && (x >> 64u128) as u64 == 0)) by (bit_vector);
}

/// Words with the same bits are equal.
pub proof fn lemma_bits_equal(a: u128, b: u128)
    requires
        forall|j: int| 0 <= j < 128 ==> #[trigger] has_bit(a, j) == has_bit(b, j),
    ensures
        a == b,
{
    lemma_halves(a);
    lemma_halves(b);
    assert forall|j: int| 0 <= j < 64 implies #[trigger] bits::has_bit(a as u64, j) == bits::has_bit(
        b as u64,
        j,
    ) by {
        assert(has_bit(a, j) == has_bit(b, j));
    }
    assert forall|j: int| 0 <= j < 64 implies #[trigger] bits::has_bit((a >> 64u128) as u64, j)
        == bits::has_bit((b >> 64u128) as u64, j) by {
        assert(has_bit(a, j + 64) == has_bit(b, j + 64));
    }
    bits::lemma_bits_equal(a as u64, b as u64);
    bits::lemma_bits_equal((a >> 64u128) as u64, (b >> 64u128) as u64);
    assert((a as u64 == b as u64 && (a >> 64u128) as u64 == (b >> 64u128) as u64) ==> a == b)
        by (bit_vector);
}

/// The position of the lowest set bit of a word, or 128 where none is set
/// (`u128::trailing_zeros`), found from the halves of the word.
pub fn trailing_zeros(x: u128) -> (r: u32)
    ensures
        r <= 128,
        x == 0 <==> r == 128,
        x != 0 ==> has_bit(x, r as int),
        forall|j: int| 0 <= j < r ==> !#[trigger] has_bit(x, j),
{
    proof {
        lemma_halves(x);
    }
    let low = x as u64;
    let high = (x >> 64u128) as u64;
    if low != 0 {
        let r = bits::trailing_zeros(low);
        proof {
            assert(has_bit(x, r as int));
        }
        r
    } else {
        let t = bits::trailing_zeros(high);
        proof {
            assert forall|j: int| 0 <= j < 64 implies !#[trigger] has_bit(x, j) by {
                bits::lemma_empty_word();
                assert(!bits::has_bit(low, j));
            }
            assert forall|j: int| 64 <= j < 64 + t implies !#[trigger] has_bit(x, j) by {
                assert(!bits::has_bit(high, j - 64));
            }
            if x != 0 {
                assert(has_bit(x, 64 + t));
            }
        }
        64 + t
    }
}

/// The position of the highest set bit of a word that has one (127 less
/// `u128::leading_zeros`), found from the halves of the word.
pub fn highest_bit(x: u128) -> (r: u32)
    requires
        x != 0,
    ensures
        r < 128,
        has_bit(x, r as int),
        forall|j: int| r < j ==> !#[trigger] has_bit(x, j),
{
    proof {
        lemma_halves(x);
    }
    let low = x as u64;
    let high = (x >> 64u128) as u64;
    if high != 0 {
        let h = bits::highest_bit(high);
        proof {
            assert(has_bit(x, 64 + h));
            assert forall|j: int| 64 + h < j implies !#[trigger] has_bit(x, j) by {
                if j < 128 {
                    assert(!bits::has_bit(high, j - 64));
                }
            }
        }
        64 + h
    } else {
        let h = bits::highest_bit(low);
        proof {
            assert forall|j: int| h < j implies !#[trigger] has_bit(x, j) by {
                if j < 64 {
                    assert(!bits::has_bit(low, j));
                } else if j < 128 {
                    bits::lemma_empty_word();
                    assert(!bits::has_bit(high, j - 64));
                }
            }
        }
        h
    }
}

/// Counting set bits: a word without bits counts nothing, and counting up to a position
/// counts at most the positions.
pub proof fn lemma_bits_below_bounds(x: u128, n: int)
    ensures
        bits_below(x, n) <= if n < 0 {
            0
        } else {
            n
        },
    decreases n,
{
    if n > 0 {
        lemma_bits_below_bounds(x, n - 1);
    }
}

/// Words that agree on the positions below `n` have as many set bits there.
pub proof fn lemma_bits_below_agree(x: u128, y: u128, n: int)
    requires
        forall|j: int| 0 <= j < n ==> #[trigger] has_bit(x, j) == has_bit(y, j),
    ensures
        bits_below(x, n) == bits_below(y, n),
    decreases n,
{
    if n > 0 {
        lemma_bits_below_agree(x, y, n - 1);
    }
}

/// No position of a word is set beyond 128, so counting further changes nothing.
pub proof fn lemma_bits_below_full(x: u128, n: int)
    requires
        n >= 128,
    ensures
        bits_below(x, n) == bits_below(x, 128),
    decreases n,
{
    if n > 128 {
        lemma_bits_below_full(x, n - 1);
    }
}

/// A word whose bits at and above `w` are clear is below `2^w`.
pub proof fn lemma_fits(v: u128, w: u128)
    requires
        w < 128,
        forall|j: int| w <= j < 128 ==> !#[trigger] has_bit(v, j),
    ensures
        v >> w == 0,
        v < (1u128 << w),
{
    lemma_shift(v, w);
    assert forall|j: int| 0 <= j < 128 implies #[trigger] has_bit(v >> w, j) == has_bit(0u128, j) by {
        let k = j as u128;
        assert((0u128 >> k) & 1u128 == 0u128) by (bit_vector);
    }
    lemma_bits_equal(v >> w, 0u128);
    assert(v >> w == 0 ==> v < (1u128 << w)) by (bit_vector)
        requires
            w < 128,
    ;
}

/// A word below `2^w` has no bit at or above `w`.
pub proof fn lemma_below_power(v: u128, w: u128)
    requires
        w < 128,
        v < (1u128 << w),
    ensures
        forall|j: int| w <= j ==> !#[trigger] has_bit(v, j),
{
    assert(v < (1u128 << w) ==> v >> w == 0) by (bit_vector)
        requires
            w < 128,
    ;
    lemma_high_bits_clear(v, w);
}

/// The word zero has no set bit.
pub proof fn lemma_empty_word()
    ensures
        forall|j: int| !#[trigger] has_bit(0u128, j),
{
    assert forall|j: int| !#[trigger] has_bit(0u128, j) by {
        if 0 <= j < 128 {
            let k = j as u128;
            assert((0u128 >> k) & 1u128 == 0u128) by (bit_vector);
        }
    }
}

/// Counting the set bits of a word whose bits at and above `n` are clear counts them all.
pub proof fn lemma_bits_below_split(x: u128, n: int)
    requires
        0 <= n <= 128,
        forall|j: int| n <= j ==> !#[trigger] has_bit(x, j),
    ensures
        bits_below(x, 128) == bits_below(x, n),
    decreases 128 - n,
{
    if n < 128 {
        lemma_bits_below_split(x, n + 1);
        assert(!has_bit(x, n));
    }
}

/// Where no bit is set from `a` up to `b`, as many bits are set below `b` as below `a`.
pub proof fn lemma_bits_below_gap(x: u128, a: int, b: int)
    requires
        0 <= a <= b,
        forall|j: int| a <= j < b ==> !#[trigger] has_bit(x, j),
    ensures
        bits_below(x, b) == bits_below(x, a),
    decreases b - a,
{
    if a < b {
        lemma_bits_below_gap(x, a, b - 1);
        assert(!has_bit(x, b - 1));
    }
}

/// Counts the set bits of a word, as `u128::count_ones` does.
pub(crate) fn count_ones(x: u128) -> (r: u32)
    ensures
        r == bits_below(x, 128),
{
    let mut count: u32 = 0;
    let mut i: u128 = 0;
    while i < 128
        invariant
            i <= 128,
            count == bits_below(x, i as int),
            count <= i,
        decreases 128 - i,
    {
        if (x >> i) & 1 == 1 {
            count = count + 1;
        }
        i = i + 1;
    }
    count
}

} // verus!
