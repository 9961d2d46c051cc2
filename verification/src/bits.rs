//! Bits of a 64 bit word, read as a set of positions.
use vstd::prelude::*;

verus! {

/// Whether bit `i` of `x` is set.
pub open spec fn has_bit(x: u64, i: int) -> bool {
    0 <= i < 64 && (x >> (i as u64)) & 1u64 == 1u64
}

/// The number of set bits among the positions below `n`.
pub open spec fn bits_below(x: u64, n: int) -> nat
    decreases n,
{
    if n <= 0 {
        0
    } else {
        bits_below(x, n - 1) + if has_bit(x, n - 1) {
            1nat
        } else {
            0nat
        }
    }
}

/// Setting a bit sets that bit and leaves the others.
pub proof fn lemma_set_bit(x: u64, i: u64)
    requires
        i < 64,
    ensures
        forall|j: int| #[trigger] has_bit(x | (1u64 << i), j) == (0 <= j < 64 && (j == i || has_bit(x, j))),
{
    assert forall|j: int| #[trigger] has_bit(x | (1u64 << i), j) == (0 <= j < 64 && (j == i || has_bit(x, j))) by {
        if 0 <= j < 64 {
            let k = j as u64;
            assert(((x | (1u64 << i)) >> k) & 1u64 == 1u64 <==> (k == i || (x >> k) & 1u64 == 1u64))
                by (bit_vector)
                requires
                    i < 64,
                    k < 64,
            ;
        }
    }
}

/// Clearing a bit clears that bit and leaves the others.
pub proof fn lemma_clear_bit(x: u64, i: u64)
    requires
        i < 64,
    ensures
        forall|j: int| #[trigger] has_bit(x & !(1u64 << i), j) == (j != i && has_bit(x, j)),
{
    assert forall|j: int| #[trigger] has_bit(x & !(1u64 << i), j) == (j != i && has_bit(x, j)) by {
        if 0 <= j < 64 {
            let k = j as u64;
            assert(((x & !(1u64 << i)) >> k) & 1u64 == 1u64 <==> (k != i && (x >> k) & 1u64 == 1u64))
                by (bit_vector)
                requires
                    i < 64,
                    k < 64,
            ;
        }
    }
}

/// The bits of a conjunction, disjunction and exclusive disjunction of words.
pub proof fn lemma_bitwise(x: u64, y: u64)
    ensures
        forall|j: int| #[trigger] has_bit(x & y, j) == (has_bit(x, j) && has_bit(y, j)),
        forall|j: int| #[trigger] has_bit(x | y, j) == (has_bit(x, j) || has_bit(y, j)),
        forall|j: int| #[trigger] has_bit(x ^ y, j) == (has_bit(x, j) != has_bit(y, j)),
{
    assert forall|j: int| #[trigger] has_bit(x & y, j) == (has_bit(x, j) && has_bit(y, j)) by {
        if 0 <= j < 64 {
            let k = j as u64;
            assert(((x & y) >> k) & 1u64 == 1u64 <==> ((x >> k) & 1u64 == 1u64 && (y >> k) & 1u64
                == 1u64)) by (bit_vector);
        }
    }
    assert forall|j: int| #[trigger] has_bit(x | y, j) == (has_bit(x, j) || has_bit(y, j)) by {
        if 0 <= j < 64 {
            let k = j as u64;
            assert(((x | y) >> k) & 1u64 == 1u64 <==> ((x >> k) & 1u64 == 1u64 || (y >> k) & 1u64
                == 1u64)) by (bit_vector);
        }
    }
    assert forall|j: int| #[trigger] has_bit(x ^ y, j) == (has_bit(x, j) != has_bit(y, j)) by {
        if 0 <= j < 64 {
            let k = j as u64;
            assert(((x ^ y) >> k) & 1u64 == 1u64 <==> ((x >> k) & 1u64 == 1u64) != ((y >> k) & 1u64
                == 1u64)) by (bit_vector);
        }
    }
}

/// The mask of the `n` lowest bits, and the complement of a word within it.
pub proof fn lemma_low_mask(x: u64, n: u64)
    requires
        1 <= n <= 64,
    ensures
        forall|j: int| #[trigger] has_bit(u64::MAX >> ((64 - n) as u64), j) == (0 <= j < n),
        forall|j: int| #[trigger] has_bit(!x & (u64::MAX >> ((64 - n) as u64)), j) == (0 <= j < n && !has_bit(x, j)),
{
    assert forall|j: int| #[trigger] has_bit(u64::MAX >> ((64 - n) as u64), j) == (0 <= j < n) by {
        if 0 <= j < 64 {
            let k = j as u64;
            assert(((u64::MAX >> ((64 - n) as u64)) >> k) & 1u64 == 1u64 <==> k < n) by (bit_vector)
                requires
                    1 <= n <= 64,
                    k < 64,
            ;
        }
    }
    assert forall|j: int| #[trigger] has_bit(!x & (u64::MAX >> ((64 - n) as u64)), j) == (0 <= j < n
        && !has_bit(x, j)) by {
        if 0 <= j < 64 {
            let k = j as u64;
            assert(((!x & (u64::MAX >> ((64 - n) as u64))) >> k) & 1u64 == 1u64 <==> (k < n && (x
                >> k) & 1u64 != 1u64)) by (bit_vector)
                requires
                    1 <= n <= 64,
                    k < 64,
            ;
        }
    }
}

/// The bits of a word shifted towards its low end, and towards its high end.
pub proof fn lemma_shift(x: u64, s: u64)
    requires
        s < 64,
    ensures
        forall|j: int| #[trigger] has_bit(x >> s, j) == (0 <= j && has_bit(x, j + s)),
        forall|j: int| #[trigger] has_bit(x << s, j) == (s <= j < 64 && has_bit(x, j - s)),
{
    assert forall|j: int| #[trigger] has_bit(x >> s, j) == (0 <= j && has_bit(x, j + s)) by {
        if 0 <= j < 64 {
            let k = j as u64;
            assert(((x >> s) >> k) & 1u64 == 1u64 <==> (k + s < 64 && (x >> ((k + s) as u64)) & 1u64
                == 1u64)) by (bit_vector)
                requires
                    s < 64,
                    k < 64,
            ;
        }
    }
    assert forall|j: int| #[trigger] has_bit(x << s, j) == (s <= j < 64 && has_bit(x, j - s)) by {
        if 0 <= j < 64 {
            let k = j as u64;
            assert(((x << s) >> k) & 1u64 == 1u64 <==> (s <= k && (x >> ((k - s) as u64)) & 1u64
                == 1u64)) by (bit_vector)
                requires
                    s < 64,
                    k < 64,
            ;
        }
    }
}

/// A word below `2^w` has no bit at or above `w`.
pub proof fn lemma_high_bits_clear(x: u64, w: u64)
    requires
        w < 64,
        x >> w == 0,
    ensures
        forall|j: int| w <= j ==> !#[trigger] has_bit(x, j),
{
    assert forall|j: int| w <= j implies !#[trigger] has_bit(x, j) by {
        if j < 64 {
            let k = j as u64;
            assert(x >> w == 0 && w <= k && k < 64 ==> (x >> k) & 1u64 == 0u64) by (bit_vector);
        }
    }
}

/// Words with the same bits are equal.
pub proof fn lemma_bits_equal(a: u64, b: u64)
    requires
        forall|j: int| 0 <= j < 64 ==> #[trigger] has_bit(a, j) == has_bit(b, j),
    ensures
        a == b,
{
    assert(has_bit(a, 0) == has_bit(b, 0));
    assert(has_bit(a, 1) == has_bit(b, 1));
    assert(has_bit(a, 2) == has_bit(b, 2));
    assert(has_bit(a, 3) == has_bit(b, 3));
    assert(has_bit(a, 4) == has_bit(b, 4));
    assert(has_bit(a, 5) == has_bit(b, 5));
    assert(has_bit(a, 6) == has_bit(b, 6));
    assert(has_bit(a, 7) == has_bit(b, 7));
    assert(has_bit(a, 8) == has_bit(b, 8));
    assert(has_bit(a, 9) == has_bit(b, 9));
    assert(has_bit(a, 10) == has_bit(b, 10));
    assert(has_bit(a, 11) == has_bit(b, 11));
    assert(has_bit(a, 12) == has_bit(b, 12));
    assert(has_bit(a, 13) == has_bit(b, 13));
    assert(has_bit(a, 14) == has_bit(b, 14));
    assert(has_bit(a, 15) == has_bit(b, 15));
    assert(has_bit(a, 16) == has_bit(b, 16));
    assert(has_bit(a, 17) == has_bit(b, 17));
    assert(has_bit(a, 18) == has_bit(b, 18));
    assert(has_bit(a, 19) == has_bit(b, 19));
    assert(has_bit(a, 20) == has_bit(b, 20));
    assert(has_bit(a, 21) == has_bit(b, 21));
    assert(has_bit(a, 22) == has_bit(b, 22));
    assert(has_bit(a, 23) == has_bit(b, 23));
    assert(has_bit(a, 24) == has_bit(b, 24));
    assert(has_bit(a, 25) == has_bit(b, 25));
    assert(has_bit(a, 26) == has_bit(b, 26));
    assert(has_bit(a, 27) == has_bit(b, 27));
    assert(has_bit(a, 28) == has_bit(b, 28));
    assert(has_bit(a, 29) == has_bit(b, 29));
    assert(has_bit(a, 30) == has_bit(b, 30));
    assert(has_bit(a, 31) == has_bit(b, 31));
    assert(has_bit(a, 32) == has_bit(b, 32));
    assert(has_bit(a, 33) == has_bit(b, 33));
    assert(has_bit(a, 34) == has_bit(b, 34));
    assert(has_bit(a, 35) == has_bit(b, 35));
    assert(has_bit(a, 36) == has_bit(b, 36));
    assert(has_bit(a, 37) == has_bit(b, 37));
    assert(has_bit(a, 38) == has_bit(b, 38));
    assert(has_bit(a, 39) == has_bit(b, 39));
    assert(has_bit(a, 40) == has_bit(b, 40));
    assert(has_bit(a, 41) == has_bit(b, 41));
    assert(has_bit(a, 42) == has_bit(b, 42));
    assert(has_bit(a, 43) == has_bit(b, 43));
    assert(has_bit(a, 44) == has_bit(b, 44));
    assert(has_bit(a, 45) == has_bit(b, 45));
    assert(has_bit(a, 46) == has_bit(b, 46));
    assert(has_bit(a, 47) == has_bit(b, 47));
    assert(has_bit(a, 48) == has_bit(b, 48));
    assert(has_bit(a, 49) == has_bit(b, 49));
    assert(has_bit(a, 50) == has_bit(b, 50));
    assert(has_bit(a, 51) == has_bit(b, 51));
    assert(has_bit(a, 52) == has_bit(b, 52));
    assert(has_bit(a, 53) == has_bit(b, 53));
    assert(has_bit(a, 54) == has_bit(b, 54));
    assert(has_bit(a, 55) == has_bit(b, 55));
    assert(has_bit(a, 56) == has_bit(b, 56));
    assert(has_bit(a, 57) == has_bit(b, 57));
    assert(has_bit(a, 58) == has_bit(b, 58));
    assert(has_bit(a, 59) == has_bit(b, 59));
    assert(has_bit(a, 60) == has_bit(b, 60));
    assert(has_bit(a, 61) == has_bit(b, 61));
    assert(has_bit(a, 62) == has_bit(b, 62));
    assert(has_bit(a, 63) == has_bit(b, 63));
    assert(((a >> 0u64) & 1u64 == 1u64) == ((b >> 0u64) & 1u64 == 1u64) && ((a >> 1u64) & 1u64 == 1u64) == ((b >> 1u64) & 1u64 == 1u64) && ((a >> 2u64) & 1u64 == 1u64) == ((b >> 2u64) & 1u64 == 1u64) && ((a >> 3u64) & 1u64 == 1u64) == ((b >> 3u64) & 1u64 == 1u64) && ((a >> 4u64) & 1u64 == 1u64) == ((b >> 4u64) & 1u64 == 1u64) && ((a >> 5u64) & 1u64 == 1u64) == ((b >> 5u64) & 1u64 == 1u64) && ((a >> 6u64) & 1u64 == 1u64) == ((b >> 6u64) & 1u64 == 1u64) && ((a >> 7u64) & 1u64 == 1u64) == ((b >> 7u64) & 1u64 == 1u64) && ((a >> 8u64) & 1u64 == 1u64) == ((b >> 8u64) & 1u64 == 1u64) && ((a >> 9u64) & 1u64 == 1u64) == ((b >> 9u64) & 1u64 == 1u64) && ((a >> 10u64) & 1u64 == 1u64) == ((b >> 10u64) & 1u64 == 1u64) && ((a >> 11u64) & 1u64 == 1u64) == ((b >> 11u64) & 1u64 == 1u64) && ((a >> 12u64) & 1u64 == 1u64) == ((b >> 12u64) & 1u64 == 1u64) && ((a >> 13u64) & 1u64 == 1u64) == ((b >> 13u64) & 1u64 == 1u64) && ((a >> 14u64) & 1u64 == 1u64) == ((b >> 14u64) & 1u64 == 1u64) && ((a >> 15u64) & 1u64 == 1u64) == ((b >> 15u64) & 1u64 == 1u64) && ((a >> 16u64) & 1u64 == 1u64) == ((b >> 16u64) & 1u64 == 1u64) && ((a >> 17u64) & 1u64 == 1u64) == ((b >> 17u64) & 1u64 == 1u64) && ((a >> 18u64) & 1u64 == 1u64) == ((b >> 18u64) & 1u64 == 1u64) && ((a >> 19u64) & 1u64 == 1u64) == ((b >> 19u64) & 1u64 == 1u64) && ((a >> 20u64) & 1u64 == 1u64) == ((b >> 20u64) & 1u64 == 1u64) && ((a >> 21u64) & 1u64 == 1u64) == ((b >> 21u64) & 1u64 == 1u64) && ((a >> 22u64) & 1u64 == 1u64) == ((b >> 22u64) & 1u64 == 1u64) && ((a >> 23u64) & 1u64 == 1u64) == ((b >> 23u64) & 1u64 == 1u64) && ((a >> 24u64) & 1u64 == 1u64) == ((b >> 24u64) & 1u64 == 1u64) && ((a >> 25u64) & 1u64 == 1u64) == ((b >> 25u64) & 1u64 == 1u64) && ((a >> 26u64) & 1u64 == 1u64) == ((b >> 26u64) & 1u64 == 1u64) && ((a >> 27u64) & 1u64 == 1u64) == ((b >> 27u64) & 1u64 == 1u64) && ((a >> 28u64) & 1u64 == 1u64) == ((b >> 28u64) & 1u64 == 1u64) && ((a >> 29u64) & 1u64 == 1u64) == ((b >> 29u64) & 1u64 == 1u64) && ((a >> 30u64) & 1u64 == 1u64) == ((b >> 30u64) & 1u64 == 1u64) && ((a >> 31u64) & 1u64 == 1u64) == ((b >> 31u64) & 1u64 == 1u64) && ((a >> 32u64) & 1u64 == 1u64) == ((b >> 32u64) & 1u64 == 1u64) && ((a >> 33u64) & 1u64 == 1u64) == ((b >> 33u64) & 1u64 == 1u64) && ((a >> 34u64) & 1u64 == 1u64) == ((b >> 34u64) & 1u64 == 1u64) && ((a >> 35u64) & 1u64 == 1u64) == ((b >> 35u64) & 1u64 == 1u64) && ((a >> 36u64) & 1u64 == 1u64) == ((b >> 36u64) & 1u64 == 1u64) && ((a >> 37u64) & 1u64 == 1u64) == ((b >> 37u64) & 1u64 == 1u64) && ((a >> 38u64) & 1u64 == 1u64) == ((b >> 38u64) & 1u64 == 1u64) && ((a >> 39u64) & 1u64 == 1u64) == ((b >> 39u64) & 1u64 == 1u64) && ((a >> 40u64) & 1u64 == 1u64) == ((b >> 40u64) & 1u64 == 1u64) && ((a >> 41u64) & 1u64 == 1u64) == ((b >> 41u64) & 1u64 == 1u64) && ((a >> 42u64) & 1u64 == 1u64) == ((b >> 42u64) & 1u64 == 1u64) && ((a >> 43u64) & 1u64 == 1u64) == ((b >> 43u64) & 1u64 == 1u64) && ((a >> 44u64) & 1u64 == 1u64) == ((b >> 44u64) & 1u64 == 1u64) && ((a >> 45u64) & 1u64 == 1u64) == ((b >> 45u64) & 1u64 == 1u64) && ((a >> 46u64) & 1u64 == 1u64) == ((b >> 46u64) & 1u64 == 1u64) && ((a >> 47u64) & 1u64 == 1u64) == ((b >> 47u64) & 1u64 == 1u64) && ((a >> 48u64) & 1u64 == 1u64) == ((b >> 48u64) & 1u64 == 1u64) && ((a >> 49u64) & 1u64 == 1u64) == ((b >> 49u64) & 1u64 == 1u64) && ((a >> 50u64) & 1u64 == 1u64) == ((b >> 50u64) & 1u64 == 1u64) && ((a >> 51u64) & 1u64 == 1u64) == ((b >> 51u64) & 1u64 == 1u64) && ((a >> 52u64) & 1u64 == 1u64) == ((b >> 52u64) & 1u64 == 1u64) && ((a >> 53u64) & 1u64 == 1u64) == ((b >> 53u64) & 1u64 == 1u64) && ((a >> 54u64) & 1u64 == 1u64) == ((b >> 54u64) & 1u64 == 1u64) && ((a >> 55u64) & 1u64 == 1u64) == ((b >> 55u64) & 1u64 == 1u64) && ((a >> 56u64) & 1u64 == 1u64) == ((b >> 56u64) & 1u64 == 1u64) && ((a >> 57u64) & 1u64 == 1u64) == ((b >> 57u64) & 1u64 == 1u64) && ((a >> 58u64) & 1u64 == 1u64) == ((b >> 58u64) & 1u64 == 1u64) && ((a >> 59u64) & 1u64 == 1u64) == ((b >> 59u64) & 1u64 == 1u64) && ((a >> 60u64) & 1u64 == 1u64) == ((b >> 60u64) & 1u64 == 1u64) && ((a >> 61u64) & 1u64 == 1u64) == ((b >> 61u64) & 1u64 == 1u64) && ((a >> 62u64) & 1u64 == 1u64) == ((b >> 62u64) & 1u64 == 1u64) && ((a >> 63u64) & 1u64 == 1u64) == ((b >> 63u64) & 1u64 == 1u64) ==> a == b) by (bit_vector);
}

/// The lowest set bit of a word, which `trailing_zeros` finds.
pub proof fn lemma_lowest_bit(x: u64)
    ensures
        x == 0 <==> x.trailing_zeros() == 64,
        x.trailing_zeros() <= 64,
        x != 0 ==> has_bit(x, x.trailing_zeros() as int),
        forall|j: int| 0 <= j < x.trailing_zeros() ==> !#[trigger] has_bit(x, j),
{
    vstd::std_specs::bits::axiom_u64_trailing_zeros(x);
    assert forall|j: int| 0 <= j < x.trailing_zeros() implies !#[trigger] has_bit(x, j) by {
        let k = j as u64;
        assert((x >> k) & 1u64 == 0u64);
    }
}

/// The highest set bit of a word, which `leading_zeros` finds.
pub proof fn lemma_highest_bit(x: u64)
    ensures
        x == 0 <==> vstd::std_specs::bits::u64_leading_zeros(x) == 64,
        0 <= vstd::std_specs::bits::u64_leading_zeros(x) <= 64,
        x != 0 ==> has_bit(x, 63 - vstd::std_specs::bits::u64_leading_zeros(x)),
        forall|j: int|
            63 - vstd::std_specs::bits::u64_leading_zeros(x) < j ==> !#[trigger] has_bit(x, j),
{
    vstd::std_specs::bits::axiom_u64_leading_zeros(x);
    let lz = vstd::std_specs::bits::u64_leading_zeros(x);
    if x != 0 {
        let k = (63 - lz) as u64;
        assert((x >> k) & 1u64 != 0u64);
        assert((x >> k) & 1u64 != 0u64 ==> (x >> k) & 1u64 == 1u64) by (bit_vector);
    }
    assert forall|j: int| 63 - lz < j implies !#[trigger] has_bit(x, j) by {
        if j < 64 {
            let k = j as u64;
            assert((x >> k) & 1u64 == 0u64);
        }
    }
}

/// The position of the lowest set bit of a word, or 64 where none is set
/// (`u64::trailing_zeros`).
pub fn trailing_zeros(x: u64) -> (r: u32)
    ensures
        r <= 64,
        x == 0 <==> r == 64,
        x != 0 ==> has_bit(x, r as int),
        forall|j: int| 0 <= j < r ==> !#[trigger] has_bit(x, j),
{
    proof {
        lemma_lowest_bit(x);
    }
    x.trailing_zeros()
}

/// The position of the highest set bit of a word that has one (63 less `u64::leading_zeros`).
pub fn highest_bit(x: u64) -> (r: u32)
    requires
        x != 0,
    ensures
        r < 64,
        has_bit(x, r as int),
        forall|j: int| r < j ==> !#[trigger] has_bit(x, j),
{
    proof {
        lemma_highest_bit(x);
    }
    63 - x.leading_zeros()
}

/// Counting set bits: a word without bits counts nothing, and counting up to a position
/// counts at most the positions.
pub proof fn lemma_bits_below_bounds(x: u64, n: int)
    ensures
        bits_below(x, n) <= if n < 0 {
            0
        } else {
            n
        },
    decreases n,
{
    if n > 0 {
        lemma_bits_below_bounds(x, n - 1);
    }
}

/// Words that agree on the positions below `n` have as many set bits there.
pub proof fn lemma_bits_below_agree(x: u64, y: u64, n: int)
    requires
        forall|j: int| 0 <= j < n ==> #[trigger] has_bit(x, j) == has_bit(y, j),
    ensures
        bits_below(x, n) == bits_below(y, n),
    decreases n,
{
    if n > 0 {
        lemma_bits_below_agree(x, y, n - 1);
    }
}

/// No position of a word is set beyond 64, so counting further changes nothing.
pub proof fn lemma_bits_below_full(x: u64, n: int)
    requires
        n >= 64,
    ensures
        bits_below(x, n) == bits_below(x, 64),
    decreases n,
{
    if n > 64 {
        lemma_bits_below_full(x, n - 1);
    }
}

/// A word whose bits at and above `w` are clear is below `2^w`.
pub proof fn lemma_fits(v: u64, w: u64)
    requires
        w < 64,
        forall|j: int| w <= j < 64 ==> !#[trigger] has_bit(v, j),
    ensures
        v >> w == 0,
        v < (1u64 << w),
{
    lemma_shift(v, w);
    assert forall|j: int| 0 <= j < 64 implies #[trigger] has_bit(v >> w, j) == has_bit(0u64, j) by {
        let k = j as u64;
        assert((0u64 >> k) & 1u64 == 0u64) by (bit_vector);
    }
    lemma_bits_equal(v >> w, 0u64);
    assert(v >> w == 0 ==> v < (1u64 << w)) by (bit_vector)
        requires
            w < 64,
    ;
}

/// A word below `2^w` has no bit at or above `w`.
pub proof fn lemma_below_power(v: u64, w: u64)
    requires
        w < 64,
        v < (1u64 << w),
    ensures
        forall|j: int| w <= j ==> !#[trigger] has_bit(v, j),
{
    assert(v < (1u64 << w) ==> v >> w == 0) by (bit_vector)
        requires
            w < 64,
    ;
    lemma_high_bits_clear(v, w);
}

/// The word zero has no set bit.
pub proof fn lemma_empty_word()
    ensures
        forall|j: int| !#[trigger] has_bit(0u64, j),
{
    assert forall|j: int| !#[trigger] has_bit(0u64, j) by {
        if 0 <= j < 64 {
            let k = j as u64;
            assert((0u64 >> k) & 1u64 == 0u64) by (bit_vector);
        }
    }
}

/// Counting the set bits of a word whose bits at and above `n` are clear counts them all.
pub proof fn lemma_bits_below_split(x: u64, n: int)
    requires
        0 <= n <= 64,
        forall|j: int| n <= j ==> !#[trigger] has_bit(x, j),
    ensures
        bits_below(x, 64) == bits_below(x, n),
    decreases 64 - n,
{
    if n < 64 {
        lemma_bits_below_split(x, n + 1);
        assert(!has_bit(x, n));
    }
}

/// Where no bit is set from `a` up to `b`, as many bits are set below `b` as below `a`.
pub proof fn lemma_bits_below_gap(x: u64, a: int, b: int)
    requires
        0 <= a <= b,
        forall|j: int| a <= j < b ==> !#[trigger] has_bit(x, j),
    ensures
        bits_below(x, b) == bits_below(x, a),
    decreases b - a,
{
    if a < b {
        lemma_bits_below_gap(x, a, b - 1);
        assert(!has_bit(x, b - 1));
    }
}

/// Counts the set bits of a word, as `u64::count_ones` does.
pub(crate) fn count_ones(x: u64) -> (r: u32)
    ensures
        r == bits_below(x, 64),
{
    let mut count: u32 = 0;
    let mut i: u64 = 0;
    while i < 64
        invariant
            i <= 64,
            count == bits_below(x, i as int),
            count <= i,
        decreases 64 - i,
    {
        if (x >> i) & 1 == 1 {
            count = count + 1;
        }
        i = i + 1;
    }
    count
}

} // verus!
