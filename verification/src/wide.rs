//! 256 bit words, held as a high and a low 128 bit word, read as sets of positions.
use vstd::prelude::*;

use ethnum::U256;

use crate::bits128::{has_bit, lemma_bits_equal};

verus! {

/// Whether bit `i` of the 256 bit word whose high and low halves are `w.0` and `w.1` is set.
pub open spec fn has_bit256(w: (u128, u128), i: int) -> bool {
    if i < 128 {
        has_bit(w.1, i)
    } else {
        has_bit(w.0, i - 128)
    }
}

/// The number of set bits of a 256 bit word among the positions below `n`.
pub open spec fn bits_below256(w: (u128, u128), n: int) -> nat
    decreases n,
{
    if n <= 0 {
        0
    } else {
        bits_below256(w, n - 1) + if has_bit256(w, n - 1) {
            1nat
        } else {
            0nat
        }
    }
}

/// A 128 bit word without set bits is zero, and zero has no set bit.
pub proof fn lemma_zero_word(x: u128)
    ensures
        x == 0 <==> forall|j: int| !#[trigger] has_bit(x, j),
{
    assert forall|j: int| !#[trigger] has_bit(0u128, j) by {
        if 0 <= j < 128 {
            let k = j as u128;
            assert((0u128 >> k) & 1u128 == 0u128) by (bit_vector);
        }
    }
    if forall|j: int| !#[trigger] has_bit(x, j) {
        lemma_bits_equal(x, 0u128);
    }
}

/// The bits of the conjunction, disjunction, exclusive disjunction and complement of 128 bit words.
pub proof fn lemma_bitwise_word(x: u128, y: u128)
    ensures
        forall|j: int| #[trigger] has_bit(x & y, j) == (has_bit(x, j) && has_bit(y, j)),
        forall|j: int| #[trigger] has_bit(x | y, j) == (has_bit(x, j) || has_bit(y, j)),
        forall|j: int| #[trigger] has_bit(x ^ y, j) == (has_bit(x, j) != has_bit(y, j)),
        forall|j: int| #[trigger] has_bit(!x, j) == (0 <= j < 128 && !has_bit(x, j)),
{
    assert forall|j: int| #[trigger] has_bit(x & y, j) == (has_bit(x, j) && has_bit(y, j)) by {
        if 0 <= j < 128 {
            let k = j as u128;
            assert(((x & y) >> k) & 1u128 == 1u128 <==> ((x >> k) & 1u128 == 1u128 && (y >> k)
                & 1u128 == 1u128)) by (bit_vector);
        }
    }
    assert forall|j: int| #[trigger] has_bit(x | y, j) == (has_bit(x, j) || has_bit(y, j)) by {
        if 0 <= j < 128 {
            let k = j as u128;
            assert(((x | y) >> k) & 1u128 == 1u128 <==> ((x >> k) & 1u128 == 1u128 || (y >> k)
                & 1u128 == 1u128)) by (bit_vector);
        }
    }
    assert forall|j: int| #[trigger] has_bit(x ^ y, j) == (has_bit(x, j) != has_bit(y, j)) by {
        if 0 <= j < 128 {
            let k = j as u128;
            assert(((x ^ y) >> k) & 1u128 == 1u128 <==> ((x >> k) & 1u128 == 1u128) != ((y >> k)
                & 1u128 == 1u128)) by (bit_vector);
        }
    }
    assert forall|j: int| #[trigger] has_bit(!x, j) == (0 <= j < 128 && !has_bit(x, j)) by {
        if 0 <= j < 128 {
            let k = j as u128;
            assert(((!x) >> k) & 1u128 == 1u128 <==> (x >> k) & 1u128 != 1u128) by (bit_vector)
                requires
                    k < 128,
            ;
        }
    }
}

/// The word one has only its lowest bit set.
pub proof fn lemma_one_word()
    ensures
        forall|j: int| #[trigger] has_bit(1u128, j) == (j == 0),
{
    assert forall|j: int| #[trigger] has_bit(1u128, j) == (j == 0) by {
        if 0 <= j < 128 {
            let k = j as u128;
            assert((1u128 >> k) & 1u128 == 1u128 <==> k == 0) by (bit_vector)
                requires
                    k < 128,
            ;
        }
    }
}

/// The bits of 256 bit words combined half by half.
pub proof fn lemma_bitwise256(w: (u128, u128), v: (u128, u128))
    ensures
        forall|j: int| #[trigger] has_bit256((w.0 & v.0, w.1 & v.1), j) == (has_bit256(w, j) && has_bit256(v, j)),
        forall|j: int| #[trigger] has_bit256((w.0 | v.0, w.1 | v.1), j) == (has_bit256(w, j) || has_bit256(v, j)),
        forall|j: int| #[trigger] has_bit256((w.0 ^ v.0, w.1 ^ v.1), j) == (has_bit256(w, j) != has_bit256(v, j)),
        forall|j: int| #[trigger] has_bit256((!w.0, !w.1), j) == (0 <= j < 256 && !has_bit256(w, j)),
{
    lemma_bitwise_word(w.0, v.0);
    lemma_bitwise_word(w.1, v.1);
}

/// A 256 bit word is zero exactly when it has no set bit.
pub proof fn lemma_zero256(w: (u128, u128))
    ensures
        (w.0 == 0 && w.1 == 0) <==> forall|j: int| !#[trigger] has_bit256(w, j),
{
    lemma_zero_word(w.0);
    lemma_zero_word(w.1);
    if forall|j: int| !#[trigger] has_bit256(w, j) {
        assert forall|j: int| !#[trigger] has_bit(w.1, j) by {
            if j < 128 {
                assert(!has_bit256(w, j));
            }
        }
        assert forall|j: int| !#[trigger] has_bit(w.0, j) by {
            assert(!has_bit256(w, j + 128));
        }
    }
}

/// 256 bit words with the same bits are equal.
pub proof fn lemma_bits256_equal(a: (u128, u128), b: (u128, u128))
    requires
        forall|j: int| 0 <= j < 256 ==> #[trigger] has_bit256(a, j) == has_bit256(b, j),
    ensures
        a == b,
{
    assert forall|j: int| 0 <= j < 128 implies #[trigger] has_bit(a.1, j) == has_bit(b.1, j) by {
        assert(has_bit256(a, j) == has_bit256(b, j));
    }
    assert forall|j: int| 0 <= j < 128 implies #[trigger] has_bit(a.0, j) == has_bit(b.0, j) by {
        assert(has_bit256(a, j + 128) == has_bit256(b, j + 128));
    }
    lemma_bits_equal(a.0, b.0);
    lemma_bits_equal(a.1, b.1);
}

/// The 256 bit word one has only its lowest bit set, and the word of all ones has every bit set.
pub proof fn lemma_one_and_ones256()
    ensures
        forall|j: int| #[trigger] has_bit256((0u128, 1u128), j) == (j == 0),
        forall|j: int| #[trigger] has_bit256((u128::MAX, u128::MAX), j) == (0 <= j < 256),
{
    lemma_one_word();
    lemma_zero_word(0u128);
    assert forall|j: int| #[trigger] has_bit(u128::MAX, j) == (0 <= j < 128) by {
        if 0 <= j < 128 {
            let k = j as u128;
            assert((u128::MAX >> k) & 1u128 == 1u128) by (bit_vector)
                requires
                    k < 128,
            ;
        }
    }
}

/// Whether bit `i` of a 256 bit word is set.
pub(crate) fn word_bit(w: (u128, u128), i: u32) -> (r: bool)
    requires
        i < 256,
    ensures
        r == has_bit256(w, i as int),
{
    let s = shr256(w, i);
    let a = and256(s, (0, 1));
    proof {
        assert(has_bit256(s, 0) == has_bit256(w, 0 + i));
        let x = s.0;
        let y = s.1;
        assert(x & 0u128 == 0u128) by (bit_vector);
        assert((y & 1u128 == 1u128) == ((y >> 0u128) & 1u128 == 1u128)) by (bit_vector);
    }
    a.0 == 0 && a.1 == 1
}

/// Shifts a 256 bit word towards its high end (`<<` of `ethnum::U256`): bit `j` of the result
/// is bit `j - n` of the word, and the `n` lowest bits are clear.
#[verifier::external_body]
pub(crate) fn shl256(w: (u128, u128), n: u32) -> (r: (u128, u128))
    requires
        n < 256,
    ensures
        forall|j: int| #[trigger] has_bit256(r, j) == (n <= j < 256 && has_bit256(w, j - n)),
{
    (U256::from_words(w.0, w.1) << n).into_words()
}

/// Shifts a 256 bit word towards its low end (`>>` of `ethnum::U256`): bit `j` of the result
/// is bit `j + n` of the word, and the `n` highest bits are clear.
#[verifier::external_body]
pub(crate) fn shr256(w: (u128, u128), n: u32) -> (r: (u128, u128))
    requires
        n < 256,
    ensures
        forall|j: int| #[trigger] has_bit256(r, j) == (0 <= j < 256 && has_bit256(w, j + n)),
{
    (U256::from_words(w.0, w.1) >> n).into_words()
}

/// The complement of a 256 bit word (`!` of `ethnum::U256`), which complements each half.
#[verifier::external_body]
pub(crate) fn not256(w: (u128, u128)) -> (r: (u128, u128))
    ensures
        r == (!w.0, !w.1),
{
    (!U256::from_words(w.0, w.1)).into_words()
}

/// The conjunction of 256 bit words (`&` of `ethnum::U256`), taken half by half.
#[verifier::external_body]
pub(crate) fn and256(w: (u128, u128), v: (u128, u128)) -> (r: (u128, u128))
    ensures
        r == (w.0 & v.0, w.1 & v.1),
{
    (U256::from_words(w.0, w.1) & U256::from_words(v.0, v.1)).into_words()
}

/// The disjunction of 256 bit words (`|` of `ethnum::U256`), taken half by half.
#[verifier::external_body]
pub(crate) fn or256(w: (u128, u128), v: (u128, u128)) -> (r: (u128, u128))
    ensures
        r == (w.0 | v.0, w.1 | v.1),
{
    (U256::from_words(w.0, w.1) | U256::from_words(v.0, v.1)).into_words()
}

/// The exclusive disjunction of 256 bit words (`^` of `ethnum::U256`), taken half by half.
#[verifier::external_body]
pub(crate) fn xor256(w: (u128, u128), v: (u128, u128)) -> (r: (u128, u128))
    ensures
        r == (w.0 ^ v.0, w.1 ^ v.1),
{
    (U256::from_words(w.0, w.1) ^ U256::from_words(v.0, v.1)).into_words()
}

/// The number of set bits of a 256 bit word (`count_ones` of `ethnum::U256`).
#[verifier::external_body]
pub(crate) fn count_ones256(w: (u128, u128)) -> (r: u32)
    ensures
        r == bits_below256(w, 256),
{
    U256::from_words(w.0, w.1).count_ones()
}

} // verus!
