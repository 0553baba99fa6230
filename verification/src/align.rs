//! Alignment arithmetic: rounding an address or a size up to a power-of-two boundary.

use vstd::arithmetic::div_mod::{
    lemma_fundamental_div_mod, lemma_mod_bound, lemma_mod_multiples_basic,
};
use vstd::arithmetic::power::pow;
use vstd::arithmetic::power2::{
    is_pow2, is_pow2_equiv, lemma2_to64, lemma2_to64_rest, lemma_pow2, lemma_pow2_adds, lemma_pow2_pos,
    lemma_pow2_strictly_increases, pow2,
};
use vstd::bits::{lemma_usize_low_bits_mask_is_mod, low_bits_mask};
use vstd::prelude::*;

verus! {

/// Whether `value` is a multiple of `align`.
pub open spec fn is_aligned(value: int, align: int) -> bool {
    value % align == 0
}

/// The smallest multiple of `align` that is not below `value`.
pub open spec fn align_up(value: int, align: int) -> int {
    if value % align == 0 {
        value
    } else {
        value + align - value % align
    }
}

/// `align_up` yields a multiple of `align` in `[value, value + align)`, and no
/// multiple of `align` lies between `value` and it.
pub proof fn lemma_align_up(value: int, align: int)
    requires
        align > 0,
    ensures
        is_aligned(align_up(value, align), align),
        value <= align_up(value, align) < value + align,
        forall|m: int| #[trigger] is_aligned(m, align) && value <= m ==> align_up(value, align) <= m,
{
    lemma_mod_bound(value, align);
    lemma_fundamental_div_mod(value, align);
    let q = value / align;
    let up = align_up(value, align);
    if value % align != 0 {
        assert(up == align * (q + 1)) by (nonlinear_arith)
            requires
                up == value + align - value % align,
                value == align * q + value % align,
        ;
        lemma_mod_multiples_basic(q + 1, align);
        assert((q + 1) * align == align * (q + 1)) by (nonlinear_arith);
    }
    assert forall|m: int| #[trigger] is_aligned(m, align) && value <= m implies up <= m by {
        lemma_fundamental_div_mod(m, align);
        let k = m / align;
        if value % align != 0 {
            assert(k >= q + 1) by (nonlinear_arith)
                requires
                    align > 0,
                    m == align * k,
                    value == align * q + value % align,
                    0 < value % align,
                    value <= m,
            ;
            assert(align * k >= align * (q + 1)) by (nonlinear_arith)
                requires
                    align > 0,
                    k >= q + 1,
            ;
        }
    }
}

/// A power of two that fits in `usize` is `2^n` for some `n` below the word width.
proof fn lemma_pow2_exponent(align: usize) -> (n: nat)
    requires
        is_pow2(align as int),
    ensures
        n < usize::BITS,
        pow2(n) == align,
        align >= 1,
{
    is_pow2_equiv(align as int);
    let n = choose|i: nat| pow(2, i) == align as int;
    assert(pow2(n) == align);
    lemma_pow2_pos(n);
    lemma2_to64();
    lemma2_to64_rest();
    if n >= usize::BITS {
        if n > usize::BITS {
            lemma_pow2_strictly_increases(usize::BITS as nat, n);
        }
        assert(false);
    }
    n
}

/// Every multiple of a power of two divides the size of the address space.
proof fn lemma_pow2_divides_word(align: usize)
    requires
        is_pow2(align as int),
    ensures
        (usize::MAX + 1) % (align as int) == 0,
{
    let n = lemma_pow2_exponent(align);
    let rest = (usize::BITS - n) as nat;
    lemma2_to64();
    lemma2_to64_rest();
    lemma_pow2_adds(rest, n);
    assert(pow2(usize::BITS as nat) == usize::MAX + 1);
    lemma_mod_multiples_basic(pow2(rest) as int, align as int);
}

/// Clearing the low bits of `value` with the mask of a power of two removes
/// exactly its remainder modulo that power.
proof fn lemma_clear_low_bits(value: usize, align: usize)
    requires
        is_pow2(align as int),
    ensures
        align >= 1,
        (value & !((align - 1) as usize)) == value - value % align,
{
    let n = lemma_pow2_exponent(align);
    lemma_usize_low_bits_mask_is_mod(value, n);
    let mask = (align - 1) as usize;
    assert(low_bits_mask(n) as usize == mask);
    assert(value & mask == value % align);
    assert((value & !mask) == value - (value & mask)) by (bit_vector);
}

/// Rounds `value` up to the next multiple of the power of two `align`, as
/// `(value + align - 1) & !(align - 1)`. `None` means that the rounded value
/// does not fit in `usize`.
pub fn align_up_checked(value: usize, align: usize) -> (r: Option<usize>)
    requires
        is_pow2(align as int),
    ensures
        match r {
            Some(up) => up == align_up(value as int, align as int),
            None => align_up(value as int, align as int) > usize::MAX,
        },
{
    proof {
        lemma_pow2_exponent(align);
        lemma_align_up(value as int, align as int);
    }
    let mask = align - 1;
    match value.checked_add(mask) {
        Some(bumped) => {
            proof {
                lemma_clear_low_bits(bumped, align);
                lemma_bumped_remainder(value as int, align as int);
            }
            Some(bumped & !mask)
        },
        None => {
            proof {
                lemma_pow2_divides_word(align);
                if align_up(value as int, align as int) <= usize::MAX {
                    lemma_multiples_apart(
                        align_up(value as int, align as int),
                        usize::MAX + 1,
                        align as int,
                    );
                }
            }
            None
        },
    }
}

/// Eight is a power of two.
pub proof fn lemma_eight_is_pow2()
    ensures
        is_pow2(8),
{
    reveal_with_fuel(is_pow2, 4);
}

/// What is aligned to a power of two is aligned to every smaller power of two.
pub proof fn lemma_aligned_to_smaller(value: int, small: int, large: int)
    requires
        is_pow2(small),
        is_pow2(large),
        small <= large,
        is_aligned(value, large),
    ensures
        is_aligned(value, small),
        is_aligned(large, small),
{
    is_pow2_equiv(small);
    is_pow2_equiv(large);
    let s = choose|i: nat| pow(2, i) == small;
    let l = choose|i: nat| pow(2, i) == large;
    lemma_pow2(s);
    lemma_pow2(l);
    lemma_pow2_pos(s);
    if l < s {
        lemma_pow2_strictly_increases(l, s);
    }
    let rest = (l - s) as nat;
    lemma_pow2_adds(rest, s);
    lemma_mod_multiples_basic(pow2(rest) as int, small);
    lemma_fundamental_div_mod(value, large);
    let q = value / large;
    assert(value == (q * pow2(rest)) * small) by (nonlinear_arith)
        requires
            value == large * q,
            large == pow2(rest) * small,
    ;
    lemma_mod_multiples_basic(q * pow2(rest), small);
}

/// Two distinct multiples of `align` are at least `align` apart.
pub proof fn lemma_multiples_apart(low: int, high: int, align: int)
    requires
        align > 0,
        is_aligned(low, align),
        is_aligned(high, align),
        low < high,
    ensures
        low + align <= high,
{
    lemma_fundamental_div_mod(low, align);
    lemma_fundamental_div_mod(high, align);
    assert(low + align <= high) by (nonlinear_arith)
        requires
            align > 0,
            low == align * (low / align),
            high == align * (high / align),
            low < high,
    ;
}

/// Removing the remainder of `value + align - 1` gives the rounding of `value`.
proof fn lemma_bumped_remainder(value: int, align: int)
    requires
        align > 0,
    ensures
        (value + align - 1) - (value + align - 1) % align == align_up(value, align),
{
    let bumped = value + align - 1;
    let down = bumped - bumped % align;
    lemma_mod_bound(bumped, align);
    lemma_fundamental_div_mod(bumped, align);
    lemma_mod_multiples_basic(bumped / align, align);
    assert(down == (bumped / align) * align) by (nonlinear_arith)
        requires
            down == bumped - bumped % align,
            bumped == align * (bumped / align) + bumped % align,
    ;
    lemma_align_up(value, align);
    // `down` is a multiple of `align` in (value - 1, value + align - 1], and so is
    // the rounding; two multiples less than `align` apart are equal.
    let up = align_up(value, align);
    lemma_fundamental_div_mod(up, align);
    lemma_fundamental_div_mod(down, align);
    assert(up / align == down / align) by (nonlinear_arith)
        requires
            align > 0,
            up == align * (up / align),
            down == align * (down / align),
            up - down < align,
            down - up < align,
    ;
}

} // verus!
