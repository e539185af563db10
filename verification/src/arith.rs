//! Two's-complement views of machine integers.
use vstd::arithmetic::div_mod::lemma_fundamental_div_mod;
use vstd::arithmetic::div_mod::lemma_mod_multiples_vanish;
use vstd::prelude::*;

verus! {

/// Number of values of the machine word.
pub open spec fn word() -> int {
    usize::MAX + 1
}

/// The `usize` that has the same low bits as `x`.
pub open spec fn wrap_usize(x: int) -> int {
    if 0 <= x <= usize::MAX {
        x
    } else {
        x % word()
    }
}

/// The `isize` that has the same low bits as `x`.
pub open spec fn wrap_isize(x: int) -> int {
    if fits_isize(x) {
        x
    } else {
        (x - isize::MIN) % word() + isize::MIN
    }
}

/// `x` is the value of some `isize`.
pub open spec fn fits_isize(x: int) -> bool {
    isize::MIN <= x <= isize::MAX
}

/// A value that fits is left alone.
pub proof fn lemma_wrap_isize_fits(x: int)
    ensures
        fits_isize(wrap_isize(x)),
        fits_isize(x) ==> wrap_isize(x) == x,
{
    assert(0 <= (x - isize::MIN) % word() < word()) by (nonlinear_arith)
        requires
            word() > 0,
    ;
}

/// A value that fits is left alone.
pub proof fn lemma_wrap_usize_fits(x: int)
    ensures
        0 <= wrap_usize(x) <= usize::MAX,
        0 <= x <= usize::MAX ==> wrap_usize(x) == x,
{
    assert(0 <= x % word() < word()) by (nonlinear_arith)
        requires
            word() > 0,
    ;
}

/// Wrapping is taking the remainder, also of a value that fits.
proof fn lemma_wrap_is_remainder(x: int)
    ensures
        wrap_isize(x) == (x - isize::MIN) % word() + isize::MIN,
        wrap_usize(x) == x % word(),
{
    if fits_isize(x) {
        assert((x - isize::MIN) % word() == x - isize::MIN) by (nonlinear_arith)
            requires
                0 <= x - isize::MIN < word(),
        ;
    }
    if 0 <= x <= usize::MAX {
        assert(x % word() == x) by (nonlinear_arith)
            requires
                0 <= x < word(),
        ;
    }
}

proof fn lemma_shift(x: int, k: int)
    ensures
        wrap_isize(x + k * word()) == wrap_isize(x),
        wrap_usize(x + k * word()) == wrap_usize(x),
{
    lemma_wrap_is_remainder(x);
    lemma_wrap_is_remainder(x + k * word());
    lemma_mod_multiples_vanish(k, x - isize::MIN, word());
    lemma_mod_multiples_vanish(k, x, word());
    assert(k * word() == word() * k) by (nonlinear_arith);
    assert(x + k * word() - isize::MIN == word() * k + (x - isize::MIN));
}

/// `wrap_isize` differs from its argument by a whole number of words.
proof fn lemma_wrap_isize_multiple(x: int) -> (k: int)
    ensures
        x == wrap_isize(x) + k * word(),
{
    lemma_wrap_is_remainder(x);
    lemma_fundamental_div_mod(x - isize::MIN, word());
    let k = (x - isize::MIN) / word();
    assert(k * word() == word() * k) by (nonlinear_arith);
    k
}

/// Wrapping an operand first does not change the wrapped sum.
pub proof fn lemma_wrap_isize_absorb(a: int, b: int)
    ensures
        wrap_isize(wrap_isize(a) + b) == wrap_isize(a + b),
        wrap_isize(b + wrap_isize(a)) == wrap_isize(a + b),
        wrap_isize(b - wrap_isize(a)) == wrap_isize(b - a),
        wrap_usize(wrap_isize(a)) == wrap_usize(a),
        wrap_isize(wrap_usize(a)) == wrap_isize(a),
        wrap_isize(wrap_usize(a) + b) == wrap_isize(a + b),
{
    lemma_wrap_is_remainder(a);
    let k = lemma_wrap_isize_multiple(a);
    lemma_shift(wrap_isize(a) + b, k);
    lemma_shift(b - wrap_isize(a), -k);
    assert((-k) * word() == -(k * word())) by (nonlinear_arith);
    lemma_shift(wrap_isize(a), k);
    lemma_fundamental_div_mod(a, word());
    let m = a / word();
    assert(m * word() == word() * m) by (nonlinear_arith);
    lemma_shift(wrap_usize(a), m);
    lemma_shift(wrap_usize(a) + b, m);
}

/// Wrapping an operand first does not change the wrapped sum.
pub proof fn lemma_wrap_usize_absorb(a: int, b: int)
    ensures
        wrap_usize(wrap_usize(a) + b) == wrap_usize(a + b),
{
    lemma_wrap_is_remainder(a);
    lemma_fundamental_div_mod(a, word());
    let m = a / word();
    assert(m * word() == word() * m) by (nonlinear_arith);
    lemma_shift(wrap_usize(a) + b, m);
}

/// Reinterprets the bits of `x`.
pub fn to_isize(x: usize) -> (r: isize)
    ensures
        r == wrap_isize(x as int),
{
    proof {
        lemma_wrap_isize_fits(x as int);
        lemma_shift(x - word(), 1);
        lemma_wrap_isize_fits(x - word());
        assert(1 * word() == word());
    }
    if x <= isize::MAX as usize {
        x as isize
    } else {
        -((usize::MAX - x) as isize) - 1
    }
}

/// Reinterprets the bits of `x`.
pub fn to_usize(x: isize) -> (r: usize)
    ensures
        r == wrap_usize(x as int),
{
    proof {
        lemma_wrap_usize_fits(x as int);
        lemma_shift(x as int, 1);
        lemma_wrap_usize_fits(x + word());
        assert(1 * word() == word());
    }
    if x >= 0 {
        x as usize
    } else {
        usize::MAX - (-(x + 1)) as usize
    }
}

/// Wrapping addition.
pub fn add_isize(a: isize, b: isize) -> (r: isize)
    ensures
        r == wrap_isize(a + b),
{
    proof {
        lemma_wrap_isize_fits(a + b);
        lemma_wrap_isize_fits(a + b - word());
        lemma_wrap_isize_fits(a + b + word());
        lemma_shift(a + b, 1);
        lemma_shift(a + b, -1);
        assert(1 * word() == word());
        assert((-1) * word() == -word());
    }
    a.wrapping_add(b)
}

/// Wrapping subtraction.
pub fn sub_isize(a: isize, b: isize) -> (r: isize)
    ensures
        r == wrap_isize(a - b),
{
    proof {
        lemma_wrap_isize_fits(a - b);
        lemma_wrap_isize_fits(a - b - word());
        lemma_wrap_isize_fits(a - b + word());
        lemma_shift(a - b, 1);
        lemma_shift(a - b, -1);
        assert(1 * word() == word());
        assert((-1) * word() == -word());
    }
    a.wrapping_sub(b)
}

/// The wrapped difference of two words.
pub fn difference(a: usize, b: usize) -> (r: isize)
    ensures
        r == wrap_isize(a - b),
{
    proof {
        lemma_wrap_isize_absorb(a as int, -wrap_isize(b as int));
        lemma_wrap_isize_absorb(b as int, a as int);
    }
    sub_isize(to_isize(a), to_isize(b))
}

} // verus!
