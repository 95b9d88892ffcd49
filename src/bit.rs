//! Getting, setting and counting bits in bytes and byte arrays.
//!
//! Bits are packed most-significant first: bit 0 of an array is the high bit
//! of its first byte, bit 8 the high bit of its second byte, and so on.
use vstd::prelude::*;

use crate::error::DBError;

verus! {

/// The value of a single bit.
#[derive(Debug, Clone, Copy, PartialEq, Eq, Structural)]
pub enum Bit {
    Zero,
    One,
}

/// The `Bit` that stands for a boolean.
pub open spec fn bit_of(b: bool) -> Bit {
    if b {
        Bit::One
    } else {
        Bit::Zero
    }
}

/// Bit `i` of byte `b`, where bit 0 is the most significant one.
pub open spec fn byte_bit(b: u8, i: u32) -> bool {
    (b >> ((7 - i) as u8)) & 1u8 == 1u8
}

/// Byte `b` with bit `i` (bit 0 the most significant) set to `x`.
pub open spec fn with_byte_bit(b: u8, i: u32, x: bool) -> u8 {
    let mask = 1u8 << ((7 - i) as u8);
    if x {
        b | mask
    } else {
        b & !mask
    }
}

/// Bit `i` of the byte array `s`.
pub open spec fn bit_at(s: Seq<u8>, i: int) -> bool {
    byte_bit(s[i / 8], (i % 8) as u32)
}

/// `s` with bit `i` set to `x`.
pub open spec fn with_bit(s: Seq<u8>, i: int, x: bool) -> Seq<u8> {
    s.update(i / 8, with_byte_bit(s[i / 8], (i % 8) as u32, x))
}

/// 1 for a set bit, 0 for a clear one.
pub open spec fn one_if(b: bool) -> nat {
    if b {
        1
    } else {
        0
    }
}

/// Number of set bits among bits `0 .. n` of a byte.
pub open spec fn byte_ones_below(b: u8, n: u32) -> nat
    decreases n,
{
    if n == 0 {
        0
    } else {
        byte_ones_below(b, (n - 1) as u32) + one_if(byte_bit(b, (n - 1) as u32))
    }
}

/// Number of set bits in one byte.
pub open spec fn byte_ones(b: u8) -> nat {
    byte_ones_below(b, 8)
}

/// Number of set bits in a byte array: the sum of the bytes' counts.
pub open spec fn popcount(s: Seq<u8>) -> nat
    decreases s.len(),
{
    if s.len() == 0 {
        0
    } else {
        popcount(s.drop_last()) + byte_ones(s.last())
    }
}

/// Relies on `u8::count_ones`: the number of ones in the binary
/// representation of the byte.
#[verifier::external_body]
fn u8_count_ones(b: u8) -> (r: u32)
    ensures
        r == byte_ones(b),
{
    b.count_ones()
}

proof fn lemma_byte_ones_below_le(b: u8, n: u32)
    ensures
        byte_ones_below(b, n) <= n,
    decreases n,
{
    if n > 0 {
        lemma_byte_ones_below_le(b, (n - 1) as u32);
    }
}

pub proof fn lemma_byte_ones_le_8(b: u8)
    ensures
        byte_ones(b) <= 8,
{
    lemma_byte_ones_below_le(b, 8);
}

pub proof fn lemma_popcount_le(s: Seq<u8>)
    ensures
        popcount(s) <= 8 * s.len(),
    decreases s.len(),
{
    if s.len() > 0 {
        lemma_popcount_le(s.drop_last());
        lemma_byte_ones_le_8(s.last());
    }
}

/// Setting bit `i` of a byte to `x` makes bit `i` read `x` and leaves the
/// other seven bits as they were.
pub proof fn lemma_with_byte_bit(b: u8, i: u32, x: bool)
    requires
        i < 8,
    ensures
        forall|j: u32|
            j < 8 ==> #[trigger] byte_bit(with_byte_bit(b, i, x), j) == if j == i {
                x
            } else {
                byte_bit(b, j)
            },
{
    assert forall|j: u32| j < 8 implies #[trigger] byte_bit(with_byte_bit(b, i, x), j) == if j
        == i {
        x
    } else {
        byte_bit(b, j)
    } by {
        if x {
            assert(((b | (1u8 << ((7 - i) as u8))) >> ((7 - j) as u8)) & 1u8 == 1u8 <==> if j
                == i {
                true
            } else {
                (b >> ((7 - j) as u8)) & 1u8 == 1u8
            }) by (bit_vector)
                requires
                    i < 8,
                    j < 8,
            ;
        } else {
            assert(((b & !(1u8 << ((7 - i) as u8))) >> ((7 - j) as u8)) & 1u8 == 1u8 <==> if j
                == i {
                false
            } else {
                (b >> ((7 - j) as u8)) & 1u8 == 1u8
            }) by (bit_vector)
                requires
                    i < 8,
                    j < 8,
            ;
        }
    }
}

proof fn lemma_byte_ones_below_with_byte_bit(b: u8, i: u32, x: bool, n: u32)
    requires
        i < 8,
        n <= 8,
    ensures
        byte_ones_below(with_byte_bit(b, i, x), n) + (if i < n {
            one_if(byte_bit(b, i))
        } else {
            0
        }) == byte_ones_below(b, n) + (if i < n {
            one_if(x)
        } else {
            0
        }),
    decreases n,
{
    if n > 0 {
        lemma_with_byte_bit(b, i, x);
        lemma_byte_ones_below_with_byte_bit(b, i, x, (n - 1) as u32);
    }
}

/// Setting a bit of a byte changes its count of ones by the change of that
/// bit alone.
pub proof fn lemma_byte_ones_with_byte_bit(b: u8, i: u32, x: bool)
    requires
        i < 8,
    ensures
        byte_ones(with_byte_bit(b, i, x)) + one_if(byte_bit(b, i)) == byte_ones(b) + one_if(x),
{
    lemma_byte_ones_below_with_byte_bit(b, i, x, 8);
}

/// Replacing one byte of an array changes the array's count of ones by the
/// change of that byte's count.
pub proof fn lemma_popcount_update(s: Seq<u8>, k: int, nb: u8)
    requires
        0 <= k < s.len(),
    ensures
        popcount(s.update(k, nb)) + byte_ones(s[k]) == popcount(s) + byte_ones(nb),
    decreases s.len(),
{
    let t = s.update(k, nb);
    if k == s.len() - 1 {
        assert(t.drop_last() =~= s.drop_last());
    } else {
        lemma_popcount_update(s.drop_last(), k, nb);
        assert(t.drop_last() =~= s.drop_last().update(k, nb));
    }
}

/// After setting bit `i` of `s` to `x`, bit `i` reads `x` and every other bit
/// reads as before.
pub proof fn lemma_set_then_get(s: Seq<u8>, i: int, x: bool)
    requires
        0 <= i < 8 * s.len(),
    ensures
        with_bit(s, i, x).len() == s.len(),
        bit_at(with_bit(s, i, x), i) == x,
        forall|j: int|
            0 <= j < 8 * s.len() && j != i ==> #[trigger] bit_at(with_bit(s, i, x), j) == bit_at(
                s,
                j,
            ),
{
    lemma_with_byte_bit(s[i / 8], (i % 8) as u32, x);
    assert forall|j: int| 0 <= j < 8 * s.len() && j != i implies #[trigger] bit_at(
        with_bit(s, i, x),
        j,
    ) == bit_at(s, j) by {
        if j / 8 == i / 8 {
            assert((j % 8) as u32 != (i % 8) as u32);
        }
    }
}

/// `count_ones` after `set_bit(s, i, x)` is `count_ones` before, less the
/// old value of bit `i`, plus `x`: the count, which `count_ones` returns as
/// the sum of the bytes' counts, follows every `set_bit` one bit at a time.
pub proof fn lemma_popcount_with_bit(s: Seq<u8>, i: int, x: bool)
    requires
        0 <= i < 8 * s.len(),
    ensures
        popcount(with_bit(s, i, x)) + one_if(bit_at(s, i)) == popcount(s) + one_if(x),
{
    lemma_byte_ones_with_byte_bit(s[i / 8], (i % 8) as u32, x);
    lemma_popcount_update(s, i / 8, with_byte_bit(s[i / 8], (i % 8) as u32, x));
}

/// Number of set bits among bits `0 .. n` of the byte array `s`.
pub open spec fn ones_below(s: Seq<u8>, n: int) -> nat
    decreases n,
{
    if n <= 0 {
        0
    } else {
        ones_below(s, n - 1) + one_if(bit_at(s, n - 1))
    }
}

pub proof fn lemma_ones_below_le(s: Seq<u8>, n: int)
    requires
        0 <= n,
    ensures
        ones_below(s, n) <= n,
    decreases n,
{
    if n > 0 {
        lemma_ones_below_le(s, n - 1);
    }
}

/// Two arrays that agree on bits `0 .. n` have as many set bits there.
pub proof fn lemma_ones_below_same_bits(s: Seq<u8>, t: Seq<u8>, n: int)
    requires
        forall|j: int| 0 <= j < n ==> bit_at(s, j) == bit_at(t, j),
    ensures
        ones_below(s, n) == ones_below(t, n),
    decreases n,
{
    if n > 0 {
        lemma_ones_below_same_bits(s, t, n - 1);
    }
}

/// Where bits `m .. n` are clear, bits `0 .. n` hold as many ones as bits
/// `0 .. m`.
pub proof fn lemma_ones_below_clear_tail(s: Seq<u8>, m: int, n: int)
    requires
        0 <= m <= n,
        forall|j: int| m <= j < n ==> !bit_at(s, j),
    ensures
        ones_below(s, n) == ones_below(s, m),
    decreases n - m,
{
    if n > m {
        lemma_ones_below_clear_tail(s, m, n - 1);
    }
}

/// Bits `0 .. n` are all set exactly when they hold `n` ones.
pub proof fn lemma_ones_below_all_set(s: Seq<u8>, n: int)
    requires
        0 <= n,
    ensures
        (forall|j: int| 0 <= j < n ==> bit_at(s, j)) <==> ones_below(s, n) == n,
    decreases n,
{
    if n > 0 {
        lemma_ones_below_all_set(s, n - 1);
        lemma_ones_below_le(s, n - 1);
        if ones_below(s, n) == n {
            assert forall|j: int| 0 <= j < n implies bit_at(s, j) by {
                if j < n - 1 {
                    assert(ones_below(s, n - 1) == n - 1);
                }
            }
        }
    }
}

proof fn lemma_ones_below_last_byte(s: Seq<u8>, m: int, k: u32)
    requires
        0 <= m < s.len(),
        k <= 8,
    ensures
        ones_below(s, 8 * m + k) == ones_below(s, 8 * m) + byte_ones_below(s[m], k),
    decreases k,
{
    if k > 0 {
        lemma_ones_below_last_byte(s, m, (k - 1) as u32);
        vstd::arithmetic::div_mod::lemma_fundamental_div_mod_converse(
            8 * m + k - 1,
            8,
            m,
            k - 1,
        );
    }
}

/// The count of ones of an array is the number of its set bits.
pub proof fn lemma_popcount_is_ones_below(s: Seq<u8>)
    ensures
        popcount(s) == ones_below(s, 8 * s.len() as int),
    decreases s.len(),
{
    if s.len() > 0 {
        let t = s.drop_last();
        let m = t.len() as int;
        lemma_popcount_is_ones_below(t);
        assert forall|j: int| 0 <= j < 8 * m implies bit_at(s, j) == bit_at(t, j) by {
            vstd::arithmetic::div_mod::lemma_fundamental_div_mod(j, 8);
        }
        lemma_ones_below_same_bits(s, t, 8 * m);
        lemma_ones_below_last_byte(s, m, 8);
    }
}

impl Bit {
    /// Gets bit `i` of a byte array, bit 0 being the most significant bit of
    /// the first byte.
    pub fn get_bit(v: &[u8], i: u32) -> (r: Result<Bit, DBError>)
        ensures
            (i as int) < 8 * v@.len() ==> r == Ok::<Bit, DBError>(bit_of(bit_at(v@, i as int))),
            (i as int) >= 8 * v@.len() ==> r == Err::<Bit, DBError>(DBError::IllegalArgument),
    {
        if (i / 8) as usize >= v.len() {
            Err(DBError::IllegalArgument)
        } else {
            Bit::get_bit_u8(&v[(i / 8) as usize], i % 8)
        }
    }

    /// Gets bit `i` of a byte, bit 0 being the most significant one.
    pub fn get_bit_u8(v: &u8, i: u32) -> (r: Result<Bit, DBError>)
        ensures
            i < 8 ==> r == Ok::<Bit, DBError>(bit_of(byte_bit(*v, i))),
            i >= 8 ==> r == Err::<Bit, DBError>(DBError::IllegalArgument),
    {
        if i >= 8 {
            Err(DBError::IllegalArgument)
        } else {
            let b = (*v >> ((7 - i) as u8)) & 1u8;
            if b == 0 {
                Ok(Bit::Zero)
            } else {
                proof {
                    let x = *v;
                    let s = (7 - i) as u8;
                    assert((x >> s) & 1u8 != 0u8 ==> (x >> s) & 1u8 == 1u8) by (bit_vector);
                }
                Ok(Bit::One)
            }
        }
    }

    /// Sets bit `i` of a byte array, bit 0 being the most significant bit of
    /// the first byte. The other bits are left as they were.
    pub fn set_bit(v: &mut [u8], i: u32, bit: Bit) -> (r: Result<(), DBError>)
        ensures
            (i as int) < 8 * old(v)@.len() ==> r == Ok::<(), DBError>(()) && final(v)@ == with_bit(
                old(v)@,
                i as int,
                bit == Bit::One,
            ),
            (i as int) >= 8 * old(v)@.len() ==> r == Err::<(), DBError>(DBError::IllegalArgument)
                && final(v)@ == old(v)@,
    {
        if (i / 8) as usize >= v.len() {
            Err(DBError::IllegalArgument)
        } else {
            let k = (i / 8) as usize;
            match Bit::set_bit_u8(&v[k], i % 8, bit) {
                Ok(b) => {
                    v[k] = b;
                    Ok(())
                },
                Err(e) => Err(e),
            }
        }
    }

    /// Sets bit `i` of a byte, bit 0 being the most significant one, and
    /// returns the new byte.
    pub fn set_bit_u8(v: &u8, i: u32, bit: Bit) -> (r: Result<u8, DBError>)
        ensures
            i < 8 ==> r == Ok::<u8, DBError>(with_byte_bit(*v, i, bit == Bit::One)),
            i >= 8 ==> r == Err::<u8, DBError>(DBError::IllegalArgument),
    {
        if i >= 8 {
            Err(DBError::IllegalArgument)
        } else {
            let mask = 1u8 << ((7 - i) as u8);
            match bit {
                Bit::Zero => Ok(*v & !mask),
                Bit::One => Ok(*v | mask),
            }
        }
    }

    /// Counts the set bits of a byte array.
    pub fn count_ones(v: &[u8]) -> (r: u32)
        requires
            8 * v@.len() <= u32::MAX,
        ensures
            r == popcount(v@),
    {
        let mut total: u32 = 0;
        let mut k: usize = 0;
        while k < v.len()
            invariant
                k <= v@.len(),
                8 * v@.len() <= u32::MAX,
                total == popcount(v@.subrange(0, k as int)),
            decreases v@.len() - k,
        {
            proof {
                let s = v@.subrange(0, k as int + 1);
                assert(s.drop_last() =~= v@.subrange(0, k as int));
                lemma_popcount_le(v@.subrange(0, k as int));
                lemma_byte_ones_le_8(v@[k as int]);
            }
            total = total + Bit::count_ones_u8(&v[k]);
            k = k + 1;
        }
        assert(v@.subrange(0, v@.len() as int) =~= v@);
        total
    }

    /// Counts the set bits of a byte.
    pub fn count_ones_u8(v: &u8) -> (r: u32)
        ensures
            r == byte_ones(*v),
    {
        u8_count_ones(*v)
    }
}

} // verus!
