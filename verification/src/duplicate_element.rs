use vstd::prelude::*;

verus! {

pub struct FirstSolution;

impl FirstSolution {
    /// How many integers of `[max(l, 1), min(r, n)]` exist, the expected
    /// count of a bit-prefix block in a duplicate-free `1..=n`.
    pub fn clamp_count(l: u32, r: u32, n: u32) -> (c: u32)
        ensures
            c as int == (if r == 0 || l > n {
                0int
            } else {
                let lo = if l >= 1 {
                    l as int
                } else {
                    1int
                };
                let hi = if r <= n {
                    r as int
                } else {
                    n as int
                };
                if hi >= lo {
                    hi - lo + 1
                } else {
                    0int
                }
            }),
    {
        if r == 0 || l > n {
            return 0;
        }
        let lo = if l >= 1 {
            l
        } else {
            1
        };
        let hi = if r <= n {
            r
        } else {
            n
        };
        if hi >= lo {
            hi - lo + 1
        } else {
            0
        }
    }

    /// Shift `n` left by one and append `bit`'s low bit.
    pub fn append_bit(n: &u32, bit: u32) -> (r: u32)
        requires
            *n < 0x8000_0000,
        ensures
            r == ((*n as int) * 2 + (bit as int) % 2),
    {
        let m = *n;
        proof {
            assert(((m << 1u32) | (bit & 1u32)) == 2 * m + (bit % 2u32)) by (bit_vector)
                requires
                    m < 0x8000_0000u32,
            ;
        }
        (m << 1) | (bit & 1)
    }

    /// Bit `i` of `n`, reading `n` as unsigned.
    pub fn get_bit(n: &i32, i: &u32) -> (r: u32)
        requires
            *i < 32,
        ensures
            r == 0 || r == 1,
    {
        proof {
            assert((((*n as u32) >> *i) & 1u32) == 0 || (((*n as u32) >> *i) & 1u32) == 1)
                by (bit_vector);
        }
        ((*n as u32) >> *i) & 1
    }

    /// Do the top `bits_p` bits of `n` (in a `bits_n`-bit window) equal
    /// `prefix`?
    pub fn match_prefix(n: &i32, prefix: &u32, bits_p: u32, bits_n: u32) -> (r: bool)
        requires
            bits_p <= bits_n,
            bits_n <= 32,
        ensures
            bits_p == 0 ==> r,
    {
        if bits_p == 0 {
            return true;
        }
        let n_val = *n as u32;
        let n_prefix = n_val >> (bits_n - bits_p);
        n_prefix == *prefix
    }

    /// Find a repeated value of `nums` by counting, for each bit position
    /// from the highest down, how many entries fall in each half of the
    /// current prefix block and following the half holding more entries
    /// than a duplicate-free range would. The chosen bit pattern stays
    /// non-negative and below twice the value range `n = len - 1`; over
    /// inputs drawn from `1..=n` with one value repeated it is that value.
    pub fn find_duplicate(nums: Vec<i32>) -> (r: i32)
        requires
            1 <= nums@.len(),
            nums@.len() <= 0x8000_0000,
        ensures
            0 <= r,
            r as int <= 2 * (nums@.len() - 1),
    {
        let n_u: u64 = (nums.len() as u64) - 1;
        let n: u32 = n_u as u32;
        // bits needed to represent n
        let number_of_bits: u32 = 32 - n.leading_zeros();
        proof {
            vstd::std_specs::bits::axiom_u32_leading_zeros(n);
            let lz = vstd::std_specs::bits::u32_leading_zeros(n);
            if n == 0 {
                assert(lz == 32);
            } else {
                if lz == 0 {
                    assert((n >> 31u32) & 1u32 != 0u32 ==> n >= 0x8000_0000u32) by (bit_vector);
                }
                assert(1 <= lz <= 32);
                // the set bit witnesses that n reaches 2^(bits - 1)
                assert(forall|s: u32|
                    s < 32 && (n >> s) & 1u32 != 0u32 ==> n >= (1u32 << s)) by (bit_vector);
                assert(n >= (1u32 << ((32 - lz) as u32 - 1)));
            }
        }
        assert(number_of_bits <= 31);
        let ghost n_bits: u32 = number_of_bits;
        proof {
            assert(number_of_bits >= 1 ==> n as int >= (1u32 << ((n_bits - 1) as u32)) as int);
            if number_of_bits >= 1 {
                let b: u32 = number_of_bits;
                assert(1 <= b <= 31 ==> (1u64 << (b as u64)) == 2 * ((1u32 << ((b - 1) as u32))
                    as u64)) by (bit_vector);
            }
        }

        let mut prefix_matched: u32 = 0;

        let mut i: u32 = number_of_bits;
        proof {
            assert((1u64 << 0u64) == 1) by (bit_vector);
        }
        while i > 0
            invariant
                i <= number_of_bits,
                number_of_bits <= 32,
                nums@.len() <= 0x8000_0000,
                (prefix_matched as u64) < (1u64 << ((number_of_bits - i) as u64)),
            decreases i,
        {
            let ghost consumed: u64 = (number_of_bits - i) as u64;
            proof {
                assert(consumed <= 31 ==> (1u64 << consumed) <= 0x8000_0000u64) by (bit_vector);
            }
            i = i - 1;
            let mut c_0: u32 = 0;
            let mut c_1: u32 = 0;

            let mut v_idx: usize = 0;
            while v_idx < nums.len()
                invariant
                    v_idx <= nums@.len(),
                    nums@.len() <= 0x8000_0000,
                    c_0 <= v_idx,
                    c_1 <= v_idx,
                    i < number_of_bits,
                    number_of_bits <= 32,
                decreases nums@.len() - v_idx,
            {
                let bits_p = number_of_bits - i - 1;
                let v = nums[v_idx];
                if Self::match_prefix(&v, &prefix_matched, bits_p, number_of_bits) {
                    let b = Self::get_bit(&v, &i);
                    if b == 0 {
                        c_0 = c_0 + 1;
                    } else {
                        c_1 = c_1 + 1;
                    }
                }
                v_idx = v_idx + 1;
            }

            // split the block [base, base + block - 1] at its midpoint and
            // compare each half's count against a duplicate-free range
            let bits_left = i + 1;
            proof {
                assert(((prefix_matched as u64) << (bits_left as u64)) <= 0x7fff_ffff_0000_0000u64
                    && (1u64 << (bits_left as u64)) >= 2 && (1u64 << (bits_left as u64))
                    <= 0x1_0000_0000u64) by (bit_vector)
                    requires
                        prefix_matched < 0x8000_0000u32,
                        1 <= bits_left <= 32u32,
                ;
            }
            let base: u64 = (prefix_matched as u64) << (bits_left as u64);
            let block: u64 = 1u64 << (bits_left as u64);
            let half: u64 = block >> 1u64;
            proof {
                assert(block >> 1u64 == block / 2) by (bit_vector);
            }

            let e0 = Self::clamp_count(
                clamp_u32(base),
                clamp_u32(base + half - 1),
                n,
            );
            let e1 = Self::clamp_count(
                clamp_u32(base + half),
                clamp_u32(base + block - 1),
                n,
            );

            // follow the half with more entries than expected
            let d0: i64 = (c_0 as i64) - (e0 as i64);
            let d1: i64 = (c_1 as i64) - (e1 as i64);
            let next_bit: u32 = if d1 > d0 {
                1
            } else {
                0
            };

            let ghost old_prefix: u64 = prefix_matched as u64;
            prefix_matched = Self::append_bit(&prefix_matched, next_bit);
            proof {
                assert(old_prefix < (1u64 << consumed) && consumed <= 31 ==> 2 * old_prefix + 1
                    < (1u64 << (consumed + 1))) by (bit_vector);
                assert((prefix_matched as u64) <= 2 * old_prefix + 1);
                assert((number_of_bits - i) as u64 == consumed + 1);
            }
        }

        proof {
            if number_of_bits == 0 {
                assert((1u64 << 0u64) == 1) by (bit_vector);
                assert(prefix_matched == 0);
            } else {
                assert((prefix_matched as u64) < (1u64 << (n_bits as u64)));
                assert((1u64 << (n_bits as u64)) == 2 * ((1u32 << ((n_bits - 1) as u32)) as u64));
                assert((prefix_matched as int) < 2 * (n as int) + 2);
                assert((1u64 << (n_bits as u64)) <= 0x8000_0000u64) by (bit_vector)
                    requires
                        n_bits <= 31u32,
                ;
            }
        }
        prefix_matched as i32
    }
}

/// Saturating narrowing from `u64` to `u32`.
fn clamp_u32(x: u64) -> (r: u32)
    ensures
        x <= u32::MAX ==> r as int == x as int,
        x > u32::MAX ==> r == u32::MAX,
{
    if x > u32::MAX as u64 {
        u32::MAX
    } else {
        x as u32
    }
}

} // verus!
