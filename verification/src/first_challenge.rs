use vstd::prelude::*;
use vstd::string::StringSliceAdditionalSpecFns;

verus! {

/// Nesting depth of the prefix of `s` (as UTF-8 bytes): `(` opens a level
/// and `)` closes one; all other bytes are ignored.
pub open spec fn prefix_depth(s: Seq<u8>) -> int
    decreases s.len(),
{
    if s.len() == 0 {
        0
    } else {
        prefix_depth(s.drop_last()) + (if s.last() == 40u8 {
            1int
        } else if s.last() == 41u8 {
            -1int
        } else {
            0int
        })
    }
}

/// The deepest running depth over the non-empty prefixes of `s`.
pub open spec fn max_depth(s: Seq<u8>) -> int
    recommends
        s.len() >= 1,
    decreases s.len(),
{
    if s.len() <= 1 {
        prefix_depth(s)
    } else {
        let rest = max_depth(s.drop_last());
        if rest >= prefix_depth(s) {
            rest
        } else {
            prefix_depth(s)
        }
    }
}

/// The deepest parenthesis nesting reached anywhere in the string; an empty
/// string has depth zero. An unbalanced string may report a negative value,
/// as the running depth itself can go negative.
pub fn max_parenthesis_depth(to_check: &str) -> (r: i32)
    requires
        to_check.spec_bytes().len() <= 0x7fff_ffff,
    ensures
        to_check.spec_bytes().len() == 0 ==> r == 0,
        to_check.spec_bytes().len() >= 1 ==> r as int == max_depth(to_check.spec_bytes()),
{
    let bytes = to_check.as_bytes();
    let n = bytes.len();
    let mut depth: i64 = 0;
    let mut best: i64 = 0;
    let mut i: usize = 0;
    let mut seen: bool = false;
    while i < n
        invariant
            i <= n,
            n == bytes@.len(),
            n <= 0x7fff_ffff,
            depth == prefix_depth(bytes@.subrange(0, i as int)),
            seen == (i > 0),
            i > 0 ==> best == max_depth(bytes@.subrange(0, i as int)),
            i == 0 ==> best == 0,
            -(i as int) <= depth <= i as int,
            -(i as int) <= best <= i as int,
        decreases n - i,
    {
        let b = bytes[i];
        if b == 40 {
            depth = depth + 1;
        } else if b == 41 {
            depth = depth - 1;
        }
        proof {
            assert(bytes@.subrange(0, i as int + 1).drop_last() =~= bytes@.subrange(0, i as int));
        }
        if !seen || depth > best {
            best = depth;
        }
        seen = true;
        i = i + 1;
    }
    proof {
        assert(bytes@.subrange(0, n as int) =~= bytes@);
    }
    best as i32
}

/// `s.len() + sum of (i - s[i])`: over a permutation of `{0, ..., len}`
/// with one element left out, this telescopes to the missing element.
pub open spec fn index_gap_sum(s: Seq<i32>) -> int
    decreases s.len(),
{
    if s.len() == 0 {
        0
    } else {
        index_gap_sum(s.drop_last()) + (s.len() - 1 - s.last())
    }
}

/// The missing element of a permutation of `{0, ..., len}` from which one
/// element was removed, computed by the telescoping sum.
pub fn missing_number(perm: &[i32]) -> (r: i32)
    requires
        perm@.len() <= 0x4000_0000,
        i32::MIN <= perm@.len() + index_gap_sum(perm@) <= i32::MAX,
    ensures
        r as int == perm@.len() + index_gap_sum(perm@),
{
    let n = perm.len();
    let mut acc: i64 = n as i64;
    let mut i: usize = 0;
    while i < n
        invariant
            i <= n,
            n == perm@.len(),
            n <= 0x4000_0000,
            acc == n + index_gap_sum(perm@.subrange(0, i as int)),
            -(n as int) - (i as int) * 0x1_0000_0000 <= acc <= n + (i as int) * 0x1_0000_0000,
        decreases n - i,
    {
        proof {
            assert(perm@.subrange(0, i as int + 1).drop_last() =~= perm@.subrange(0, i as int));
        }
        acc = acc + (i as i64) - (perm[i] as i64);
        i = i + 1;
    }
    proof {
        assert(perm@.subrange(0, n as int) =~= perm@);
    }
    acc as i32
}

} // verus!
