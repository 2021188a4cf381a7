use vstd::prelude::*;
use vstd::string::StringSliceAdditionalSpecFns;
use vstd::string::is_ascii;
use vstd::string::is_ascii_spec_bytes;
use vstd::utf8::is_ascii_chars;

verus! {

/// The bytes of an ASCII character sequence.
pub open spec fn ascii_bytes(s: Seq<char>) -> Seq<u8> {
    Seq::new(s.len(), |i: int| s[i] as u8)
}

/// Length of the longest common subsequence of two byte sequences.
pub open spec fn lcs_len(a: Seq<u8>, b: Seq<u8>) -> int
    decreases a.len() + b.len(),
{
    if a.len() == 0 || b.len() == 0 {
        0
    } else if a.last() == b.last() {
        1 + lcs_len(a.drop_last(), b.drop_last())
    } else {
        let x = lcs_len(a.drop_last(), b);
        let y = lcs_len(a, b.drop_last());
        if x >= y {
            x
        } else {
            y
        }
    }
}

proof fn lemma_lcs_comm(a: Seq<u8>, b: Seq<u8>)
    ensures
        lcs_len(a, b) == lcs_len(b, a),
    decreases a.len() + b.len(),
{
    if a.len() == 0 || b.len() == 0 {
    } else if a.last() == b.last() {
        lemma_lcs_comm(a.drop_last(), b.drop_last());
    } else {
        lemma_lcs_comm(a.drop_last(), b);
        lemma_lcs_comm(a, b.drop_last());
    }
}

proof fn lemma_lcs_bounds(a: Seq<u8>, b: Seq<u8>)
    ensures
        0 <= lcs_len(a, b) <= a.len(),
        lcs_len(a, b) <= b.len(),
    decreases a.len() + b.len(),
{
    if a.len() == 0 || b.len() == 0 {
    } else if a.last() == b.last() {
        lemma_lcs_bounds(a.drop_last(), b.drop_last());
    } else {
        lemma_lcs_bounds(a.drop_last(), b);
        lemma_lcs_bounds(a, b.drop_last());
    }
}

pub struct Solution;

impl Solution {
    /// Longest common subsequence of the two strings, working over their
    /// UTF-8 bytes, with a two-row table over the shorter string.
    pub fn longest_common_subsequence(text1: String, text2: String) -> (r: i32)
        requires
            text1@.len() <= 0x7fff_ffff,
            text2@.len() <= 0x7fff_ffff,
            is_ascii_chars(text1@),
            is_ascii_chars(text2@),
        ensures
            r as int == lcs_len(ascii_bytes(text1@), ascii_bytes(text2@)),
    {
        proof {
            broadcast use is_ascii_spec_bytes;
        }
        let swap_inputs = text1.as_str().as_bytes().len() > text2.as_str().as_bytes().len();
        let (shorter, longer) = if swap_inputs {
            (text2, text1)
        } else {
            (text1, text2)
        };
        let shorter_str = shorter.as_str();
        let longer_str = longer.as_str();
        let s = shorter_str.as_bytes();
        let l = longer_str.as_bytes();
        proof {
            assert(is_ascii(shorter_str) && is_ascii(longer_str));
            assert(s@ =~= ascii_bytes(shorter@));
            assert(l@ =~= ascii_bytes(longer@));
        }
        let sn = s.len();
        let ln = l.len();
        let mut curr_r: Vec<i32> = Vec::new();
        let mut prev_r: Vec<i32> = Vec::new();
        let mut k: usize = 0;
        while k < sn + 1
            invariant
                k <= sn + 1,
                sn == s@.len(),
                sn <= 0x7fff_ffff,
                curr_r@.len() == k,
                prev_r@.len() == k,
                forall|q: int| 0 <= q < k ==> #[trigger] prev_r@[q] == 0i32,
            decreases sn + 1 - k,
        {
            curr_r.push(0);
            prev_r.push(0);
            k = k + 1;
        }
        proof {
            assert(forall|q: int|
                0 <= q < sn + 1 ==> #[trigger] prev_r@[q] as int == lcs_len(
                    l@.subrange(0, 0),
                    s@.subrange(0, q),
                ));
        }
        let mut ri: usize = 0;
        while ri < ln
            invariant
                ri <= ln,
                ln == l@.len(),
                sn == s@.len(),
                sn <= 0x7fff_ffff,
                curr_r@.len() == sn + 1,
                prev_r@.len() == sn + 1,
                forall|q: int|
                    0 <= q < sn + 1 ==> #[trigger] prev_r@[q] as int == lcs_len(
                        l@.subrange(0, ri as int),
                        s@.subrange(0, q),
                    ),
            decreases ln - ri,
        {
            let mut ci: usize = 0;
            curr_r.set(0, 0);
            proof {
                assert(lcs_len(l@.subrange(0, ri as int + 1), s@.subrange(0, 0)) == 0);
            }
            while ci < sn
                invariant
                    ci <= sn,
                    ri < ln,
                    ln == l@.len(),
                    sn == s@.len(),
                    sn <= 0x7fff_ffff,
                    curr_r@.len() == sn + 1,
                    prev_r@.len() == sn + 1,
                    forall|q: int|
                        0 <= q < sn + 1 ==> #[trigger] prev_r@[q] as int == lcs_len(
                            l@.subrange(0, ri as int),
                            s@.subrange(0, q),
                        ),
                    forall|q: int|
                        0 <= q < ci + 1 ==> #[trigger] curr_r@[q] as int == lcs_len(
                            l@.subrange(0, ri as int + 1),
                            s@.subrange(0, q),
                        ),
                decreases sn - ci,
            {
                let c_index = ci + 1;
                let ghost la = l@.subrange(0, ri as int + 1);
                let ghost sa = s@.subrange(0, c_index as int);
                proof {
                    lemma_lcs_bounds(la, sa);
                    lemma_lcs_bounds(la.drop_last(), sa.drop_last());
                    lemma_lcs_bounds(la.drop_last(), sa);
                    lemma_lcs_bounds(la, sa.drop_last());
                    assert(la.drop_last() =~= l@.subrange(0, ri as int));
                    assert(sa.drop_last() =~= s@.subrange(0, ci as int));
                    assert(la.last() == l@[ri as int] && sa.last() == s@[ci as int]);
                }
                let v: i32 = if s[ci] == l[ri] {
                    prev_r[c_index - 1] + 1
                } else {
                    let a = curr_r[c_index - 1];
                    let b = prev_r[c_index];
                    if a >= b {
                        a
                    } else {
                        b
                    }
                };
                curr_r.set(c_index, v);
                ci = ci + 1;
            }
            std::mem::swap(&mut curr_r, &mut prev_r);
            ri = ri + 1;
        }
        let r = prev_r[sn];
        proof {
            assert(l@.subrange(0, ln as int) =~= l@);
            assert(s@.subrange(0, sn as int) =~= s@);
            lemma_lcs_comm(l@, s@);
            assert(lcs_len(s@, l@) == r as int);
        }
        r
    }
}

} // verus!
