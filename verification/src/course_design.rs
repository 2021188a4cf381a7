use vstd::prelude::*;
use crate::lis::sorted_u32;
use crate::lis::lower_bound;

verus! {

/// A course topic: how pleasant it is and how hard it is.
#[derive(Debug, Clone, Copy, PartialEq, Eq, Structural)]
pub struct Topic {
    pub beauty: u32,
    pub difficulty: u32,
}

impl Topic {
    pub fn new(b: u32, d: u32) -> (t: Topic)
        ensures
            t.beauty == b,
            t.difficulty == d,
    {
        Self { beauty: b, difficulty: d }
    }
}

/// The sort order used before the scan: by difficulty ascending and, for
/// equal difficulties, by beauty descending, so that two topics of equal
/// difficulty can never both join an increasing chain.
pub open spec fn topic_le(a: Topic, b: Topic) -> bool {
    a.difficulty < b.difficulty || (a.difficulty == b.difficulty && a.beauty >= b.beauty)
}

pub open spec fn topics_sorted(s: Seq<Topic>) -> bool {
    forall|i: int, j: int| 0 <= i < j < s.len() ==> topic_le(s[i], s[j])
}

/// Longest strictly increasing subsequence of `nums` by the patience scan.
pub fn length_of_lis(nums: &[u32]) -> (r: u32)
    requires
        nums@.len() <= 0xffff_ffff,
    ensures
        r <= nums@.len(),
        nums@.len() >= 1 ==> r >= 1,
{
    let mut dominant: Vec<u32> = Vec::new();
    let n = nums.len();
    let mut i: usize = 0;
    while i < n
        invariant
            i <= n,
            n == nums@.len(),
            sorted_u32(dominant@),
            dominant@.len() <= i,
            i >= 1 ==> dominant@.len() >= 1,
        decreases n - i,
    {
        let num = nums[i];
        let p = lower_bound(&dominant, num);
        if p == dominant.len() {
            dominant.push(num);
        } else {
            dominant.set(p, num);
            proof {
                assert forall|a: int, b: int|
                    0 <= a < b < dominant@.len() implies dominant@[a] < dominant@[b] by {}
            }
        }
        i = i + 1;
    }
    dominant.len() as u32
}

/// The longest course whose topics grow strictly in both difficulty and
/// beauty: sort by difficulty (beauty descending on ties) and take the
/// longest strictly increasing beauty subsequence. The result never
/// exceeds the number of topics.
pub fn design_course(topics: &[Topic]) -> (r: u32)
    requires
        topics@.len() <= 0xffff_ffff,
    ensures
        r <= topics@.len(),
        topics@.len() >= 1 ==> r >= 1,
{
    let n = topics.len();
    // insertion sort by the tie-breaking order
    let mut local_topic: Vec<Topic> = Vec::new();
    let mut i: usize = 0;
    while i < n
        invariant
            i <= n,
            n == topics@.len(),
            local_topic@.len() == i,
            topics_sorted(local_topic@),
        decreases n - i,
    {
        let t = topics[i];
        let mut pos: usize = local_topic.len();
        while pos > 0 && !(local_topic[pos - 1].difficulty < t.difficulty || (local_topic[pos
            - 1].difficulty == t.difficulty && local_topic[pos - 1].beauty >= t.beauty))
            invariant
                pos <= local_topic@.len(),
                topics_sorted(local_topic@),
                forall|k: int|
                    pos <= k < local_topic@.len() ==> !topic_le(#[trigger] local_topic@[k], t),
            decreases pos,
        {
            pos = pos - 1;
        }
        let ghost before = local_topic@;
        proof {
            assert(pos > 0 ==> topic_le(before[pos as int - 1], t));
        }
        local_topic.insert(pos, t);
        proof {
            let after = local_topic@;
            let p = pos as int;
            assert forall|a: int, b: int|
                0 <= a < b < after.len() implies topic_le(after[a], after[b]) by {
                if b < p {
                    assert(after[a] == before[a] && after[b] == before[b]);
                } else if a > p {
                    assert(after[a] == before[a - 1] && after[b] == before[b - 1]);
                } else if a < p && b == p {
                    assert(after[a] == before[a] && after[b] == t);
                    assert(topic_le(before[p - 1], t));
                    if a < p - 1 {
                        assert(topic_le(before[a], before[p - 1]));
                    }
                } else if a < p && b > p {
                    assert(after[a] == before[a] && after[b] == before[b - 1]);
                } else {
                    // a == p
                    assert(after[a] == t && after[b] == before[b - 1]);
                    assert(!topic_le(before[b - 1], t));
                }
            }
        }
        i = i + 1;
    }
    // scan the beauties for the longest strictly increasing subsequence
    let mut beauties: Vec<u32> = Vec::new();
    let mut j: usize = 0;
    while j < n
        invariant
            j <= n,
            n == local_topic@.len(),
            beauties@.len() == j,
        decreases n - j,
    {
        beauties.push(local_topic[j].beauty);
        j = j + 1;
    }
    length_of_lis(beauties.as_slice())
}

} // verus!
