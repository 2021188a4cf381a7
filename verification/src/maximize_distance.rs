use vstd::prelude::*;

verus! {

/// The indices of the occupied seats, in order.
pub open spec fn occ(s: Seq<i32>) -> Seq<int>
    decreases s.len(),
{
    if s.len() == 0 {
        Seq::empty()
    } else if s.last() != 0 {
        occ(s.drop_last()) + seq![s.len() - 1]
    } else {
        occ(s.drop_last())
    }
}

/// The largest floor-half distance between consecutive occupied seats.
pub open spec fn max_gap_half(o: Seq<int>) -> int
    decreases o.len(),
{
    if o.len() <= 1 {
        0
    } else {
        let g = (o.last() - o[o.len() - 2]) / 2;
        let rest = max_gap_half(o.drop_last());
        if rest >= g {
            rest
        } else {
            g
        }
    }
}

/// The largest distance an empty seat can keep from every occupied one:
/// the leading run, the trailing run, or half of the best middle gap.
pub open spec fn best_dist(s: Seq<i32>) -> int
    recommends
        occ(s).len() >= 1,
{
    let o = occ(s);
    let first = o[0];
    let tail = s.len() - 1 - o[o.len() - 1];
    let gap = max_gap_half(o);
    if first >= tail && first >= gap {
        first
    } else if tail >= gap {
        tail
    } else {
        gap
    }
}

proof fn lemma_occ_bounds(s: Seq<i32>)
    ensures
        forall|t: int| 0 <= t < occ(s).len() ==> 0 <= #[trigger] occ(s)[t] < s.len(),
        forall|t1: int, t2: int| 0 <= t1 < t2 < occ(s).len() ==> occ(s)[t1] < occ(s)[t2],
    decreases s.len(),
{
    if s.len() > 0 {
        lemma_occ_bounds(s.drop_last());
        let prev = occ(s.drop_last());
        assert(forall|t: int| 0 <= t < prev.len() ==> #[trigger] occ(s)[t] == prev[t]);
        if s.last() != 0 {
            assert(occ(s)[occ(s).len() - 1] == s.len() - 1);
        }
    }
}

proof fn lemma_max_gap_half_ge(o: Seq<int>, t: int)
    requires
        1 <= t < o.len(),
    ensures
        (o[t] - o[t - 1]) / 2 <= max_gap_half(o),
        max_gap_half(o) >= 0,
    decreases o.len(),
{
    lemma_max_gap_half_nonneg(o);
    if t == o.len() - 1 {
        lemma_max_gap_half_nonneg(o.drop_last());
    } else {
        lemma_max_gap_half_ge(o.drop_last(), t);
    }
}

proof fn lemma_max_gap_half_nonneg(o: Seq<int>)
    ensures
        max_gap_half(o) >= 0,
        o.len() <= 1 ==> max_gap_half(o) == 0,
    decreases o.len(),
{
    if o.len() > 1 {
        lemma_max_gap_half_nonneg(o.drop_last());
    }
}

/// `max_gap_half` is attained by some gap or the list has at most one seat.
proof fn lemma_max_gap_half_attained(o: Seq<int>)
    requires
        o.len() >= 1,
    ensures
        max_gap_half(o) == 0 || exists|t: int|
            1 <= t < o.len() && max_gap_half(o) == #[trigger] ((o[t] - o[t - 1]) / 2),
    decreases o.len(),
{
    if o.len() > 1 {
        lemma_max_gap_half_attained(o.drop_last());
        let g = (o.last() - o[o.len() - 2]) / 2;
        let last_t = o.len() - 1;
        if max_gap_half(o) == g {
            assert(1 <= last_t < o.len() && max_gap_half(o) == ((o[last_t] - o[last_t - 1]) / 2));
        } else if max_gap_half(o) != 0 {
            let t = choose|t: int|
                1 <= t < o.drop_last().len() && max_gap_half(o.drop_last()) == #[trigger] ((
                o.drop_last()[t] - o.drop_last()[t - 1]) / 2);
            assert(o.drop_last()[t] == o[t] && o.drop_last()[t - 1] == o[t - 1]);
            assert(1 <= t < o.len() && max_gap_half(o) == ((o[t] - o[t - 1]) / 2));
        }
    }
}

/// The row's occupied-seat indices, in order.
fn occupied_indices(seats: &Vec<i32>) -> (idx: Vec<usize>)
    ensures
        idx@.len() == occ(seats@).len(),
        forall|k: int| 0 <= k < idx@.len() ==> #[trigger] idx@[k] as int == occ(seats@)[k],
        forall|k: int| 0 <= k < idx@.len() ==> #[trigger] idx@[k] < seats@.len(),
        forall|k1: int, k2: int| 0 <= k1 < k2 < idx@.len() ==> idx@[k1] < idx@[k2],
{
    let mut idx: Vec<usize> = Vec::new();
    let mut i: usize = 0;
    while i < seats.len()
        invariant
            i <= seats@.len(),
            idx@.len() == occ(seats@.subrange(0, i as int)).len(),
            forall|k: int|
                0 <= k < idx@.len() ==> #[trigger] idx@[k] as int == occ(
                    seats@.subrange(0, i as int),
                )[k],
            forall|k: int| 0 <= k < idx@.len() ==> #[trigger] idx@[k] < i,
            forall|k1: int, k2: int| 0 <= k1 < k2 < idx@.len() ==> idx@[k1] < idx@[k2],
        decreases seats@.len() - i,
    {
        proof {
            assert(seats@.subrange(0, i as int + 1).drop_last() =~= seats@.subrange(0, i as int));
            assert(seats@.subrange(0, i as int + 1).last() == seats@[i as int]);
        }
        if seats[i] != 0 {
            idx.push(i);
        }
        i = i + 1;
    }
    proof {
        assert(seats@.subrange(0, seats@.len() as int) =~= seats@);
    }
    idx
}

/// Floor midpoint distances between consecutive occupied seats.
fn gap_halves(idx: &Vec<usize>) -> (g: Vec<usize>)
    requires
        forall|k1: int, k2: int| 0 <= k1 < k2 < idx@.len() ==> idx@[k1] < idx@[k2],
        idx@.len() >= 1,
    ensures
        g@.len() + 1 == idx@.len(),
        forall|k: int|
            0 <= k < g@.len() ==> #[trigger] g@[k] as int == (idx@[k + 1] - idx@[k]) as int / 2,
{
    let mut g: Vec<usize> = Vec::new();
    let mut i: usize = 1;
    while i < idx.len()
        invariant
            1 <= i <= idx@.len() || (idx@.len() == 0 && i == 1),
            g@.len() == i - 1,
            forall|k1: int, k2: int| 0 <= k1 < k2 < idx@.len() ==> idx@[k1] < idx@[k2],
            forall|k: int|
                0 <= k < g@.len() ==> #[trigger] g@[k] as int == (idx@[k + 1] - idx@[k]) as int
                    / 2,
        decreases idx@.len() - i,
    {
        let a = idx[i - 1];
        let b = idx[i];
        let middle = a + (b - a) / 2;
        g.push(middle - a);
        i = i + 1;
    }
    g
}

pub struct BsSolution;

/// Can every empty seat be at distance at least `d` from everyone? True
/// exactly when the row's edges or some middle gap allow `d`, that is when
/// `d` does not exceed the best distance.
fn check_if_distance_is_possible(
    d: usize,
    first_person_index: &usize,
    last_person_index: &usize,
    opt_distance_b_person: &Vec<usize>,
    n_seats: usize,
    Ghost(seats): Ghost<Seq<i32>>,
) -> (r: bool)
    requires
        n_seats == seats.len(),
        n_seats >= 1,
        occ(seats).len() >= 1,
        *first_person_index as int == occ(seats)[0],
        *last_person_index as int == occ(seats)[occ(seats).len() - 1],
        opt_distance_b_person@.len() + 1 == occ(seats).len(),
        forall|k: int|
            0 <= k < opt_distance_b_person@.len() ==> #[trigger] opt_distance_b_person@[k] as int
                == (occ(seats)[k + 1] - occ(seats)[k]) / 2,
        *last_person_index + d <= usize::MAX,
    ensures
        r == (d as int <= best_dist(seats)),
{
    proof {
        lemma_occ_bounds(seats);
        lemma_max_gap_half_nonneg(occ(seats));
        lemma_max_gap_half_attained(occ(seats));
        if max_gap_half(occ(seats)) != 0 {
            let t = choose|t: int|
                1 <= t < occ(seats).len() && max_gap_half(occ(seats)) == #[trigger] ((occ(
                    seats,
                )[t] - occ(seats)[t - 1]) / 2);
            assert(opt_distance_b_person@[t - 1] as int == max_gap_half(occ(seats)));
        }
    }
    if *last_person_index + d <= n_seats - 1 || *first_person_index >= d {
        return true;
    }
    let mut i: usize = 0;
    while i < opt_distance_b_person.len()
        invariant
            i <= opt_distance_b_person@.len(),
            opt_distance_b_person@.len() + 1 == occ(seats).len(),
            forall|k: int|
                0 <= k < opt_distance_b_person@.len() ==> #[trigger] opt_distance_b_person@[k]
                    as int == (occ(seats)[k + 1] - occ(seats)[k]) / 2,
            forall|k: int| 0 <= k < i ==> (#[trigger] opt_distance_b_person@[k] as int) < d as int,
        decreases opt_distance_b_person@.len() - i,
    {
        if opt_distance_b_person[i] >= d {
            proof {
                lemma_max_gap_half_ge(occ(seats), i as int + 1);
            }
            return true;
        }
        i = i + 1;
    }
    proof {
        lemma_max_gap_half_attained(occ(seats));
    }
    false
}

impl BsSolution {
    /// Largest distance to the closest seated person, found by a binary
    /// search over candidate distances. At least one seat must be taken.
    pub fn max_dist_to_closest(seats: Vec<i32>) -> (r: i32)
        requires
            1 <= seats@.len(),
            seats@.len() <= 0x7fff_ffff,
            exists|p: int| 0 <= p < seats@.len() && seats@[p] != 0,
        ensures
            r as int == best_dist(seats@),
    {
        proof {
            lemma_occ_nonempty(seats@);
            lemma_occ_bounds(seats@);
            lemma_max_gap_half_nonneg(occ(seats@));
            lemma_max_gap_half_attained(occ(seats@));
        }
        let index_people_sitting = occupied_indices(&seats);
        let first_person_index = index_people_sitting[0];
        let last_person_index = index_people_sitting[index_people_sitting.len() - 1];
        let opt_distance_b_person = gap_halves(&index_people_sitting);
        let n = seats.len();
        let ghost best = best_dist(seats@);
        proof {
            if max_gap_half(occ(seats@)) != 0 {
                let t = choose|t: int|
                    1 <= t < occ(seats@).len() && max_gap_half(occ(seats@)) == #[trigger] ((occ(
                        seats@,
                    )[t] - occ(seats@)[t - 1]) / 2);
                assert(occ(seats@)[t] < n && occ(seats@)[t - 1] >= 0);
            }
            assert(0 <= best < n);
        }
        let mut low: usize = 0;
        let mut high: usize = n - 1;
        let mut dist: usize = 0;
        while low <= high
            invariant
                n == seats@.len(),
                1 <= n <= 0x7fff_ffff,
                occ(seats@).len() >= 1,
                first_person_index as int == occ(seats@)[0],
                last_person_index as int == occ(seats@)[occ(seats@).len() - 1],
                last_person_index < n,
                opt_distance_b_person@.len() + 1 == occ(seats@).len(),
                forall|k: int|
                    0 <= k < opt_distance_b_person@.len() ==> #[trigger] opt_distance_b_person@[k]
                        as int == (occ(seats@)[k + 1] - occ(seats@)[k]) / 2,
                best == best_dist(seats@),
                0 <= best < n,
                low <= n,
                high <= n - 1,
                low as int <= best + 1,
                best <= high as int,
                dist as int == (if low == 0 {
                    0int
                } else {
                    low - 1
                }),
            decreases high + 1 - low,
        {
            let middle = low + (high - low) / 2;
            if check_if_distance_is_possible(
                middle,
                &first_person_index,
                &last_person_index,
                &opt_distance_b_person,
                n,
                Ghost(seats@),
            ) {
                low = middle + 1;
                dist = middle;
            } else {
                // distance zero is always possible, so `middle > 0` here
                proof {
                    assert(middle as int > best);
                    assert(best >= 0);
                }
                high = middle - 1;
            }
        }
        proof {
            assert(dist as int == best);
        }
        dist as i32
    }
}

proof fn lemma_occ_nonempty(s: Seq<i32>)
    requires
        exists|p: int| 0 <= p < s.len() && s[p] != 0,
    ensures
        occ(s).len() >= 1,
    decreases s.len(),
{
    if s.len() > 0 && s.last() == 0 {
        let p = choose|p: int| 0 <= p < s.len() && s[p] != 0;
        assert(s.drop_last()[p] != 0);
        lemma_occ_nonempty(s.drop_last());
    }
}

pub struct LinearSolution;

impl LinearSolution {
    /// Largest distance to the closest seated person: the best of the two
    /// edges and the best floor-half middle gap, taken directly.
    pub fn max_dist_to_closest(seats: Vec<i32>) -> (r: i32)
        requires
            1 <= seats@.len(),
            seats@.len() <= 0x7fff_ffff,
            exists|p: int| 0 <= p < seats@.len() && seats@[p] != 0,
        ensures
            r as int == best_dist(seats@),
    {
        proof {
            lemma_occ_nonempty(seats@);
            lemma_occ_bounds(seats@);
        }
        let index_people_sitting = occupied_indices(&seats);
        let first_person_index = index_people_sitting[0];
        let last_person_index = index_people_sitting[index_people_sitting.len() - 1];
        let opt_distance_b_person = gap_halves(&index_people_sitting);
        let ghost o = occ(seats@);
        let mut max_between_people: usize = 0;
        let mut i: usize = 0;
        while i < opt_distance_b_person.len()
            invariant
                i <= opt_distance_b_person@.len(),
                o == occ(seats@),
                opt_distance_b_person@.len() + 1 == o.len(),
                forall|k: int|
                    0 <= k < opt_distance_b_person@.len() ==> #[trigger] opt_distance_b_person@[k]
                        as int == (o[k + 1] - o[k]) / 2,
                max_between_people as int == max_gap_half(o.subrange(0, i as int + 1)),
                forall|t1: int, t2: int| 0 <= t1 < t2 < o.len() ==> o[t1] < o[t2],
                forall|t: int| 0 <= t < o.len() ==> 0 <= #[trigger] o[t] < seats@.len(),
            decreases opt_distance_b_person@.len() - i,
        {
            proof {
                assert(o.subrange(0, i as int + 2).drop_last() =~= o.subrange(0, i as int + 1));
                assert(o.subrange(0, i as int + 2).last() == o[i as int + 1]);
            }
            let g = opt_distance_b_person[i];
            if g > max_between_people {
                max_between_people = g;
            }
            i = i + 1;
        }
        proof {
            assert(o.subrange(0, o.len() as int) =~= o);
        }
        let tail = seats.len() - 1 - last_person_index;
        let mut best = max_between_people;
        if first_person_index > best {
            best = first_person_index;
        }
        if tail > best {
            best = tail;
        }
        proof {
            lemma_max_gap_half_nonneg(o);
            lemma_max_gap_half_attained(o);
            if max_gap_half(o) != 0 {
                let t = choose|t: int|
                    1 <= t < o.len() && max_gap_half(o) == #[trigger] ((o[t] - o[t - 1]) / 2);
                assert(o[t] < seats@.len() && o[t - 1] >= 0);
            }
            assert(max_between_people as int == max_gap_half(o));
            assert(best as int == best_dist(seats@));
        }
        best as i32
    }
}

} // verus!
