use vstd::prelude::*;

verus! {

pub open spec fn row_sum(r: Seq<u32>) -> int
    decreases r.len(),
{
    if r.len() == 0 {
        0
    } else {
        row_sum(r.drop_last()) + r.last()
    }
}

/// Total of all attraction counts over all cities and days.
pub open spec fn grid_sum(g: Seq<Vec<u32>>) -> int
    decreases g.len(),
{
    if g.len() == 0 {
        0
    } else {
        grid_sum(g.drop_last()) + row_sum(g.last()@)
    }
}

proof fn lemma_row_sum_nonneg(r: Seq<u32>)
    ensures
        row_sum(r) >= 0,
    decreases r.len(),
{
    if r.len() > 0 {
        lemma_row_sum_nonneg(r.drop_last());
    }
}

proof fn lemma_grid_sum_nonneg(g: Seq<Vec<u32>>)
    ensures
        grid_sum(g) >= 0,
    decreases g.len(),
{
    if g.len() > 0 {
        lemma_grid_sum_nonneg(g.drop_last());
        lemma_row_sum_nonneg(g.last()@);
    }
}

proof fn lemma_grid_sum_prefix(g: Seq<Vec<u32>>, i: int)
    requires
        0 <= i <= g.len(),
    ensures
        grid_sum(g.subrange(0, i)) <= grid_sum(g),
    decreases g.len() - i,
{
    if i < g.len() {
        lemma_grid_sum_prefix(g, i + 1);
        assert(g.subrange(0, i + 1).drop_last() =~= g.subrange(0, i));
        assert(g.subrange(0, i + 1).last() == g[i]);
        lemma_row_sum_nonneg(g[i]@);
    } else {
        assert(g.subrange(0, i) =~= g);
    }
}

proof fn lemma_row_sum_prefix(r: Seq<u32>, i: int)
    requires
        0 <= i <= r.len(),
    ensures
        row_sum(r.subrange(0, i)) <= row_sum(r),
        row_sum(r.subrange(0, i)) >= 0,
    decreases r.len() - i,
{
    if i < r.len() {
        lemma_row_sum_prefix(r, i + 1);
        assert(r.subrange(0, i + 1).drop_last() =~= r.subrange(0, i));
        lemma_row_sum_nonneg(r.subrange(0, i));
    } else {
        assert(r.subrange(0, i) =~= r);
        lemma_row_sum_nonneg(r);
    }
}

/// `cities_attrs[i][j]`: attractions visitable in city `i` on its day
/// `j + 1`. Choose how many whole days to spend in each city, `d` days in
/// total, collecting each chosen city's first entries; the best total comes
/// back. It never exceeds the sum of every entry.
pub fn max_visitable_attractions(cities_attrs: &[Vec<u32>]) -> (r: u32)
    requires
        cities_attrs@.len() <= 0xffff,
        forall|i: int|
            0 <= i < cities_attrs@.len() ==> (#[trigger] cities_attrs@[i])@.len()
                == cities_attrs@[0]@.len(),
        cities_attrs@.len() >= 1 ==> cities_attrs@[0]@.len() <= 0xffff,
        grid_sum(cities_attrs@) <= u32::MAX,
    ensures
        r <= grid_sum(cities_attrs@),
{
    let n = cities_attrs.len();
    let d: usize = if n == 0 {
        0
    } else {
        cities_attrs[0].len()
    };
    let ghost total = grid_sum(cities_attrs@);
    proof {
        lemma_grid_sum_nonneg(cities_attrs@);
    }
    let mut prev: Vec<u32> = Vec::new();
    let mut curr: Vec<u32> = Vec::new();
    let mut k: usize = 0;
    while k < d + 1
        invariant
            k <= d + 1,
            d <= 0xffff,
            prev@.len() == k,
            curr@.len() == k,
            forall|q: int| 0 <= q < k ==> #[trigger] prev@[q] == 0u32,
            forall|q: int| 0 <= q < k ==> #[trigger] curr@[q] == 0u32,
        decreases d + 1 - k,
    {
        prev.push(0);
        curr.push(0);
        k = k + 1;
    }
    proof {
        assert(cities_attrs@.subrange(0, 0) =~= Seq::<Vec<u32>>::empty());
        assert(grid_sum(cities_attrs@.subrange(0, 0)) == 0);
    }
    let mut i: usize = 1;
    while i < n + 1
        invariant
            1 <= i <= n + 1,
            n == cities_attrs@.len(),
            n <= 0xffff,
            d <= 0xffff,
            forall|q: int|
                0 <= q < cities_attrs@.len() ==> (#[trigger] cities_attrs@[q])@.len() == d,
            prev@.len() == d + 1,
            curr@.len() == d + 1,
            total == grid_sum(cities_attrs@),
            total <= u32::MAX,
            forall|q: int|
                0 <= q < d + 1 ==> #[trigger] prev@[q] as int <= grid_sum(
                    cities_attrs@.subrange(0, i as int - 1),
                ),
            forall|q: int|
                0 <= q < d + 1 ==> #[trigger] curr@[q] as int <= grid_sum(
                    cities_attrs@.subrange(0, i as int - 1),
                ),
        decreases n + 1 - i,
    {
        let ghost done = grid_sum(cities_attrs@.subrange(0, i as int - 1));
        let ghost done_next = grid_sum(cities_attrs@.subrange(0, i as int));
        proof {
            lemma_grid_sum_prefix(cities_attrs@, i as int - 1);
            lemma_grid_sum_prefix(cities_attrs@, i as int);
            lemma_grid_sum_nonneg(cities_attrs@.subrange(0, i as int - 1));
            assert(cities_attrs@.subrange(0, i as int).drop_last() =~= cities_attrs@.subrange(
                0,
                i as int - 1,
            ));
            assert(done_next == done + row_sum(cities_attrs@[i as int - 1]@));
            lemma_row_sum_nonneg(cities_attrs@[i as int - 1]@);
        }
        let mut av_days: usize = 1;
        while av_days < d + 1
            invariant
                1 <= av_days <= d + 1,
                n == cities_attrs@.len(),
                1 <= i < n + 1,
                d <= 0xffff,
                forall|q: int|
                    0 <= q < cities_attrs@.len() ==> (#[trigger] cities_attrs@[q])@.len() == d,
                prev@.len() == d + 1,
                curr@.len() == d + 1,
                total == grid_sum(cities_attrs@),
                total <= u32::MAX,
                done == grid_sum(cities_attrs@.subrange(0, i as int - 1)),
                done_next == done + row_sum(cities_attrs@[i as int - 1]@),
                done <= done_next,
                0 <= done,
                done_next <= total,
                forall|q: int| 0 <= q < d + 1 ==> #[trigger] prev@[q] as int <= done,
                forall|q: int| 0 <= q < d + 1 ==> #[trigger] curr@[q] as int <= done_next,
            decreases d + 1 - av_days,
        {
            let base = prev[av_days];
            curr.set(av_days, base);
            let mut cum_attrs: u64 = 0;
            let mut day: usize = 1;
            while day < av_days + 1
                invariant
                    1 <= day <= av_days + 1,
                    av_days <= d,
                    d <= 0xffff,
                    n == cities_attrs@.len(),
                    1 <= i < n + 1,
                    forall|q: int|
                        0 <= q < cities_attrs@.len() ==> (#[trigger] cities_attrs@[q])@.len() == d,
                    prev@.len() == d + 1,
                    curr@.len() == d + 1,
                    total == grid_sum(cities_attrs@),
                    total <= u32::MAX,
                    done == grid_sum(cities_attrs@.subrange(0, i as int - 1)),
                    done_next == done + row_sum(cities_attrs@[i as int - 1]@),
                    done <= done_next,
                    0 <= done,
                    done_next <= total,
                    cum_attrs as int == row_sum(cities_attrs@[i as int - 1]@.subrange(
                        0,
                        day as int - 1,
                    )),
                    forall|q: int| 0 <= q < d + 1 ==> #[trigger] prev@[q] as int <= done,
                    forall|q: int| 0 <= q < d + 1 ==> #[trigger] curr@[q] as int <= done_next,
                decreases av_days + 1 - day,
            {
                proof {
                    assert(cities_attrs@[i as int - 1]@.len() == d);
                    lemma_row_sum_prefix(cities_attrs@[i as int - 1]@, day as int);
                    assert(cities_attrs@[i as int - 1]@.subrange(0, day as int).drop_last()
                        =~= cities_attrs@[i as int - 1]@.subrange(0, day as int - 1));
                    lemma_row_sum_prefix(cities_attrs@[i as int - 1]@, day as int - 1);
                }
                cum_attrs = cum_attrs + (cities_attrs[i - 1][day - 1] as u64);
                let candidate: u64 = (prev[av_days - day] as u64) + cum_attrs;
                if candidate > (curr[av_days] as u64) {
                    curr.set(av_days, candidate as u32);
                }
                day = day + 1;
            }
            av_days = av_days + 1;
        }
        std::mem::swap(&mut curr, &mut prev);
        proof {
            assert(forall|q: int| 0 <= q < d + 1 ==> #[trigger] prev@[q] as int <= done_next);
            assert(cities_attrs@.subrange(0, i as int).drop_last() =~= cities_attrs@.subrange(
                0,
                i as int - 1,
            ));
            lemma_row_sum_nonneg(cities_attrs@[i as int - 1]@);
            assert(done <= done_next);
            assert(forall|q: int| 0 <= q < d + 1 ==> #[trigger] curr@[q] as int <= done_next);
        }
        i = i + 1;
    }
    let r = prev[d];
    proof {
        lemma_grid_sum_prefix(cities_attrs@, n as int);
        assert(cities_attrs@.subrange(0, n as int) =~= cities_attrs@);
    }
    r
}

} // verus!
