//! The final report: rating titles, the order of participants, their dense
//! ranks among the recently active, and how many hold each title.
use vstd::prelude::*;
use crate::contests::contains_id;

verus! {

/// How many rating titles there are.
pub const NUM_TITLES: usize = 11;

/// The first event that counts as recent for ranks and title counts.
pub const RECENT_SINCE_EVENT: usize = 1131;

/// The lowest rating of title `t`, for `t < NUM_TITLES`; the bounds rise.
pub open spec fn bound_of(t: int) -> int {
    if t == 0 {
        -999
    } else if t == 1 {
        1000
    } else if t == 2 {
        1200
    } else if t == 3 {
        1400
    } else if t == 4 {
        1600
    } else if t == 5 {
        1800
    } else if t == 6 {
        2000
    } else if t == 7 {
        2200
    } else if t == 8 {
        2400
    } else if t == 9 {
        2700
    } else {
        3000
    }
}

/// The highest title at or below `t` whose bound `rating` reaches.
pub open spec fn highest_title(rating: int, t: int) -> Option<int>
    decreases t + 1,
{
    if t < 0 {
        None
    } else if bound_of(t) <= rating {
        Some(t)
    } else {
        highest_title(rating, t - 1)
    }
}

/// The title of a rating: the highest one whose bound it reaches.
pub open spec fn title_of(rating: int) -> Option<int> {
    highest_title(rating, NUM_TITLES - 1)
}

/// The lowest rating of title `t`.
pub fn title_bound(t: usize) -> (r: i32)
    requires
        t < NUM_TITLES,
    ensures
        r as int == bound_of(t as int),
{
    if t == 0 {
        -999
    } else if t == 1 {
        1000
    } else if t == 2 {
        1200
    } else if t == 3 {
        1400
    } else if t == 4 {
        1600
    } else if t == 5 {
        1800
    } else if t == 6 {
        2000
    } else if t == 7 {
        2200
    } else if t == 8 {
        2400
    } else if t == 9 {
        2700
    } else {
        3000
    }
}

/// The short name of title `t`, for `t < NUM_TITLES`.
pub open spec fn name_of(t: int) -> Seq<char> {
    if t == 0 {
        "Ne"@
    } else if t == 1 {
        "Pu"@
    } else if t == 2 {
        "Ap"@
    } else if t == 3 {
        "Sp"@
    } else if t == 4 {
        "Ex"@
    } else if t == 5 {
        "CM"@
    } else if t == 6 {
        "Ma"@
    } else if t == 7 {
        "IM"@
    } else if t == 8 {
        "GM"@
    } else if t == 9 {
        "IG"@
    } else {
        "LG"@
    }
}

/// The short name of title `t`.
pub fn title_name(t: usize) -> (r: &'static str)
    requires
        t < NUM_TITLES,
    ensures
        r@ == name_of(t as int),
{
    if t == 0 {
        "Ne"
    } else if t == 1 {
        "Pu"
    } else if t == 2 {
        "Ap"
    } else if t == 3 {
        "Sp"
    } else if t == 4 {
        "Ex"
    } else if t == 5 {
        "CM"
    } else if t == 6 {
        "Ma"
    } else if t == 7 {
        "IM"
    } else if t == 8 {
        "GM"
    } else if t == 9 {
        "IG"
    } else {
        "LG"
    }
}

/// The highest title whose bound `rating` reaches; `None` below every bound.
pub fn title_index(rating: i32) -> (r: Option<usize>)
    ensures
        match r {
            Some(t) => title_of(rating as int) == Some(t as int) && t < NUM_TITLES,
            None => title_of(rating as int) is None,
        },
{
    let mut t: usize = NUM_TITLES;
    while t > 0
        invariant
            t <= NUM_TITLES,
            title_of(rating as int) == highest_title(rating as int, t - 1),
        decreases t,
    {
        if rating >= title_bound(t - 1) {
            return Some(t - 1);
        }
        t = t - 1;
    }
    None
}

/// Participant `a` comes before `b`: a higher rating, or an equal one and an
/// earlier index.
pub open spec fn precedes(r: Seq<i32>, a: int, b: int) -> bool {
    r[a] > r[b] || (r[a] == r[b] && a < b)
}

/// `s` lists every index of `r` once, by descending rating, equal ratings by
/// ascending index.
pub open spec fn is_rank_order(r: Seq<i32>, s: Seq<usize>) -> bool {
    &&& s.len() == r.len()
    &&& forall|k: int| 0 <= k < s.len() ==> #[trigger] s[k] < r.len()
    &&& forall|x: usize| x < r.len() ==> #[trigger] s.contains(x)
    &&& forall|i: int, j: int|
        0 <= i < j < s.len() ==> precedes(r, #[trigger] s[i] as int, #[trigger] s[j] as int)
}

proof fn lemma_unique_from(r: Seq<i32>, s: Seq<usize>, t: Seq<usize>, k: int)
    requires
        is_rank_order(r, s),
        is_rank_order(r, t),
        0 <= k <= s.len(),
        forall|m: int| 0 <= m < k ==> s[m] == t[m],
    ensures
        s == t,
    decreases s.len() - k,
{
    if k < s.len() {
        let x = s[k];
        let y = t[k];
        if x != y {
            assert(t.contains(x));
            assert(s.contains(y));
            let m = choose|m: int| 0 <= m < t.len() && t[m] == x;
            let p = choose|p: int| 0 <= p < s.len() && s[p] == y;
            if m < k {
                assert(precedes(r, s[m] as int, s[k] as int));
            }
            if p < k {
                assert(precedes(r, t[p] as int, t[k] as int));
            }
            assert(precedes(r, t[k] as int, t[m] as int));
            assert(precedes(r, s[k] as int, s[p] as int));
        }
        lemma_unique_from(r, s, t, k + 1);
    } else {
        assert(s =~= t);
    }
}

/// The report's order is determined by the ratings alone: two orders that
/// both meet it are the same, so building the report again over the same
/// participants gives the same report.
pub proof fn lemma_rank_order_unique(r: Seq<i32>, s: Seq<usize>, t: Seq<usize>)
    requires
        is_rank_order(r, s),
        is_rank_order(r, t),
    ensures
        s == t,
{
    lemma_unique_from(r, s, t, 0);
}

/// The indices of `ratings` by descending rating, equal ratings by index.
pub fn rank_order(ratings: &Vec<i32>) -> (r: Vec<usize>)
    ensures
        is_rank_order(ratings@, r@),
{
    let n = ratings.len();
    let ghost rs = ratings@;
    let mut out: Vec<usize> = Vec::new();
    let mut i: usize = 0;
    while i < n
        invariant
            n == rs.len(),
            rs == ratings@,
            i <= n,
            out@.len() == i,
            forall|k: int| 0 <= k < out@.len() ==> #[trigger] out@[k] < i,
            forall|x: usize| x < i ==> #[trigger] out@.contains(x),
            forall|a: int, b: int|
                0 <= a < b < out@.len() ==> precedes(rs, #[trigger] out@[a] as int, #[trigger] out@[b] as int),
        decreases n - i,
    {
        let ri = ratings[i];
        let mut lo: usize = 0;
        let mut hi: usize = out.len();
        while lo < hi
            invariant
                n == rs.len(),
                rs == ratings@,
                i < n,
                ri == rs[i as int],
                0 <= lo <= hi <= out@.len(),
                forall|k: int| 0 <= k < out@.len() ==> #[trigger] out@[k] < i,
                forall|a: int, b: int|
                    0 <= a < b < out@.len() ==> precedes(rs, #[trigger] out@[a] as int, #[trigger] out@[b] as int),
                forall|q: int| 0 <= q < lo ==> rs[#[trigger] out@[q] as int] >= ri,
                forall|q: int| hi <= q < out@.len() ==> rs[#[trigger] out@[q] as int] < ri,
            decreases hi - lo,
        {
            let mid = lo + (hi - lo) / 2;
            if ratings[out[mid]] >= ri {
                assert forall|q: int| 0 <= q <= mid implies rs[#[trigger] out@[q] as int] >= ri by {
                    if q < mid {
                        assert(precedes(rs, out@[q] as int, out@[mid as int] as int));
                    }
                }
                lo = mid + 1;
            } else {
                assert forall|q: int| mid <= q < out@.len() implies rs[#[trigger] out@[q] as int] < ri by {
                    if q > mid {
                        assert(precedes(rs, out@[mid as int] as int, out@[q] as int));
                    }
                }
                hi = mid;
            }
        }
        let ghost old_out = out@;
        out.insert(lo, i);
        proof {
            let p = lo as int;
            assert(forall|q: int| 0 <= q < p ==> out@[q] == old_out[q]);
            assert(forall|q: int| p < q < out@.len() ==> out@[q] == old_out[q - 1]);
            assert(out@[p] == i);
            assert forall|x: usize| x < i + 1 implies #[trigger] out@.contains(x) by {
                if x == i {
                    assert(out@[p] == x);
                } else {
                    assert(old_out.contains(x));
                    let k = choose|k: int| 0 <= k < old_out.len() && old_out[k] == x;
                    if k < p {
                        assert(out@[k] == x);
                    } else {
                        assert(out@[k + 1] == x);
                    }
                }
            }
            assert forall|k: int| 0 <= k < out@.len() implies #[trigger] out@[k] < i + 1 by {
                if k < p {
                    assert(out@[k] == old_out[k]);
                } else if k > p {
                    assert(out@[k] == old_out[k - 1]);
                }
            }
            assert forall|a: int, b: int| 0 <= a < b < out@.len() implies precedes(
                rs,
                #[trigger] out@[a] as int,
                #[trigger] out@[b] as int,
            ) by {
                if b < p {
                    assert(precedes(rs, old_out[a] as int, old_out[b] as int));
                } else if b == p {
                    assert(rs[old_out[a] as int] >= ri && old_out[a] < i);
                } else if a < p {
                    assert(precedes(rs, old_out[a] as int, old_out[b - 1] as int));
                } else if a == p {
                    assert(rs[old_out[b - 1] as int] < ri);
                } else {
                    assert(precedes(rs, old_out[a - 1] as int, old_out[b - 1] as int));
                }
            }
        }
        i = i + 1;
    }
    out
}

/// How many of the first `k` entries of `order` are active.
pub open spec fn active_before(order: Seq<usize>, active: Seq<bool>, k: int) -> nat
    decreases k,
{
    if k <= 0 {
        0
    } else {
        active_before(order, active, k - 1) + if active[order[k - 1] as int] {
            1nat
        } else {
            0nat
        }
    }
}

/// How many active participants among the first `n` hold title `t`.
pub open spec fn title_count(ratings: Seq<i32>, active: Seq<bool>, t: int, n: int) -> nat
    decreases n,
{
    if n <= 0 {
        0
    } else {
        title_count(ratings, active, t, n - 1) + if active[n - 1] && title_of(
            ratings[n - 1] as int,
        ) == Some(t) {
            1nat
        } else {
            0nat
        }
    }
}

/// For each participant's last event, whether it is among the recent ones.
pub fn active_flags(last_events: &Vec<usize>, recent: &Vec<usize>) -> (r: Vec<bool>)
    ensures
        r@.len() == last_events@.len(),
        forall|i: int| 0 <= i < r@.len() ==> r@[i] == recent@.contains(#[trigger] last_events@[i]),
{
    let mut out: Vec<bool> = Vec::new();
    let mut i: usize = 0;
    while i < last_events.len()
        invariant
            i <= last_events@.len(),
            out@.len() == i,
            forall|k: int| 0 <= k < i ==> out@[k] == recent@.contains(#[trigger] last_events@[k]),
        decreases last_events.len() - i,
    {
        out.push(contains_id(recent, last_events[i]));
        i = i + 1;
    }
    out
}

/// Dense ranks along `order`: the active participant at place `k` gets the
/// number of active ones up to and including it; the others get none.
pub fn assign_ranks(order: &Vec<usize>, active: &Vec<bool>) -> (r: Vec<Option<usize>>)
    requires
        forall|k: int| 0 <= k < order@.len() ==> #[trigger] order@[k] < active@.len(),
    ensures
        r@.len() == order@.len(),
        forall|k: int|
            0 <= k < r@.len() ==> #[trigger] r@[k] == (if active@[order@[k] as int] {
                Some(active_before(order@, active@, k + 1) as usize)
            } else {
                None
            }),
{
    let mut out: Vec<Option<usize>> = Vec::new();
    let mut rank: usize = 0;
    let mut k: usize = 0;
    while k < order.len()
        invariant
            forall|m: int| 0 <= m < order@.len() ==> #[trigger] order@[m] < active@.len(),
            k <= order@.len(),
            out@.len() == k,
            rank == active_before(order@, active@, k as int),
            rank <= k,
            forall|m: int|
                0 <= m < k ==> #[trigger] out@[m] == (if active@[order@[m] as int] {
                    Some(active_before(order@, active@, m + 1) as usize)
                } else {
                    None
                }),
        decreases order.len() - k,
    {
        if active[order[k]] {
            rank = rank + 1;
            out.push(Some(rank));
        } else {
            out.push(None);
        }
        k = k + 1;
    }
    out
}

/// For each title, how many active participants hold it.
pub fn count_titles(ratings: &Vec<i32>, active: &Vec<bool>) -> (r: Vec<usize>)
    requires
        active@.len() == ratings@.len(),
    ensures
        r@.len() == NUM_TITLES,
        forall|t: int| 0 <= t < NUM_TITLES ==> #[trigger] r@[t] == title_count(
            ratings@,
            active@,
            t,
            ratings@.len() as int,
        ),
{
    let mut counts: Vec<usize> = vec![0usize; NUM_TITLES];
    let mut i: usize = 0;
    while i < ratings.len()
        invariant
            active@.len() == ratings@.len(),
            i <= ratings@.len(),
            counts@.len() == NUM_TITLES,
            forall|t: int| 0 <= t < NUM_TITLES ==> #[trigger] counts@[t] == title_count(ratings@, active@, t, i as int),
            forall|t: int| 0 <= t < NUM_TITLES ==> #[trigger] counts@[t] <= i,
        decreases ratings.len() - i,
    {
        if active[i] {
            match title_index(ratings[i]) {
                Some(t) => {
                    let c = counts[t];
                    counts.set(t, c + 1);
                },
                None => {},
            }
        }
        i = i + 1;
    }
    counts
}

/// Which participants are active: their last event is a recent one.
pub open spec fn active_seq(last_events: Seq<usize>, recent: Seq<usize>) -> Seq<bool> {
    Seq::new(last_events.len(), |i: int| recent.contains(last_events[i]))
}

/// The layout of the report: the order of participants, the rank shown on
/// each line, and the number of active participants holding each title.
pub struct ReportLayout {
    pub order: Vec<usize>,
    pub ranks: Vec<Option<usize>>,
    pub title_counts: Vec<usize>,
}

/// Lays out the report for participants with displayed ratings `ratings`
/// whose last events are `last_events`; `recent` lists the recent events.
pub fn build_report(ratings: &Vec<i32>, last_events: &Vec<usize>, recent: &Vec<usize>) -> (r:
    ReportLayout)
    requires
        ratings@.len() == last_events@.len(),
    ensures
        is_rank_order(ratings@, r.order@),
        r.ranks@.len() == r.order@.len(),
        forall|k: int|
            0 <= k < r.ranks@.len() ==> #[trigger] r.ranks@[k] == (if active_seq(
                last_events@,
                recent@,
            )[r.order@[k] as int] {
                Some(active_before(r.order@, active_seq(last_events@, recent@), k + 1) as usize)
            } else {
                None
            }),
        r.title_counts@.len() == NUM_TITLES,
        forall|t: int|
            0 <= t < NUM_TITLES ==> #[trigger] r.title_counts@[t] == title_count(
                ratings@,
                active_seq(last_events@, recent@),
                t,
                ratings@.len() as int,
            ),
{
    let active = active_flags(last_events, recent);
    assert(active@ =~= active_seq(last_events@, recent@));
    let title_counts = count_titles(ratings, &active);
    let order = rank_order(ratings);
    let ranks = assign_ranks(&order, &active);
    ReportLayout { order, ranks, title_counts }
}

} // verus!
