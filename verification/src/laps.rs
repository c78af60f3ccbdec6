//! Splitting a recording into lap segments and numbering them.

use vstd::prelude::*;

verus! {

/// A segment ends before sample `i` when the sample-to-sample check found a line crossing,
/// a jump or a gap there (`breaks[i]`), or when iRacing's lap counter changed.
pub open spec fn ends_before(laps: Seq<i32>, breaks: Seq<bool>, i: int) -> bool {
    breaks[i] || laps[i] != laps[i - 1]
}

/// The number of the segment that starts at sample `start`, after one numbered `prev`:
/// the lap counter when it is ahead, otherwise the next number.
pub open spec fn next_number(laps: Seq<i32>, start: int, prev: int) -> int {
    if laps[start] > prev {
        laps[start] as int
    } else {
        prev + 1
    }
}

/// `groups` splits the samples `0..laps.len()` into segments `(start, end, number)`, in
/// order, cut exactly where `ends_before` holds, numbered from the first sample's lap
/// counter (at least 1) by `next_number`.
pub open spec fn lap_groups_spec(
    laps: Seq<i32>,
    breaks: Seq<bool>,
    groups: Seq<(usize, usize, i32)>,
) -> bool {
    let n = laps.len() as int;
    &&& n == 0 ==> groups.len() == 0
    &&& n > 0 ==> {
        &&& groups.len() > 0
        &&& groups[0].0 == 0
        &&& groups[groups.len() - 1].1 == n
        &&& groups[0].2 == first_number(laps)
    }
    &&& forall|k: int| 0 <= k < groups.len() ==> (#[trigger] groups[k]).0 < groups[k].1
    &&& forall|k: int|
        0 <= k < groups.len() - 1 ==> #[trigger] groups[k].1 == groups[k + 1].0 && ends_before(
            laps,
            breaks,
            groups[k].1 as int,
        ) && groups[k + 1].2 == next_number(laps, groups[k + 1].0 as int, groups[k].2 as int)
    &&& forall|k: int, j: int|
        #![trigger groups[k], ends_before(laps, breaks, j)]
        0 <= k < groups.len() && groups[k].0 < j < groups[k].1 ==> !ends_before(laps, breaks, j)
}

/// The first segment's number: the first sample's lap counter, at least 1.
pub open spec fn first_number(laps: Seq<i32>) -> int {
    if laps[0] > 1 {
        laps[0] as int
    } else {
        1
    }
}

/// The segments closed so far while scanning, with the open one starting at `start` and
/// numbered `number`.
pub open spec fn scan_state(
    laps: Seq<i32>,
    breaks: Seq<bool>,
    groups: Seq<(usize, usize, i32)>,
    start: int,
    number: int,
) -> bool {
    &&& groups.len() == 0 ==> start == 0 && number == first_number(laps)
    &&& groups.len() > 0 ==> {
        &&& groups[0].0 == 0
        &&& groups[0].2 == first_number(laps)
        &&& groups[groups.len() - 1].1 == start
        &&& ends_before(laps, breaks, start)
        &&& number == next_number(laps, start, groups[groups.len() - 1].2 as int)
    }
    &&& forall|k: int| 0 <= k < groups.len() ==> (#[trigger] groups[k]).0 < groups[k].1
    &&& forall|k: int|
        0 <= k < groups.len() - 1 ==> #[trigger] groups[k].1 == groups[k + 1].0 && ends_before(
            laps,
            breaks,
            groups[k].1 as int,
        ) && groups[k + 1].2 == next_number(laps, groups[k + 1].0 as int, groups[k].2 as int)
    &&& forall|k: int, j: int|
        #![trigger groups[k], ends_before(laps, breaks, j)]
        0 <= k < groups.len() && groups[k].0 < j < groups[k].1 ==> !ends_before(laps, breaks, j)
}

proof fn lemma_scan_close(
    laps: Seq<i32>,
    breaks: Seq<bool>,
    groups: Seq<(usize, usize, i32)>,
    start: int,
    number: int,
    i: int,
    new_number: int,
)
    requires
        scan_state(laps, breaks, groups, start, number),
        start < i,
        forall|j: int| start < j < i ==> !#[trigger] ends_before(laps, breaks, j),
        ends_before(laps, breaks, i),
        new_number == next_number(laps, i, number),
        0 <= start,
        i <= usize::MAX,
        i32::MIN <= number <= i32::MAX,
    ensures
        scan_state(
            laps,
            breaks,
            groups.push((start as usize, i as usize, number as i32)),
            i,
            new_number,
        ),
{
    let g = groups.push((start as usize, i as usize, number as i32));
    assert(g[g.len() - 1] == (start as usize, i as usize, number as i32));
    assert forall|k: int, j: int|
        #![trigger g[k], ends_before(laps, breaks, j)]
        0 <= k < g.len() && g[k].0 < j < g[k].1 implies !ends_before(laps, breaks, j) by {
        if k < groups.len() {
            assert(g[k] == groups[k]);
        }
    }
    assert forall|k: int| 0 <= k < g.len() - 1 implies #[trigger] g[k].1 == g[k + 1].0
        && ends_before(laps, breaks, g[k].1 as int) && g[k + 1].2 == next_number(
        laps,
        g[k + 1].0 as int,
        g[k].2 as int,
    ) by {
        if k < groups.len() - 1 {
            assert(g[k] == groups[k]);
            assert(g[k + 1] == groups[k + 1]);
        } else {
            assert(g[k] == groups[k]);
        }
    }
    assert forall|k: int| 0 <= k < g.len() implies (#[trigger] g[k]).0 < g[k].1 by {
        if k < groups.len() {
            assert(g[k] == groups[k]);
        }
    }
}

/// Splits a recording into lap segments. `laps[i]` is the lap counter of sample `i` and
/// `breaks[i]` (for `i >= 1`) whether a crossing, jump or gap lies between samples `i - 1`
/// and `i`. Each segment is `(start, end, number)`, the samples `start..end`.
pub fn lap_groups(laps: &[i32], breaks: &[bool]) -> (groups: Vec<(usize, usize, i32)>)
    requires
        breaks@.len() == laps@.len(),
        laps@.len() < i32::MAX,
        forall|i: int| 0 <= i < laps@.len() ==> #[trigger] laps@[i] + laps@.len() < i32::MAX,
    ensures
        lap_groups_spec(laps@, breaks@, groups@),
{
    let n = laps.len();
    let mut groups: Vec<(usize, usize, i32)> = Vec::new();
    if n == 0 {
        return groups;
    }
    let mut number: i32 = if laps[0] > 1 {
        laps[0]
    } else {
        1
    };
    let mut start: usize = 0;
    let mut i: usize = 1;
    while i < n
        invariant
            n == laps@.len(),
            n == breaks@.len(),
            n < i32::MAX,
            forall|i: int| 0 <= i < laps@.len() ==> #[trigger] laps@[i] + laps@.len() < i32::MAX,
            1 <= i <= n,
            start < i,
            groups@.len() <= start,
            number + n - groups@.len() <= i32::MAX,
            scan_state(laps@, breaks@, groups@, start as int, number as int),
            forall|j: int| start < j < i ==> !#[trigger] ends_before(laps@, breaks@, j),
        decreases n - i,
    {
        if breaks[i] || laps[i] != laps[i - 1] {
            let new_number = if laps[i] > number {
                laps[i]
            } else {
                number + 1
            };
            proof {
                lemma_scan_close(
                    laps@,
                    breaks@,
                    groups@,
                    start as int,
                    number as int,
                    i as int,
                    new_number as int,
                );
            }
            groups.push((start, i, number));
            number = new_number;
            start = i;
        }
        i = i + 1;
    }
    let ghost before = groups@;
    groups.push((start, n, number));
    proof {
        let g = groups@;
        assert(g[g.len() - 1] == (start, n, number));
        assert forall|k: int, j: int|
            #![trigger g[k], ends_before(laps@, breaks@, j)]
            0 <= k < g.len() && g[k].0 < j < g[k].1 implies !ends_before(laps@, breaks@, j) by {
            if k < before.len() {
                assert(g[k] == before[k]);
            }
        }
        assert forall|k: int| 0 <= k < g.len() - 1 implies #[trigger] g[k].1 == g[k + 1].0
            && ends_before(laps@, breaks@, g[k].1 as int) && g[k + 1].2 == next_number(
            laps@,
            g[k + 1].0 as int,
            g[k].2 as int,
        ) by {
            assert(g[k] == before[k]);
            if k < before.len() - 1 {
                assert(g[k + 1] == before[k + 1]);
            }
        }
        assert forall|k: int| 0 <= k < g.len() implies (#[trigger] g[k]).0 < g[k].1 by {
            if k < before.len() {
                assert(g[k] == before[k]);
            }
        }
        if before.len() > 0 {
            assert(g[0] == before[0]);
        }
    }
    groups
}

/// Law: without a working lap counter (every counter at zero or below), segments are
/// numbered 1, 2, 3, ... in the order driven.
pub proof fn lemma_groups_count_up_without_counter(
    laps: Seq<i32>,
    breaks: Seq<bool>,
    groups: Seq<(usize, usize, i32)>,
)
    requires
        lap_groups_spec(laps, breaks, groups),
        forall|i: int| 0 <= i < laps.len() ==> #[trigger] laps[i] <= 0,
    ensures
        forall|k: int| 0 <= k < groups.len() ==> #[trigger] groups[k].2 == k + 1,
{
    assert forall|k: int| 0 <= k < groups.len() implies #[trigger] groups[k].2 == k + 1 by {
        lemma_count_up(laps, breaks, groups, k);
    }
}

proof fn lemma_count_up(
    laps: Seq<i32>,
    breaks: Seq<bool>,
    groups: Seq<(usize, usize, i32)>,
    k: int,
)
    requires
        lap_groups_spec(laps, breaks, groups),
        forall|i: int| 0 <= i < laps.len() ==> #[trigger] laps[i] <= 0,
        0 <= k < groups.len(),
    ensures
        groups[k].2 == k + 1,
        groups[k].1 <= laps.len(),
    decreases k,
{
    if k > 0 {
        lemma_count_up(laps, breaks, groups, k - 1);
        assert(groups[k - 1].1 == groups[k].0);
        assert(groups[k].0 < groups[k].1);
        lemma_groups_end_bound(laps, breaks, groups, k);
        assert(laps[groups[k].0 as int] <= 0);
    } else {
        assert(laps[0] <= 0);
        lemma_groups_end_bound(laps, breaks, groups, 0);
    }
}

proof fn lemma_groups_end_bound(
    laps: Seq<i32>,
    breaks: Seq<bool>,
    groups: Seq<(usize, usize, i32)>,
    k: int,
)
    requires
        lap_groups_spec(laps, breaks, groups),
        0 <= k < groups.len(),
    ensures
        groups[k].1 <= laps.len(),
    decreases groups.len() - k,
{
    if k < groups.len() - 1 {
        lemma_groups_end_bound(laps, breaks, groups, k + 1);
        assert(groups[k].1 == groups[k + 1].0);
        assert(groups[k + 1].0 < groups[k + 1].1);
    }
}

} // verus!
