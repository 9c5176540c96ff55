//! The continuity of a series: its sale windows, in order of start, follow one another with
//! neither gap nor overlap.
use crate::calendar::{day_number, days_between, Date};
use crate::model::{Bond, BondId};
use vstd::prelude::*;

verus! {

/// Two instruments adjacent in order of start whose windows do not meet.
#[derive(Debug)]
pub struct ContinuityError {
    /// The earlier instrument and the end of its sale.
    pub first: BondId,
    pub sale_end: Date,
    /// The later instrument and the start of its sale.
    pub second: BondId,
    pub next_start: Date,
}

pub open spec fn start_of(b: Bond) -> int {
    day_number(b.initial_date)
}

pub open spec fn end_of(b: Bond) -> int {
    day_number(b.sale_end)
}

pub open spec fn all_wf(bonds: Seq<Bond>) -> bool {
    forall|i: int| 0 <= i < bonds.len() ==> (#[trigger] bonds[i]).wf()
}

/// The sale windows tile the calendar: no two start on the same day, none starts within
/// another's window, and each but the latest is followed by one that starts the day after its
/// window ends.
pub open spec fn continuous(bonds: Seq<Bond>) -> bool {
    &&& forall|i: int, j: int|
        0 <= i < bonds.len() && 0 <= j < bonds.len() && i != j ==> start_of(#[trigger] bonds[i]) != start_of(
            #[trigger] bonds[j],
        )
    &&& forall|i: int, j: int|
        0 <= i < bonds.len() && 0 <= j < bonds.len() ==> !(start_of(#[trigger] bonds[i]) < start_of(
            #[trigger] bonds[j],
        ) <= end_of(bonds[i]))
    &&& forall|i: int|
        0 <= i < bonds.len() && (exists|j: int| 0 <= j < bonds.len() && start_of(#[trigger] bonds[j]) > start_of(bonds[i]))
            ==> exists|j: int| 0 <= j < bonds.len() && start_of(#[trigger] bonds[j]) == end_of(#[trigger] bonds[i]) + 1
}

/// `bonds[i]` and `bonds[j]` are adjacent in order of start, and `bonds[j]` does not start the
/// day after the sale of `bonds[i]` ends.
pub open spec fn gap_between(bonds: Seq<Bond>, i: int, j: int) -> bool {
    &&& 0 <= i < bonds.len()
    &&& 0 <= j < bonds.len()
    &&& i != j
    &&& start_of(bonds[i]) <= start_of(bonds[j])
    &&& forall|k: int| 0 <= k < bonds.len() ==> !(start_of(bonds[i]) < start_of(#[trigger] bonds[k]) < start_of(bonds[j]))
    &&& end_of(bonds[i]) + 1 != start_of(bonds[j])
}

/// No gap in `bonds` begins at an earlier start than `bonds[i]`.
pub open spec fn earliest_gap(bonds: Seq<Bond>, i: int) -> bool {
    forall|i2: int, j2: int| #[trigger] gap_between(bonds, i2, j2) ==> start_of(bonds[i]) <= start_of(bonds[i2])
}

/// `e` names the first pair of instruments, in order of start, with a gap between them.
pub open spec fn reports_gap(bonds: Seq<Bond>, e: ContinuityError) -> bool {
    exists|i: int, j: int|
        #[trigger] gap_between(bonds, i, j) && earliest_gap(bonds, i) && e.first@ == bonds[i].id@
            && e.sale_end == bonds[i].sale_end && e.second@ == bonds[j].id@ && e.next_start
            == bonds[j].initial_date
}

/// Along `order` up to position `t`, where all adjacent windows meet, starts ascend strictly.
proof fn lemma_chain_ascends(bonds: Seq<Bond>, order: Seq<usize>, t: int, a: int, b: int)
    requires
        all_wf(bonds),
        sorted_order(bonds, order, bonds.len() as int),
        t < bonds.len(),
        forall|s: int| 0 <= s < t ==> end_of(bonds[#[trigger] order[s] as int]) + 1 == start_of(bonds[order[s + 1] as int]),
        0 <= a < b <= t,
    ensures
        start_of(bonds[order[a] as int]) < start_of(bonds[order[b] as int]),
{
    assert(bonds[order[a] as int].wf());
    assert(end_of(bonds[order[a] as int]) + 1 == start_of(bonds[order[a + 1] as int]));
    if b > a + 1 {
        assert(start_of(bonds[order[a + 1] as int]) <= start_of(bonds[order[b] as int]));
    }
}

/// The first adjacent pair along `order` that does not meet is the earliest gap.
proof fn lemma_first_gap(bonds: Seq<Bond>, order: Seq<usize>, t: int, i2: int, j2: int)
    requires
        all_wf(bonds),
        sorted_order(bonds, order, bonds.len() as int),
        0 <= t < bonds.len() - 1,
        forall|s: int| 0 <= s < t ==> end_of(bonds[#[trigger] order[s] as int]) + 1 == start_of(bonds[order[s + 1] as int]),
        gap_between(bonds, i2, j2),
    ensures
        start_of(bonds[order[t] as int]) <= start_of(bonds[i2]),
{
    let n = bonds.len() as int;
    if start_of(bonds[i2]) < start_of(bonds[order[t] as int]) {
        assert(listed(order, i2));
        let w = choose|w: int| 0 <= w < order.len() && order[w] == i2;
        if w >= t {
            if w > t {
                assert(start_of(bonds[order[t] as int]) <= start_of(bonds[order[w] as int]));
            }
        }
        assert(w < t);
        let k = order[w + 1] as int;
        assert(end_of(bonds[order[w] as int]) + 1 == start_of(bonds[order[w + 1] as int]));
        assert(bonds[i2].wf());
        assert(0 <= k < n);
        assert(!(start_of(bonds[i2]) < start_of(bonds[k]) < start_of(bonds[j2])));
        assert(listed(order, j2));
        let u = choose|u: int| 0 <= u < order.len() && order[u] == j2;
        if start_of(bonds[j2]) > start_of(bonds[i2]) {
            if u < w {
                assert(start_of(bonds[order[u] as int]) <= start_of(bonds[order[w] as int]));
            }
            assert(u != w);
            if u > w + 1 {
                assert(start_of(bonds[order[w + 1] as int]) <= start_of(bonds[order[u] as int]));
            }
        } else {
            if u > t {
                assert(start_of(bonds[order[t] as int]) <= start_of(bonds[order[u] as int]));
            } else if u < w {
                lemma_chain_ascends(bonds, order, t, u, w);
            } else if u > w {
                lemma_chain_ascends(bonds, order, t, w, u);
            }
        }
    }
}

pub open spec fn listed(order: Seq<usize>, k: int) -> bool {
    exists|t: int| 0 <= t < order.len() && order[t] == k
}

/// `order` lists indices of `bonds`, each once, by ascending start.
pub open spec fn sorted_order(bonds: Seq<Bond>, order: Seq<usize>, n: int) -> bool {
    &&& order.len() == n
    &&& forall|t: int| 0 <= t < n ==> (#[trigger] order[t]) < n
    &&& forall|t: int, u: int| 0 <= t < u < n ==> order[t] != order[u]
    &&& forall|k: int| 0 <= k < n ==> #[trigger] listed(order, k)
    &&& forall|t: int, u: int|
        0 <= t < u < n ==> start_of(bonds[#[trigger] order[t] as int]) <= start_of(bonds[#[trigger] order[u] as int])
}

/// The indices of `bonds`, by ascending start.
fn order_by_start(bonds: &Vec<Bond>) -> (order: Vec<usize>)
    requires
        all_wf(bonds@),
    ensures
        sorted_order(bonds@, order@, bonds.len() as int),
{
    let mut order: Vec<usize> = Vec::new();
    let mut i: usize = 0;
    while i < bonds.len()
        invariant
            i <= bonds.len(),
            all_wf(bonds@),
            sorted_order(bonds@, order@, i as int),
        decreases bonds.len() - i,
    {
        assert(bonds@[i as int].wf());
        let mut p: usize = 0;
        while p < order.len() && days_between(bonds[order[p]].initial_date, bonds[i].initial_date) >= 0
            invariant
                p <= order.len(),
                i < bonds.len(),
                all_wf(bonds@),
                sorted_order(bonds@, order@, i as int),
                forall|t: int| 0 <= t < p ==> start_of(bonds@[#[trigger] order@[t] as int]) <= start_of(bonds@[i as int]),
            decreases order.len() - p,
        {
            assert(bonds@[order@[p as int] as int].wf());
            p = p + 1;
        }
        let ghost before = order@;
        order.insert(p, i);
        proof {
            assert(order@ == before.insert(p as int, i));
            assert forall|k: int| 0 <= k < i + 1 implies #[trigger] listed(order@, k) by {
                if k == i {
                    assert(order@[p as int] == k);
                } else {
                    assert(listed(before, k));
                    let t = choose|t: int| 0 <= t < before.len() && before[t] == k;
                    if t < p {
                        assert(order@[t] == k);
                    } else {
                        assert(order@[t + 1] == k);
                    }
                }
            }
            assert forall|t: int, u: int| 0 <= t < u < i + 1 implies start_of(bonds@[#[trigger] order@[t] as int]) <= start_of(
                bonds@[#[trigger] order@[u] as int],
            ) by {
                if u < p {
                } else if u == p {
                    assert(order@[t] == before[t]);
                } else if t < p {
                    assert(order@[u] == before[u - 1]);
                    if p < i {
                        assert(start_of(bonds@[before[p as int] as int]) > start_of(bonds@[i as int]));
                        if u - 1 > p {
                            assert(start_of(bonds@[before[p as int] as int]) <= start_of(bonds@[before[u - 1] as int]));
                        }
                    }
                } else if t == p {
                    assert(order@[u] == before[u - 1]);
                    assert(start_of(bonds@[before[p as int] as int]) > start_of(bonds@[i as int]));
                    if u - 1 > p {
                        assert(start_of(bonds@[before[p as int] as int]) <= start_of(bonds@[before[u - 1] as int]));
                    }
                } else {
                    assert(order@[t] == before[t - 1]);
                    assert(order@[u] == before[u - 1]);
                }
            }
            assert forall|t: int, u: int| 0 <= t < u < i + 1 implies order@[t] != order@[u] by {
                if t < p && u < p {
                } else if t == p {
                    assert(order@[u] == before[u - 1]);
                } else if u == p {
                } else if t < p {
                    assert(order@[u] == before[u - 1]);
                } else {
                    assert(order@[t] == before[t - 1]);
                    assert(order@[u] == before[u - 1]);
                }
            }
        }
        i = i + 1;
    }
    order
}

/// A gap between two instruments adjacent in order of start breaks continuity.
pub proof fn lemma_gap_breaks_continuity(bonds: Seq<Bond>, i: int, j: int)
    requires
        all_wf(bonds),
        gap_between(bonds, i, j),
    ensures
        !continuous(bonds),
{
    assert(bonds[i].wf());
    if continuous(bonds) {
        assert(start_of(bonds[i]) != start_of(bonds[j]));
        assert(exists|k: int| 0 <= k < bonds.len() && start_of(#[trigger] bonds[k]) > start_of(bonds[i]));
        let c = choose|c: int| 0 <= c < bonds.len() && start_of(#[trigger] bonds[c]) == end_of(bonds[i]) + 1;
        assert(!(start_of(bonds[i]) < start_of(bonds[j]) <= end_of(bonds[i])));
        assert(!(start_of(bonds[i]) < start_of(bonds[c]) < start_of(bonds[j])));
    }
}

proof fn lemma_chain_continuous(bonds: Seq<Bond>, order: Seq<usize>)
    requires
        all_wf(bonds),
        sorted_order(bonds, order, bonds.len() as int),
        forall|t: int| 0 <= t < bonds.len() - 1 ==> end_of(bonds[#[trigger] order[t] as int]) + 1 == start_of(bonds[order[t + 1] as int]),
    ensures
        continuous(bonds),
{
    let n = bonds.len() as int;
    assert forall|t: int, u: int| 0 <= t < u < n implies start_of(bonds[order[u] as int]) >= end_of(bonds[#[trigger] order[t] as int]) + 1
        && start_of(bonds[#[trigger] order[u] as int]) > start_of(bonds[order[t] as int]) by {
        assert(bonds[order[t] as int].wf());
        assert(end_of(bonds[order[t] as int]) + 1 == start_of(bonds[order[t + 1] as int]));
        if u > t + 1 {
            assert(start_of(bonds[order[t + 1] as int]) <= start_of(bonds[order[u] as int]));
        }
    }
    assert forall|i: int, j: int| 0 <= i < n && 0 <= j < n && i != j implies start_of(#[trigger] bonds[i]) != start_of(#[trigger] bonds[j]) by {
        assert(listed(order, i));
        assert(listed(order, j));
        let t = choose|t: int| 0 <= t < order.len() && order[t] == i;
        let u = choose|u: int| 0 <= u < order.len() && order[u] == j;
        if t < u {
            assert(start_of(bonds[order[u] as int]) > start_of(bonds[order[t] as int]));
        } else {
            assert(start_of(bonds[order[t] as int]) > start_of(bonds[order[u] as int]));
        }
    }
    assert forall|i: int, j: int| 0 <= i < n && 0 <= j < n implies !(start_of(#[trigger] bonds[i]) < start_of(#[trigger] bonds[j]) <= end_of(bonds[i])) by {
        assert(listed(order, i));
        assert(listed(order, j));
        let t = choose|t: int| 0 <= t < order.len() && order[t] == i;
        let u = choose|u: int| 0 <= u < order.len() && order[u] == j;
        if u < t {
            assert(start_of(bonds[order[t] as int]) > start_of(bonds[order[u] as int]));
        } else if t < u {
            assert(start_of(bonds[order[u] as int]) >= end_of(bonds[order[t] as int]) + 1);
        }
    }
    assert forall|i: int| 0 <= i < n && (exists|j: int| 0 <= j < n && start_of(#[trigger] bonds[j]) > start_of(bonds[i]))
        implies exists|j: int| 0 <= j < n && start_of(#[trigger] bonds[j]) == end_of(#[trigger] bonds[i]) + 1 by {
        assert(listed(order, i));
        let t = choose|t: int| 0 <= t < order.len() && order[t] == i;
        let j = choose|j: int| 0 <= j < n && start_of(#[trigger] bonds[j]) > start_of(bonds[i]);
        assert(listed(order, j));
        let u = choose|u: int| 0 <= u < order.len() && order[u] == j;
        if u < t {
            assert(start_of(bonds[order[t] as int]) > start_of(bonds[order[u] as int]));
        }
        assert(t < n - 1);
        assert(end_of(bonds[order[t] as int]) + 1 == start_of(bonds[order[t + 1] as int]));
        assert(start_of(bonds[order[t + 1] as int as int]) == end_of(bonds[i]) + 1);
    }
}

/// The instruments ascend by start.
pub open spec fn sorted_by_start(bonds: Seq<Bond>) -> bool {
    forall|t: int, u: int| 0 <= t < u < bonds.len() ==> start_of(#[trigger] bonds[t]) <= start_of(#[trigger] bonds[u])
}

pub open spec fn windows_meet(bonds: Seq<Bond>) -> bool {
    forall|t: int| 0 <= t < bonds.len() - 1 ==> end_of(#[trigger] bonds[t]) + 1 == start_of(bonds[t + 1])
}

proof fn lemma_meeting_is_continuous(bonds: Seq<Bond>)
    requires
        all_wf(bonds),
        sorted_by_start(bonds),
        windows_meet(bonds),
    ensures
        continuous(bonds),
{
    let n = bonds.len() as int;
    assert forall|t: int, u: int| 0 <= t < u < n implies start_of(bonds[u]) >= end_of(#[trigger] bonds[t]) + 1
        && start_of(#[trigger] bonds[u]) > start_of(bonds[t]) by {
        assert(bonds[t].wf());
        assert(end_of(bonds[t]) + 1 == start_of(bonds[t + 1]));
        if u > t + 1 {
            assert(start_of(bonds[t + 1]) <= start_of(bonds[u]));
        }
    }
    assert forall|i: int| 0 <= i < n && (exists|j: int| 0 <= j < n && start_of(#[trigger] bonds[j]) > start_of(bonds[i]))
        implies exists|j: int| 0 <= j < n && start_of(#[trigger] bonds[j]) == end_of(#[trigger] bonds[i]) + 1 by {
        let j = choose|j: int| 0 <= j < n && start_of(#[trigger] bonds[j]) > start_of(bonds[i]);
        if j < i {
            assert(start_of(bonds[j]) <= start_of(bonds[i]));
        }
        assert(i < n - 1);
        assert(end_of(bonds[i]) + 1 == start_of(bonds[i + 1]));
    }
}

proof fn lemma_gap_at(bonds: Seq<Bond>, t: int)
    requires
        sorted_by_start(bonds),
        0 <= t < bonds.len() - 1,
        end_of(bonds[t]) + 1 != start_of(bonds[t + 1]),
    ensures
        gap_between(bonds, t, t + 1),
{
    let n = bonds.len() as int;
    assert forall|k: int| 0 <= k < n implies !(start_of(bonds[t]) < start_of(#[trigger] bonds[k]) < start_of(
        bonds[t + 1],
    )) by {
        if k < t {
            assert(start_of(bonds[k]) <= start_of(bonds[t]));
        } else if k > t + 1 {
            assert(start_of(bonds[t + 1]) <= start_of(bonds[k]));
        }
    }
    assert(start_of(bonds[t]) <= start_of(bonds[t + 1]));
}

proof fn lemma_continuous_meets(bonds: Seq<Bond>)
    requires
        all_wf(bonds),
        sorted_by_start(bonds),
        continuous(bonds),
    ensures
        windows_meet(bonds),
{
    assert forall|t: int| 0 <= t < bonds.len() - 1 implies end_of(#[trigger] bonds[t]) + 1 == start_of(bonds[t + 1]) by {
        if end_of(bonds[t]) + 1 != start_of(bonds[t + 1]) {
            lemma_gap_at(bonds, t);
            lemma_gap_breaks_continuity(bonds, t, t + 1);
        }
    }
}

/// For instruments sorted by start, continuity holds exactly when each one's sale ends the day
/// before the next one's starts.
pub proof fn lemma_sorted_continuity(bonds: Seq<Bond>)
    requires
        all_wf(bonds),
        sorted_by_start(bonds),
    ensures
        continuous(bonds) <==> windows_meet(bonds),
{
    if windows_meet(bonds) {
        lemma_meeting_is_continuous(bonds);
    }
    if continuous(bonds) {
        lemma_continuous_meets(bonds);
    }
}

/// Checks that the instruments' sale windows, in order of start, follow one another: each ends
/// the day before the next starts. The error names the first pair in that order that does not:
/// no gap begins at an earlier start.
pub fn validate_continuity(bonds: &Vec<Bond>) -> (r: Result<(), ContinuityError>)
    requires
        all_wf(bonds@),
    ensures
        r is Ok <==> continuous(bonds@),
        r matches Err(e) ==> reports_gap(bonds@, e),
{
    let order = order_by_start(bonds);
    let n = bonds.len();
    let mut t: usize = 0;
    while t + 1 < n
        invariant
            n == bonds.len(),
            t < n || t == 0,
            t <= n,
            all_wf(bonds@),
            sorted_order(bonds@, order@, n as int),
            forall|s: int| 0 <= s < t ==> end_of(bonds@[#[trigger] order@[s] as int]) + 1 == start_of(bonds@[order@[s + 1] as int]),
        decreases n - t,
    {
        let a = &bonds[order[t]];
        let b = &bonds[order[t + 1]];
        assert(a.wf());
        assert(b.wf());
        if days_between(a.sale_end, b.initial_date) != 1 {
            let ghost i = order@[t as int] as int;
            let ghost j = order@[t + 1] as int;
            proof {
                assert forall|k: int| 0 <= k < n implies !(start_of(bonds@[i]) < start_of(#[trigger] bonds@[k]) < start_of(bonds@[j])) by {
                    assert(listed(order@, k));
                    let w = choose|w: int| 0 <= w < order@.len() && order@[w] == k;
                    if w <= t {
                        if w < t {
                            assert(start_of(bonds@[order@[w] as int]) <= start_of(bonds@[order@[t as int] as int]));
                        }
                    } else if w > t + 1 {
                        assert(start_of(bonds@[order@[t + 1] as int]) <= start_of(bonds@[order@[w] as int]));
                    }
                }
                assert(gap_between(bonds@, i, j));
                assert forall|i2: int, j2: int| #[trigger] gap_between(bonds@, i2, j2) implies start_of(bonds@[i])
                    <= start_of(bonds@[i2]) by {
                    lemma_first_gap(bonds@, order@, t as int, i2, j2);
                }
                lemma_gap_breaks_continuity(bonds@, i, j);
            }
            return Err(ContinuityError {
                first: a.id.duplicate(),
                sale_end: a.sale_end,
                second: b.id.duplicate(),
                next_start: b.initial_date,
            });
        }
        t = t + 1;
    }
    proof {
        lemma_chain_continuous(bonds@, order@);
    }
    Ok(())
}

} // verus!
