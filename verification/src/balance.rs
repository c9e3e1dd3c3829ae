//! Net balances of a transfer list.
//!
//! A transfer is a triple `(from, to, weight)` of two node indices and an
//! amount in minor units. These functions define what a node's net balance
//! is — everything flowing in minus everything flowing out — together with
//! the lemmas that relate the sums over a whole transfer list.

use vstd::prelude::*;

verus! {

/// One transfer: payer index, payee index, amount in minor units.
pub type Edge = (usize, usize, i64);

/// What flows into `v` through the transfers of `s`.
pub open spec fn in_of(s: Seq<Edge>, v: usize) -> int
    decreases s.len(),
{
    if s.len() == 0 {
        0
    } else {
        in_of(s.drop_last(), v) + if s.last().1 == v {
            s.last().2 as int
        } else {
            0
        }
    }
}

/// What flows out of `v` through the transfers of `s`.
pub open spec fn out_of(s: Seq<Edge>, v: usize) -> int
    decreases s.len(),
{
    if s.len() == 0 {
        0
    } else {
        out_of(s.drop_last(), v) + if s.last().0 == v {
            s.last().2 as int
        } else {
            0
        }
    }
}

/// The net balance of `v`: received minus paid.
pub open spec fn net_of(s: Seq<Edge>, v: usize) -> int {
    in_of(s, v) - out_of(s, v)
}

/// The sum of all transfer amounts in `s`.
pub open spec fn weight_sum(s: Seq<Edge>) -> int
    decreases s.len(),
{
    if s.len() == 0 {
        0
    } else {
        weight_sum(s.drop_last()) + s.last().2 as int
    }
}

/// A well-formed transfer list over `n` nodes: endpoints in range and
/// distinct, amounts strictly positive.
pub open spec fn wf_edges(s: Seq<Edge>, n: int) -> bool {
    forall|k: int|
        0 <= k < s.len() ==> (#[trigger] s[k]).0 < n && s[k].1 < n && s[k].0 != s[k].1 && s[k].2
            > 0
}

/// No two transfers of `s` share the same ordered (payer, payee) pair.
pub open spec fn distinct_pairs(s: Seq<Edge>) -> bool {
    forall|j: int, k: int|
        0 <= j < k < s.len() ==> ((#[trigger] s[j]).0, s[j].1) != ((#[trigger] s[k]).0, s[k].1)
}

/// The sum of `in_of` over the nodes below `m`.
pub open spec fn in_psum(s: Seq<Edge>, m: int) -> int
    decreases m,
{
    if m <= 0 {
        0
    } else {
        in_psum(s, m - 1) + in_of(s, (m - 1) as usize)
    }
}

/// The sum of `out_of` over the nodes below `m`.
pub open spec fn out_psum(s: Seq<Edge>, m: int) -> int
    decreases m,
{
    if m <= 0 {
        0
    } else {
        out_psum(s, m - 1) + out_of(s, (m - 1) as usize)
    }
}

/// How many nodes below `m` have a nonzero net balance.
pub open spec fn nonzero_count(s: Seq<Edge>, m: int) -> int
    decreases m,
{
    if m <= 0 {
        0
    } else {
        nonzero_count(s, m - 1) + if net_of(s, (m - 1) as usize) != 0 {
            1int
        } else {
            0int
        }
    }
}

/// Taking one more transfer adds its amount to the flows of its endpoints.
pub proof fn lemma_flows_take_succ(s: Seq<Edge>, i: int, v: usize)
    requires
        0 <= i < s.len(),
    ensures
        in_of(s.take(i + 1), v) == in_of(s.take(i), v) + if s[i].1 == v {
            s[i].2 as int
        } else {
            0
        },
        out_of(s.take(i + 1), v) == out_of(s.take(i), v) + if s[i].0 == v {
            s[i].2 as int
        } else {
            0
        },
        weight_sum(s.take(i + 1)) == weight_sum(s.take(i)) + s[i].2 as int,
{
    assert(s.take(i + 1).drop_last() =~= s.take(i));
    assert(s.take(i + 1).last() == s[i]);
}

/// Appending a transfer adds its amount to the flows of its endpoints.
pub proof fn lemma_flows_push(s: Seq<Edge>, e: Edge, v: usize)
    ensures
        in_of(s.push(e), v) == in_of(s, v) + if e.1 == v {
            e.2 as int
        } else {
            0
        },
        out_of(s.push(e), v) == out_of(s, v) + if e.0 == v {
            e.2 as int
        } else {
            0
        },
        weight_sum(s.push(e)) == weight_sum(s) + e.2 as int,
{
    assert(s.push(e).drop_last() =~= s);
}

/// With nonnegative amounts, both flows of a node lie between zero and the
/// total of all amounts.
pub proof fn lemma_flow_bounds(s: Seq<Edge>, v: usize)
    requires
        forall|k: int| 0 <= k < s.len() ==> (#[trigger] s[k]).2 >= 0,
    ensures
        0 <= in_of(s, v) <= weight_sum(s),
        0 <= out_of(s, v) <= weight_sum(s),
    decreases s.len(),
{
    if s.len() > 0 {
        lemma_flow_bounds(s.drop_last(), v);
    }
}

/// Summed over all nodes, the inflows and the outflows each add up to the
/// total of all amounts: money is conserved.
pub proof fn lemma_psum_total(s: Seq<Edge>, n: int)
    requires
        wf_edges(s, n),
        n <= usize::MAX as int + 1,
    ensures
        in_psum(s, n) == weight_sum(s),
        out_psum(s, n) == weight_sum(s),
    decreases s.len(),
{
    if s.len() == 0 {
        lemma_psum_empty(s, n);
    } else {
        let t = s.drop_last();
        let e = s.last();
        assert(wf_edges(t, n)) by {
            assert(forall|k: int| 0 <= k < t.len() ==> t[k] == s[k]);
        }
        lemma_psum_total(t, n);
        lemma_psum_push_one(t, e, n);
        assert(t.push(e) =~= s);
    }
}

proof fn lemma_psum_empty(s: Seq<Edge>, m: int)
    requires
        s.len() == 0,
    ensures
        in_psum(s, m) == 0,
        out_psum(s, m) == 0,
    decreases m,
{
    if m > 0 {
        lemma_psum_empty(s, m - 1);
    }
}

proof fn lemma_psum_push_one(s: Seq<Edge>, e: Edge, m: int)
    requires
        m <= usize::MAX as int + 1,
    ensures
        in_psum(s.push(e), m) == in_psum(s, m) + if (e.1 as int) < m {
            e.2 as int
        } else {
            0
        },
        out_psum(s.push(e), m) == out_psum(s, m) + if (e.0 as int) < m {
            e.2 as int
        } else {
            0
        },
    decreases m,
{
    if m > 0 {
        lemma_psum_push_one(s, e, m - 1);
        lemma_flows_push(s, e, (m - 1) as usize);
    }
}

/// Replacing the transfer at `j` exchanges its contributions for those of
/// the new transfer.
pub proof fn lemma_flows_update(s: Seq<Edge>, j: int, e: Edge, v: usize)
    requires
        0 <= j < s.len(),
    ensures
        in_of(s.update(j, e), v) == in_of(s, v) - (if s[j].1 == v {
            s[j].2 as int
        } else {
            0
        }) + (if e.1 == v {
            e.2 as int
        } else {
            0
        }),
        out_of(s.update(j, e), v) == out_of(s, v) - (if s[j].0 == v {
            s[j].2 as int
        } else {
            0
        }) + (if e.0 == v {
            e.2 as int
        } else {
            0
        }),
        weight_sum(s.update(j, e)) == weight_sum(s) - s[j].2 as int + e.2 as int,
    decreases s.len(),
{
    if j == s.len() - 1 {
        assert(s.update(j, e).drop_last() =~= s.drop_last());
        assert(s.update(j, e).last() == e);
    } else {
        let t = s.drop_last();
        lemma_flows_update(t, j, e, v);
        assert(s.update(j, e).drop_last() =~= t.update(j, e));
        assert(s.update(j, e).last() == s.last());
    }
}

/// With nonnegative amounts, a prefix weighs no more than the whole list.
pub proof fn lemma_weight_sum_take_le(s: Seq<Edge>, i: int)
    requires
        0 <= i <= s.len(),
        forall|k: int| 0 <= k < s.len() ==> (#[trigger] s[k]).2 >= 0,
    ensures
        0 <= weight_sum(s.take(i)) <= weight_sum(s),
    decreases s.len(),
{
    if i == s.len() {
        assert(s.take(i) =~= s);
        lemma_weight_sum_nonneg(s);
    } else {
        let t = s.drop_last();
        assert(forall|k: int| 0 <= k < t.len() ==> t[k] == s[k]);
        assert(s.take(i) =~= t.take(i));
        lemma_weight_sum_take_le(t, i);
        assert(s.last() == s[s.len() - 1]);
    }
}

/// With nonnegative amounts, the total weight is nonnegative.
pub proof fn lemma_weight_sum_nonneg(s: Seq<Edge>)
    requires
        forall|k: int| 0 <= k < s.len() ==> (#[trigger] s[k]).2 >= 0,
    ensures
        weight_sum(s) >= 0,
    decreases s.len(),
{
    if s.len() > 0 {
        let t = s.drop_last();
        assert(forall|k: int| 0 <= k < t.len() ==> t[k] == s[k]);
        lemma_weight_sum_nonneg(t);
        assert(s.last() == s[s.len() - 1]);
    }
}

/// With nonnegative amounts, one transfer weighs no more than the whole list.
pub proof fn lemma_weight_le_sum(s: Seq<Edge>, j: int)
    requires
        0 <= j < s.len(),
        forall|k: int| 0 <= k < s.len() ==> (#[trigger] s[k]).2 >= 0,
    ensures
        s[j].2 <= weight_sum(s),
    decreases s.len(),
{
    let t = s.drop_last();
    assert(forall|k: int| 0 <= k < t.len() ==> t[k] == s[k]);
    assert(s.last() == s[s.len() - 1]);
    if j == s.len() - 1 {
        lemma_weight_sum_nonneg(t);
    } else {
        lemma_weight_le_sum(t, j);
    }
}

/// A node that no transfer touches has no flows.
pub proof fn lemma_flows_untouched(s: Seq<Edge>, v: usize)
    requires
        forall|k: int| 0 <= k < s.len() ==> (#[trigger] s[k]).0 != v && s[k].1 != v,
    ensures
        in_of(s, v) == 0,
        out_of(s, v) == 0,
    decreases s.len(),
{
    if s.len() > 0 {
        let t = s.drop_last();
        assert(forall|k: int| 0 <= k < t.len() ==> t[k] == s[k]);
        lemma_flows_untouched(t, v);
        assert(s.last() == s[s.len() - 1]);
    }
}

/// One work-list entry of the greedy settlement: a remaining magnitude in
/// minor units and the node index it belongs to.
pub type Entry = (i64, usize);

/// The total remaining magnitude recorded for node `v` in `s`.
pub open spec fn mag_at(s: Seq<Entry>, v: usize) -> int
    decreases s.len(),
{
    if s.len() == 0 {
        0
    } else {
        mag_at(s.drop_last(), v) + if s.last().1 == v {
            s.last().0 as int
        } else {
            0
        }
    }
}

/// The sum of all magnitudes in `s`.
pub open spec fn sum_mags(s: Seq<Entry>) -> int
    decreases s.len(),
{
    if s.len() == 0 {
        0
    } else {
        sum_mags(s.drop_last()) + s.last().0 as int
    }
}

/// No node index occurs twice in `s`.
pub open spec fn distinct_idx(s: Seq<Entry>) -> bool {
    forall|j: int, k: int| 0 <= j < k < s.len() ==> (#[trigger] s[j]).1 != (#[trigger] s[k]).1
}

/// Some entry of `s` is for node `v`.
pub open spec fn has_idx(s: Seq<Entry>, v: usize) -> bool {
    exists|k: int| 0 <= k < s.len() && (#[trigger] s[k]).1 == v
}

/// Appending an entry adds its magnitude to its node and to the total.
pub proof fn lemma_mags_push(s: Seq<Entry>, e: Entry, v: usize)
    ensures
        mag_at(s.push(e), v) == mag_at(s, v) + if e.1 == v {
            e.0 as int
        } else {
            0
        },
        sum_mags(s.push(e)) == sum_mags(s) + e.0 as int,
{
    assert(s.push(e).drop_last() =~= s);
}

/// Removing the entry at `i` takes its magnitude away from its node and from
/// the total.
pub proof fn lemma_mags_remove(s: Seq<Entry>, i: int, v: usize)
    requires
        0 <= i < s.len(),
    ensures
        mag_at(s.remove(i), v) == mag_at(s, v) - if s[i].1 == v {
            s[i].0 as int
        } else {
            0
        },
        sum_mags(s.remove(i)) == sum_mags(s) - s[i].0 as int,
    decreases s.len(),
{
    if i == s.len() - 1 {
        assert(s.remove(i) =~= s.drop_last());
    } else {
        let t = s.drop_last();
        lemma_mags_remove(t, i, v);
        assert(s.remove(i).drop_last() =~= t.remove(i));
        assert(s.remove(i).last() == s.last());
    }
}

/// A node with no entry in `s` has no recorded magnitude.
pub proof fn lemma_mag_absent(s: Seq<Entry>, v: usize)
    requires
        !has_idx(s, v),
    ensures
        mag_at(s, v) == 0,
    decreases s.len(),
{
    if s.len() > 0 {
        assert(forall|k: int|
            0 <= k < s.drop_last().len() ==> s.drop_last()[k] == s[k]);
        lemma_mag_absent(s.drop_last(), v);
    }
}

/// When no index repeats, the magnitude recorded for the node of entry `i`
/// is exactly that entry's magnitude.
pub proof fn lemma_mag_unique(s: Seq<Entry>, i: int)
    requires
        0 <= i < s.len(),
        distinct_idx(s),
    ensures
        mag_at(s, s[i].1) == s[i].0 as int,
    decreases s.len(),
{
    let v = s[i].1;
    if i == s.len() - 1 {
        assert(!has_idx(s.drop_last(), v)) by {
            assert(forall|k: int|
                0 <= k < s.drop_last().len() ==> s.drop_last()[k] == s[k]);
        }
        lemma_mag_absent(s.drop_last(), v);
    } else {
        let t = s.drop_last();
        assert(distinct_idx(t) && t[i] == s[i]) by {
            assert(forall|k: int| 0 <= k < t.len() ==> t[k] == s[k]);
        }
        lemma_mag_unique(t, i);
    }
}

/// With positive magnitudes, a nonempty work list has a positive total.
pub proof fn lemma_sum_mags_pos(s: Seq<Entry>)
    requires
        forall|k: int| 0 <= k < s.len() ==> (#[trigger] s[k]).0 > 0,
        s.len() > 0,
    ensures
        sum_mags(s) > 0,
    decreases s.len(),
{
    assert(s.last() == s[s.len() - 1]);
    if s.len() > 1 {
        assert(forall|k: int|
            0 <= k < s.drop_last().len() ==> s.drop_last()[k] == s[k]);
        lemma_sum_mags_pos(s.drop_last());
    } else {
        assert(sum_mags(s.drop_last()) == 0);
    }
}

/// At most `m` of the nodes below `m` carry a nonzero net balance.
pub proof fn lemma_nonzero_count_le(s: Seq<Edge>, m: int)
    requires
        m >= 0,
    ensures
        0 <= nonzero_count(s, m) <= m,
    decreases m,
{
    if m > 0 {
        lemma_nonzero_count_le(s, m - 1);
    }
}

} // verus!
