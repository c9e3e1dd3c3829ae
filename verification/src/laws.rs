//! Global properties of the settlement engine.

use vstd::prelude::*;

use crate::balance::{
    lemma_nonzero_count_le, lemma_psum_total, net_of, nonzero_count, in_psum, out_psum,
    weight_sum, wf_edges, Edge,
};
use crate::payment::{spec_person_ok, spec_validate};
use crate::person::PersonSpec;

verus! {

/// Zero-sum total: over all participants, the amounts flowing in and the
/// amounts flowing out each add up to the total of all transfer amounts, so
/// the net balances cancel out and no money is created or destroyed.
pub proof fn lemma_zero_sum(es: Seq<Edge>, n: int)
    requires
        wf_edges(es, n),
        n <= usize::MAX as int + 1,
    ensures
        in_psum(es, n) == weight_sum(es),
        out_psum(es, n) == weight_sum(es),
        in_psum(es, n) - out_psum(es, n) == 0,
{
    lemma_psum_total(es, n);
}

/// The validator is a function of the participants and their net balances
/// alone: two transfer lists that leave every participant with the same net
/// balance validate alike. Together with the optimizer's guarantee that it
/// preserves every net balance exactly, the optimized transfers keep every
/// participant within tolerance whenever the unoptimized transfers did.
pub proof fn lemma_validate_depends_on_nets(mem: Seq<PersonSpec>, e1: Seq<Edge>, e2: Seq<Edge>)
    requires
        forall|v: usize| v < mem.len() ==> #[trigger] net_of(e1, v) == net_of(e2, v),
    ensures
        spec_validate(mem, e1) == spec_validate(mem, e2),
{
    assert forall|v: int| 0 <= v < mem.len() implies spec_person_ok(mem, e1, v)
        == spec_person_ok(mem, e2, v) by {
        assert(net_of(e1, v as usize) == net_of(e2, v as usize));
    }
}

/// Balance conservation: when the optimizer preserves every participant's
/// net balance exactly — which its contract guarantees — every transfer
/// list it produces keeps every participant within the validator's
/// tolerance of the even split, provided the list it replaces did. The
/// proviso is necessary: truncating division can push the naive list
/// itself out of tolerance, and no rearrangement of transfers mends that.
pub proof fn lemma_conservation_within_tolerance(
    mem: Seq<PersonSpec>,
    naive: Seq<Edge>,
    opt: Seq<Edge>,
)
    requires
        forall|v: usize| v < mem.len() ==> #[trigger] net_of(naive, v) == net_of(opt, v),
        spec_validate(mem, naive),
    ensures
        spec_validate(mem, opt),
{
    lemma_validate_depends_on_nets(mem, naive, opt);
}

/// Minimality: the settled transfer list is never larger than the naive
/// all-pairs list it replaces, and it is strictly smaller whenever the
/// naive list holds at least as many transfers as there are participants —
/// equality is possible only for the smallest inputs (two participants, or
/// nothing owed at all), where optimization has nothing to improve. The
/// naive builder leaves at least one transfer per participant beyond the
/// first (or none at all), while the optimizer leaves fewer transfers than
/// there were participants with a nonzero balance.
pub proof fn lemma_minimality(es: Seq<Edge>, opt: Seq<Edge>, n: int)
    requires
        wf_edges(es, n),
        0 <= n <= usize::MAX as int + 1,
        es.len() == 0 || es.len() >= n - 1,
        nonzero_count(es, n) == 0 ==> opt.len() == 0,
        nonzero_count(es, n) > 0 ==> opt.len() < nonzero_count(es, n),
    ensures
        opt.len() <= es.len(),
        es.len() == 0 ==> opt.len() == 0,
        es.len() >= n && es.len() > 0 ==> opt.len() < es.len(),
{
    lemma_nonzero_count_le(es, n);
    if es.len() == 0 {
        lemma_nonzero_count_empty(es, n);
    }
}

proof fn lemma_nonzero_count_empty(es: Seq<Edge>, m: int)
    requires
        es.len() == 0,
    ensures
        nonzero_count(es, m) == 0,
    decreases m,
{
    if m > 0 {
        lemma_nonzero_count_empty(es, m - 1);
    }
}

} // verus!
