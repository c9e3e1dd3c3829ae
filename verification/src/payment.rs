//! The settlement graph and its operations.

use vstd::prelude::*;

use petgraph::stable_graph::StableDiGraph;

use crate::balance::{
    distinct_idx, distinct_pairs, has_idx, in_of, in_psum, lemma_flow_bounds, lemma_flows_push,
    lemma_flows_take_succ, lemma_flows_untouched, lemma_flows_update, lemma_mag_absent,
    lemma_mag_unique, lemma_mags_push, lemma_mags_remove, lemma_nonzero_count_le, lemma_psum_total,
    lemma_sum_mags_pos, lemma_weight_le_sum, lemma_weight_sum_take_le, mag_at, net_of,
    nonzero_count, out_of, out_psum, sum_mags, weight_sum, wf_edges, Edge,
};
use crate::graphext::{
    sg_add_edge, sg_add_node, sg_clear_edges, sg_dense, sg_edge_list, sg_edges, sg_new,
    sg_node_count,
};
use crate::money::{div_trunc, Money};
use crate::person::{
    lemma_size_sum_at_least_len, lemma_size_sum_bounds, lemma_spent_sum_bounds,
    lemma_sums_take_succ, size_sum, spec_money_spent, spec_size, spent_sum, Person, PersonSpec,
};

use vstd::arithmetic::div_mod::lemma_fundamental_div_mod;

verus! {

/// One transfer of money between two participants: `from` pays `value` to
/// `to`. A finished transfer has a strictly positive amount and two distinct
/// participants.
#[derive(Debug)]
pub struct Payment {
    pub from: Person,
    pub to: Person,
    pub value: Money,
}

impl Payment {
    /// A transfer of `value` from `from` to `to`.
    pub fn new(from: &Person, to: &Person, value: Money) -> (r: Payment)
        ensures
            r.from@ == from@,
            r.to@ == to@,
            r.value == value,
    {
        Payment { from: from.clone(), to: to.clone(), value }
    }
}

impl Clone for Payment {
    fn clone(&self) -> (r: Self)
        ensures
            r.from@ == self.from@,
            r.to@ == self.to@,
            r.value == self.value,
    {
        Payment { from: self.from.clone(), to: self.to.clone(), value: self.value }
    }
}

/// `acc` extended with `p` unless it already holds it.
pub open spec fn add_member(acc: Seq<PersonSpec>, p: PersonSpec) -> Seq<PersonSpec> {
    if acc.contains(p) {
        acc
    } else {
        acc.push(p)
    }
}

/// The distinct participants appearing in `ps`, in order of first
/// appearance, appended to `acc`.
pub open spec fn collect_members(acc: Seq<PersonSpec>, ps: Seq<Payment>) -> Seq<PersonSpec>
    decreases ps.len(),
{
    if ps.len() == 0 {
        acc
    } else {
        collect_members(
            add_member(add_member(acc, ps.first().from@), ps.first().to@),
            ps.drop_first(),
        )
    }
}

/// The net balance of the participant `mem[v]` under the transfers `ps`:
/// everything received minus everything paid.
pub open spec fn pay_net(ps: Seq<Payment>, mem: Seq<PersonSpec>, v: int) -> int
    decreases ps.len(),
{
    if ps.len() == 0 {
        0
    } else {
        pay_net(ps.drop_last(), mem, v) + (if ps.last().to@ == mem[v] {
            ps.last().value@
        } else {
            0
        }) - (if ps.last().from@ == mem[v] {
            ps.last().value@
        } else {
            0
        })
    }
}

/// The sum of all transfer amounts in `ps`.
pub open spec fn payment_sum(ps: Seq<Payment>) -> int
    decreases ps.len(),
{
    if ps.len() == 0 {
        0
    } else {
        payment_sum(ps.drop_last()) + ps.last().value@
    }
}

/// The total amount the transfers of `ps` move from participant `pa` to
/// participant `pb`.
pub open spec fn pair_sum(ps: Seq<Payment>, pa: PersonSpec, pb: PersonSpec) -> int
    decreases ps.len(),
{
    if ps.len() == 0 {
        0
    } else {
        pair_sum(ps.drop_last(), pa, pb) + if ps.last().from@ == pa && ps.last().to@ == pb {
            ps.last().value@
        } else {
            0
        }
    }
}

proof fn lemma_pair_take_succ(ps: Seq<Payment>, pa: PersonSpec, pb: PersonSpec, i: int)
    requires
        0 <= i < ps.len(),
    ensures
        pair_sum(ps.take(i + 1), pa, pb) == pair_sum(ps.take(i), pa, pb) + if ps[i].from@ == pa
            && ps[i].to@ == pb {
            ps[i].value@
        } else {
            0
        },
{
    assert(ps.take(i + 1).drop_last() =~= ps.take(i));
    assert(ps.take(i + 1).last() == ps[i]);
}

proof fn lemma_pair_sum_absent(ps: Seq<Payment>, pa: PersonSpec, pb: PersonSpec)
    requires
        forall|k: int|
            0 <= k < ps.len() ==> !((#[trigger] ps[k]).from@ == pa && ps[k].to@ == pb),
    ensures
        pair_sum(ps, pa, pb) == 0,
    decreases ps.len(),
{
    if ps.len() > 0 {
        assert(forall|k: int| 0 <= k < ps.drop_last().len() ==> ps.drop_last()[k] == ps[k]);
        lemma_pair_sum_absent(ps.drop_last(), pa, pb);
        assert(ps.last() == ps[ps.len() - 1]);
    }
}

/// Whether one participant's final position is close enough to the even
/// split: their final balance per person — what they spent, plus what they
/// still pay, minus what they receive, divided over their group — may
/// differ from the even share by at most half a minor unit per person
/// overall, and at least one hundredth of a currency unit.
pub open spec fn spec_person_ok(mem: Seq<PersonSpec>, es: Seq<Edge>, v: int) -> bool {
    let people = size_sum(mem);
    let each = div_trunc(spent_sum(mem), people);
    let fb = div_trunc(
        spec_money_spent(mem[v]) + out_of(es, v as usize) - in_of(es, v as usize),
        spec_size(mem[v]) as int,
    );
    let diff = if each - fb < 0 {
        fb - each
    } else {
        each - fb
    };
    2 * diff <= (if people > 20 {
        people
    } else {
        20
    })
}

/// Whether the transfers settle the group within tolerance: every
/// participant's final balance agrees with the even split, as
/// `spec_person_ok` says. A group with nobody in it is trivially settled.
pub open spec fn spec_validate(mem: Seq<PersonSpec>, es: Seq<Edge>) -> bool {
    if size_sum(mem) <= 0 {
        true
    } else {
        forall|v: int| 0 <= v < mem.len() ==> spec_person_ok(mem, es, v)
    }
}

/// The transfers owed to creditor `c` by the participants below `j`:
/// each debtor other than the creditor owes the creditor's per-person share
/// once for every person the debtor stands for.
pub open spec fn naive_row(mem: Seq<PersonSpec>, c: int, share: int, j: int) -> Seq<
    (int, int, int),
>
    decreases j,
{
    if j <= 0 {
        Seq::empty()
    } else {
        naive_row(mem, c, share, j - 1) + (if j - 1 == c {
            Seq::empty()
        } else {
            seq![(j - 1, c, share * spec_size(mem[j - 1]) as int)]
        })
    }
}

/// The all-pairs debt list over the creditors below `i`: every participant
/// whose spend divides to a positive per-person share (spend over total
/// headcount, truncated) is owed one row of transfers.
pub open spec fn naive_edges(mem: Seq<PersonSpec>, total: int, i: int) -> Seq<(int, int, int)>
    decreases i,
{
    if i <= 0 {
        Seq::empty()
    } else {
        naive_edges(mem, total, i - 1) + (if spec_money_spent(mem[i - 1]) / total > 0 {
            naive_row(mem, i - 1, spec_money_spent(mem[i - 1]) / total, mem.len() as int)
        } else {
            Seq::empty()
        })
    }
}

/// Edge-by-edge correspondence between stored transfers and their
/// mathematical description.
pub open spec fn edges_match(es: Seq<Edge>, t: Seq<(int, int, int)>) -> bool {
    &&& es.len() == t.len()
    &&& forall|k: int|
        0 <= k < es.len() ==> (#[trigger] es[k]).0 == t[k].0 && es[k].1 == t[k].1 && es[k].2
            == t[k].2
}

/// What flows into `v` through a list of abstract transfers.
pub open spec fn in3(t: Seq<(int, int, int)>, v: int) -> int
    decreases t.len(),
{
    if t.len() == 0 {
        0
    } else {
        in3(t.drop_last(), v) + if t.last().1 == v {
            t.last().2
        } else {
            0
        }
    }
}

/// What flows out of `v` through a list of abstract transfers.
pub open spec fn out3(t: Seq<(int, int, int)>, v: int) -> int
    decreases t.len(),
{
    if t.len() == 0 {
        0
    } else {
        out3(t.drop_last(), v) + if t.last().0 == v {
            t.last().2
        } else {
            0
        }
    }
}

/// The sum of the positive per-person shares of the creditors below `i`.
pub open spec fn shares_sum(mem: Seq<PersonSpec>, total: int, i: int) -> int
    decreases i,
{
    if i <= 0 {
        0
    } else {
        shares_sum(mem, total, i - 1) + if spec_money_spent(mem[i - 1]) / total > 0 {
            spec_money_spent(mem[i - 1]) / total
        } else {
            0
        }
    }
}

proof fn lemma_match_flows(es: Seq<Edge>, t: Seq<(int, int, int)>, v: usize)
    requires
        edges_match(es, t),
    ensures
        in_of(es, v) == in3(t, v as int),
        out_of(es, v) == out3(t, v as int),
    decreases es.len(),
{
    if es.len() > 0 {
        assert(edges_match(es.drop_last(), t.drop_last())) by {
            assert(forall|k: int| 0 <= k < es.len() - 1 ==> (#[trigger] es.drop_last()[k])
                == es[k] && t.drop_last()[k] == t[k]);
        }
        lemma_match_flows(es.drop_last(), t.drop_last(), v);
        assert(es.last() == es[es.len() - 1] && t.last() == t[t.len() - 1]);
    }
}

proof fn lemma_flows3_concat(a: Seq<(int, int, int)>, b: Seq<(int, int, int)>, v: int)
    ensures
        in3(a + b, v) == in3(a, v) + in3(b, v),
        out3(a + b, v) == out3(a, v) + out3(b, v),
    decreases b.len(),
{
    if b.len() == 0 {
        assert(a + b =~= a);
    } else {
        assert((a + b).drop_last() =~= a + b.drop_last());
        assert((a + b).last() == b.last());
        lemma_flows3_concat(a, b.drop_last(), v);
    }
}

proof fn lemma_flows3_push(t: Seq<(int, int, int)>, x: (int, int, int), v: int)
    ensures
        in3(t.push(x), v) == in3(t, v) + if x.1 == v {
            x.2
        } else {
            0
        },
        out3(t.push(x), v) == out3(t, v) + if x.0 == v {
            x.2
        } else {
            0
        },
{
    assert(t.push(x).drop_last() =~= t);
}

proof fn lemma_row_flows(mem: Seq<PersonSpec>, c: int, share: int, j: int, v: int)
    requires
        0 <= j <= mem.len(),
        0 <= c < mem.len(),
    ensures
        in3(naive_row(mem, c, share, j), v) == if v == c {
            share * (size_sum(mem.take(j)) - (if c < j {
                spec_size(mem[c]) as int
            } else {
                0
            }))
        } else {
            0
        },
        out3(naive_row(mem, c, share, j), v) == if 0 <= v < j && v != c {
            share * spec_size(mem[v]) as int
        } else {
            0
        },
    decreases j,
{
    if j > 0 {
        lemma_row_flows(mem, c, share, j - 1, v);
        lemma_sums_take_succ(mem, j - 1);
        let r0 = naive_row(mem, c, share, j - 1);
        let w: int = spec_size(mem[j - 1]) as int;
        let a0 = size_sum(mem.take(j - 1));
        if j - 1 == c {
            assert(naive_row(mem, c, share, j) =~= r0);
            if v == c {
                assert(size_sum(mem.take(j)) - w == a0);
                assert(in3(r0, v) == share * a0);
                assert(share * (size_sum(mem.take(j)) - w) == share * a0);
            }
        } else {
            let x = (j - 1, c, share * w);
            assert(naive_row(mem, c, share, j) =~= r0.push(x));
            lemma_flows3_push(r0, x, v);
            if v == c {
                let sub: int = if c < j - 1 {
                    spec_size(mem[c]) as int
                } else {
                    0
                };
                assert((if c < j {
                    spec_size(mem[c]) as int
                } else {
                    0
                }) == sub);
                assert(in3(naive_row(mem, c, share, j), v) == share * (a0 - sub) + share * w);
                assert(share * (a0 + w - sub) == share * (a0 - sub) + share * w)
                    by (nonlinear_arith);
                assert(size_sum(mem.take(j)) == a0 + w);
            }
        }
    } else {
        assert(mem.take(0) =~= Seq::<PersonSpec>::empty());
        assert(share * 0 == 0) by (nonlinear_arith);
    }
}

proof fn lemma_naive_flows(mem: Seq<PersonSpec>, total: int, i: int, v: int)
    requires
        0 <= i <= mem.len(),
        0 <= v < mem.len(),
    ensures
        in3(naive_edges(mem, total, i), v) == (if v < i && spec_money_spent(mem[v]) / total > 0 {
            (spec_money_spent(mem[v]) / total) * (size_sum(mem) - spec_size(mem[v]) as int)
        } else {
            0
        }),
        out3(naive_edges(mem, total, i), v) == spec_size(mem[v]) as int * (shares_sum(
            mem,
            total,
            i,
        ) - (if v < i && spec_money_spent(mem[v]) / total > 0 {
            spec_money_spent(mem[v]) / total
        } else {
            0
        })),
    decreases i,
{
    if i > 0 {
        lemma_naive_flows(mem, total, i - 1, v);
        let e0 = naive_edges(mem, total, i - 1);
        let s = spec_money_spent(mem[i - 1]) / total;
        let wv: int = spec_size(mem[v]) as int;
        let s0 = shares_sum(mem, total, i - 1);
        let gv: int = if v < i - 1 && spec_money_spent(mem[v]) / total > 0 {
            spec_money_spent(mem[v]) / total
        } else {
            0
        };
        if s > 0 {
            let row = naive_row(mem, i - 1, s, mem.len() as int);
            lemma_flows3_concat(e0, row, v);
            lemma_row_flows(mem, i - 1, s, mem.len() as int, v);
            assert(mem.take(mem.len() as int) =~= mem);
            if v == i - 1 {
                assert(wv * (s0 + s - s) == wv * s0) by (nonlinear_arith);
            } else {
                assert(out3(row, v) == s * wv);
                assert(s * wv == wv * s) by (nonlinear_arith);
                assert(wv * (s0 + s - gv) == wv * (s0 - gv) + wv * s) by (nonlinear_arith);
            }
        } else {
            assert(naive_edges(mem, total, i) =~= e0);
        }
    } else {
        assert(shares_sum(mem, total, 0) == 0);
        assert(spec_size(mem[v]) as int * 0 == 0) by (nonlinear_arith);
    }
}

/// The exact net balance the naive debt graph leaves each participant:
/// their own truncated per-person share times the full headcount, minus
/// their weight times the sum of everyone's shares. In particular a
/// participant who spent exactly their group's even portion nets zero.
pub proof fn lemma_naive_net(mem: Seq<PersonSpec>, total: int, es: Seq<Edge>, v: int)
    requires
        edges_match(es, naive_edges(mem, total, mem.len() as int)),
        0 <= v < mem.len(),
        mem.len() <= usize::MAX,
        total > 0,
        forall|k: int| 0 <= k < mem.len() ==> spec_money_spent(#[trigger] mem[k]) >= 0,
    ensures
        net_of(es, v as usize) == (spec_money_spent(mem[v]) / total) * size_sum(mem) - spec_size(
            mem[v],
        ) as int * shares_sum(mem, total, mem.len() as int),
{
    let t = naive_edges(mem, total, mem.len() as int);
    lemma_match_flows(es, t, v as usize);
    lemma_naive_flows(mem, total, mem.len() as int, v);
    let s = spec_money_spent(mem[v]) / total;
    let wv: int = spec_size(mem[v]) as int;
    let sw = size_sum(mem);
    let ss = shares_sum(mem, total, mem.len() as int);
    assert(s >= 0) by {
        vstd::arithmetic::div_mod::lemma_fundamental_div_mod(spec_money_spent(mem[v]), total);
        vstd::arithmetic::div_mod::lemma_mod_division_less_than_divisor(
            spec_money_spent(mem[v]),
            total,
        );
        if s < 0 {
            assert(total * s <= -total) by (nonlinear_arith)
                requires total >= 1 && s <= -1;
        }
    }
    if s > 0 {
        assert(s * (sw - wv) - wv * (ss - s) == s * sw - wv * ss) by (nonlinear_arith);
    } else {
        assert(0 * sw == 0) by (nonlinear_arith);
    }
}

proof fn lemma_naive_len_below(mem: Seq<PersonSpec>, total: int, i: int)
    requires
        0 <= i <= mem.len(),
        forall|c: int| 0 <= c < i ==> spec_money_spent(#[trigger] mem[c]) / total > 0,
    ensures
        naive_edges(mem, total, i).len() == i * (mem.len() as int - 1),
    decreases i,
{
    if i > 0 {
        lemma_naive_len_below(mem, total, i - 1);
        lemma_naive_row_len(mem, i - 1, spec_money_spent(mem[i - 1]) / total, mem.len() as int);
        assert(i * (mem.len() as int - 1) == (i - 1) * (mem.len() as int - 1) + (mem.len() as int
            - 1)) by (nonlinear_arith);
    } else {
        assert(0 * (mem.len() as int - 1) == 0) by (nonlinear_arith);
    }
}

/// When every participant's truncated even share is positive, the naive
/// debt graph is the full all-pairs set: one transfer per ordered pair of
/// distinct participants, and `naive_edges` itself gives each transfer's
/// amount as the creditor's share times the debtor's size.
pub proof fn lemma_naive_full_count(mem: Seq<PersonSpec>, total: int)
    requires
        forall|c: int| 0 <= c < mem.len() ==> spec_money_spent(#[trigger] mem[c]) / total > 0,
    ensures
        naive_edges(mem, total, mem.len() as int).len() == mem.len() * (mem.len() as int - 1),
{
    lemma_naive_len_below(mem, total, mem.len() as int);
}

/// A full row reaches every participant but the creditor once.
proof fn lemma_naive_row_len(mem: Seq<PersonSpec>, c: int, share: int, j: int)
    requires
        0 <= j,
        0 <= c,
    ensures
        naive_row(mem, c, share, j).len() == if j <= c {
            j
        } else {
            j - 1
        },
    decreases j,
{
    if j > 0 {
        lemma_naive_row_len(mem, c, share, j - 1);
    }
}

/// Every transfer of a row points at its creditor and comes from an
/// earlier, different debtor.
proof fn lemma_row_shape(mem: Seq<PersonSpec>, c: int, share: int, j: int)
    requires
        j >= 0,
    ensures
        forall|k: int|
            0 <= k < naive_row(mem, c, share, j).len() ==> (#[trigger] naive_row(
                mem,
                c,
                share,
                j,
            )[k]).1 == c && 0 <= naive_row(mem, c, share, j)[k].0 < j && naive_row(
                mem,
                c,
                share,
                j,
            )[k].0 != c,
    decreases j,
{
    if j > 0 {
        lemma_row_shape(mem, c, share, j - 1);
        let r0 = naive_row(mem, c, share, j - 1);
        let r1 = naive_row(mem, c, share, j);
        assert forall|k: int| 0 <= k < r1.len() implies (#[trigger] r1[k]).1 == c && 0 <= r1[k].0
            < j && r1[k].0 != c by {
            if k < r0.len() {
                assert(r1[k] == r0[k]);
            }
        }
    }
}

/// Every transfer of the debt list below creditor `i` points at a creditor
/// below `i`.
proof fn lemma_naive_shape(mem: Seq<PersonSpec>, total: int, i: int)
    requires
        i >= 0,
    ensures
        forall|k: int|
            0 <= k < naive_edges(mem, total, i).len() ==> 0 <= (#[trigger] naive_edges(
                mem,
                total,
                i,
            )[k]).1 < i,
    decreases i,
{
    if i > 0 {
        lemma_naive_shape(mem, total, i - 1);
        lemma_row_shape(mem, i - 1, spec_money_spent(mem[i - 1]) / total, mem.len() as int);
        let e0 = naive_edges(mem, total, i - 1);
        let e1 = naive_edges(mem, total, i);
        assert forall|k: int| 0 <= k < e1.len() implies 0 <= (#[trigger] e1[k]).1 < i by {
            if k < e0.len() {
                assert(e1[k] == e0[k]);
            } else {
                let row = naive_row(mem, i - 1, spec_money_spent(mem[i - 1]) / total, mem.len() as int);
                assert(e1[k] == row[k - e0.len()]);
            }
        }
    }
}

proof fn lemma_collect_push(acc: Seq<PersonSpec>, s: Seq<Payment>, x: Payment)
    ensures
        collect_members(acc, s.push(x)) == add_member(
            add_member(collect_members(acc, s), x.from@),
            x.to@,
        ),
    decreases s.len(),
{
    let t = s.push(x);
    if s.len() == 0 {
        assert(t.first() == x);
        assert(t.drop_first() =~= Seq::<Payment>::empty());
        let acc2 = add_member(add_member(acc, x.from@), x.to@);
        assert(collect_members(acc, t) == collect_members(acc2, t.drop_first()));
        assert(collect_members(acc2, t.drop_first()) == acc2);
        assert(collect_members(acc, s) == acc);
    } else {
        let acc2 = add_member(add_member(acc, s.first().from@), s.first().to@);
        assert(t.first() == s.first());
        assert(t.drop_first() =~= s.drop_first().push(x));
        assert(collect_members(acc, t) == collect_members(acc2, t.drop_first()));
        lemma_collect_push(acc2, s.drop_first(), x);
        assert(collect_members(acc, s) == collect_members(acc2, s.drop_first()));
    }
}

proof fn lemma_collect_keeps(acc: Seq<PersonSpec>, s: Seq<Payment>, p: PersonSpec)
    requires
        acc.contains(p),
    ensures
        collect_members(acc, s).contains(p),
    decreases s.len(),
{
    if s.len() > 0 {
        let acc2 = add_member(add_member(acc, s.first().from@), s.first().to@);
        assert(acc2.contains(p)) by {
            if !acc.contains(s.first().from@) {
                assert(acc.push(s.first().from@)[acc.index_of(p)] == p);
            }
            let acc1 = add_member(acc, s.first().from@);
            if !acc1.contains(s.first().to@) {
                assert(acc1.push(s.first().to@)[acc1.index_of(p)] == p);
            }
        }
        lemma_collect_keeps(acc2, s.drop_first(), p);
    }
}

proof fn lemma_collect_has_endpoints(acc: Seq<PersonSpec>, s: Seq<Payment>, k: int)
    requires
        0 <= k < s.len(),
    ensures
        collect_members(acc, s).contains(s[k].from@),
        collect_members(acc, s).contains(s[k].to@),
    decreases s.len(),
{
    let acc1 = add_member(acc, s.first().from@);
    let acc2 = add_member(acc1, s.first().to@);
    if k == 0 {
        assert(acc1.contains(s.first().from@)) by {
            if !acc.contains(s.first().from@) {
                assert(acc.push(s.first().from@).last() == s.first().from@);
            }
        }
        assert(acc2.contains(s.first().from@)) by {
            if !acc1.contains(s.first().to@) {
                assert(acc1.push(s.first().to@)[acc1.index_of(s.first().from@)] == s[0].from@);
            }
        }
        assert(acc2.contains(s.first().to@)) by {
            if !acc1.contains(s.first().to@) {
                assert(acc1.push(s.first().to@).last() == s.first().to@);
            }
        }
        lemma_collect_keeps(acc2, s.drop_first(), s[0].from@);
        lemma_collect_keeps(acc2, s.drop_first(), s[0].to@);
    } else {
        lemma_collect_has_endpoints(acc2, s.drop_first(), k - 1);
        assert(s.drop_first()[k - 1] == s[k]);
    }
}

proof fn lemma_pay_net_absent(ps: Seq<Payment>, mem: Seq<PersonSpec>, v: int)
    requires
        forall|k: int|
            0 <= k < ps.len() ==> (#[trigger] ps[k]).from@ != mem[v] && ps[k].to@ != mem[v],
    ensures
        pay_net(ps, mem, v) == 0,
    decreases ps.len(),
{
    if ps.len() > 0 {
        assert(forall|k: int| 0 <= k < ps.drop_last().len() ==> ps.drop_last()[k] == ps[k]);
        lemma_pay_net_absent(ps.drop_last(), mem, v);
        assert(ps.last() == ps[ps.len() - 1]);
    }
}

proof fn lemma_pay_net_mem(
    ps: Seq<Payment>,
    mem1: Seq<PersonSpec>,
    mem2: Seq<PersonSpec>,
    v1: int,
    v2: int,
)
    requires
        0 <= v1 < mem1.len(),
        0 <= v2 < mem2.len(),
        mem1[v1] == mem2[v2],
    ensures
        pay_net(ps, mem1, v1) == pay_net(ps, mem2, v2),
    decreases ps.len(),
{
    if ps.len() > 0 {
        lemma_pay_net_mem(ps.drop_last(), mem1, mem2, v1, v2);
    }
}

proof fn lemma_pay_take_succ(ps: Seq<Payment>, mem: Seq<PersonSpec>, i: int, v: int)
    requires
        0 <= i < ps.len(),
    ensures
        pay_net(ps.take(i + 1), mem, v) == pay_net(ps.take(i), mem, v) + (if ps[i].to@ == mem[v] {
            ps[i].value@
        } else {
            0
        }) - (if ps[i].from@ == mem[v] {
            ps[i].value@
        } else {
            0
        }),
        payment_sum(ps.take(i + 1)) == payment_sum(ps.take(i)) + ps[i].value@,
{
    assert(ps.take(i + 1).drop_last() =~= ps.take(i));
    assert(ps.take(i + 1).last() == ps[i]);
}

proof fn lemma_payment_sum_take_le(ps: Seq<Payment>, i: int)
    requires
        0 <= i <= ps.len(),
        forall|k: int| 0 <= k < ps.len() ==> (#[trigger] ps[k]).value@ >= 0,
    ensures
        payment_sum(ps.take(i)) <= payment_sum(ps),
    decreases ps.len(),
{
    if i == ps.len() {
        assert(ps.take(i) =~= ps);
    } else {
        let t = ps.drop_last();
        assert(forall|k: int| 0 <= k < t.len() ==> t[k] == ps[k]);
        assert(ps.take(i) =~= t.take(i));
        lemma_payment_sum_take_le(t, i);
        assert(ps.last() == ps[ps.len() - 1]);
    }
}

/// The settlement graph: the participants of one settlement run and the
/// transfers still pending between them.
pub struct Payments {
    persons: Vec<Person>,
    graph: StableDiGraph<(), i64>,
}

impl Payments {
    /// The participants of the graph, one node each, in insertion order.
    pub closed spec fn members(&self) -> Seq<PersonSpec> {
        self.persons@.map_values(|p: Person| p@)
    }

    /// The pending transfers, as (payer node, payee node, minor units).
    pub closed spec fn edges(&self) -> Seq<Edge> {
        sg_edges(self.graph)
    }

    /// Well-formedness: the graph matches the participant arena, every
    /// transfer joins two distinct existing participants with a positive
    /// amount, each ordered pair carries at most one transfer, participants
    /// are distinct and stand for at least one person each, and the total of
    /// all amounts is representable.
    pub closed spec fn wf(&self) -> bool {
        &&& sg_dense(self.graph)
        &&& sg_node_count(self.graph) == self.persons@.len()
        &&& self.persons@.len() < 0xFFFF_FFFE
        &&& wf_edges(self.edges(), self.members().len() as int)
        &&& distinct_pairs(self.edges())
        &&& weight_sum(self.edges()) <= i64::MAX
        &&& forall|j: int, k: int|
            0 <= j < k < self.members().len() ==> self.members()[j] != self.members()[k]
        &&& forall|j: int| 0 <= j < self.members().len() ==> spec_size(#[trigger] self.members()[j]) >= 1
    }

    /// Builds the graph of `payments`: one node per distinct participant in
    /// order of first appearance, and one edge per ordered (payer, payee)
    /// pair, transfers of the same pair coalesced by summing their amounts.
    pub fn new(payments: &Vec<Payment>) -> (r: Payments)
        requires
            forall|k: int|
                0 <= k < payments@.len() ==> (#[trigger] payments@[k]).value@ > 0
                    && payments@[k].from@ != payments@[k].to@ && spec_size(payments@[k].from@) >= 1
                    && spec_size(payments@[k].to@) >= 1,
            payment_sum(payments@) <= i64::MAX,
            payments@.len() < 0x3FFF_FFFF,
        ensures
            r.wf(),
            r.members() == collect_members(Seq::<PersonSpec>::empty(), payments@),
            forall|v: usize|
                v < r.members().len() ==> #[trigger] net_of(r.edges(), v) == pay_net(
                    payments@,
                    r.members(),
                    v as int,
                ),
            weight_sum(r.edges()) == payment_sum(payments@),
            r.edges().len() <= payments@.len(),
            forall|k: int|
                0 <= k < r.edges().len() ==> (#[trigger] r.edges()[k]).2 as int == pair_sum(
                    payments@,
                    r.members()[r.edges()[k].0 as int],
                    r.members()[r.edges()[k].1 as int],
                ),
            forall|j: int|
                0 <= j < payments@.len() ==> exists|k: int|
                    #![trigger r.edges()[k]]
                    0 <= k < r.edges().len() && r.members()[r.edges()[k].0 as int] == (
                    #[trigger] payments@[j]).from@ && r.members()[r.edges()[k].1 as int]
                        == payments@[j].to@,
    {
        let ghost ps = payments@;
        let mut persons: Vec<Person> = Vec::new();
        let mut acc: Vec<Edge> = Vec::new();

        assert(ps.take(0) =~= Seq::<Payment>::empty());

        let mut i: usize = 0;
        while i < payments.len()
            invariant
                i <= ps.len(),
                ps == payments@,
                forall|k: int|
                    0 <= k < ps.len() ==> (#[trigger] ps[k]).value@ > 0 && ps[k].from@ != ps[k].to@
                        && spec_size(ps[k].from@) >= 1 && spec_size(ps[k].to@) >= 1,
                payment_sum(ps) <= i64::MAX,
                ps.len() < 0x3FFF_FFFF,
                persons@.len() <= 2 * i,
                persons@.map_values(|p: Person| p@) == collect_members(
                    Seq::<PersonSpec>::empty(),
                    ps.take(i as int),
                ),
                forall|j: int, k: int|
                    0 <= j < k < persons@.len() ==> (#[trigger] persons@[j])@ != (
                    #[trigger] persons@[k])@,
                forall|j: int| 0 <= j < persons@.len() ==> spec_size((#[trigger] persons@[j])@) >= 1,
                wf_edges(acc@, persons@.len() as int),
                distinct_pairs(acc@),
                weight_sum(acc@) == payment_sum(ps.take(i as int)),
                acc@.len() <= i,
                forall|v: usize|
                    v < persons@.len() ==> #[trigger] net_of(acc@, v) == pay_net(
                        ps.take(i as int),
                        persons@.map_values(|p: Person| p@),
                        v as int,
                    ),
                forall|k: int|
                    0 <= k < acc@.len() ==> (#[trigger] acc@[k]).2 as int == pair_sum(
                        ps.take(i as int),
                        persons@.map_values(|p: Person| p@)[acc@[k].0 as int],
                        persons@.map_values(|p: Person| p@)[acc@[k].1 as int],
                    ),
                forall|j: int|
                    0 <= j < i ==> exists|k: int|
                        #![trigger acc@[k]]
                        0 <= k < acc@.len() && persons@.map_values(|p: Person| p@)[acc@[k].0 as int]
                            == (#[trigger] ps[j]).from@ && persons@.map_values(
                            |p: Person| p@,
                        )[acc@[k].1 as int] == ps[j].to@,
            decreases ps.len() - i,
        {
            let ghost acc0 = acc@;
            let ghost persons0 = persons@;
            let ghost mem0 = persons@.map_values(|q: Person| q@);
            let p = &payments[i];
            let fi = find_or_insert(&mut persons, &p.from);
            let ghost mem1 = persons@.map_values(|q: Person| q@);
            let ti = find_or_insert(&mut persons, &p.to);
            let ghost mem2 = persons@.map_values(|q: Person| q@);

            proof {
                assert(mem2[fi as int] == p.from@ && mem2[ti as int] == p.to@);
                assert(fi != ti);
                assert forall|v: int| mem0.len() <= v < mem2.len() implies !mem0.contains(
                    #[trigger] mem2[v],
                ) by {
                    if mem1.len() > mem0.len() {
                        assert(mem1 == mem0.push(p.from@) && !mem0.contains(p.from@));
                    } else {
                        assert(mem1 == mem0);
                    }
                    if mem2.len() > mem1.len() {
                        assert(mem2 == mem1.push(p.to@) && !mem1.contains(p.to@));
                        if mem0.contains(p.to@) {
                            let k = choose|k: int| 0 <= k < mem0.len() && mem0[k] == p.to@;
                            assert(mem1[k] == p.to@);
                            assert(mem1.contains(p.to@));
                        }
                    } else {
                        assert(mem2 == mem1);
                    }
                }
                assert forall|j: int, k: int| 0 <= j < k < mem2.len() implies #[trigger] mem2[j]
                    != #[trigger] mem2[k] by {
                    if j < mem0.len() && k < mem0.len() {
                        assert(mem2[j] == mem0[j] && mem2[k] == mem0[k]);
                        assert(mem0[j] == persons0[j]@ && mem0[k] == persons0[k]@);
                    } else {
                        if mem1.len() > mem0.len() {
                            assert(mem1 == mem0.push(p.from@) && !mem0.contains(p.from@));
                        } else {
                            assert(mem1 == mem0);
                        }
                        if mem2.len() > mem1.len() {
                            assert(mem2 == mem1.push(p.to@) && !mem1.contains(p.to@));
                        } else {
                            assert(mem2 == mem1);
                        }
                        assert(forall|a: int| 0 <= a < mem0.len() ==> mem2[a] == mem0[a]);
                        if k < mem0.len() {
                        } else if k < mem1.len() {
                            assert(mem2[k] == p.from@);
                            assert(mem0[j] != p.from@);
                        } else {
                            assert(mem2[k] == p.to@);
                            if j < mem1.len() && j >= mem0.len() {
                                assert(mem2[j] == p.from@ && p.from@ != p.to@);
                            } else {
                                assert(mem1[j] != p.to@);
                            }
                        }
                    }
                }
                assert forall|j: int, k: int| 0 <= j < k < persons@.len() implies (
                #[trigger] persons@[j])@ != (#[trigger] persons@[k])@ by {
                    assert(persons@[j]@ == mem2[j] && persons@[k]@ == mem2[k]);
                }
                assert forall|j: int| 0 <= j < persons@.len() implies spec_size(
                    (#[trigger] persons@[j])@,
                ) >= 1 by {
                    assert(persons@[j]@ == mem2[j]);
                    if j < mem0.len() {
                        assert(mem2[j] == mem0[j] && mem0[j] == persons0[j]@);
                    } else {
                        assert(mem2[j] == p.from@ || mem2[j] == p.to@);
                    }
                }
                // first appearances were no endpoint of an earlier transfer,
                // so the net invariant extends to the grown arena
                assert forall|v: usize| mem0.len() <= v < mem2.len() implies #[trigger] net_of(
                    acc0,
                    v,
                ) == pay_net(ps.take(i as int), mem2, v as int) by {
                    assert(!mem0.contains(mem2[v as int]));
                    assert forall|k: int| 0 <= k < i implies (#[trigger] ps[k]).from@ != mem2[
                        v as int] && ps[k].to@ != mem2[v as int] by {
                        lemma_collect_has_endpoints(
                            Seq::<PersonSpec>::empty(),
                            ps.take(i as int),
                            k,
                        );
                        assert(ps.take(i as int)[k] == ps[k]);
                    }
                    lemma_member_fresh(ps, i as int, mem2, v as int);
                    assert forall|k: int| 0 <= k < acc0.len() implies (#[trigger] acc0[k]).0 != v
                        && acc0[k].1 != v by {}
                    lemma_flows_untouched(acc0, v);
                }
                assert forall|v: usize| v < mem0.len() implies #[trigger] net_of(acc0, v)
                    == pay_net(ps.take(i as int), mem2, v as int) by {
                    assert(mem2[v as int] == mem0[v as int]);
                    lemma_pay_net_mem(ps.take(i as int), mem0, mem2, v as int, v as int);
                }
                assert(collect_members(Seq::<PersonSpec>::empty(), ps.take(i + 1)) == add_member(
                    add_member(mem0, p.from@),
                    p.to@,
                )) by {
                    assert(ps.take(i + 1) =~= ps.take(i as int).push(ps[i as int]));
                    lemma_collect_push(Seq::<PersonSpec>::empty(), ps.take(i as int), ps[i as int]);
                }
            }

            let w = p.value.raw();
            proof {
                lemma_payment_sum_take_le(ps, i + 1);
                lemma_pay_take_succ(ps, mem2, i as int, 0);
                // the pair bookkeeping carries over to the grown arena
                assert forall|k: int| 0 <= k < acc0.len() implies (#[trigger] acc0[k]).2 as int
                    == pair_sum(
                    ps.take(i as int),
                    mem2[acc0[k].0 as int],
                    mem2[acc0[k].1 as int],
                ) by {
                    assert(mem2[acc0[k].0 as int] == mem0[acc0[k].0 as int]);
                    assert(mem2[acc0[k].1 as int] == mem0[acc0[k].1 as int]);
                }
                assert forall|j2: int| 0 <= j2 < i implies exists|k: int|
                    #![trigger acc0[k]]
                    0 <= k < acc0.len() && mem2[acc0[k].0 as int] == (#[trigger] ps[j2]).from@
                        && mem2[acc0[k].1 as int] == ps[j2].to@ by {
                    let k = choose|k: int|
                        #![trigger acc0[k]]
                        0 <= k < acc0.len() && mem0[acc0[k].0 as int] == ps[j2].from@ && mem0[
                            acc0[k].1 as int
                        ] == ps[j2].to@;
                    assert(mem2[acc0[k].0 as int] == mem0[acc0[k].0 as int]);
                    assert(mem2[acc0[k].1 as int] == mem0[acc0[k].1 as int]);
                }
            }
            let jopt = find_pair(&acc, fi, ti);
            match jopt {
                Some(j) => {
                    proof {
                        lemma_weight_le_sum(acc@, j as int);
                    }
                    let cur = acc[j];
                    let e: Edge = (fi, ti, cur.2 + w);
                    acc[j] = e;
                    proof {
                        assert forall|v: usize| true implies net_of(acc@, v) == net_of(acc0, v)
                            + (if ti == v {
                            w as int
                        } else {
                            0
                        }) - (if fi == v {
                            w as int
                        } else {
                            0
                        }) by {
                            lemma_flows_update(acc0, j as int, e, v);
                        }
                        lemma_flows_update(acc0, j as int, e, 0);
                        assert(weight_sum(acc@) == weight_sum(acc0) + w as int);
                        // the matched pair absorbs the payment; others keep
                        // their sums
                        assert(acc0[j as int].0 == fi && acc0[j as int].1 == ti);
                        assert forall|k: int| 0 <= k < acc@.len() implies (
                        #[trigger] acc@[k]).2 as int == pair_sum(
                            ps.take(i + 1),
                            mem2[acc@[k].0 as int],
                            mem2[acc@[k].1 as int],
                        ) by {
                            lemma_pair_take_succ(
                                ps,
                                mem2[acc@[k].0 as int],
                                mem2[acc@[k].1 as int],
                                i as int,
                            );
                            if k == j as int {
                                assert(acc@[k] == e);
                                assert(cur.2 as int == pair_sum(
                                    ps.take(i as int),
                                    mem2[fi as int],
                                    mem2[ti as int],
                                ));
                            } else {
                                assert(acc@[k] == acc0[k]);
                                assert(!(acc0[k].0 == fi && acc0[k].1 == ti));
                                if acc0[k].0 != fi {
                                    assert(mem2[acc0[k].0 as int] != mem2[fi as int]);
                                } else {
                                    assert(mem2[acc0[k].1 as int] != mem2[ti as int]);
                                }
                            }
                        }
                        assert forall|j2: int| 0 <= j2 < i + 1 implies exists|k: int|
                            #![trigger acc@[k]]
                            0 <= k < acc@.len() && mem2[acc@[k].0 as int] == (
                            #[trigger] ps[j2]).from@ && mem2[acc@[k].1 as int] == ps[j2].to@ by {
                            if j2 == i {
                                assert(acc@[j as int].0 == fi && acc@[j as int].1 == ti);
                            } else {
                                let k = choose|k: int|
                                    #![trigger acc0[k]]
                                    0 <= k < acc0.len() && mem2[acc0[k].0 as int] == ps[j2].from@
                                        && mem2[acc0[k].1 as int] == ps[j2].to@;
                                assert(acc@[k].0 == acc0[k].0 && acc@[k].1 == acc0[k].1);
                            }
                        }
                    }
                },
                None => {
                    acc.push((fi, ti, w));
                    proof {
                        assert forall|v: usize| true implies net_of(acc@, v) == net_of(acc0, v)
                            + (if ti == v {
                            w as int
                        } else {
                            0
                        }) - (if fi == v {
                            w as int
                        } else {
                            0
                        }) by {
                            lemma_flows_push(acc0, (fi, ti, w), v);
                        }
                        lemma_flows_push(acc0, (fi, ti, w), 0);
                        assert(weight_sum(acc@) == weight_sum(acc0) + w as int);
                        // a fresh pair: no earlier payment used it, or an
                        // edge for it would already stand
                        assert forall|j2: int| 0 <= j2 < i implies !((#[trigger] ps[j2]).from@
                            == p.from@ && ps[j2].to@ == p.to@) by {
                            if ps[j2].from@ == p.from@ && ps[j2].to@ == p.to@ {
                                let k = choose|k: int|
                                    #![trigger acc0[k]]
                                    0 <= k < acc0.len() && mem2[acc0[k].0 as int] == ps[j2].from@
                                        && mem2[acc0[k].1 as int] == ps[j2].to@;
                                assert(acc0[k].0 == fi) by {
                                    if acc0[k].0 != fi {
                                        assert(mem2[acc0[k].0 as int] != mem2[fi as int]);
                                    }
                                }
                                assert(acc0[k].1 == ti) by {
                                    if acc0[k].1 != ti {
                                        assert(mem2[acc0[k].1 as int] != mem2[ti as int]);
                                    }
                                }
                            }
                        }
                        assert(pair_sum(ps.take(i as int), p.from@, p.to@) == 0) by {
                            assert forall|k: int| 0 <= k < ps.take(i as int).len() implies !((
                            #[trigger] ps.take(i as int)[k]).from@ == p.from@ && ps.take(
                                i as int,
                            )[k].to@ == p.to@) by {
                                assert(ps.take(i as int)[k] == ps[k]);
                            }
                            lemma_pair_sum_absent(ps.take(i as int), p.from@, p.to@);
                        }
                        assert forall|k: int| 0 <= k < acc@.len() implies (
                        #[trigger] acc@[k]).2 as int == pair_sum(
                            ps.take(i + 1),
                            mem2[acc@[k].0 as int],
                            mem2[acc@[k].1 as int],
                        ) by {
                            lemma_pair_take_succ(
                                ps,
                                mem2[acc@[k].0 as int],
                                mem2[acc@[k].1 as int],
                                i as int,
                            );
                            if k < acc0.len() {
                                assert(acc@[k] == acc0[k]);
                                assert(!(acc0[k].0 == fi && acc0[k].1 == ti));
                                if acc0[k].0 != fi {
                                    assert(mem2[acc0[k].0 as int] != mem2[fi as int]);
                                } else {
                                    assert(mem2[acc0[k].1 as int] != mem2[ti as int]);
                                }
                            } else {
                                assert(acc@[k] == (fi, ti, w));
                            }
                        }
                        assert forall|j2: int| 0 <= j2 < i + 1 implies exists|k: int|
                            #![trigger acc@[k]]
                            0 <= k < acc@.len() && mem2[acc@[k].0 as int] == (
                            #[trigger] ps[j2]).from@ && mem2[acc@[k].1 as int] == ps[j2].to@ by {
                            if j2 == i {
                                assert(acc@[acc@.len() - 1] == (fi, ti, w));
                            } else {
                                let k = choose|k: int|
                                    #![trigger acc0[k]]
                                    0 <= k < acc0.len() && mem2[acc0[k].0 as int] == ps[j2].from@
                                        && mem2[acc0[k].1 as int] == ps[j2].to@;
                                assert(acc@[k] == acc0[k]);
                            }
                        }
                    }
                },
            }

            proof {
                assert forall|v: usize| v < mem2.len() implies #[trigger] net_of(acc@, v)
                    == pay_net(ps.take(i + 1), mem2, v as int) by {
                    lemma_pay_take_succ(ps, mem2, i as int, v as int);
                    assert(ti == v <==> ps[i as int].to@ == mem2[v as int]);
                    assert(fi == v <==> ps[i as int].from@ == mem2[v as int]);
                }
            }

            i = i + 1;
        }

        proof {
            assert(ps.take(ps.len() as int) =~= ps);
        }

        let graph = assemble(persons.len(), &acc);
        Payments { persons, graph }
    }

    /// The naive all-pairs debt graph of `persons`: every participant with
    /// a positive truncated even share (spend over total headcount) is owed
    /// that share by each other participant, once per person the debtor
    /// stands for. Participants whose share truncates to zero are owed
    /// nothing. One node per participant, in input order.
    pub fn from_persons(persons: &Vec<Person>) -> (r: Payments)
        requires
            forall|j: int, k: int|
                0 <= j < k < persons@.len() ==> (#[trigger] persons@[j])@ != (
                #[trigger] persons@[k])@,
            forall|k: int| 0 <= k < persons@.len() ==> spec_size((#[trigger] persons@[k])@) >= 1,
            forall|k: int|
                0 <= k < persons@.len() ==> spec_money_spent((#[trigger] persons@[k])@) >= 0,
            spent_sum(persons@.map_values(|p: Person| p@)) <= i64::MAX,
            size_sum(persons@.map_values(|p: Person| p@)) <= 0xFFFF_FFFF,
            persons@.len() <= 0xFFFF,
        ensures
            r.wf(),
            r.members() == persons@.map_values(|p: Person| p@),
            edges_match(
                r.edges(),
                naive_edges(r.members(), size_sum(r.members()), r.members().len() as int),
            ),
            r.edges().len() == 0 || r.edges().len() >= persons@.len() - 1,
    {
        let ghost mem = persons@.map_values(|p: Person| p@);
        let n = persons.len();

        // total headcount
        let mut total: u64 = 0;
        let mut j: usize = 0;
        proof {
            assert(mem.take(0) =~= Seq::<PersonSpec>::empty());
        }
        while j < n
            invariant
                j <= n,
                n == persons@.len(),
                mem == persons@.map_values(|p: Person| p@),
                forall|k: int| 0 <= k < mem.len() ==> spec_size(#[trigger] mem[k]) >= 1,
                size_sum(mem) <= 0xFFFF_FFFF,
                total == size_sum(mem.take(j as int)),
            decreases n - j,
        {
            proof {
                lemma_sums_take_succ(mem, j as int);
                lemma_size_sum_bounds(mem, j + 1);
            }
            let sz = persons[j].size();
            total = total + (sz as u64);
            j = j + 1;
        }
        proof {
            assert(mem.take(n as int) =~= mem);
        }

        let mut acc: Vec<Edge> = Vec::new();
        let mut c: usize = 0;
        proof {
            assert(mem.take(0) =~= Seq::<PersonSpec>::empty());
        }
        while c < n
            invariant
                c <= n,
                n == persons@.len(),
                n <= 0xFFFF,
                mem == persons@.map_values(|p: Person| p@),
                forall|k: int| 0 <= k < mem.len() ==> spec_size(#[trigger] mem[k]) >= 1,
                forall|k: int| 0 <= k < mem.len() ==> spec_money_spent(#[trigger] mem[k]) >= 0,
                spent_sum(mem) <= i64::MAX,
                size_sum(mem) <= 0xFFFF_FFFF,
                total == size_sum(mem),
                wf_edges(acc@, n as int),
                distinct_pairs(acc@),
                edges_match(acc@, naive_edges(mem, total as int, c as int)),
                weight_sum(acc@) <= spent_sum(mem.take(c as int)),
                acc@.len() <= (c as int) * (n as int),
                acc@.len() == 0 || acc@.len() >= n - 1,
            decreases n - c,
        {
            let ghost acc_c = acc@;
            proof {
                lemma_size_sum_at_least_len(mem);
                lemma_sums_take_succ(mem, c as int);
                lemma_spent_sum_bounds(mem, c + 1);
                lemma_spent_sum_bounds(mem, c as int);
            }
            let spent = persons[c].money_spent();
            let share = spent.div_by(total as u32);
            let sraw = share.raw();
            proof {
                lemma_fundamental_div_mod(spent@, total as int);
                vstd::arithmetic::div_mod::lemma_mod_division_less_than_divisor(
                    spent@,
                    total as int,
                );
                assert(share@ == spent@ / total as int);
                assert(spent@ == (total as int) * share@ + spent@ % (total as int));
                assert(share@ * (total as int) == (total as int) * share@) by (nonlinear_arith);
                assert(share@ * (total as int) <= spent@);
                assert(share@ >= 0) by {
                    if share@ < 0 {
                        assert((total as int) * share@ <= -(total as int)) by (nonlinear_arith)
                            requires total as int >= 1 && share@ <= -1;
                    }
                }
            }
            if sraw > 0 {
                let ghost share_g = share@;
                let mut d: usize = 0;
                proof {
                    assert(naive_row(mem, c as int, share_g, 0) == Seq::<(int, int, int)>::empty());
                }
                while d < n
                    invariant
                        d <= n,
                        c < n,
                        n == persons@.len(),
                        n <= 0xFFFF,
                        mem == persons@.map_values(|p: Person| p@),
                        forall|k: int| 0 <= k < mem.len() ==> spec_size(#[trigger] mem[k]) >= 1,
                        forall|k: int|
                            0 <= k < mem.len() ==> spec_money_spent(#[trigger] mem[k]) >= 0,
                        spent_sum(mem) <= i64::MAX,
                        size_sum(mem) <= 0xFFFF_FFFF,
                        total == size_sum(mem),
                        1 <= share_g,
                        share_g == share@,
                        share@ == spec_money_spent(mem[c as int]) / total as int,
                        share_g * (total as int) <= spec_money_spent(mem[c as int]),
                        spec_money_spent(mem[c as int]) <= spent_sum(mem),
                        wf_edges(acc@, n as int),
                        distinct_pairs(acc@),
                        edges_match(
                            acc@,
                            naive_edges(mem, total as int, c as int) + naive_row(
                                mem,
                                c as int,
                                share_g,
                                d as int,
                            ),
                        ),
                        weight_sum(acc@) <= spent_sum(mem.take(c as int)) + share_g * size_sum(
                            mem.take(d as int),
                        ),
                        acc@.len() == acc_c.len() + naive_row(mem, c as int, share_g, d as int).len(),
                        acc_c.len() <= (c as int) * (n as int),
                    decreases n - d,
                {
                    let ghost acc_d = acc@;
                    proof {
                        lemma_sums_take_succ(mem, d as int);
                        lemma_size_sum_bounds(mem, d as int);
                        lemma_size_sum_bounds(mem, d + 1);
                        lemma_naive_row_len(mem, c as int, share_g, d + 1);
                        lemma_naive_row_len(mem, c as int, share_g, d as int);
                    }
                    if d != c {
                        let sz = persons[d].size();
                        proof {
                            assert(spec_size(mem[d as int]) <= size_sum(mem));
                            assert(share_g * (sz as int) <= share_g * (total as int))
                                by (nonlinear_arith)
                                requires sz as int <= total as int && share_g >= 0;
                            assert(share_g * (sz as int) >= share_g) by (nonlinear_arith)
                                requires sz as int >= 1 && share_g >= 0;
                            assert(share_g * (size_sum(mem.take(d as int)) + spec_size(
                                mem[d as int],
                            ) as int) == share_g * size_sum(mem.take(d as int)) + share_g
                                * spec_size(mem[d as int]) as int) by (nonlinear_arith);
                        }
                        let amount = share.times(sz as u32);
                        let e: Edge = (d, c, amount.raw());
                        acc.push(e);
                        proof {
                            lemma_flows_push(acc_d, e, 0);
                            assert(sz as int == spec_size(mem[d as int]) as int);
                            assert(weight_sum(acc@) == weight_sum(acc_d) + share_g * spec_size(
                                mem[d as int],
                            ) as int);
                            assert(size_sum(mem.take(d + 1)) == size_sum(mem.take(d as int))
                                + spec_size(mem[d as int]) as int);
                            assert(weight_sum(acc@) <= spent_sum(mem.take(c as int)) + share_g
                                * size_sum(mem.take(d + 1)));
                            assert(naive_row(mem, c as int, share_g, d + 1) =~= naive_row(
                                mem,
                                c as int,
                                share_g,
                                d as int,
                            ) + seq![(d as int, c as int, share_g * spec_size(mem[d as int]) as int)]);
                            assert(edges_match(
                                acc@,
                                naive_edges(mem, total as int, c as int) + naive_row(
                                    mem,
                                    c as int,
                                    share_g,
                                    d + 1,
                                ),
                            ));
                            assert(distinct_pairs(acc@)) by {
                                lemma_row_shape(mem, c as int, share_g, d as int);
                                lemma_naive_shape(mem, total as int, c as int);
                                assert forall|k: int| 0 <= k < acc_d.len() implies !((
                                #[trigger] acc_d[k]).0 == d && acc_d[k].1 == c) by {
                                    let t = naive_edges(mem, total as int, c as int) + naive_row(
                                        mem,
                                        c as int,
                                        share_g,
                                        d as int,
                                    );
                                    assert(acc_d[k].0 == t[k].0 && acc_d[k].1 == t[k].1);
                                }
                            }
                        }
                    } else {
                        proof {
                            assert(naive_row(mem, c as int, share_g, d + 1) =~= naive_row(
                                mem,
                                c as int,
                                share_g,
                                d as int,
                            ));
                            assert(share_g * size_sum(mem.take(d + 1)) >= share_g * size_sum(
                                mem.take(d as int),
                            )) by (nonlinear_arith)
                                requires
                                    share_g >= 0,
                                    size_sum(mem.take(d + 1)) >= size_sum(mem.take(d as int)),
                            ;
                        }
                    }
                    d = d + 1;
                }
                proof {
                    assert(mem.take(n as int) =~= mem);
                    lemma_naive_row_len(mem, c as int, share_g, n as int);
                    assert(naive_edges(mem, total as int, c + 1) == naive_edges(
                        mem,
                        total as int,
                        c as int,
                    ) + naive_row(mem, c as int, share_g, mem.len() as int));
                    assert(((c as int) + 1) * (n as int) == (c as int) * (n as int) + n as int)
                        by (nonlinear_arith);
                }
            } else {
                proof {
                    assert(naive_edges(mem, total as int, c + 1) =~= naive_edges(
                        mem,
                        total as int,
                        c as int,
                    ));
                    assert(((c as int) + 1) * (n as int) >= (c as int) * (n as int))
                        by (nonlinear_arith)
                        requires n >= 0;
                }
            }
            c = c + 1;
        }
        proof {
            assert(mem.take(n as int) =~= mem);
            assert((n as int) * (n as int) < 0xFFFF_FFFE) by (nonlinear_arith)
                requires n <= 0xFFFF;
        }

        let graph = assemble(n, &acc);
        let r = Payments { persons: clone_persons(persons), graph };
        proof {
            assert(r.members() =~= mem);
        }
        r
    }

    /// All participants of the graph, in node order.
    pub fn get_persons(&self) -> (r: Vec<Person>)
        ensures
            r@.len() == self.members().len(),
            forall|j: int| 0 <= j < r@.len() ==> (#[trigger] r@[j])@ == self.members()[j],
    {
        let mut r: Vec<Person> = Vec::new();
        let mut j: usize = 0;
        while j < self.persons.len()
            invariant
                j <= self.persons@.len(),
                r@.len() == j,
                forall|k: int| 0 <= k < j ==> (#[trigger] r@[k])@ == self.members()[k],
            decreases self.persons@.len() - j,
        {
            r.push(self.persons[j].clone());
            j = j + 1;
        }
        r
    }

    /// The graph is well formed: every transfer joins two distinct existing
    /// participants with a positive amount, no ordered pair carries two
    /// transfers, the participants are pairwise distinct and each stands
    /// for at least one person, and the total amount is representable.
    pub proof fn lemma_wf_exposed(&self)
        requires
            self.wf(),
        ensures
            wf_edges(self.edges(), self.members().len() as int),
            distinct_pairs(self.edges()),
            weight_sum(self.edges()) <= i64::MAX,
            forall|j: int, k: int|
                0 <= j < k < self.members().len() ==> self.members()[j] != self.members()[k],
            forall|j: int|
                0 <= j < self.members().len() ==> spec_size(#[trigger] self.members()[j]) >= 1,
    {
    }

    /// The pending transfers as a list of payments between participants.
    /// No payment is a self-transfer and every amount is positive.
    pub fn to_vec(&self) -> (r: Vec<Payment>)
        requires
            self.wf(),
        ensures
            r@.len() == self.edges().len(),
            forall|k: int|
                0 <= k < r@.len() ==> (#[trigger] r@[k]).from@ == self.members()[self.edges()[k].0 as int]
                    && r@[k].to@ == self.members()[self.edges()[k].1 as int] && r@[k].value@
                    == self.edges()[k].2 as int,
            forall|k: int|
                0 <= k < r@.len() ==> (#[trigger] r@[k]).from@ != r@[k].to@ && r@[k].value@ > 0,
    {
        let list = sg_edge_list(&self.graph);
        let mut r: Vec<Payment> = Vec::new();
        let mut k: usize = 0;
        while k < list.len()
            invariant
                k <= list@.len(),
                list@ == self.edges(),
                self.wf(),
                r@.len() == k,
                forall|m: int|
                    0 <= m < k ==> (#[trigger] r@[m]).from@ == self.members()[self.edges()[m].0 as int]
                        && r@[m].to@ == self.members()[self.edges()[m].1 as int] && r@[m].value@
                        == self.edges()[m].2 as int,
                forall|m: int|
                    0 <= m < k ==> (#[trigger] r@[m]).from@ != r@[m].to@ && r@[m].value@ > 0,
            decreases list@.len() - k,
        {
            let e = list[k];
            proof {
                let a = e.0 as int;
                let b = e.1 as int;
                assert(self.members()[a] != self.members()[b]) by {
                    if a < b {
                        assert(0 <= a < b < self.members().len());
                    } else {
                        assert(0 <= b < a < self.members().len());
                    }
                }
            }
            let p = Payment::new(&self.persons[e.0], &self.persons[e.1], Money::from_raw(e.2));
            r.push(p);
            k = k + 1;
        }
        r
    }

    /// Replaces the pending transfers with a small equivalent set, found by
    /// greedy largest-debtor / largest-creditor matching on net balances;
    /// among equal magnitudes the participant added first is taken, so the
    /// outcome is deterministic.
    ///
    /// Every participant keeps exactly the same net balance, the total
    /// amount transferred does not grow, and fewer transfers remain than
    /// there were participants with a nonzero balance.
    pub fn optimize(&mut self)
        requires
            old(self).wf(),
        ensures
            final(self).wf(),
            final(self).members() == old(self).members(),
            forall|v: usize|
                v < final(self).members().len() ==> #[trigger] net_of(final(self).edges(), v)
                    == net_of(old(self).edges(), v),
            weight_sum(final(self).edges()) <= weight_sum(old(self).edges()),
            nonzero_count(old(self).edges(), old(self).members().len() as int) == 0
                ==> final(self).edges().len() == 0,
            nonzero_count(old(self).edges(), old(self).members().len() as int) > 0
                ==> final(self).edges().len() < nonzero_count(
                old(self).edges(),
                old(self).members().len() as int,
            ),
            forall|j: int, k: int|
                0 <= j < final(self).edges().len() && 0 <= k < final(self).edges().len()
                    ==> (#[trigger] final(self).edges()[j]).0
                    != (#[trigger] final(self).edges()[k]).1,
    {
        let n = self.persons.len();
        let ghost orig = self.edges();
        let ghost nn = n as int;
        proof {
            lemma_psum_total(orig, nn);
            lemma_nonzero_count_le(orig, nn);
        }
        let list = sg_edge_list(&self.graph);

        // net balance pass, in integer minor units
        let mut bal: Vec<i64> = Vec::new();
        let mut v0: usize = 0;
        while v0 < n
            invariant
                v0 <= n,
                bal@.len() == v0,
                forall|u: usize| u < v0 ==> bal@[u as int] == 0i64,
            decreases n - v0,
        {
            bal.push(0i64);
            v0 = v0 + 1;
        }
        proof {
            assert(orig.take(0) =~= Seq::<Edge>::empty());
        }
        let mut i: usize = 0;
        while i < list.len()
            invariant
                i <= list@.len(),
                list@ == orig,
                wf_edges(orig, nn),
                weight_sum(orig) <= i64::MAX,
                nn <= usize::MAX as int,
                bal@.len() == nn,
                forall|u: usize| u < nn ==> bal@[u as int] == net_of(orig.take(i as int), u),
            decreases list@.len() - i,
        {
            let e = list[i];
            let ghost t1 = orig.take(i + 1);
            proof {
                assert(e == orig[i as int]);
                assert(e.0 < nn && e.1 < nn && e.0 != e.1 && e.2 > 0);
                assert(forall|k: int| 0 <= k < t1.len() ==> (#[trigger] t1[k]).2 >= 0);
                lemma_weight_sum_take_le(orig, i + 1);
                lemma_flow_bounds(t1, e.0);
                lemma_flow_bounds(t1, e.1);
                assert forall|u: usize| u < nn implies net_of(t1, u) == net_of(
                    orig.take(i as int),
                    u,
                ) + (if e.1 == u {
                    e.2 as int
                } else {
                    0
                }) - (if e.0 == u {
                    e.2 as int
                } else {
                    0
                }) by {
                    lemma_flows_take_succ(orig, i as int, u);
                }
            }
            let x = bal[e.1];
            proof {
                assert(x == net_of(orig.take(i as int), e.1));
                assert(x + e.2 == net_of(t1, e.1));
                assert(-(i64::MAX as int) <= net_of(t1, e.1) <= i64::MAX as int);
            }
            bal[e.1] = x + e.2;
            let y = bal[e.0];
            proof {
                assert(y == net_of(orig.take(i as int), e.0));
                assert(y - e.2 == net_of(t1, e.0));
                assert(-(i64::MAX as int) <= net_of(t1, e.0) <= i64::MAX as int);
            }
            bal[e.0] = y - e.2;
            i = i + 1;
        }
        proof {
            assert(orig.take(orig.len() as int) =~= orig);
        }

        // split into debtors and creditors by the sign of the balance
        let mut debtors: Vec<(i64, usize)> = Vec::new();
        let mut creditors: Vec<(i64, usize)> = Vec::new();
        let mut v: usize = 0;
        while v < n
            invariant
                v <= n,
                nn == n as int,
                wf_edges(orig, nn),
                weight_sum(orig) <= i64::MAX,
                nn <= usize::MAX as int,
                in_psum(orig, nn) == weight_sum(orig),
                out_psum(orig, nn) == weight_sum(orig),
                bal@.len() == nn,
                forall|u: usize| u < nn ==> bal@[u as int] == net_of(orig, u),
                forall|k: int|
                    0 <= k < debtors@.len() ==> (#[trigger] debtors@[k]).0 > 0 && debtors@[k].1
                        < v && net_of(orig, debtors@[k].1) == -(debtors@[k].0 as int),
                forall|k: int|
                    0 <= k < creditors@.len() ==> (#[trigger] creditors@[k]).0 > 0
                        && creditors@[k].1 < v && net_of(orig, creditors@[k].1) == creditors@[k].0
                        as int,
                distinct_idx(debtors@),
                distinct_idx(creditors@),
                forall|u: usize|
                    #![trigger mag_at(creditors@, u)]
                    #![trigger mag_at(debtors@, u)]
                    u < nn ==> mag_at(creditors@, u) - mag_at(debtors@, u) == (if u < v {
                        net_of(orig, u)
                    } else {
                        0
                    }),
                sum_mags(creditors@) - sum_mags(debtors@) == in_psum(orig, v as int) - out_psum(
                    orig,
                    v as int,
                ),
                sum_mags(debtors@) <= out_psum(orig, v as int),
                sum_mags(creditors@) <= in_psum(orig, v as int),
                debtors@.len() + creditors@.len() == nonzero_count(orig, v as int),
            decreases n - v,
        {
            let ghost d0 = debtors@;
            let ghost c0 = creditors@;
            let b = bal[v];
            proof {
                lemma_flow_bounds(orig, v);
                assert(b == net_of(orig, v));
                assert(-(i64::MAX as int) <= b as int <= i64::MAX as int);
                assert(!has_idx(d0, v) && !has_idx(c0, v));
                lemma_mag_absent(d0, v);
                lemma_mag_absent(c0, v);
            }
            if b < 0 {
                let ent = (-b, v);
                debtors.push(ent);
                proof {
                    assert forall|u: usize| u < nn implies mag_at(debtors@, u) == mag_at(d0, u)
                        + (if u == v {
                        -(b as int)
                    } else {
                        0
                    }) by {
                        lemma_mags_push(d0, ent, u);
                    }
                    lemma_mags_push(d0, ent, v);
                }
            } else if b > 0 {
                let ent = (b, v);
                creditors.push(ent);
                proof {
                    assert forall|u: usize| u < nn implies mag_at(creditors@, u) == mag_at(c0, u)
                        + (if u == v {
                        b as int
                    } else {
                        0
                    }) by {
                        lemma_mags_push(c0, ent, u);
                    }
                    lemma_mags_push(c0, ent, v);
                }
            }
            v = v + 1;
        }

        let ghost nzc0 = nonzero_count(orig, nn);

        // settle: repeatedly match the largest debtor with the largest
        // creditor and transfer the smaller of the two magnitudes
        let mut pays: Vec<Edge> = Vec::new();
        while debtors.len() > 0 && creditors.len() > 0
            invariant
                nzc0 == nonzero_count(orig, nn),
                0 <= nzc0 <= nn,
                wf_edges(orig, nn),
                weight_sum(orig) <= i64::MAX,
                nn <= usize::MAX as int,
                out_psum(orig, nn) == weight_sum(orig),
                forall|k: int|
                    0 <= k < debtors@.len() ==> (#[trigger] debtors@[k]).0 > 0 && debtors@[k].1
                        < nn && net_of(orig, debtors@[k].1) < 0,
                forall|k: int|
                    0 <= k < creditors@.len() ==> (#[trigger] creditors@[k]).0 > 0
                        && creditors@[k].1 < nn && net_of(orig, creditors@[k].1) > 0,
                distinct_idx(debtors@),
                distinct_idx(creditors@),
                forall|u: usize|
                    u < nn ==> net_of(pays@, u) + mag_at(creditors@, u) - mag_at(debtors@, u)
                        == #[trigger] net_of(orig, u),
                sum_mags(debtors@) == sum_mags(creditors@),
                sum_mags(debtors@) + weight_sum(pays@) <= weight_sum(orig),
                wf_edges(pays@, nn),
                distinct_pairs(pays@),
                forall|k: int|
                    0 <= k < pays@.len() ==> net_of(orig, (#[trigger] pays@[k]).0) < 0 && net_of(
                        orig,
                        pays@[k].1,
                    ) > 0,
                forall|k: int|
                    0 <= k < pays@.len() ==> !(has_idx(debtors@, (#[trigger] pays@[k]).0)
                        && has_idx(creditors@, pays@[k].1)),
                pays@.len() + debtors@.len() + creditors@.len() <= nzc0,
                debtors@.len() + creditors@.len() == 0 && pays@.len() > 0 ==> pays@.len() < nzc0,
            decreases debtors@.len() + creditors@.len(),
        {
            let ghost d0 = debtors@;
            let ghost c0 = creditors@;
            let ghost pays0 = pays@;
            let di = max_index(&debtors);
            let ci = max_index(&creditors);
            let dent = debtors[di];
            let cent = creditors[ci];
            let dv = dent.1;
            let cv = cent.1;
            let amt: i64 = if dent.0 <= cent.0 {
                dent.0
            } else {
                cent.0
            };
            proof {
                assert(dv != cv);
                lemma_mag_unique(d0, di as int);
                lemma_mag_unique(c0, ci as int);
            }
            pays.push((dv, cv, amt));
            debtors.remove(di);
            creditors.remove(ci);
            let ghost d1 = debtors@;
            let ghost c1 = creditors@;
            proof {
                assert(d1 == d0.remove(di as int) && c1 == c0.remove(ci as int));
                assert forall|u: usize| u < nn implies mag_at(d1, u) == mag_at(d0, u) - (if u
                    == dv {
                    dent.0 as int
                } else {
                    0
                }) by {
                    lemma_mags_remove(d0, di as int, u);
                    if u != dv && has_idx(d0, u) {
                        assert(d0[di as int].1 == dv);
                    }
                    if d0[di as int].1 == u {
                        assert(u == dv);
                    }
                }
                assert forall|u: usize| u < nn implies mag_at(c1, u) == mag_at(c0, u) - (if u
                    == cv {
                    cent.0 as int
                } else {
                    0
                }) by {
                    lemma_mags_remove(c0, ci as int, u);
                }
                lemma_mags_remove(d0, di as int, dv);
                lemma_mags_remove(c0, ci as int, cv);
                // the removed entry was the only one for its node
                assert(!has_idx(d1, dv)) by {
                    if has_idx(d1, dv) {
                        let k = choose|k: int| 0 <= k < d1.len() && d1[k].1 == dv;
                        if k < di as int {
                            assert(d0[k].1 == dv);
                        } else {
                            assert(d0[k + 1].1 == dv);
                        }
                    }
                }
                assert(!has_idx(c1, cv)) by {
                    if has_idx(c1, cv) {
                        let k = choose|k: int| 0 <= k < c1.len() && c1[k].1 == cv;
                        if k < ci as int {
                            assert(c0[k].1 == cv);
                        } else {
                            assert(c0[k + 1].1 == cv);
                        }
                    }
                }
                assert(distinct_idx(d1)) by {
                    assert forall|j: int, k: int| 0 <= j < k < d1.len() implies (
                    #[trigger] d1[j]).1 != (#[trigger] d1[k]).1 by {
                        assert(d1[j] == d0[if j < di as int {
                            j
                        } else {
                            j + 1
                        }] && d1[k] == d0[if k < di as int {
                            k
                        } else {
                            k + 1
                        }]);
                    }
                }
                assert(distinct_idx(c1)) by {
                    assert forall|j: int, k: int| 0 <= j < k < c1.len() implies (
                    #[trigger] c1[j]).1 != (#[trigger] c1[k]).1 by {
                        assert(c1[j] == c0[if j < ci as int {
                            j
                        } else {
                            j + 1
                        }] && c1[k] == c0[if k < ci as int {
                            k
                        } else {
                            k + 1
                        }]);
                    }
                }
                assert forall|u: usize| u < nn implies net_of(pays@, u) == net_of(pays0, u) + (
                if u == cv {
                    amt as int
                } else {
                    0
                }) - (if u == dv {
                    amt as int
                } else {
                    0
                }) by {
                    lemma_flows_push(pays0, (dv, cv, amt), u);
                }
                lemma_flows_push(pays0, (dv, cv, amt), dv);
            }
            if dent.0 > amt {
                let ghost d2 = debtors@;
                let ent = (dent.0 - amt, dv);
                debtors.push(ent);
                proof {
                    assert forall|u: usize| u < nn implies mag_at(debtors@, u) == mag_at(d2, u)
                        + (if u == dv {
                        dent.0 - amt
                    } else {
                        0
                    }) by {
                        lemma_mags_push(d2, ent, u);
                    }
                    lemma_mags_push(d2, ent, dv);
                }
            }
            if cent.0 > amt {
                let ghost c2 = creditors@;
                let ent = (cent.0 - amt, cv);
                creditors.push(ent);
                proof {
                    assert forall|u: usize| u < nn implies mag_at(creditors@, u) == mag_at(
                        c2,
                        u,
                    ) + (if u == cv {
                        cent.0 - amt
                    } else {
                        0
                    }) by {
                        lemma_mags_push(c2, ent, u);
                    }
                    lemma_mags_push(c2, ent, cv);
                }
            }
            proof {
                // an old transfer's pair cannot come back: one of its ends
                // has left its work list for good
                assert(debtors@ == d1 || (debtors@ == d1.push(debtors@.last())
                    && debtors@.last().1 == dv));
                assert(creditors@ == c1 || (creditors@ == c1.push(creditors@.last())
                    && creditors@.last().1 == cv));
                assert forall|k: int| 0 <= k < pays@.len() implies !(has_idx(
                    debtors@,
                    (#[trigger] pays@[k]).0,
                ) && has_idx(creditors@, pays@[k].1)) by {
                    if k < pays0.len() {
                        assert(pays@[k] == pays0[k]);
                        assert(!(has_idx(d0, pays0[k].0) && has_idx(c0, pays0[k].1)));
                        if !has_idx(d0, pays0[k].0) {
                            assert(pays0[k].0 != dv) by {
                                assert(d0[di as int].1 == dv);
                            }
                            lemma_has_idx_after(d0, di as int, debtors@, dv, pays0[k].0);
                        } else {
                            assert(pays0[k].1 != cv) by {
                                assert(c0[ci as int].1 == cv);
                            }
                            lemma_has_idx_after(c0, ci as int, creditors@, cv, pays0[k].1);
                        }
                    } else {
                        assert(pays@[k] == (dv, cv, amt));
                        assert(!(dent.0 > amt && cent.0 > amt));
                        if has_idx(debtors@, dv) {
                            let m = choose|m: int|
                                0 <= m < debtors@.len() && debtors@[m].1 == dv;
                            if m < d1.len() {
                                assert(d1[m].1 == dv);
                            }
                        }
                        if has_idx(creditors@, cv) {
                            let m = choose|m: int|
                                0 <= m < creditors@.len() && creditors@[m].1 == cv;
                            if m < c1.len() {
                                assert(c1[m].1 == cv);
                            }
                        }
                    }
                }
                assert(distinct_pairs(pays@)) by {
                    assert forall|j: int, k: int| 0 <= j < k < pays@.len() implies ((
                    #[trigger] pays@[j]).0, pays@[j].1) != ((#[trigger] pays@[k]).0, pays@[k].1)
                        by {
                        if k == pays0.len() {
                            assert(pays@[j] == pays0[j]);
                            assert(!(has_idx(d0, pays0[j].0) && has_idx(c0, pays0[j].1)));
                        }
                    }
                }
            }
        }

        proof {
            if debtors@.len() == 0 && creditors@.len() > 0 {
                lemma_sum_mags_pos(creditors@);
            }
            if creditors@.len() == 0 && debtors@.len() > 0 {
                lemma_sum_mags_pos(debtors@);
            }
            assert(debtors@.len() == 0 && creditors@.len() == 0);
            assert forall|u: usize| u < nn implies #[trigger] net_of(pays@, u) == net_of(orig, u)
                by {
                assert(mag_at(debtors@, u) == 0 && mag_at(creditors@, u) == 0);
            }
            // payers and payees are disjoint: a payer's balance is negative,
            // a payee's positive
            assert forall|j: int, k: int|
                0 <= j < pays@.len() && 0 <= k < pays@.len() implies (#[trigger] pays@[j]).0 != (
            #[trigger] pays@[k]).1 by {
                assert(net_of(orig, pays@[j].0) < 0 && net_of(orig, pays@[k].1) > 0);
            }
        }

        // swap the edge set for the settled transfers; the nodes stay
        sg_clear_edges(&mut self.graph);
        let mut k: usize = 0;
        while k < pays.len()
            invariant
                k <= pays@.len(),
                pays@.len() < 0xFFFF_FFFE,
                wf_edges(pays@, self.persons@.len() as int),
                sg_dense(self.graph),
                sg_node_count(self.graph) == self.persons@.len(),
                sg_edges(self.graph) == pays@.take(k as int),
                self.persons == old(self).persons,
            decreases pays@.len() - k,
        {
            let e = pays[k];
            sg_add_edge(&mut self.graph, e.0, e.1, e.2);
            proof {
                assert(pays@.take(k + 1) =~= pays@.take(k as int).push(pays@[k as int]));
            }
            k = k + 1;
        }
        proof {
            assert(pays@.take(pays@.len() as int) =~= pays@);
        }
    }

    /// Checks the pending transfers against the even split: true exactly
    /// when every participant's final balance lies within tolerance of the
    /// per-person share, as `spec_validate` states. Running it again on the
    /// same graph returns the same answer, since the result is a function
    /// of the graph alone and the graph is not touched.
    pub fn validate(&self) -> (r: bool)
        requires
            self.wf(),
        ensures
            r == spec_validate(self.members(), self.edges()),
    {
        let ghost mem = self.members();
        let ghost es = self.edges();
        let n = self.persons.len();

        let mut people: u128 = 0;
        let mut spent: i128 = 0;
        let mut j: usize = 0;
        proof {
            assert(mem.take(0) =~= Seq::<PersonSpec>::empty());
        }
        while j < n
            invariant
                j <= n,
                self.wf(),
                n == self.persons@.len(),
                mem == self.members(),
                people as int == size_sum(mem.take(j as int)),
                spent as int == spent_sum(mem.take(j as int)),
                people as int <= (j as int) * 0x1_0000_0000_0000_0000,
                -((j as int) * 0x8000_0000_0000_0000) <= spent as int <= (j as int)
                    * 0x8000_0000_0000_0000,
            decreases n - j,
        {
            proof {
                lemma_sums_take_succ(mem, j as int);
                assert(((j as int) + 1) * 0x1_0000_0000_0000_0000 == (j as int)
                    * 0x1_0000_0000_0000_0000 + 0x1_0000_0000_0000_0000) by (nonlinear_arith);
                assert(((j as int) + 1) * 0x8000_0000_0000_0000 == (j as int)
                    * 0x8000_0000_0000_0000 + 0x8000_0000_0000_0000) by (nonlinear_arith);
                assert((j as int) * 0x1_0000_0000_0000_0000 <= 0x1_0000_0000 *
                0x1_0000_0000_0000_0000) by (nonlinear_arith)
                    requires j as int <= 0x1_0000_0000;
                assert((j as int) * 0x8000_0000_0000_0000 <= 0x1_0000_0000 * 0x8000_0000_0000_0000)
                    by (nonlinear_arith)
                    requires j as int <= 0x1_0000_0000;
                assert(mem[j as int] == self.persons@[j as int]@);
            }
            let sz = self.persons[j].size();
            people = people + (sz as u128);
            let sp = self.persons[j].money_spent();
            spent = spent + (sp.raw() as i128);
            j = j + 1;
        }
        proof {
            assert(mem.take(n as int) =~= mem);
            assert((n as int) * 0x1_0000_0000_0000_0000 <= 0x1_0000_0000 * 0x1_0000_0000_0000_0000)
                by (nonlinear_arith)
                requires n as int <= 0x1_0000_0000;
            assert((n as int) * 0x8000_0000_0000_0000 <= 0x1_0000_0000 * 0x8000_0000_0000_0000)
                by (nonlinear_arith)
                requires n as int <= 0x1_0000_0000;
        }

        if people == 0 {
            return true;
        }
        let each = div_trunc_i128(spent, people);
        let list = sg_edge_list(&self.graph);

        let mut v: usize = 0;
        while v < n
            invariant
                v <= n,
                self.wf(),
                n == self.persons@.len(),
                mem == self.members(),
                es == self.edges(),
                list@ == es,
                people as int == size_sum(mem),
                0 < people as int <= 0x1_0000_0000 * 0x1_0000_0000_0000_0000,
                spent as int == spent_sum(mem),
                -(0x1_0000_0000 * 0x8000_0000_0000_0000) <= spent as int <= 0x1_0000_0000 *
                0x8000_0000_0000_0000,
                each as int == div_trunc(spent_sum(mem), size_sum(mem)),
                -(0x1_0000_0000 * 0x8000_0000_0000_0000) <= each as int <= 0x1_0000_0000 *
                0x8000_0000_0000_0000,
                forall|u: int| 0 <= u < v ==> spec_person_ok(mem, es, u),
            decreases n - v,
        {
            let fl = flows_of(&list, v);
            let sp = self.persons[v].money_spent();
            let sz = self.persons[v].size();
            proof {
                assert(mem[v as int] == self.persons@[v as int]@);
            }
            let num: i128 = (sp.raw() as i128) + (fl.1 as i128) - (fl.0 as i128);
            let fb = div_trunc_i128(num, sz as u128);
            let diff: i128 = if each - fb < 0 {
                fb - each
            } else {
                each - fb
            };
            let tol: i128 = if (people as i128) > 20 {
                people as i128
            } else {
                20
            };
            if 2 * diff > tol {
                proof {
                    assert(!spec_person_ok(mem, es, v as int));
                }
                return false;
            }
            proof {
                assert(spec_person_ok(mem, es, v as int));
            }
            v = v + 1;
        }
        true
    }
}

/// A node absent from a work list stays absent when an entry is removed and
/// at most an entry for some other node `w` is appended.
proof fn lemma_has_idx_after(
    s0: Seq<(i64, usize)>,
    i: int,
    s2: Seq<(i64, usize)>,
    w: usize,
    x: usize,
)
    requires
        0 <= i < s0.len(),
        s2 == s0.remove(i) || (s2 == s0.remove(i).push(s2.last()) && s2.last().1 == w),
        !has_idx(s0, x),
        x != w,
    ensures
        !has_idx(s2, x),
{
    let s1 = s0.remove(i);
    if has_idx(s2, x) {
        let k = choose|k: int| 0 <= k < s2.len() && s2[k].1 == x;
        if s2 == s1 || k < s2.len() - 1 {
            assert(s1[k].1 == x);
            if k < i {
                assert(s0[k].1 == x);
            } else {
                assert(s0[k + 1].1 == x);
            }
        }
    }
}

/// A participant fresh to the arena cannot occur in the transfers already
/// processed, so its net balance so far is zero.
proof fn lemma_member_fresh(ps: Seq<Payment>, i: int, mem: Seq<PersonSpec>, v: int)
    requires
        0 <= i <= ps.len(),
        0 <= v < mem.len(),
        forall|k: int| 0 <= k < i ==> (#[trigger] ps[k]).from@ != mem[v] && ps[k].to@ != mem[v],
    ensures
        pay_net(ps.take(i), mem, v) == 0,
{
    assert(forall|k: int|
        0 <= k < ps.take(i).len() ==> (#[trigger] ps.take(i)[k]).from@ != mem[v] && ps.take(
            i,
        )[k].to@ != mem[v]);
    lemma_pay_net_absent(ps.take(i), mem, v);
}

/// Truncating division on machine integers, toward zero.
fn div_trunc_i128(a: i128, b: u128) -> (r: i128)
    requires
        b > 0,
        b <= i128::MAX as u128,
        a > i128::MIN,
    ensures
        r as int == div_trunc(a as int, b as int),
        a >= 0 ==> 0 <= r <= a,
        a < 0 ==> a <= r <= 0,
{
    if a >= 0 {
        let q: u128 = (a as u128) / b;
        proof {
            vstd::arithmetic::div_mod::lemma_div_is_ordered_by_denominator(a as int, 1, b as int);
        }
        q as i128
    } else {
        let neg: u128 = (-a) as u128;
        let q: u128 = neg / b;
        proof {
            vstd::arithmetic::div_mod::lemma_div_is_ordered_by_denominator(neg as int, 1, b as int);
        }
        -(q as i128)
    }
}

/// What flows into and out of node `v` under the transfers of `list`.
fn flows_of(list: &Vec<Edge>, v: usize) -> (r: (i64, i64))
    requires
        forall|k: int| 0 <= k < list@.len() ==> (#[trigger] list@[k]).2 > 0,
        weight_sum(list@) <= i64::MAX,
    ensures
        r.0 as int == in_of(list@, v),
        r.1 as int == out_of(list@, v),
{
    let mut inn: i64 = 0;
    let mut out: i64 = 0;
    let mut k: usize = 0;
    proof {
        assert(list@.take(0) =~= Seq::<Edge>::empty());
    }
    while k < list.len()
        invariant
            k <= list@.len(),
            forall|m: int| 0 <= m < list@.len() ==> (#[trigger] list@[m]).2 > 0,
            weight_sum(list@) <= i64::MAX,
            inn as int == in_of(list@.take(k as int), v),
            out as int == out_of(list@.take(k as int), v),
        decreases list@.len() - k,
    {
        let ghost t1 = list@.take(k + 1);
        proof {
            lemma_flows_take_succ(list@, k as int, v);
            assert(forall|m: int| 0 <= m < t1.len() ==> (#[trigger] t1[m]).2 >= 0);
            lemma_weight_sum_take_le(list@, k + 1);
            lemma_flow_bounds(t1, v);
        }
        let e = list[k];
        if e.1 == v {
            inn = inn + e.2;
        }
        if e.0 == v {
            out = out + e.2;
        }
        k = k + 1;
    }
    proof {
        assert(list@.take(list@.len() as int) =~= list@);
    }
    (inn, out)
}

/// A fresh graph with `n` bare nodes and exactly the edges of `acc`.
fn assemble(n: usize, acc: &Vec<Edge>) -> (g: StableDiGraph<(), i64>)
    requires
        n < 0xFFFF_FFFE,
        acc@.len() < 0xFFFF_FFFE,
        wf_edges(acc@, n as int),
    ensures
        sg_dense(g),
        sg_node_count(g) == n,
        sg_edges(g) == acc@,
{
    let mut graph = sg_new();
    let mut j: usize = 0;
    while j < n
        invariant
            j <= n,
            n < 0xFFFF_FFFE,
            sg_dense(graph),
            sg_node_count(graph) == j,
            sg_edges(graph) == Seq::<Edge>::empty(),
        decreases n - j,
    {
        let _ = sg_add_node(&mut graph);
        j = j + 1;
    }
    let mut k: usize = 0;
    while k < acc.len()
        invariant
            k <= acc@.len(),
            acc@.len() < 0xFFFF_FFFE,
            wf_edges(acc@, n as int),
            sg_dense(graph),
            sg_node_count(graph) == n,
            sg_edges(graph) == acc@.take(k as int),
        decreases acc@.len() - k,
    {
        let e = acc[k];
        sg_add_edge(&mut graph, e.0, e.1, e.2);
        proof {
            assert(acc@.take(k + 1) =~= acc@.take(k as int).push(acc@[k as int]));
        }
        k = k + 1;
    }
    proof {
        assert(acc@.take(acc@.len() as int) =~= acc@);
    }
    graph
}

/// The position of an entry with the largest magnitude; among equals, the
/// first one, so the choice is deterministic.
fn max_index(v: &Vec<(i64, usize)>) -> (r: usize)
    requires
        v@.len() > 0,
    ensures
        r < v@.len(),
        forall|k: int| 0 <= k < v@.len() ==> (#[trigger] v@[k]).0 <= v@[r as int].0,
{
    let mut r: usize = 0;
    let mut j: usize = 1;
    while j < v.len()
        invariant
            r < j <= v@.len(),
            forall|k: int| 0 <= k < j ==> (#[trigger] v@[k]).0 <= v@[r as int].0,
        decreases v@.len() - j,
    {
        if v[j].0 > v[r].0 {
            r = j;
        }
        j = j + 1;
    }
    r
}

/// The index of `p` in the arena, appending a clone of it first when it is
/// not yet a member.
fn find_or_insert(persons: &mut Vec<Person>, p: &Person) -> (idx: usize)
    requires
        old(persons)@.len() < usize::MAX,
    ensures
        idx < final(persons)@.len(),
        final(persons)@[idx as int]@ == p@,
        final(persons)@.map_values(|q: Person| q@) == add_member(
            old(persons)@.map_values(|q: Person| q@),
            p@,
        ),
        final(persons)@.len() <= old(persons)@.len() + 1,
        forall|j: int| 0 <= j < old(persons)@.len() ==> final(persons)@[j] == old(persons)@[j],
        final(persons)@.len() > old(persons)@.len() ==> idx == old(persons)@.len() && !old(
            persons,
        )@.map_values(|q: Person| q@).contains(p@),
{
    let ghost mem = persons@.map_values(|q: Person| q@);
    let mut j: usize = 0;
    while j < persons.len()
        invariant
            j <= persons@.len(),
            mem == persons@.map_values(|q: Person| q@),
            forall|k: int| 0 <= k < j ==> mem[k] != p@,
        decreases persons@.len() - j,
    {
        if persons[j] == *p {
            proof {
                assert(mem[j as int] == persons@[j as int]@);
                assert(mem.contains(p@));
                assert(add_member(mem, p@) == mem);
            }
            return j;
        }
        j = j + 1;
    }
    proof {
        assert(forall|k: int| 0 <= k < mem.len() ==> mem[k] != p@);
        assert(!mem.contains(p@));
    }
    persons.push(p.clone());
    proof {
        assert(persons@.map_values(|q: Person| q@) =~= add_member(mem, p@));
        assert(persons@[persons@.len() - 1]@ == p@);
    }
    persons.len() - 1
}

/// A copy of the participant list, member for member.
fn clone_persons(persons: &Vec<Person>) -> (r: Vec<Person>)
    ensures
        r@.len() == persons@.len(),
        forall|j: int| 0 <= j < r@.len() ==> (#[trigger] r@[j])@ == persons@[j]@,
{
    let mut r: Vec<Person> = Vec::new();
    let mut j: usize = 0;
    while j < persons.len()
        invariant
            j <= persons@.len(),
            r@.len() == j,
            forall|k: int| 0 <= k < j ==> (#[trigger] r@[k])@ == persons@[k]@,
        decreases persons@.len() - j,
    {
        r.push(persons[j].clone());
        j = j + 1;
    }
    r
}

/// The position of the edge with the ordered pair `(a, b)`, if one exists.
fn find_pair(acc: &Vec<Edge>, a: usize, b: usize) -> (r: Option<usize>)
    ensures
        match r {
            Some(j) => j < acc@.len() && acc@[j as int].0 == a && acc@[j as int].1 == b,
            None => forall|k: int|
                0 <= k < acc@.len() ==> !((#[trigger] acc@[k]).0 == a && acc@[k].1 == b),
        },
{
    let mut j: usize = 0;
    while j < acc.len()
        invariant
            j <= acc@.len(),
            forall|k: int| 0 <= k < j ==> !((#[trigger] acc@[k]).0 == a && acc@[k].1 == b),
        decreases acc@.len() - j,
    {
        let e = acc[j];
        if e.0 == a && e.1 == b {
            return Some(j);
        }
        j = j + 1;
    }
    None
}

} // verus!
