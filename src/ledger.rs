//! The balance ledger of a planning group.

use vstd::prelude::*;
use crate::error::PlanError;
use crate::ingredient::{
    all_wf, lemma_position_absent, lemma_position_is, merged, position, whole, Flow, Ingredient,
};
use crate::rate::{abs, lemma_abs_mul, lemma_mul_mono, RATE_LIMIT, lemma_add_assoc, lemma_add_congr, lemma_add_zero, lemma_eqv_trans, lemma_neg_congr, lemma_wf_ops, Frac, Rate};
use crate::recipe::Recipe;

verus! {

/// The flows of a list of ingredients.
pub open spec fn flows(s: Seq<Ingredient>) -> Seq<Flow> {
    s.map_values(|i: Ingredient| i.flow())
}

/// The flows of a list of ingredients, negated.
pub open spec fn neg_flows(s: Seq<Ingredient>) -> Seq<Flow> {
    s.map_values(|i: Ingredient| (i.part@, i.quantity@.neg()))
}

/// The flows of a list of ingredients, multiplied by `k`.
pub open spec fn scaled_flows(s: Seq<Ingredient>, k: Frac) -> Seq<Flow> {
    s.map_values(|i: Ingredient| (i.part@, i.quantity@.mul(k)))
}

/// The flows of a list of ingredients, multiplied by `k` and negated.
pub open spec fn consumed_flows(s: Seq<Ingredient>, k: Frac) -> Seq<Flow> {
    s.map_values(|i: Ingredient| (i.part@, i.quantity@.mul(k).neg()))
}

/// What one recipe run at scale `k` adds to a balance: its outputs, then
/// its inputs as consumption.
pub open spec fn recipe_flows(k: Frac, r: Recipe) -> Seq<Flow> {
    scaled_flows(r.outputs_seq(), k) + consumed_flows(r.inputs_seq(), k)
}

/// What a list of scaled recipes adds to a balance, in list order.
pub open spec fn allocated_flows(rs: Seq<(Rate, Recipe)>) -> Seq<Flow>
    decreases rs.len(),
{
    if rs.len() == 0 {
        Seq::empty()
    } else {
        allocated_flows(rs.drop_last()) + recipe_flows(rs.last().0@, rs.last().1)
    }
}

/// The sum of the flows of material `p`.
pub open spec fn total(cs: Seq<Flow>, p: Seq<char>) -> Frac
    decreases cs.len(),
{
    if cs.len() == 0 {
        Frac::of_int(0)
    } else if cs.last().0 == p {
        total(cs.drop_last(), p).add(cs.last().1)
    } else {
        total(cs.drop_last(), p)
    }
}

/// The materials of the flows, each once, in order of first appearance.
pub open spec fn parts_in_order(cs: Seq<Flow>) -> Seq<Seq<char>>
    decreases cs.len(),
{
    if cs.len() == 0 {
        Seq::empty()
    } else if parts_in_order(cs.drop_last()).contains(cs.last().0) {
        parts_in_order(cs.drop_last())
    } else {
        parts_in_order(cs.drop_last()).push(cs.last().0)
    }
}

/// `b` holds one entry per material of `cs`, in order of first appearance,
/// each with the exact sum of that material's flows.
pub open spec fn is_ledger(b: Seq<Ingredient>, cs: Seq<Flow>) -> bool {
    &&& b.len() == parts_in_order(cs).len()
    &&& forall|k: int|
        0 <= k < b.len() ==> {
            &&& (#[trigger] b[k]).part@ == parts_in_order(cs)[k]
            &&& b[k].wf()
            &&& b[k].quantity@.eqv(total(cs, b[k].part@))
        }
}

pub open spec fn flows_wf(cs: Seq<Flow>) -> bool {
    forall|k: int| 0 <= k < cs.len() ==> (#[trigger] cs[k]).1.wf()
}

/// Same materials in the same order, with equal values.
pub open spec fn flows_eqv(a: Seq<Flow>, b: Seq<Flow>) -> bool {
    &&& a.len() == b.len()
    &&& forall|k: int| 0 <= k < a.len() ==> (#[trigger] a[k]).0 == b[k].0 && a[k].1.eqv(b[k].1)
}

pub proof fn lemma_total_wf(cs: Seq<Flow>, p: Seq<char>)
    requires
        flows_wf(cs),
    ensures
        total(cs, p).wf(),
    decreases cs.len(),
{
    if cs.len() > 0 {
        lemma_total_wf(cs.drop_last(), p);
        lemma_wf_ops(total(cs.drop_last(), p), cs.last().1);
    }
}

/// A material that no flow names totals zero.
pub proof fn lemma_total_absent(cs: Seq<Flow>, p: Seq<char>)
    requires
        !parts_in_order(cs).contains(p),
    ensures
        total(cs, p) == Frac::of_int(0),
    decreases cs.len(),
{
    if cs.len() > 0 {
        let d = parts_in_order(cs.drop_last());
        if d.contains(cs.last().0) {
            lemma_total_absent(cs.drop_last(), p);
        } else {
            assert(parts_in_order(cs) == d.push(cs.last().0));
            assert(parts_in_order(cs).last() == cs.last().0);
            if d.contains(p) {
                let k = choose|k: int| 0 <= k < d.len() && d[k] == p;
                assert(parts_in_order(cs)[k] == p);
            }
            lemma_total_absent(cs.drop_last(), p);
        }
    }
}

pub proof fn lemma_parts_no_dup(cs: Seq<Flow>)
    ensures
        parts_in_order(cs).no_duplicates(),
    decreases cs.len(),
{
    if cs.len() > 0 {
        lemma_parts_no_dup(cs.drop_last());
    }
}

pub proof fn lemma_total_congr(a: Seq<Flow>, b: Seq<Flow>, p: Seq<char>)
    requires
        flows_eqv(a, b),
    ensures
        total(a, p).eqv(total(b, p)),
        parts_in_order(a) == parts_in_order(b),
    decreases a.len(),
{
    if a.len() > 0 {
        assert(flows_eqv(a.drop_last(), b.drop_last()));
        lemma_total_congr(a.drop_last(), b.drop_last(), p);
        assert(a.last().0 == b.last().0 && a.last().1.eqv(b.last().1));
        lemma_add_congr(total(a.drop_last(), p), total(b.drop_last(), p), a.last().1, b.last().1);
    }
}

/// A ledger of flows is a ledger of flows of equal value.
pub proof fn lemma_ledger_congr(b: Seq<Ingredient>, cs: Seq<Flow>, cs2: Seq<Flow>)
    requires
        is_ledger(b, cs),
        flows_eqv(cs, cs2),
        flows_wf(cs),
    ensures
        is_ledger(b, cs2),
{
    lemma_total_congr(cs, cs2, Seq::empty());
    assert forall|k: int| 0 <= k < b.len() implies (#[trigger] b[k]).quantity@.eqv(
        total(cs2, b[k].part@),
    ) by {
        lemma_total_congr(cs, cs2, b[k].part@);
        lemma_total_wf(cs, b[k].part@);
        lemma_eqv_trans(b[k].quantity@, total(cs, b[k].part@), total(cs2, b[k].part@));
    }
}

/// Where the ledger's materials are those of the flows, the first entry of
/// material `p` is at `p`'s place among them.
proof fn lemma_ledger_position(b: Seq<Ingredient>, cs: Seq<Flow>, p: Seq<char>)
    requires
        is_ledger(b, cs),
    ensures
        parts_in_order(cs).contains(p) ==> position(b, p) >= 0 && position(b, p) < b.len()
            && parts_in_order(cs)[position(b, p)] == p,
        !parts_in_order(cs).contains(p) ==> position(b, p) == -1,
{
    let d = parts_in_order(cs);
    lemma_parts_no_dup(cs);
    if d.contains(p) {
        let i = choose|i: int| 0 <= i < d.len() && d[i] == p;
        assert forall|k: int| 0 <= k < i implies b[k].part@ != p by {
            assert(b[k].part@ == d[k]);
        }
        assert(b[i].part@ == d[i]);
        lemma_position_is(b, p, i);
    } else {
        assert forall|k: int| 0 <= k < b.len() implies b[k].part@ != p by {
            assert(b[k].part@ == d[k]);
        }
        lemma_position_absent(b, p);
    }
}

/// Merging one more flow into a ledger gives the ledger of one more flow.
pub proof fn lemma_ledger_merge(b: Seq<Ingredient>, b2: Seq<Ingredient>, cs: Seq<Flow>, i: Ingredient)
    requires
        is_ledger(b, cs),
        i.wf(),
        all_wf(b2),
        merged(b, b2, i),
    ensures
        is_ledger(b2, cs.push(i.flow())),
{
    let p = i.part@;
    let cs2 = cs.push(i.flow());
    let d = parts_in_order(cs);
    assert(cs2.drop_last() == cs);
    lemma_ledger_position(b, cs, p);
    if d.contains(p) {
        let j = position(b, p);
        assert(parts_in_order(cs2) == d);
        assert forall|k: int| 0 <= k < b2.len() implies {
            &&& (#[trigger] b2[k]).part@ == parts_in_order(cs2)[k]
            &&& b2[k].wf()
            &&& b2[k].quantity@.eqv(total(cs2, b2[k].part@))
        } by {
            assert(b2[k].wf());
            if k == j {
                lemma_add_congr(b[j].quantity@, total(cs, p), i.quantity@, i.quantity@);
                assert(b[j].wf());
                lemma_wf_ops(b[j].quantity@, i.quantity@);
                assert(total(cs2, p) == total(cs, p).add(i.quantity@));
                lemma_eqv_trans(
                    b2[j].quantity@,
                    b[j].quantity@.add(i.quantity@),
                    total(cs2, p),
                );
            } else {
                lemma_parts_no_dup(cs);
                assert(b[k].part@ == d[k]);
                assert(d[j] == p);
                assert(b2[k] == b[k]);
                assert(b[k].part@ != p);
                assert(total(cs2, b[k].part@) == total(cs, b[k].part@));
            }
        }
    } else {
        assert(parts_in_order(cs2) == d.push(p));
        lemma_total_absent(cs, p);
        lemma_add_zero(i.quantity@);
        assert forall|k: int| 0 <= k < b2.len() implies {
            &&& (#[trigger] b2[k]).part@ == parts_in_order(cs2)[k]
            &&& b2[k].wf()
            &&& b2[k].quantity@.eqv(total(cs2, b2[k].part@))
        } by {
            assert(b2[k].wf());
            if k < b.len() {
                assert(b[k].part@ == d[k]);
                assert(b2[k] == b[k]);
                assert(d.contains(b[k].part@));
            }
        }
    }
}

/// Merges every item into `b`, in order.
fn merge_all(
    items: &Vec<Ingredient>,
    b: &mut Vec<Ingredient>,
    Ghost(cs): Ghost<Seq<Flow>>,
    Ghost(s0): Ghost<int>,
    Ghost(fs): Ghost<Seq<Flow>>,
    Ghost(n0): Ghost<int>,
    Ghost(d0): Ghost<int>,
) -> (r: Result<(), PlanError>)
    requires
        is_ledger(old(b)@, cs),
        all_wf(old(b)@),
        all_wf(items@),
    ensures
        all_wf(final(b)@),
        r is Ok ==> is_ledger(final(b)@, cs + flows(items@)),
        r is Err ==> r->Err_0 == PlanError::Overflow,
        0 <= s0 && whole(old(b)@) && whole(items@) && bounded(old(b)@, s0) && s0 + sum_abs(
            flows(items@),
        ) <= RATE_LIMIT ==> r is Ok && whole(final(b)@) && bounded(
            final(b)@,
            s0 + sum_abs(flows(items@)),
        ),
        within(old(b)@, n0, d0) && n0 >= 0 && d0 >= 1 && reduced_forms(items@, fs) && flows_wf(fs)
            && den_bound(d0, fs) <= RATE_LIMIT && num_bound(n0, d0, fs) <= RATE_LIMIT ==> r is Ok
            && within(final(b)@, num_bound(n0, d0, fs), den_bound(d0, fs)),
{
    let ghost fine = within(b@, n0, d0) && n0 >= 0 && d0 >= 1 && reduced_forms(items@, fs)
        && flows_wf(fs) && den_bound(d0, fs) <= RATE_LIMIT && num_bound(n0, d0, fs) <= RATE_LIMIT;
    proof {
        if fine {
            assert(fs.subrange(0, 0) =~= Seq::<Flow>::empty());
        }
    }
    let ghost good = 0 <= s0 && whole(b@) && whole(items@) && bounded(b@, s0) && s0 + sum_abs(
        flows(items@),
    ) <= RATE_LIMIT;
    let mut k: usize = 0;
    proof {
        assert(flows(items@.subrange(0, 0)) =~= Seq::<Flow>::empty());
    }
    while k < items.len()
        invariant
            k <= items.len(),
            all_wf(items@),
            all_wf(b@),
            is_ledger(b@, cs + flows(items@.subrange(0, k as int))),
            good == (0 <= s0 && whole(old(b)@) && whole(items@) && bounded(old(b)@, s0) && s0
                + sum_abs(flows(items@)) <= RATE_LIMIT),
            good ==> whole(b@) && bounded(b@, s0 + sum_abs(flows(items@.subrange(0, k as int)))),
            fine == (within(old(b)@, n0, d0) && n0 >= 0 && d0 >= 1 && reduced_forms(items@, fs)
                && flows_wf(fs) && den_bound(d0, fs) <= RATE_LIMIT && num_bound(n0, d0, fs)
                <= RATE_LIMIT),
            fine ==> within(
                b@,
                num_bound(n0, d0, fs.subrange(0, k as int)),
                den_bound(d0, fs.subrange(0, k as int)),
            ),
        decreases items.len() - k,
    {
        let ghost before = b@;
        let ghost item = items@[k as int];
        let ghost pre = flows(items@.subrange(0, k as int));
        let ghost pre1 = flows(items@.subrange(0, k + 1));
        assert(item.wf());
        proof {
            assert(pre1.drop_last() =~= pre);
            assert(pre1.last() == item.flow());
            assert(flows(items@).subrange(0, k + 1) =~= pre1);
            lemma_prefix_bound(flows(items@), k + 1);
            if good {
                assert(item.quantity.den == 1);
                let j = position(before, item.part@);
                crate::ingredient::lemma_position_range(before, item.part@);
                if j >= 0 {
                    let x = before[j].quantity;
                    assert(x.den == 1);
                    assert(abs(x.num as int) <= s0 + sum_abs(pre));
                    assert(x@.add(item.quantity@).fits()) by {
                        assert(x@.add(item.quantity@).n == x.num + item.quantity.num) by (nonlinear_arith)
                            requires x.den == 1, item.quantity.den == 1;
                        assert(x@.add(item.quantity@).d == 1) by (nonlinear_arith)
                            requires x.den == 1, item.quantity.den == 1;
                    }
                }
            }
        }
        let ghost fpre = fs.subrange(0, k as int);
        let ghost nk = num_bound(n0, d0, fpre);
        let ghost dk = den_bound(d0, fpre);
        proof {
            if fine {
                lemma_bound_grows(n0, d0, fs, k as int);
                lemma_bound_grows(n0, d0, fs, k + 1);
                assert(fs.subrange(0, k + 1).drop_last() =~= fpre);
                assert(fs.subrange(0, k + 1).last() == fs[k as int]);
                assert(fs[k as int].1.wf());
                assert(reduced_form(items@[k as int], fs[k as int]));
                lemma_within_merge(before, before, item, fs[k as int], nk, dk);
            }
        }
        let res = items[k].merge_with(b);
        if res.is_err() {
            return res;
        }
        proof {
            if fine {
                lemma_within_merge(before, b@, item, fs[k as int], nk, dk);
            }
            let c = cs + pre;
            lemma_ledger_merge(before, b@, c, item);
            assert(c.push(item.flow()) =~= cs + pre1);
            if good {
                let j = position(before, item.part@);
                assert(sum_abs(pre1) == sum_abs(pre) + abs(item.quantity.num as int));
                lemma_sum_abs_nonneg(pre);
                assert forall|t: int| 0 <= t < b@.len() implies abs((#[trigger] b@[t]).quantity.num as int)
                    <= s0 + sum_abs(pre1) by {
                    if j >= 0 && t == j {
                        let x = before[j].quantity;
                        let y = b@[t].quantity;
                        assert(y.den == 1 && x.den == 1);
                        assert(y.num == x.num + item.quantity.num) by (nonlinear_arith)
                            requires
                                y.num * (x.den * item.quantity.den) == (x.num * item.quantity.den
                                    + item.quantity.num * x.den) * y.den,
                                y.den == 1,
                                x.den == 1,
                                item.quantity.den == 1,
                        ;
                    } else if t < before.len() {
                        assert(b@[t] == before[t]);
                    } else {
                        assert(b@[t] == item);
                    }
                }
            }
        }
        k = k + 1;
    }
    assert(items@.subrange(0, items.len() as int) =~= items@);
    proof {
        if fine {
            assert(fs.subrange(0, items@.len() as int) =~= fs);
        }
    }
    Ok(())
}

/// Whole items times a whole `k`, each product within range.
pub open spec fn scalable(items: Seq<Ingredient>, k: Rate) -> bool {
    forall|m: int|
        0 <= m < items.len() ==> (#[trigger] items[m]).quantity.den == 1 && k.den == 1 && abs(
            items[m].quantity.num * k.num,
        ) <= RATE_LIMIT
}

/// The items, multiplied by `k`, and negated where `consume` holds.
fn scaled(items: &Vec<Ingredient>, k: &Rate, consume: bool) -> (r: Result<Vec<Ingredient>, PlanError>)
    requires
        all_wf(items@),
        k.wf(),
    ensures
        r is Ok ==> all_wf(r->Ok_0@) && flows_eqv(
            flows(r->Ok_0@),
            if consume {
                consumed_flows(items@, k@)
            } else {
                scaled_flows(items@, k@)
            },
        ),
        r is Err ==> r->Err_0 == PlanError::Overflow,
        scalable(items@, *k) ==> r is Ok && whole(r->Ok_0@),
        r is Ok ==> reduced_forms(
            r->Ok_0@,
            if consume {
                consumed_flows(items@, k@)
            } else {
                scaled_flows(items@, k@)
            },
        ),
        products_fit(items@, *k) ==> r is Ok,
{
    let ghost good = scalable(items@, *k);
    let ghost target = if consume {
        consumed_flows(items@, k@)
    } else {
        scaled_flows(items@, k@)
    };
    let mut out: Vec<Ingredient> = Vec::new();
    let mut j: usize = 0;
    while j < items.len()
        invariant
            j <= items.len(),
            all_wf(items@),
            k.wf(),
            all_wf(out@),
            target == (if consume {
                consumed_flows(items@, k@)
            } else {
                scaled_flows(items@, k@)
            }),
            out@.len() == j,
            good == scalable(items@, *k),
            good ==> whole(out@),
            forall|m: int|
                0 <= m < j ==> (#[trigger] out@[m]).part@ == target[m].0 && out@[m].quantity@.eqv(
                    target[m].1,
                ),
            forall|m: int| 0 <= m < j ==> reduced_form(#[trigger] out@[m], target[m]),
        decreases items.len() - j,
    {
        assert(items@[j as int].wf());
        proof {
            if good {
                let q = items@[j as int].quantity;
                assert(q.den == 1 && k.den == 1);
                assert(q@.mul(k@).fits()) by {
                    assert(q@.mul(k@).d == 1) by (nonlinear_arith)
                        requires q.den == 1, k.den == 1;
                }
            }
        }
        let s = match items[j].scale(k) {
            Some(s) => s,
            None => {
                return Err(PlanError::Overflow);
            },
        };
        let v = if consume {
            let n = s.neg();
            proof {
                lemma_neg_congr(s.quantity@, items@[j as int].quantity@.mul(k@));
            }
            n
        } else {
            s
        };
        out.push(v);
        j = j + 1;
    }
    Ok(out)
}

/// Each item times `k` fits a rate.
pub open spec fn products_fit(items: Seq<Ingredient>, k: Rate) -> bool {
    forall|m: int| 0 <= m < items.len() ==> (#[trigger] items[m]).quantity@.mul(k@).fits()
}

proof fn lemma_map_wf(s: Seq<Ingredient>, k: Frac)
    requires
        all_wf(s),
        k.wf(),
    ensures
        flows_wf(flows(s)),
        flows_wf(neg_flows(s)),
        flows_wf(scaled_flows(s, k)),
        flows_wf(consumed_flows(s, k)),
{
    assert forall|m: int| 0 <= m < s.len() implies s[m].quantity@.mul(k).wf() && s[m].quantity@.mul(
        k,
    ).neg().wf() && s[m].quantity@.neg().wf() by {
        assert(s[m].wf());
        lemma_wf_ops(s[m].quantity@, k);
        lemma_wf_ops(s[m].quantity@.mul(k), k);
    }
    assert(flows_wf(flows(s)));
    assert(flows_wf(neg_flows(s)));
    assert(flows_wf(scaled_flows(s, k)));
    assert(flows_wf(consumed_flows(s, k)));
}

proof fn lemma_allocated_wf(rs: Seq<(Rate, Recipe)>)
    requires
        recipes_wf(rs),
    ensures
        flows_wf(allocated_flows(rs)),
    decreases rs.len(),
{
    if rs.len() > 0 {
        let (k, r) = rs.last();
        assert(recipes_wf(rs.drop_last()));
        lemma_allocated_wf(rs.drop_last());
        assert(k.wf() && r.wf());
        assert(all_wf(r.inputs_seq())) by {
            assert forall|m: int| 0 <= m < r.inputs_seq().len() implies (#[trigger] r.inputs_seq()[m]).wf() by {
                assert(r.ingredients_seq()[m] == r.inputs_seq()[m]);
            }
        }
        assert(all_wf(r.outputs_seq())) by {
            assert forall|m: int| 0 <= m < r.outputs_seq().len() implies (#[trigger] r.outputs_seq()[m]).wf() by {
                assert(r.ingredients_seq()[r.inputs_seq().len() + m] == r.outputs_seq()[m]);
            }
        }
        lemma_map_wf(r.outputs_seq(), k@);
        lemma_map_wf(r.inputs_seq(), k@);
        lemma_flows_wf_concat(scaled_flows(r.outputs_seq(), k@), consumed_flows(r.inputs_seq(), k@));
        lemma_flows_wf_concat(allocated_flows(rs.drop_last()), recipe_flows(k@, r));
    }
}

pub proof fn lemma_flows_wf_concat(a: Seq<Flow>, b: Seq<Flow>)
    requires
        flows_wf(a),
        flows_wf(b),
    ensures
        flows_wf(a + b),
{
    assert forall|m: int| 0 <= m < (a + b).len() implies (#[trigger] (a + b)[m]).1.wf() by {
        if m < a.len() {
            assert((a + b)[m] == a[m]);
        } else {
            assert((a + b)[m] == b[m - a.len()]);
        }
    }
}

/// Every contribution of a well-formed group is a valid rate.
pub proof fn lemma_contributions_wf(g: Group)
    requires
        g.wf(),
    ensures
        flows_wf(g.contributions()),
{
    lemma_map_wf(g.inputs@, Frac::of_int(1));
    lemma_map_wf(g.outputs@, Frac::of_int(1));
    lemma_allocated_wf(g.recipes@);
    lemma_flows_wf_concat(flows(g.inputs@), neg_flows(g.outputs@));
    lemma_flows_wf_concat(flows(g.inputs@) + neg_flows(g.outputs@), allocated_flows(g.recipes@));
}

/// A named planning scope: what is supplied, what is claimed as final
/// output, and the recipes allocated in it with their scale factors.
#[derive(Debug)]
pub struct Group {
    pub name: String,
    pub inputs: Vec<Ingredient>,
    pub outputs: Vec<Ingredient>,
    pub recipes: Vec<(Rate, Recipe)>,
}

pub open spec fn recipes_wf(rs: Seq<(Rate, Recipe)>) -> bool {
    forall|k: int| 0 <= k < rs.len() ==> (#[trigger] rs[k]).0.wf() && rs[k].1.wf()
}

/// No two entries of the same material.
pub open spec fn distinct_parts(s: Seq<Ingredient>) -> bool {
    forall|a: int, b: int| 0 <= a < b < s.len() ==> (#[trigger] s[a]).part@ != (#[trigger] s[b]).part@
}

impl Group {
    pub open spec fn wf(&self) -> bool {
        &&& all_wf(self.inputs@)
        &&& all_wf(self.outputs@)
        &&& distinct_parts(self.inputs@)
        &&& distinct_parts(self.outputs@)
        &&& recipes_wf(self.recipes@)
    }

    /// Every flow of the group, in the order the balance takes them.
    pub open spec fn contributions(&self) -> Seq<Flow> {
        flows(self.inputs@) + neg_flows(self.outputs@) + allocated_flows(self.recipes@)
    }

    /// An empty group.
    pub fn new(name: String) -> (r: Group)
        ensures
            r.wf(),
            r.name == name,
            r.inputs@.len() == 0,
            r.outputs@.len() == 0,
            r.recipes@.len() == 0,
    {
        Group { name, inputs: Vec::new(), outputs: Vec::new(), recipes: Vec::new() }
    }

    /// The net flow of each material in the group: one entry per material,
    /// in order of first appearance, each the exact sum of the group's
    /// contributions of that material.
    pub fn balances(&self) -> (r: Result<Vec<Ingredient>, PlanError>)
        requires
            self.wf(),
        ensures
            r is Ok ==> is_ledger(r->Ok_0@, self.contributions()) && all_wf(r->Ok_0@),
            r is Err ==> r->Err_0 == PlanError::Overflow,
            whole_flows(self.contributions()) && sum_abs(self.contributions()) <= RATE_LIMIT
                ==> r is Ok && whole(r->Ok_0@),
            flows_fit(self.contributions()) ==> r is Ok && within(
                r->Ok_0@,
                num_bound(0, 1, self.contributions()),
                den_bound(1, self.contributions()),
            ),
    {
        let ghost all = self.contributions();
        let ghost fine = flows_fit(all);
        let ghost good = whole_flows(all) && sum_abs(all) <= RATE_LIMIT;
        let ghost a = flows(self.inputs@);
        let ghost n = neg_flows(self.outputs@);
        let ghost head = a + n;
        proof {
            assert(all =~= head + allocated_flows(self.recipes@));
            assert(all.subrange(0, a.len() as int) =~= a);
            assert(all.subrange(0, head.len() as int) =~= head);
            lemma_prefix_bound(all, a.len() as int);
            lemma_prefix_bound(all, head.len() as int);
            lemma_sum_abs_append(a, n);
            if good {
                assert forall|m: int| 0 <= m < self.inputs@.len() implies (
                #[trigger] self.inputs@[m]).quantity.den == 1 by {
                    assert(a[m].1.d == 1);
                }
            }
        }
        proof {
            lemma_contributions_wf(*self);
            lemma_bound_grows(0, 1, all, a.len() as int);
            lemma_bound_grows(0, 1, all, head.len() as int);
            lemma_bound_append(0, 1, a, n);
            lemma_map_wf(self.inputs@, Frac::of_int(1));
            lemma_map_wf(self.outputs@, Frac::of_int(1));
            assert(reduced_forms(self.inputs@, a)) by {
                assert forall|m: int| 0 <= m < self.inputs@.len() implies reduced_form(
                    #[trigger] self.inputs@[m],
                    a[m],
                ) by {
                    crate::rate::lemma_eqv_refl(self.inputs@[m].quantity@);
                }
            }
        }
        let mut b: Vec<Ingredient> = Vec::new();
        let ghost empty: Seq<Flow> = Seq::empty();
        let res = merge_all(&self.inputs, &mut b, Ghost(empty), Ghost(0), Ghost(flows(self.inputs@)), Ghost(0), Ghost(1));
        if res.is_err() {
            return Err(PlanError::Overflow);
        }
        assert(empty + flows(self.inputs@) =~= flows(self.inputs@));
        let mut negs: Vec<Ingredient> = Vec::new();
        let mut j: usize = 0;
        while j < self.outputs.len()
            invariant
                j <= self.outputs.len(),
                all_wf(self.outputs@),
                all_wf(negs@),
                negs@.len() == j,
                forall|m: int|
                    0 <= m < j ==> (#[trigger] negs@[m]).part == self.outputs@[m].part
                        && negs@[m].quantity@ == self.outputs@[m].quantity@.neg(),
            decreases self.outputs.len() - j,
        {
            assert(self.outputs@[j as int].wf());
            negs.push(self.outputs[j].neg());
            j = j + 1;
        }
        assert(flows(negs@) =~= n);
        proof {
            if good {
                assert forall|m: int| 0 <= m < negs@.len() implies (#[trigger] negs@[m]).quantity.den
                    == 1 by {
                    assert(head[a.len() + m] == n[m]);
                    assert(all[a.len() + m] == head[a.len() + m]);
                }
            }
        }
        proof {
            assert(reduced_forms(negs@, n)) by {
                assert forall|m: int| 0 <= m < negs@.len() implies reduced_form(
                    #[trigger] negs@[m],
                    n[m],
                ) by {
                    crate::rate::lemma_eqv_refl(negs@[m].quantity@);
                }
            }
            lemma_bound_base(0, 1, a);
        }
        let res = merge_all(&negs, &mut b, Ghost(a), Ghost(sum_abs(a)), Ghost(n), Ghost(num_bound(0, 1, a)), Ghost(den_bound(1, a)));
        if res.is_err() {
            return Err(PlanError::Overflow);
        }
        proof {
            assert(self.recipes@.subrange(0, 0) =~= Seq::<(Rate, Recipe)>::empty());
            assert(head + allocated_flows(self.recipes@.subrange(0, 0)) =~= head);
            assert(a + flows(negs@) == head);
            lemma_map_wf(self.inputs@, Frac::of_int(1));
            lemma_map_wf(self.outputs@, Frac::of_int(1));
            lemma_flows_wf_concat(a, n);
        }
        let mut k: usize = 0;
        while k < self.recipes.len()
            invariant
                k <= self.recipes.len(),
                recipes_wf(self.recipes@),
                all_wf(b@),
                all == head + allocated_flows(self.recipes@),
                all == self.contributions(),
                flows_wf(head),
                is_ledger(b@, head + allocated_flows(self.recipes@.subrange(0, k as int))),
                good == (whole_flows(all) && sum_abs(all) <= RATE_LIMIT),
                good ==> whole(b@) && bounded(
                    b@,
                    sum_abs(head + allocated_flows(self.recipes@.subrange(0, k as int))),
                ),
                fine == flows_fit(all),
                flows_wf(all),
                fine ==> within(
                    b@,
                    num_bound(0, 1, head + allocated_flows(self.recipes@.subrange(0, k as int))),
                    den_bound(1, head + allocated_flows(self.recipes@.subrange(0, k as int))),
                ),
            decreases self.recipes.len() - k,
        {
            let ghost prev = head + allocated_flows(self.recipes@.subrange(0, k as int));
            let ghost next = head + allocated_flows(self.recipes@.subrange(0, k + 1));
            proof {
                assert(recipes_wf(self.recipes@));
                assert(self.recipes@[k as int].0.wf() && self.recipes@[k as int].1.wf());
                assert(self.recipes@.subrange(0, k + 1).drop_last() =~= self.recipes@.subrange(
                    0,
                    k as int,
                ));
                assert(next == prev + recipe_flows(self.recipes@[k as int].0@, self.recipes@[k as int].1));
                lemma_allocated_prefix(self.recipes@, k + 1);
                assert(all.subrange(0, next.len() as int) =~= next);
                lemma_prefix_bound(all, next.len() as int);
                assert(recipes_wf(self.recipes@.subrange(0, k as int)));
                lemma_allocated_wf(self.recipes@.subrange(0, k as int));
                lemma_flows_wf_concat(head, allocated_flows(self.recipes@.subrange(0, k as int)));
            }
            let sc = &self.recipes[k].0;
            let rec = &self.recipes[k].1;
            proof {
                assert(*sc == self.recipes@[k as int].0);
                assert(*rec == self.recipes@[k as int].1);
                assert(prev + recipe_flows(sc@, *rec) == next);
            }
            proof {
                lemma_bound_grows(0, 1, all, next.len() as int);
            }
            let res = merge_recipe(&mut b, sc, rec, Ghost(prev));
            if res.is_err() {
                return Err(PlanError::Overflow);
            }
            k = k + 1;
        }
        proof {
            assert(self.recipes@.subrange(0, self.recipes@.len() as int) =~= self.recipes@);
        }
        Ok(b)
    }
}

/// Merges what recipe `rec` at scale `s` adds: its outputs, then its
/// inputs as consumption.
fn merge_recipe(b: &mut Vec<Ingredient>, s: &Rate, rec: &Recipe, Ghost(prev): Ghost<Seq<Flow>>) -> (r:
    Result<(), PlanError>)
    requires
        is_ledger(old(b)@, prev),
        all_wf(old(b)@),
        flows_wf(prev),
        s.wf(),
        rec.wf(),
    ensures
        all_wf(final(b)@),
        r is Ok ==> is_ledger(final(b)@, prev + recipe_flows(s@, *rec)),
        r is Err ==> r->Err_0 == PlanError::Overflow,
        whole(old(b)@) && bounded(old(b)@, sum_abs(prev)) && whole_flows(prev + recipe_flows(s@, *rec))
            && sum_abs(prev + recipe_flows(s@, *rec)) <= RATE_LIMIT ==> r is Ok && whole(final(b)@)
            && bounded(final(b)@, sum_abs(prev + recipe_flows(s@, *rec))),
        within(old(b)@, num_bound(0, 1, prev), den_bound(1, prev)) && flows_fit(
            prev + recipe_flows(s@, *rec),
        ) ==> r is Ok && within(
            final(b)@,
            num_bound(0, 1, prev + recipe_flows(s@, *rec)),
            den_bound(1, prev + recipe_flows(s@, *rec)),
        ),
{
    let outs = rec.outputs();
    let ins = rec.inputs();
    let ghost sf = scaled_flows(outs@, s@);
    let ghost cf = consumed_flows(ins@, s@);
    let ghost next = prev + sf + cf;
    let ghost fine = within(b@, num_bound(0, 1, prev), den_bound(1, prev)) && flows_fit(next);
    let ghost n1 = num_bound(0, 1, prev);
    let ghost d1 = den_bound(1, prev);
    let ghost n2 = num_bound(0, 1, prev + sf);
    let ghost d2 = den_bound(1, prev + sf);
    let ghost good = whole(b@) && bounded(b@, sum_abs(prev)) && whole_flows(next) && sum_abs(next)
        <= RATE_LIMIT;
    proof {
        assert(next =~= prev + recipe_flows(s@, *rec));
        assert forall|m: int| 0 <= m < outs@.len() implies (#[trigger] outs@[m]).wf() by {
            assert(rec.ingredients_seq()[rec.inputs_seq().len() + m] == outs@[m]);
        }
        assert forall|m: int| 0 <= m < ins@.len() implies (#[trigger] ins@[m]).wf() by {
            assert(rec.ingredients_seq()[m] == ins@[m]);
        }
        lemma_sum_abs_append(prev, sf);
        lemma_sum_abs_append(prev + sf, cf);
        if good {
            assert forall|m: int| 0 <= m < outs@.len() implies (#[trigger] outs@[m]).quantity.den == 1
                && s.den == 1 && abs(outs@[m].quantity.num * s.num) <= RATE_LIMIT by {
                let t = prev.len() + m;
                assert(next[t] == sf[m]);
                lemma_sum_abs_term(next, t);
                lemma_unit_product(outs@[m].quantity.den as int, s.den as int);
            }
            assert forall|m: int| 0 <= m < ins@.len() implies (#[trigger] ins@[m]).quantity.den == 1
                && s.den == 1 && abs(ins@[m].quantity.num * s.num) <= RATE_LIMIT by {
                let t = prev.len() + sf.len() + m;
                assert(next[t] == cf[m]);
                lemma_sum_abs_term(next, t);
                lemma_unit_product(ins@[m].quantity.den as int, s.den as int);
            }
        }
    }
    proof {
        assert(all_wf(outs@));
        assert(all_wf(ins@));
        lemma_map_wf(outs@, s@);
        lemma_map_wf(ins@, s@);
        lemma_flows_wf_concat(prev, sf);
        lemma_flows_wf_concat(prev + sf, cf);
        lemma_bound_append(0, 1, prev, sf);
        lemma_bound_append(0, 1, prev + sf, cf);
        lemma_bound_base(0, 1, prev);
        lemma_bound_base(0, 1, prev + sf);
        if fine {
            assert(next.subrange(0, (prev + sf).len() as int) =~= prev + sf);
            lemma_bound_grows(0, 1, next, (prev + sf).len() as int);
            assert forall|m: int| 0 <= m < outs@.len() implies (#[trigger] outs@[m]).quantity@.mul(
                s@,
            ).fits() by {
                lemma_bound_term(0, 1, next, prev.len() + m);
                assert(next[prev.len() + m] == sf[m]);
            }
            assert forall|m: int| 0 <= m < ins@.len() implies (#[trigger] ins@[m]).quantity@.mul(
                s@,
            ).fits() by {
                lemma_bound_term(0, 1, next, prev.len() + sf.len() + m);
                assert(next[prev.len() + sf.len() + m] == cf[m]);
            }
        }
    }
    let so = match scaled(&outs, s, false) {
        Ok(v) => v,
        Err(e) => {
            return Err(e);
        },
    };
    let si = match scaled(&ins, s, true) {
        Ok(v) => v,
        Err(e) => {
            return Err(e);
        },
    };
    proof {
        lemma_map_wf(outs@, s@);
        lemma_map_wf(ins@, s@);
        lemma_flows_wf_concat(prev, sf);
        if good {
            assert(whole_flows(sf)) by {
                assert forall|m: int| 0 <= m < sf.len() implies (#[trigger] sf[m]).1.d == 1 by {
                    assert(next[prev.len() + m] == sf[m]);
                }
            }
            assert(whole_flows(cf)) by {
                assert forall|m: int| 0 <= m < cf.len() implies (#[trigger] cf[m]).1.d == 1 by {
                    assert(next[prev.len() + sf.len() + m] == cf[m]);
                }
            }
            lemma_sum_abs_eqv(flows(so@), sf);
            lemma_sum_abs_eqv(flows(si@), cf);
            lemma_sum_abs_nonneg(prev);
            lemma_sum_abs_nonneg(sf);
        }
    }
    let r1 = merge_all(&so, b, Ghost(prev), Ghost(sum_abs(prev)), Ghost(sf), Ghost(n1), Ghost(d1));
    if r1.is_err() {
        return Err(PlanError::Overflow);
    }
    proof {
        // the merged flows equal the recipe's outputs in value
        assert(flows_eqv(prev + flows(so@), prev + sf));
        assert(flows_wf(prev + flows(so@))) by {
            assert forall|m: int| 0 <= m < (prev + flows(so@)).len() implies (#[trigger] (prev
                + flows(so@))[m]).1.wf() by {
                if m >= prev.len() {
                    assert(so@[m - prev.len()].wf());
                }
            }
        }
        lemma_ledger_congr(b@, prev + flows(so@), prev + sf);
    }
    let r2 = merge_all(&si, b, Ghost(prev + sf), Ghost(sum_abs(prev) + sum_abs(sf)), Ghost(cf), Ghost(n2), Ghost(d2));
    if r2.is_err() {
        return Err(PlanError::Overflow);
    }
    proof {
        assert(flows_eqv(prev + sf + flows(si@), next));
        assert(flows_wf(prev + sf + flows(si@))) by {
            assert forall|m: int| 0 <= m < (prev + sf + flows(si@)).len() implies (#[trigger] (prev
                + sf + flows(si@)))[m].1.wf() by {
                if m >= prev.len() + sf.len() {
                    assert(si@[m - prev.len() - sf.len()].wf());
                } else {
                    assert((prev + sf + flows(si@))[m] == (prev + sf)[m]);
                }
            }
        }
        lemma_ledger_congr(b@, prev + sf + flows(si@), next);
    }
    Ok(())
}

/// Positive whole numbers whose product is one are both one.
proof fn lemma_unit_product(x: int, y: int)
    requires
        x > 0,
        y > 0,
    ensures
        x * y == 1 ==> x == 1 && y == 1,
{
    if x * y == 1 {
        assert(x == 1 && y == 1) by (nonlinear_arith)
            requires x > 0, y > 0, x * y == 1;
    }
}

} // verus!

verus! {

/// The total of material `p` over two lists of flows is the sum of the totals.
pub proof fn lemma_total_append(a: Seq<Flow>, b: Seq<Flow>, p: Seq<char>)
    requires
        flows_wf(a),
        flows_wf(b),
    ensures
        total(a + b, p).eqv(total(a, p).add(total(b, p))),
    decreases b.len(),
{
    lemma_total_wf(a, p);
    if b.len() == 0 {
        assert(a + b =~= a);
        lemma_add_zero(total(a, p));
        crate::rate::lemma_eqv_sym(total(a, p).add(Frac::of_int(0)), total(a, p));
    } else {
        let b1 = b.drop_last();
        let x = b.last();
        assert((a + b).drop_last() =~= a + b1);
        assert((a + b).last() == x);
        assert(flows_wf(b1));
        lemma_total_append(a, b1, p);
        lemma_total_wf(a + b1, p);
        lemma_total_wf(b1, p);
        lemma_flows_wf_concat(a, b1);
        lemma_total_wf(a + b1, p);
        lemma_wf_ops(total(a, p), total(b1, p));
        if x.0 == p {
            assert(x.1.wf());
            // (ta + tb1) + x ~ ta + (tb1 + x)
            lemma_add_congr(total(a + b1, p), total(a, p).add(total(b1, p)), x.1, x.1);
            lemma_add_assoc(total(a, p), total(b1, p), x.1);
            lemma_wf_ops(total(a, p).add(total(b1, p)), x.1);
            lemma_eqv_trans(
                total(a + b1, p).add(x.1),
                total(a, p).add(total(b1, p)).add(x.1),
                total(a, p).add(total(b1, p).add(x.1)),
            );
        }
    }
}

/// Flows that never name `p` total zero for it.
pub proof fn lemma_total_none(b: Seq<Flow>, p: Seq<char>)
    requires
        forall|k: int| 0 <= k < b.len() ==> (#[trigger] b[k]).0 != p,
    ensures
        total(b, p) == Frac::of_int(0),
    decreases b.len(),
{
    if b.len() > 0 {
        lemma_total_none(b.drop_last(), p);
    }
}

/// Flows that name `p` once, at `m`, total that flow's value for it.
pub proof fn lemma_total_single(b: Seq<Flow>, p: Seq<char>, m: int)
    requires
        0 <= m < b.len(),
        b[m].0 == p,
        forall|k: int| 0 <= k < b.len() && k != m ==> (#[trigger] b[k]).0 != p,
    ensures
        total(b, p) == Frac::of_int(0).add(b[m].1),
    decreases b.len(),
{
    if m < b.len() - 1 {
        lemma_total_single(b.drop_last(), p, m);
    } else {
        lemma_total_none(b.drop_last(), p);
    }
}

} // verus!

verus! {

/// The plain sum of the quantities.
pub open spec fn sum_quantities(s: Seq<Ingredient>) -> Frac
    decreases s.len(),
{
    if s.len() == 0 {
        Frac::of_int(0)
    } else {
        sum_quantities(s.drop_last()).add(s.last().quantity@)
    }
}

proof fn lemma_merge_chain(items: Seq<Ingredient>, states: Seq<Seq<Ingredient>>, n: int)
    requires
        0 <= n < states.len(),
        states.len() == items.len() + 1,
        states[0].len() == 0,
        all_wf(items),
        forall|k: int| 0 <= k < states.len() ==> all_wf(#[trigger] states[k]),
        forall|k: int|
            0 <= k < items.len() ==> merged(#[trigger] states[k], states[k + 1], items[k]),
    ensures
        is_ledger(states[n], flows(items.subrange(0, n))),
    decreases n,
{
    if n > 0 {
        lemma_merge_chain(items, states, n - 1);
        assert(merged(states[n - 1], states[n], items[n - 1]));
        assert(all_wf(states[n]));
        assert(items[n - 1].wf());
        lemma_ledger_merge(states[n - 1], states[n], flows(items.subrange(0, n - 1)), items[n - 1]);
        assert(flows(items.subrange(0, n - 1)).push(items[n - 1].flow()) =~= flows(
            items.subrange(0, n),
        ));
    } else {
        assert(flows(items.subrange(0, 0)) =~= Seq::<Flow>::empty());
    }
}

proof fn lemma_single_part(s: Seq<Ingredient>, p: Seq<char>)
    requires
        s.len() > 0,
        forall|k: int| 0 <= k < s.len() ==> (#[trigger] s[k]).part@ == p,
    ensures
        parts_in_order(flows(s)) == seq![p],
        total(flows(s), p) == sum_quantities(s),
    decreases s.len(),
{
    assert(flows(s).drop_last() =~= flows(s.drop_last()));
    assert(flows(s).last() == s.last().flow());
    assert(s.last().part@ == p) by {
        assert(s[s.len() - 1].part@ == p);
    }
    assert(flows(s).last().0 == p);
    if s.len() > 1 {
        lemma_single_part(s.drop_last(), p);
        assert(seq![p].contains(p)) by {
            assert(seq![p][0] == p);
        }
    } else {
        assert(flows(s.drop_last()) =~= Seq::<Flow>::empty());
        assert(s.drop_last() =~= Seq::<Ingredient>::empty());
        assert(parts_in_order(flows(s).drop_last()) =~= Seq::<Seq<char>>::empty());
        assert(!Seq::<Seq<char>>::empty().contains(p));
        assert(Seq::<Seq<char>>::empty().push(p) =~= seq![p]);
    }
}

/// Merge conservation: merging, one after another with `merge_with`,
/// ingredients that are all of one material into an empty list leaves a
/// single entry whose quantity is the sum of theirs.
pub proof fn lemma_merge_conservation(items: Seq<Ingredient>, states: Seq<Seq<Ingredient>>, p: Seq<char>)
    requires
        items.len() > 0,
        states.len() == items.len() + 1,
        states[0].len() == 0,
        all_wf(items),
        forall|k: int| 0 <= k < states.len() ==> all_wf(#[trigger] states[k]),
        forall|k: int| 0 <= k < items.len() ==> (#[trigger] items[k]).part@ == p,
        forall|k: int|
            0 <= k < items.len() ==> merged(#[trigger] states[k], states[k + 1], items[k]),
    ensures
        states.last().len() == 1,
        states.last()[0].part@ == p,
        states.last()[0].quantity@.eqv(sum_quantities(items)),
{
    let n = items.len() as int;
    lemma_merge_chain(items, states, n);
    assert(items.subrange(0, n) =~= items);
    lemma_single_part(items, p);
    assert(states.last() == states[n]);
}

/// The quantity of material `p` in a list, zero where it has none.
pub open spec fn quantity_of(s: Seq<Ingredient>, p: Seq<char>) -> Frac {
    let j = position(s, p);
    if j >= 0 {
        s[j].quantity@
    } else {
        Frac::of_int(0)
    }
}

proof fn lemma_total_side(s: Seq<Ingredient>, p: Seq<char>)
    requires
        all_wf(s),
        distinct_parts(s),
    ensures
        total(flows(s), p).eqv(quantity_of(s, p)),
        total(neg_flows(s), p).eqv(quantity_of(s, p).neg()),
{
    crate::ingredient::lemma_position_range(s, p);
    let j = position(s, p);
    if j >= 0 {
        assert forall|k: int| 0 <= k < s.len() && k != j implies (#[trigger] flows(s)[k]).0 != p by {
            if k < j {
                assert(s[k].part@ != s[j].part@);
            } else {
                assert(s[j].part@ != s[k].part@);
            }
        }
        assert forall|k: int| 0 <= k < s.len() && k != j implies (#[trigger] neg_flows(s)[k]).0
            != p by {
            assert(neg_flows(s)[k].0 == flows(s)[k].0);
        }
        lemma_total_single(flows(s), p, j);
        lemma_total_single(neg_flows(s), p, j);
        lemma_add_zero(s[j].quantity@);
        lemma_add_zero(s[j].quantity@.neg());
    } else {
        assert forall|k: int| 0 <= k < s.len() implies (#[trigger] flows(s)[k]).0 != p by {
            if s[k].part@ == p {
                crate::ingredient::lemma_position_is_found(s, p, k);
            }
        }
        assert forall|k: int| 0 <= k < s.len() implies (#[trigger] neg_flows(s)[k]).0 != p by {
            assert(neg_flows(s)[k].0 == flows(s)[k].0);
        }
        lemma_total_none(flows(s), p);
        lemma_total_none(neg_flows(s), p);
    }
}

pub proof fn lemma_parts_contains(cs: Seq<Flow>, p: Seq<char>)
    ensures
        parts_in_order(cs).contains(p) <==> exists|k: int| 0 <= k < cs.len() && (#[trigger] cs[k]).0
            == p,
    decreases cs.len(),
{
    if cs.len() > 0 {
        lemma_parts_contains(cs.drop_last(), p);
        let d = parts_in_order(cs.drop_last());
        if exists|k: int| 0 <= k < cs.len() && (#[trigger] cs[k]).0 == p {
            let k = choose|k: int| 0 <= k < cs.len() && (#[trigger] cs[k]).0 == p;
            if k < cs.len() - 1 {
                assert(cs.drop_last()[k] == cs[k]);
                assert(d.contains(p));
                if !d.contains(cs.last().0) {
                    let i = choose|i: int| 0 <= i < d.len() && d[i] == p;
                    assert(parts_in_order(cs)[i] == p);
                }
            } else {
                if !d.contains(cs.last().0) {
                    assert(parts_in_order(cs).last() == p);
                }
            }
        } else {
            assert forall|k: int| 0 <= k < cs.drop_last().len() implies (#[trigger] cs.drop_last()[k]).0
                != p by {
                assert(cs.drop_last()[k] == cs[k]);
            }
            if parts_in_order(cs).contains(p) {
                let i = choose|i: int| 0 <= i < parts_in_order(cs).len() && parts_in_order(cs)[i] == p;
                if !d.contains(cs.last().0) && i == d.len() {
                    assert(cs[cs.len() - 1].0 == p);
                } else {
                    assert(d[i] == p);
                }
            }
        }
    }
}

/// Empty-group balance: in a group with no recipes, the balance holds each
/// material that is supplied or claimed, with what is supplied of it less
/// what is claimed of it.
pub proof fn lemma_empty_group_balance(g: Group, b: Seq<Ingredient>)
    requires
        g.wf(),
        g.recipes@.len() == 0,
        is_ledger(b, g.contributions()),
    ensures
        forall|k: int|
            0 <= k < b.len() ==> (#[trigger] b[k]).quantity@.eqv(
                quantity_of(g.inputs@, b[k].part@).sub(quantity_of(g.outputs@, b[k].part@)),
            ),
        forall|p: Seq<char>|
            (exists|k: int| 0 <= k < b.len() && (#[trigger] b[k]).part@ == p) <==> (position(
                g.inputs@,
                p,
            ) >= 0 || position(g.outputs@, p) >= 0),
{
    let a = flows(g.inputs@);
    let n = neg_flows(g.outputs@);
    assert(g.contributions() =~= a + n);
    lemma_map_wf(g.inputs@, Frac::of_int(1));
    lemma_map_wf(g.outputs@, Frac::of_int(1));
    assert forall|k: int| 0 <= k < b.len() implies (#[trigger] b[k]).quantity@.eqv(
        quantity_of(g.inputs@, b[k].part@).sub(quantity_of(g.outputs@, b[k].part@)),
    ) by {
        let p = b[k].part@;
        lemma_total_append(a, n, p);
        lemma_total_side(g.inputs@, p);
        lemma_total_side(g.outputs@, p);
        lemma_add_congr(total(a, p), quantity_of(g.inputs@, p), total(n, p), quantity_of(g.outputs@, p).neg());
        lemma_total_wf(a, p);
        lemma_total_wf(n, p);
        lemma_wf_ops(total(a, p), total(n, p));
        lemma_eqv_trans(total(a + n, p), total(a, p).add(total(n, p)), quantity_of(g.inputs@, p).sub(quantity_of(g.outputs@, p)));
        lemma_flows_wf_concat(a, n);
        lemma_total_wf(a + n, p);
        lemma_eqv_trans(b[k].quantity@, total(a + n, p), quantity_of(g.inputs@, p).sub(quantity_of(g.outputs@, p)));
    }
    assert forall|p: Seq<char>|
        (exists|k: int| 0 <= k < b.len() && (#[trigger] b[k]).part@ == p) <==> (position(
            g.inputs@,
            p,
        ) >= 0 || position(g.outputs@, p) >= 0) by {
        let cs = a + n;
        lemma_parts_contains(cs, p);
        crate::ingredient::lemma_position_range(g.inputs@, p);
        crate::ingredient::lemma_position_range(g.outputs@, p);
        if exists|k: int| 0 <= k < b.len() && (#[trigger] b[k]).part@ == p {
            let k = choose|k: int| 0 <= k < b.len() && (#[trigger] b[k]).part@ == p;
            assert(parts_in_order(cs)[k] == p);
            assert(parts_in_order(cs).contains(p));
            let t = choose|t: int| 0 <= t < cs.len() && (#[trigger] cs[t]).0 == p;
            if t < a.len() {
                assert(cs[t] == a[t]);
                crate::ingredient::lemma_position_is_found(g.inputs@, p, t);
            } else {
                assert(cs[t] == n[t - a.len()]);
                crate::ingredient::lemma_position_is_found(g.outputs@, p, t - a.len());
            }
        }
        if position(g.inputs@, p) >= 0 || position(g.outputs@, p) >= 0 {
            if position(g.inputs@, p) >= 0 {
                let t = position(g.inputs@, p);
                assert(cs[t] == a[t]);
                assert(cs[t].0 == p);
            } else {
                let t = position(g.outputs@, p);
                assert(cs[a.len() + t] == n[t]);
                assert(cs[a.len() + t].0 == p);
            }
            let i = choose|i: int| 0 <= i < parts_in_order(cs).len() && parts_in_order(cs)[i] == p;
            assert(b[i].part@ == p);
        }
    }
}

} // verus!

verus! {

/// The sum of the magnitudes of the flows' numerators.
pub open spec fn sum_abs(cs: Seq<Flow>) -> int
    decreases cs.len(),
{
    if cs.len() == 0 {
        0
    } else {
        sum_abs(cs.drop_last()) + abs(cs.last().1.n)
    }
}

/// Every flow is a whole number.
pub open spec fn whole_flows(cs: Seq<Flow>) -> bool {
    forall|k: int| 0 <= k < cs.len() ==> (#[trigger] cs[k]).1.d == 1
}

/// No entry's numerator exceeds `s` in magnitude.
pub open spec fn bounded(b: Seq<Ingredient>, s: int) -> bool {
    forall|k: int| 0 <= k < b.len() ==> abs((#[trigger] b[k]).quantity.num as int) <= s
}

pub proof fn lemma_sum_abs_append(a: Seq<Flow>, b: Seq<Flow>)
    ensures
        sum_abs(a + b) == sum_abs(a) + sum_abs(b),
        sum_abs(a) >= 0,
        sum_abs(b) >= 0,
    decreases b.len(),
{
    lemma_sum_abs_nonneg(a);
    lemma_sum_abs_nonneg(b);
    if b.len() == 0 {
        assert(a + b =~= a);
    } else {
        assert((a + b).drop_last() =~= a + b.drop_last());
        assert((a + b).last() == b.last());
        lemma_sum_abs_append(a, b.drop_last());
    }
}

pub proof fn lemma_sum_abs_nonneg(a: Seq<Flow>)
    ensures
        sum_abs(a) >= 0,
    decreases a.len(),
{
    if a.len() > 0 {
        lemma_sum_abs_nonneg(a.drop_last());
    }
}

/// One flow's magnitude is at most the sum.
pub proof fn lemma_sum_abs_term(a: Seq<Flow>, k: int)
    requires
        0 <= k < a.len(),
    ensures
        abs(a[k].1.n) <= sum_abs(a),
    decreases a.len(),
{
    lemma_sum_abs_nonneg(a.drop_last());
    if k < a.len() - 1 {
        lemma_sum_abs_term(a.drop_last(), k);
    }
}

/// Equal whole flows have equal magnitudes.
pub proof fn lemma_sum_abs_eqv(a: Seq<Flow>, b: Seq<Flow>)
    requires
        flows_eqv(a, b),
        whole_flows(a),
        whole_flows(b),
    ensures
        sum_abs(a) == sum_abs(b),
    decreases a.len(),
{
    if a.len() > 0 {
        assert(flows_eqv(a.drop_last(), b.drop_last()));
        lemma_sum_abs_eqv(a.drop_last(), b.drop_last());
        let x = a.last().1;
        let y = b.last().1;
        assert(x.d == 1 && y.d == 1);
        assert(x.n == y.n) by (nonlinear_arith)
            requires x.n * y.d == y.n * x.d, x.d == 1, y.d == 1;
    }
}

/// The flows of a list of recipes begin with those of its first `k`.
pub proof fn lemma_allocated_prefix(rs: Seq<(Rate, Recipe)>, k: int)
    requires
        0 <= k <= rs.len(),
    ensures
        allocated_flows(rs).subrange(0, allocated_flows(rs.subrange(0, k)).len() as int)
            == allocated_flows(rs.subrange(0, k)),
        allocated_flows(rs.subrange(0, k)).len() <= allocated_flows(rs).len(),
    decreases rs.len() - k,
{
    if k == rs.len() {
        assert(rs.subrange(0, k) =~= rs);
        assert(allocated_flows(rs).subrange(0, allocated_flows(rs).len() as int) =~= allocated_flows(rs));
    } else {
        lemma_allocated_prefix(rs, k + 1);
        let p = allocated_flows(rs.subrange(0, k));
        let q = allocated_flows(rs.subrange(0, k + 1));
        assert(rs.subrange(0, k + 1).drop_last() =~= rs.subrange(0, k));
        assert(q == p + recipe_flows(rs[k].0@, rs[k].1));
        assert(q.subrange(0, p.len() as int) =~= p);
        assert(allocated_flows(rs).subrange(0, p.len() as int) =~= q.subrange(0, p.len() as int));
    }
}

/// A prefix of whole flows is whole and sums to no more.
pub proof fn lemma_prefix_bound(a: Seq<Flow>, n: int)
    requires
        0 <= n <= a.len(),
    ensures
        sum_abs(a.subrange(0, n)) <= sum_abs(a),
        whole_flows(a) ==> whole_flows(a.subrange(0, n)),
{
    assert(a =~= a.subrange(0, n) + a.subrange(n, a.len() as int));
    lemma_sum_abs_append(a.subrange(0, n), a.subrange(n, a.len() as int));
}

} // verus!

verus! {

} // verus!

verus! {

/// The product of `d0` and the flows' denominators.
pub open spec fn den_bound(d0: int, cs: Seq<Flow>) -> int
    decreases cs.len(),
{
    if cs.len() == 0 {
        d0
    } else {
        den_bound(d0, cs.drop_last()) * cs.last().1.d
    }
}

/// Over the denominator `den_bound(d0, cs)`, a numerator no smaller than
/// `n0 / d0` plus the magnitudes of the flows.
pub open spec fn num_bound(n0: int, d0: int, cs: Seq<Flow>) -> int
    decreases cs.len(),
{
    if cs.len() == 0 {
        n0
    } else {
        num_bound(n0, d0, cs.drop_last()) * cs.last().1.d + abs(cs.last().1.n) * den_bound(
            d0,
            cs.drop_last(),
        )
    }
}

/// The flows, put over the product of their denominators, fit a rate: so
/// does every balance entry made from them.
pub open spec fn flows_fit(cs: Seq<Flow>) -> bool {
    den_bound(1, cs) <= RATE_LIMIT && num_bound(0, 1, cs) <= RATE_LIMIT
}

/// Every entry has a denominator of at most `d` and a magnitude of at most `n / d`.
pub open spec fn within(b: Seq<Ingredient>, n: int, d: int) -> bool {
    forall|k: int|
        0 <= k < b.len() ==> (#[trigger] b[k]).quantity.den <= d && abs(b[k].quantity.num as int) * d
            <= n * b[k].quantity.den
}

/// `i` is the flow `f` in a form no larger in its parts.
pub open spec fn reduced_form(i: Ingredient, f: Flow) -> bool {
    &&& i.part@ == f.0
    &&& i.quantity@.eqv(f.1)
    &&& i.quantity.den <= f.1.d
    &&& abs(i.quantity.num as int) <= abs(f.1.n)
}

pub open spec fn reduced_forms(items: Seq<Ingredient>, fs: Seq<Flow>) -> bool {
    &&& items.len() == fs.len()
    &&& forall|k: int| 0 <= k < items.len() ==> reduced_form(#[trigger] items[k], fs[k])
}

proof fn lemma_abs_add(x: int, y: int)
    ensures
        abs(x + y) <= abs(x) + abs(y),
{
}

proof fn lemma_mul3_mono(u: int, v: int, w: int, z: int)
    requires
        0 <= u <= v,
        0 <= w <= z,
    ensures
        u * w <= v * z,
{
    assert(u * w <= v * z) by (nonlinear_arith)
        requires 0 <= u <= v, 0 <= w <= z;
}

proof fn lemma_expand(a: int, cd: int, c: int, ed: int, d: int, sd: int)
    ensures
        (a * cd + c * ed) * (d * sd) == a * d * cd * sd + c * sd * ed * d,
{
    assert((a * cd + c * ed) * (d * sd) == (a * cd) * (d * sd) + (c * ed) * (d * sd)) by (nonlinear_arith);
    assert((a * cd) * (d * sd) == a * d * cd * sd) by (nonlinear_arith);
    assert((c * ed) * (d * sd) == c * sd * ed * d) by (nonlinear_arith);
}

proof fn lemma_expand2(ed: int, cd: int, n: int, sd: int, s: int, d: int)
    ensures
        (ed * cd) * (n * sd + s * d) == n * ed * cd * sd + s * cd * ed * d,
{
    assert((ed * cd) * (n * sd + s * d) == (ed * cd) * (n * sd) + (ed * cd) * (s * d)) by (nonlinear_arith);
    assert((ed * cd) * (n * sd) == n * ed * cd * sd) by (nonlinear_arith);
    assert((ed * cd) * (s * d) == s * cd * ed * d) by (nonlinear_arith);
}

/// One merge into an existing entry: the sum fits, and the new entry keeps
/// within the grown bounds.
proof fn lemma_merge_step(
    en: int, ed: int, cn: int, cd: int, sn: int, sd: int, n: int, d: int, e2n: int, e2d: int,
)
    requires
        ed > 0,
        cd > 0,
        sd > 0,
        d >= 1,
        n >= 0,
        ed <= d,
        abs(en) * d <= n * ed,
        cd <= sd,
        abs(cn) <= abs(sn),
        abs(cn) * sd == abs(sn) * cd,
        e2d > 0,
        e2n * (ed * cd) == (en * cd + cn * ed) * e2d,
    ensures
        abs(en * cd + cn * ed) <= n * sd + abs(sn) * d,
        ed * cd <= d * sd,
        abs(e2n) * (d * sd) <= (n * sd + abs(sn) * d) * e2d,
{
    let a = abs(en);
    let c = abs(cn);
    let s = abs(sn);
    let u = abs(en * cd + cn * ed);
    let np = n * sd + s * d;
    lemma_abs_mul(en, cd);
    lemma_abs_mul(cn, ed);
    lemma_abs_add(en * cd, cn * ed);
    assert(u <= a * cd + c * ed);
    // u * d <= ed * np
    assert(a * cd * d <= n * ed * cd) by (nonlinear_arith)
        requires a * d <= n * ed, cd > 0;
    assert(c * ed * d <= s * ed * d) by (nonlinear_arith)
        requires c <= s, ed > 0, d >= 1;
    assert(n * ed * cd <= n * ed * sd) by (nonlinear_arith)
        requires cd <= sd, n >= 0, ed > 0;
    assert(u * d <= (a * cd + c * ed) * d) by (nonlinear_arith)
        requires u <= a * cd + c * ed, d >= 1;
    assert((a * cd + c * ed) * d == a * cd * d + c * ed * d) by (nonlinear_arith);
    assert(ed * np == n * ed * sd + s * ed * d) by (nonlinear_arith)
        requires np == n * sd + s * d;
    assert(u * d <= ed * np);
    assert(np >= 0) by (nonlinear_arith)
        requires n >= 0, sd > 0, s >= 0, d >= 1, np == n * sd + s * d;
    assert(ed * np <= d * np) by (nonlinear_arith)
        requires ed <= d, np >= 0;
    assert(u <= np) by (nonlinear_arith)
        requires u * d <= d * np, d >= 1;
    lemma_mul3_mono(ed, d, cd, sd);
    // u * d * sd <= ed * cd * np
    assert(a * d * cd * sd <= n * ed * cd * sd) by (nonlinear_arith)
        requires a * d <= n * ed, cd > 0, sd > 0;
    assert(c * sd * ed * d == s * cd * ed * d) by (nonlinear_arith)
        requires c * sd == s * cd;
    assert(u * (d * sd) <= (a * cd + c * ed) * (d * sd)) by (nonlinear_arith)
        requires u <= a * cd + c * ed, d >= 1, sd > 0;
    lemma_expand(a, cd, c, ed, d, sd);
    lemma_expand2(ed, cd, n, sd, s, d);
    assert(u * (d * sd) <= (ed * cd) * np);
    // |e2n| * (ed * cd) == u * e2d
    lemma_abs_mul(e2n, ed * cd);
    lemma_abs_mul(en * cd + cn * ed, e2d);
    assert(abs(ed * cd) == ed * cd) by (nonlinear_arith)
        requires ed > 0, cd > 0;
    assert(abs(e2n) * (ed * cd) == u * e2d);
    assert(abs(e2n) * (d * sd) * (ed * cd) <= np * e2d * (ed * cd)) by (nonlinear_arith)
        requires
            abs(e2n) * (ed * cd) == u * e2d,
            u * (d * sd) <= (ed * cd) * np,
            e2d > 0,
    ;
    assert(ed * cd > 0) by (nonlinear_arith)
        requires ed > 0, cd > 0;
    assert(abs(e2n) * (d * sd) <= np * e2d) by (nonlinear_arith)
        requires abs(e2n) * (d * sd) * (ed * cd) <= np * e2d * (ed * cd), ed * cd > 0;
}

} // verus!

verus! {

/// Merging a flow given in reduced form into a ledger within bounds: the
/// sum fits, and the ledger stays within the bounds grown by that flow.
proof fn lemma_within_merge(b: Seq<Ingredient>, b2: Seq<Ingredient>, i: Ingredient, f: Flow, n: int, d: int)
    requires
        within(b, n, d),
        n >= 0,
        d >= 1,
        all_wf(b),
        i.wf(),
        f.1.d > 0,
        reduced_form(i, f),
        all_wf(b2),
        n * f.1.d + abs(f.1.n) * d <= RATE_LIMIT,
        d * f.1.d <= RATE_LIMIT,
    ensures
        ({
            let j = position(b, i.part@);
            j >= 0 ==> b[j].quantity@.add(i.quantity@).fits()
        }),
        merged(b, b2, i) ==> within(b2, n * f.1.d + abs(f.1.n) * d, d * f.1.d),
{
    let j = position(b, i.part@);
    crate::ingredient::lemma_position_range(b, i.part@);
    let cn = i.quantity.num as int;
    let cd = i.quantity.den as int;
    let sn = f.1.n;
    let sd = f.1.d;
    let np = n * sd + abs(sn) * d;
    lemma_abs_mul(cn, sd);
    lemma_abs_mul(sn, cd);
    assert(abs(cn) * sd == abs(sn) * cd);
    if j >= 0 {
        let e = b[j].quantity;
        assert(b[j].wf());
        let en = e.num as int;
        let ed = e.den as int;
        assert(ed * cd > 0) by (nonlinear_arith)
            requires ed > 0, cd > 0;
        lemma_merge_step(en, ed, cn, cd, sn, sd, n, d, en * cd + cn * ed, ed * cd);
    }
    if merged(b, b2, i) {
        assert forall|k: int| 0 <= k < b2.len() implies (#[trigger] b2[k]).quantity.den <= d * sd
            && abs(b2[k].quantity.num as int) * (d * sd) <= np * b2[k].quantity.den by {
            if j >= 0 && k == j {
                let e = b[j].quantity;
                let e2 = b2[j].quantity;
                assert(b[j].wf());
                assert(b2[j].wf());
                lemma_merge_step(
                    e.num as int,
                    e.den as int,
                    cn,
                    cd,
                    sn,
                    sd,
                    n,
                    d,
                    e2.num as int,
                    e2.den as int,
                );
            } else if k < b.len() {
                let e = b[k].quantity;
                assert(b2[k] == b[k]);
                assert(b[k].wf());
                assert(e.den <= d);
                lemma_mul_mono(e.den as int, d, 1);
                assert((e.den as int) <= d * sd) by (nonlinear_arith)
                    requires (e.den as int) <= d, sd >= 1, d >= 1;
                assert(abs(e.num as int) * (d * sd) <= np * e.den) by (nonlinear_arith)
                    requires
                        abs(e.num as int) * d <= n * e.den,
                        sd > 0,
                        np == n * sd + abs(sn) * d,
                        abs(sn) >= 0,
                        d >= 1,
                        e.den > 0,
                ;
            } else {
                assert(b2[k] == i);
                assert(cd <= d * sd) by (nonlinear_arith)
                    requires cd <= sd, d >= 1, sd > 0;
                assert(abs(cn) * (d * sd) <= np * cd) by (nonlinear_arith)
                    requires abs(cn) * sd == abs(sn) * cd, np == n * sd + abs(sn) * d, n >= 0, sd > 0, cd > 0, d >= 1;
            }
        }
    }
}

/// The bounds of two lists of flows, taken one after the other.
proof fn lemma_bound_append(n0: int, d0: int, a: Seq<Flow>, b: Seq<Flow>)
    ensures
        den_bound(d0, a + b) == den_bound(den_bound(d0, a), b),
        num_bound(n0, d0, a + b) == num_bound(num_bound(n0, d0, a), den_bound(d0, a), b),
    decreases b.len(),
{
    if b.len() == 0 {
        assert(a + b =~= a);
    } else {
        assert((a + b).drop_last() =~= a + b.drop_last());
        assert((a + b).last() == b.last());
        lemma_bound_append(n0, d0, a, b.drop_last());
    }
}

/// The bounds only grow along the flows.
proof fn lemma_bound_grows(n0: int, d0: int, a: Seq<Flow>, k: int)
    requires
        0 <= k <= a.len(),
        n0 >= 0,
        d0 >= 1,
        flows_wf(a),
    ensures
        1 <= den_bound(d0, a.subrange(0, k)) <= den_bound(d0, a),
        0 <= num_bound(n0, d0, a.subrange(0, k)) <= num_bound(n0, d0, a),
    decreases a.len() - k,
{
    if k == a.len() {
        assert(a.subrange(0, k) =~= a);
        lemma_bound_base(n0, d0, a);
    } else {
        lemma_bound_grows(n0, d0, a, k + 1);
        let p = a.subrange(0, k);
        let q = a.subrange(0, k + 1);
        assert(q.drop_last() =~= p);
        assert(q.last() == a[k]);
        assert(a[k].1.wf());
        lemma_bound_base(n0, d0, p);
        let dp = den_bound(d0, p);
        let np = num_bound(n0, d0, p);
        assert(dp <= dp * a[k].1.d) by (nonlinear_arith)
            requires dp >= 1, a[k].1.d >= 1;
        assert(np <= np * a[k].1.d + abs(a[k].1.n) * dp) by (nonlinear_arith)
            requires np >= 0, dp >= 1, a[k].1.d >= 1;
        assert(abs(a[k].1.n) <= np * a[k].1.d + abs(a[k].1.n) * dp) by (nonlinear_arith)
            requires np >= 0, dp >= 1, a[k].1.d >= 1;
        assert(a[k].1.d <= dp * a[k].1.d) by (nonlinear_arith)
            requires dp >= 1, a[k].1.d >= 1;
    }
}

/// Each flow is no larger in its parts than the bounds.
proof fn lemma_bound_term(n0: int, d0: int, a: Seq<Flow>, t: int)
    requires
        0 <= t < a.len(),
        n0 >= 0,
        d0 >= 1,
        flows_wf(a),
    ensures
        abs(a[t].1.n) <= num_bound(n0, d0, a),
        a[t].1.d <= den_bound(d0, a),
{
    lemma_bound_grows(n0, d0, a, t + 1);
    lemma_bound_grows(n0, d0, a, t);
    let p = a.subrange(0, t);
    let q = a.subrange(0, t + 1);
    assert(q.drop_last() =~= p);
    assert(q.last() == a[t]);
    assert(a[t].1.wf());
    let dp = den_bound(d0, p);
    let np = num_bound(n0, d0, p);
    assert(abs(a[t].1.n) <= np * a[t].1.d + abs(a[t].1.n) * dp) by (nonlinear_arith)
        requires np >= 0, dp >= 1, a[t].1.d >= 1;
    assert(a[t].1.d <= dp * a[t].1.d) by (nonlinear_arith)
        requires dp >= 1, a[t].1.d >= 1;
}

pub proof fn lemma_bound_base(n0: int, d0: int, a: Seq<Flow>)
    requires
        n0 >= 0,
        d0 >= 1,
        flows_wf(a),
    ensures
        den_bound(d0, a) >= 1,
        num_bound(n0, d0, a) >= 0,
    decreases a.len(),
{
    if a.len() > 0 {
        assert(flows_wf(a.drop_last())) by {
            assert forall|t: int| 0 <= t < a.drop_last().len() implies (#[trigger] a.drop_last()[t]).1.wf() by {
                assert(a.drop_last()[t] == a[t]);
            }
        }
        lemma_bound_base(n0, d0, a.drop_last());
        assert(a[a.len() - 1].1.wf());
        let dp = den_bound(d0, a.drop_last());
        let np = num_bound(n0, d0, a.drop_last());
        assert(dp * a.last().1.d >= 1) by (nonlinear_arith)
            requires dp >= 1, a.last().1.d >= 1;
        assert(np * a.last().1.d + abs(a.last().1.n) * dp >= 0) by (nonlinear_arith)
            requires np >= 0, dp >= 1, a.last().1.d >= 1;
    }
}

} // verus!
