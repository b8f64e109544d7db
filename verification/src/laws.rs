//! Laws of the queue allocator, stated and proved over the model in
//! [`crate::alloc_model`]. The allocator's contract carries each outcome to
//! these statements.

use vstd::prelude::*;

use crate::alloc_model::{
    alloc_failure, all_label_refs, block, cap_of, demand, fams_of, first_unfit_flex, flex_fits,
    is_kind, label_count, label_start, labeled_demand, labeled_map, labels_of, labels_weight,
    lemma_absent_family, lemma_demand_bounds, lemma_fams_contains, lemma_first_unfit_flex_none,
    lemma_first_unfit_strict_at, lemma_first_unfit_strict_none, lemma_label_count_bounds,
    lemma_label_start_at, lemma_labels_contains, lemma_labels_no_dup, lemma_strict_all_fit,
    lemma_weight_bounds, lemma_weight_full, lemma_weight_step, refs_upto, remaining_of,
    slot_index, strict_fits, total_demand, unlabeled_count, unlabeled_indices,
};
use crate::allocator::{create_params_of, QueueCreateParam};
use crate::errors::QueueRequestValidationError;
use crate::queues::{LabelV, QueueRef};
use crate::requests::QueueRequestV;

verus! {

/// Weights grow along the label list.
proof fn lemma_weight_mono(reqs: Seq<QueueRequestV>, strict: bool, f: u32, j1: int, j2: int)
    requires
        0 <= j1 <= j2 <= labels_of(reqs, strict, f).len(),
    ensures
        labels_weight(reqs, strict, f, j1) <= labels_weight(reqs, strict, f, j2),
    decreases j2 - j1,
{
    if j1 < j2 {
        lemma_weight_step(reqs, strict, f, j2 - 1);
        lemma_label_count_bounds(reqs, strict, f, labels_of(reqs, strict, f)[j2 - 1]);
        lemma_weight_mono(reqs, strict, f, j1, j2 - 1);
    }
}

/// Every slot position below a prefix's weight falls in some earlier
/// label's run.
proof fn lemma_position_in_blocks(reqs: Seq<QueueRequestV>, strict: bool, f: u32, x: int, k: int)
    requires
        0 <= k <= labels_of(reqs, strict, f).len(),
        0 <= x < labels_weight(reqs, strict, f, k),
    ensures
        exists|j: int|
            0 <= j < k && #[trigger] labels_weight(reqs, strict, f, j) <= x < labels_weight(
                reqs,
                strict,
                f,
                j + 1,
            ),
    decreases k,
{
    if k == 0 {
        assert(labels_of(reqs, strict, f).take(0) =~= Seq::<LabelV>::empty());
    } else {
        lemma_weight_step(reqs, strict, f, k - 1);
        if labels_weight(reqs, strict, f, k - 1) <= x {
            assert(labels_weight(reqs, strict, f, k - 1) <= x < labels_weight(
                reqs,
                strict,
                f,
                k,
            ));
        } else {
            lemma_position_in_blocks(reqs, strict, f, x, k - 1);
        }
    }
}

/// Law: when a family's strict demand `S` fits its capacity, the strict
/// pass reserves exactly the queue indices `[0, S)` of the family — each
/// label's run lies inside them at consecutive indices, no two labels share
/// an index, the unlabeled leftover takes the tail, and every index below
/// `S` is claimed. Together with `lemma_allocation_succeeds`, allocation
/// succeeds when this holds of every family.
pub proof fn lemma_strict_slots_exact(reqs: Seq<QueueRequestV>, caps: Seq<u32>, f: u32)
    requires
        total_demand(reqs) < u32::MAX,
    ensures
        forall|l: LabelV, t: int|
            0 <= t < block(reqs, caps, true, f, l).len() ==> (#[trigger] block(
                reqs,
                caps,
                true,
                f,
                l,
            )[t]) == (QueueRef { family: f, index: (label_start(reqs, true, f, l) + t) as u32 })
                && 0 <= label_start(reqs, true, f, l) + t < labeled_demand(reqs, true, f),
        forall|l1: LabelV, l2: LabelV, t1: int, t2: int|
            l1 != l2 && 0 <= t1 < block(reqs, caps, true, f, l1).len() && 0 <= t2 < block(
                reqs,
                caps,
                true,
                f,
                l2,
            ).len() ==> (#[trigger] block(reqs, caps, true, f, l1)[t1]).index != (#[trigger] block(
                reqs,
                caps,
                true,
                f,
                l2,
            )[t2]).index,
        forall|t: int|
            0 <= t < unlabeled_count(reqs, true, f) ==> #[trigger] unlabeled_indices(
                reqs,
                caps,
                true,
                f,
            )[t] == (labeled_demand(reqs, true, f) + t) as u32,
{
    let ls = labels_of(reqs, true, f);
    lemma_labels_no_dup(reqs, true, f);
    lemma_demand_bounds(reqs, true, f);
    lemma_weight_full(reqs, true, f);
    assert(ls.take(ls.len() as int) =~= ls);
    assert(labels_weight(reqs, true, f, ls.len() as int) == labeled_demand(reqs, true, f));
    assert forall|l: LabelV, t: int|
        0 <= t < block(reqs, caps, true, f, l).len() implies (#[trigger] block(
        reqs,
        caps,
        true,
        f,
        l,
    )[t]) == (QueueRef { family: f, index: (label_start(reqs, true, f, l) + t) as u32 }) && 0
        <= label_start(reqs, true, f, l) + t < labeled_demand(reqs, true, f) by {
        assert(ls.contains(l));
        let j = choose|j: int| 0 <= j < ls.len() && ls[j] == l;
        lemma_label_count_bounds(reqs, true, f, l);
        lemma_label_start_at(reqs, true, f, j);
        lemma_weight_step(reqs, true, f, j);
        lemma_weight_bounds(reqs, true, f, j);
        lemma_weight_mono(reqs, true, f, j + 1, ls.len() as int);
        assert(block(reqs, caps, true, f, l).len() == label_count(reqs, true, f, l));
        assert(label_start(reqs, true, f, l) + t < labels_weight(reqs, true, f, j + 1));
    }
    assert forall|l1: LabelV, l2: LabelV, t1: int, t2: int|
        l1 != l2 && 0 <= t1 < block(reqs, caps, true, f, l1).len() && 0 <= t2 < block(
            reqs,
            caps,
            true,
            f,
            l2,
        ).len() implies (#[trigger] block(reqs, caps, true, f, l1)[t1]).index != (#[trigger] block(
        reqs,
        caps,
        true,
        f,
        l2,
    )[t2]).index by {
        assert(ls.contains(l1));
        assert(ls.contains(l2));
        let j1 = choose|j: int| 0 <= j < ls.len() && ls[j] == l1;
        let j2 = choose|j: int| 0 <= j < ls.len() && ls[j] == l2;
        assert(j1 != j2);
        lemma_label_count_bounds(reqs, true, f, l1);
        lemma_label_count_bounds(reqs, true, f, l2);
        lemma_label_start_at(reqs, true, f, j1);
        lemma_label_start_at(reqs, true, f, j2);
        lemma_weight_step(reqs, true, f, j1);
        lemma_weight_step(reqs, true, f, j2);
        lemma_weight_bounds(reqs, true, f, j1);
        lemma_weight_bounds(reqs, true, f, j2);
        if j1 < j2 {
            lemma_weight_mono(reqs, true, f, j1 + 1, j2);
        } else {
            lemma_weight_mono(reqs, true, f, j2 + 1, j1);
        }
        lemma_weight_mono(reqs, true, f, j1 + 1, ls.len() as int);
        lemma_weight_mono(reqs, true, f, j2 + 1, ls.len() as int);
        let a = label_start(reqs, true, f, l1) + t1;
        let b = label_start(reqs, true, f, l2) + t2;
        assert(block(reqs, caps, true, f, l1)[t1].index == a as u32);
        assert(block(reqs, caps, true, f, l2)[t2].index == b as u32);
        assert(labels_weight(reqs, true, f, j1) <= a < labels_weight(reqs, true, f, j1 + 1));
        assert(labels_weight(reqs, true, f, j2) <= b < labels_weight(reqs, true, f, j2 + 1));
        assert(a != b);
        assert(0 <= a < u32::MAX && 0 <= b < u32::MAX);
    }
}

/// Law, continued: every index below the family's labeled strict demand is
/// claimed by some label's run.
pub proof fn lemma_strict_position_covered(
    reqs: Seq<QueueRequestV>,
    caps: Seq<u32>,
    f: u32,
    x: int,
)
    requires
        total_demand(reqs) < u32::MAX,
        0 <= x < labeled_demand(reqs, true, f),
    ensures
        exists|l: LabelV, t: int|
            0 <= t < block(reqs, caps, true, f, l).len() && (#[trigger] block(
                reqs,
                caps,
                true,
                f,
                l,
            )[t]).index == x as u32,
{
    let ls = labels_of(reqs, true, f);
    lemma_labels_no_dup(reqs, true, f);
    lemma_demand_bounds(reqs, true, f);
    lemma_weight_full(reqs, true, f);
    assert(ls.take(ls.len() as int) =~= ls);
    assert(labels_weight(reqs, true, f, ls.len() as int) == labeled_demand(reqs, true, f));
    {
        lemma_position_in_blocks(reqs, true, f, x, ls.len() as int);
        let j = choose|j: int|
            0 <= j < ls.len() && #[trigger] labels_weight(reqs, true, f, j) <= x < labels_weight(
                reqs,
                true,
                f,
                j + 1,
            );
        let l = ls[j];
        lemma_label_start_at(reqs, true, f, j);
        lemma_weight_step(reqs, true, f, j);
        lemma_weight_bounds(reqs, true, f, j);
        lemma_weight_mono(reqs, true, f, j + 1, ls.len() as int);
        let t = x - labels_weight(reqs, true, f, j);
        assert(0 <= t < block(reqs, caps, true, f, l).len());
        assert(block(reqs, caps, true, f, l)[t].index == x as u32);
    }
}

/// Law: when every strict family's demand fits its capacity and every
/// flexible family has capacity left, allocation raises no error.
pub proof fn lemma_allocation_succeeds(reqs: Seq<QueueRequestV>, caps: Seq<u32>)
    requires
        forall|j: int|
            0 <= j < fams_of(reqs, true).len() ==> strict_fits(
                reqs,
                caps,
                #[trigger] fams_of(reqs, true)[j],
            ),
        forall|j: int|
            0 <= j < fams_of(reqs, false).len() ==> flex_fits(
                reqs,
                caps,
                #[trigger] fams_of(reqs, false)[j],
            ),
    ensures
        alloc_failure(reqs, caps) is None,
{
    lemma_first_unfit_strict_none(reqs, caps, fams_of(reqs, true).len() as int);
    lemma_first_unfit_flex_none(reqs, caps, fams_of(reqs, false).len() as int);
}

/// Law: when the first strict family that cannot fit is over-subscribed,
/// allocation fails with a capacity error carrying exactly that family, its
/// strict demand (plus the marker for pending flexible demand) and its
/// capacity.
pub proof fn lemma_strict_oversubscription_fails(
    reqs: Seq<QueueRequestV>,
    caps: Seq<u32>,
    i: int,
)
    requires
        total_demand(reqs) < u32::MAX,
        0 <= i < fams_of(reqs, true).len(),
        forall|j: int| 0 <= j < i ==> strict_fits(reqs, caps, #[trigger] fams_of(reqs, true)[j]),
        !strict_fits(reqs, caps, fams_of(reqs, true)[i]),
    ensures
        alloc_failure(reqs, caps) == Some(
            QueueRequestValidationError::NotEnoughQueuesInFamily {
                family: fams_of(reqs, true)[i],
                req: (demand(reqs, true, fams_of(reqs, true)[i]) + if fams_of(
                    reqs,
                    false,
                ).contains(fams_of(reqs, true)[i]) {
                    1int
                } else {
                    0int
                }) as u32,
                avail: cap_of(caps, fams_of(reqs, true)[i]) as u32,
            },
        ),
{
    lemma_first_unfit_strict_at(reqs, caps, i, fams_of(reqs, true).len() as int);
}

/// Law: flexible demand `F` on a family whose strict demand `S` leaves room
/// for it (`S + F <= C`) maps each of its `F` slot positions to its own
/// queue index, the positions `0` to `F` landing on indices `S` to `S + F`.
pub proof fn lemma_flexible_within_capacity(reqs: Seq<QueueRequestV>, caps: Seq<u32>, f: u32)
    requires
        total_demand(reqs) < u32::MAX,
        demand(reqs, true, f) + demand(reqs, false, f) <= cap_of(caps, f),
        demand(reqs, false, f) > 0,
    ensures
        forall|p: int|
            0 <= p < demand(reqs, false, f) ==> #[trigger] slot_index(reqs, caps, false, f, p)
                as int == demand(reqs, true, f) + p,
        forall|p1: int, p2: int|
            0 <= p1 < demand(reqs, false, f) && 0 <= p2 < demand(reqs, false, f) && p1 != p2
                ==> slot_index(reqs, caps, false, f, p1) != slot_index(reqs, caps, false, f, p2),
{
    let sd = demand(reqs, true, f);
    let range = cap_of(caps, f) - sd;
    lemma_demand_bounds(reqs, true, f);
    lemma_demand_bounds(reqs, false, f);
    assert forall|p: int|
        0 <= p < demand(reqs, false, f) implies #[trigger] slot_index(reqs, caps, false, f, p)
        as int == sd + p by {
        assert(p % range == p) by {
            vstd::arithmetic::div_mod::lemma_small_mod(p as nat, range as nat);
        }
        assert(sd + p <= cap_of(caps, f) <= u32::MAX);
    }
}

/// Law: flexible demand beyond capacity (`S + F > C`, with room left above
/// the strict block) raises no error, leaves the family with nothing
/// remaining, and wraps every slot position into the range `[S, C)` modulo
/// its length.
pub proof fn lemma_flexible_overflow_merges(
    reqs: Seq<QueueRequestV>,
    caps: Seq<u32>,
    f: u32,
    p: int,
)
    requires
        total_demand(reqs) < u32::MAX,
        cap_of(caps, f) - demand(reqs, true, f) > 0,
        demand(reqs, true, f) + demand(reqs, false, f) > cap_of(caps, f),
        0 <= p,
    ensures
        flex_fits(reqs, caps, f),
        remaining_of(reqs, caps, f) == 0,
        slot_index(reqs, caps, false, f, p) as int == demand(reqs, true, f) + (p % (cap_of(
            caps,
            f,
        ) - demand(reqs, true, f))),
        demand(reqs, true, f) <= slot_index(reqs, caps, false, f, p) as int,
        (slot_index(reqs, caps, false, f, p) as int) < cap_of(caps, f),
{
    let sd = demand(reqs, true, f);
    let range = cap_of(caps, f) - sd;
    lemma_demand_bounds(reqs, true, f);
    assert(0 <= p % range < range) by {
        vstd::arithmetic::div_mod::lemma_mod_bound(p, range);
    }
    assert(sd + (p % range) < cap_of(caps, f) <= u32::MAX);
}

/// A request's own count never exceeds its label's tally.
proof fn lemma_label_count_at_least(reqs: Seq<QueueRequestV>, i: int)
    requires
        0 <= i < reqs.len(),
        reqs[i].label is Some,
    ensures
        label_count(
            reqs,
            !reqs[i].allow_merge,
            reqs[i].family,
            reqs[i].label->Some_0,
        ) >= reqs[i].count,
    decreases reqs.len(),
{
    let strict = !reqs[i].allow_merge;
    let pre = reqs.drop_last();
    if i == reqs.len() - 1 {
        lemma_label_count_bounds(pre, strict, reqs[i].family, reqs[i].label->Some_0);
        lemma_demand_bounds(pre, strict, reqs[i].family);
    } else {
        lemma_label_count_at_least(pre, i);
        assert(pre[i] == reqs[i]);
    }
}

/// A pass's references for a label only grow with the families walked.
proof fn lemma_refs_upto_grows(
    reqs: Seq<QueueRequestV>,
    caps: Seq<u32>,
    strict: bool,
    l: LabelV,
    k1: int,
    k2: int,
)
    requires
        0 <= k1 <= k2,
    ensures
        refs_upto(reqs, caps, strict, l, k1).len() <= refs_upto(reqs, caps, strict, l, k2).len(),
    decreases k2 - k1,
{
    if k1 < k2 {
        lemma_refs_upto_grows(reqs, caps, strict, l, k1, k2 - 1);
    }
}

/// Law: labels are always recoverable. Every label a request with a
/// positive count carries is a key of the allocation's label map, mapped to
/// all of that label's queue references in allocation order.
pub proof fn lemma_labels_recoverable(reqs: Seq<QueueRequestV>, caps: Seq<u32>, i: int)
    requires
        0 <= i < reqs.len(),
        reqs[i].label is Some,
        reqs[i].count > 0,
    ensures
        labeled_map(reqs, caps).contains_key(reqs[i].label->Some_0),
        labeled_map(reqs, caps)[reqs[i].label->Some_0] == all_label_refs(
            reqs,
            caps,
            reqs[i].label->Some_0,
        ),
{
    let l = reqs[i].label->Some_0;
    let f = reqs[i].family;
    let strict = !reqs[i].allow_merge;
    lemma_labels_contains(reqs, strict, f, l);
    assert(is_kind(reqs[i], strict));
    assert(labels_of(reqs, strict, f).contains(l));
    lemma_label_count_at_least(reqs, i);
    assert(block(reqs, caps, strict, f, l).len() > 0);
    lemma_fams_contains(reqs, strict, f);
    let k = choose|k: int|
        0 <= k < fams_of(reqs, strict).len() && fams_of(reqs, strict)[k] == f;
    assert(refs_upto(reqs, caps, strict, l, k + 1).len() > 0);
    lemma_refs_upto_grows(reqs, caps, strict, l, k + 1, fams_of(reqs, strict).len() as int);
    assert(all_label_refs(reqs, caps, l).len() > 0);
}

/// Every entry of the queue-creation parameter list answers one family's
/// claimed queues, each family at most once, in ascending family order.
proof fn lemma_create_params_membership(caps: Seq<u32>, rem: Seq<u32>)
    requires
        rem.len() == caps.len(),
        caps.len() <= u32::MAX,
    ensures
        forall|p: QueueCreateParam| #[trigger]
            create_params_of(caps, rem).contains(p) <==> {
                &&& p.family < caps.len()
                &&& rem[p.family as int] < caps[p.family as int]
                &&& p.count as int == caps[p.family as int] - rem[p.family as int]
            },
    decreases caps.len(),
{
    if caps.len() > 0 {
        let cpre = caps.drop_last();
        let rpre = rem.drop_last();
        lemma_create_params_membership(cpre, rpre);
        let params = create_params_of(caps, rem);
        let init = create_params_of(cpre, rpre);
        assert forall|p: QueueCreateParam| #[trigger]
            params.contains(p) implies {
            &&& p.family < caps.len()
            &&& rem[p.family as int] < caps[p.family as int]
            &&& p.count as int == caps[p.family as int] - rem[p.family as int]
        } by {
            let k = choose|k: int| 0 <= k < params.len() && params[k] == p;
            if k < init.len() {
                assert(init[k] == p);
                assert(init.contains(p));
                assert(cpre[p.family as int] == caps[p.family as int]);
                assert(rpre[p.family as int] == rem[p.family as int]);
            }
        }
        assert forall|p: QueueCreateParam|
            ({
                &&& p.family < caps.len()
                &&& rem[p.family as int] < caps[p.family as int]
                &&& p.count as int == caps[p.family as int] - rem[p.family as int]
            }) implies #[trigger] params.contains(p) by {
            if p.family < caps.len() - 1 {
                assert(cpre[p.family as int] == caps[p.family as int]);
                assert(rpre[p.family as int] == rem[p.family as int]);
                assert(init.contains(p));
                let k = choose|k: int| 0 <= k < init.len() && init[k] == p;
                assert(params[k] == p);
            } else {
                assert(p.family == caps.len() - 1);
                assert(rem.last() < caps.last());
                assert(params.last() == p);
            }
        }
    }
}

/// Law: the device queue-creation parameters round-trip the allocation. On
/// a successful allocation, a family stands in the parameter list exactly
/// when some demand was placed against it, and its entry asks for its
/// capacity less what it has left; families with no demand are absent.
pub proof fn lemma_queue_params_round_trip(
    reqs: Seq<QueueRequestV>,
    caps: Seq<u32>,
    rem: Seq<u32>,
)
    requires
        alloc_failure(reqs, caps) is None,
        rem.len() == caps.len(),
        caps.len() <= u32::MAX,
        total_demand(reqs) < u32::MAX,
        forall|fi: int|
            0 <= fi < caps.len() ==> rem[fi] as int == remaining_of(reqs, caps, fi as u32),
    ensures
        forall|fi: int|
            0 <= fi < caps.len() ==> ((#[trigger] demand(reqs, true, fi as u32) > 0 || demand(
                reqs,
                false,
                fi as u32,
            ) > 0) <==> create_params_of(caps, rem).contains(
                QueueCreateParam {
                    family: fi as u32,
                    count: (caps[fi] - remaining_of(reqs, caps, fi as u32)) as u32,
                },
            )),
        forall|p: QueueCreateParam| #[trigger]
            create_params_of(caps, rem).contains(p) ==> demand(reqs, true, p.family) > 0 || demand(
                reqs,
                false,
                p.family,
            ) > 0,
{
    lemma_create_params_membership(caps, rem);
    assert forall|fi: int| 0 <= fi < caps.len() implies (rem[fi] < caps[fi] <==> (demand(
        reqs,
        true,
        fi as u32,
    ) > 0 || demand(reqs, false, fi as u32) > 0)) by {
        lemma_remaining_reflects_demand(reqs, caps, fi as u32);
    }
}

/// On a successful allocation a family has queues claimed from it exactly
/// when some demand was placed against it.
proof fn lemma_remaining_reflects_demand(reqs: Seq<QueueRequestV>, caps: Seq<u32>, f: u32)
    requires
        alloc_failure(reqs, caps) is None,
        f < caps.len(),
    ensures
        remaining_of(reqs, caps, f) < caps[f as int] <==> (demand(reqs, true, f) > 0 || demand(
            reqs,
            false,
            f,
        ) > 0),
        0 <= remaining_of(reqs, caps, f) <= caps[f as int],
{
    let sd = demand(reqs, true, f);
    let fd = demand(reqs, false, f);
    lemma_demand_bounds(reqs, true, f);
    lemma_demand_bounds(reqs, false, f);
    lemma_fams_contains(reqs, true, f);
    lemma_fams_contains(reqs, false, f);
    if sd > 0 {
        assert(fams_of(reqs, true).contains(f)) by {
            if !fams_of(reqs, true).contains(f) {
                lemma_absent_family(reqs, true, f);
            }
        }
        let k = choose|k: int|
            0 <= k < fams_of(reqs, true).len() && fams_of(reqs, true)[k] == f;
        lemma_strict_all_fit(reqs, caps, fams_of(reqs, true).len() as int);
        assert(strict_fits(reqs, caps, f));
    }
    if fd > 0 {
        assert(fams_of(reqs, false).contains(f)) by {
            if !fams_of(reqs, false).contains(f) {
                lemma_absent_family(reqs, false, f);
            }
        }
        let k = choose|k: int|
            0 <= k < fams_of(reqs, false).len() && fams_of(reqs, false)[k] == f;
        lemma_flex_all_fit(reqs, caps, fams_of(reqs, false).len() as int);
        assert(flex_fits(reqs, caps, f));
        if sd > 0 {
            assert(strict_fits(reqs, caps, f));
        } else {
            assert(sd == 0);
        }
    }
}

/// When the flexible pass has no failure, every flexible family has
/// capacity left.
proof fn lemma_flex_all_fit(reqs: Seq<QueueRequestV>, caps: Seq<u32>, k: int)
    requires
        0 <= k <= fams_of(reqs, false).len(),
        first_unfit_flex(reqs, caps, k) is None,
    ensures
        forall|j: int| 0 <= j < k ==> flex_fits(reqs, caps, #[trigger] fams_of(reqs, false)[j]),
    decreases k,
{
    if k > 0 {
        lemma_flex_all_fit(reqs, caps, k - 1);
    }
}

} // verus!
