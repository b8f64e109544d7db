//! The mathematical model of queue allocation.
//!
//! Allocation works through a request list in two passes. The strict pass
//! walks the families with strict demand, in the order a strict request
//! first named each family; it fails when a family's strict demand exceeds
//! its capacity, and otherwise hands each label of the family a run of
//! consecutive slot indices starting at zero, in the order a request first
//! named each label, with any unlabeled leftover taking the run that
//! follows. The flexible pass then walks the families with flexible demand,
//! in first-request order; it fails only when a family has no capacity left
//! at all, and otherwise maps each flexible position into the range left
//! above the strict block, wrapping around it, so flexible demand beyond
//! capacity shares slots instead of failing.
//!
//! The functions here define that outcome — demands, label runs, slot
//! indices, the failure condition and the error it carries — as values of
//! the request list and the capacity table alone. The allocator's contract
//! is stated over them.

use vstd::prelude::*;

use crate::errors::QueueRequestValidationError;
use crate::queues::{LabelV, QueueRef};
use crate::requests::QueueRequestV;

verus! {

/// The request demands queues of the given kind: strict (dedicated slots,
/// `allow_merge` false) or flexible (mergeable, `allow_merge` true).
pub open spec fn is_kind(r: QueueRequestV, strict: bool) -> bool {
    r.allow_merge == !strict
}

/// The families with requests of the given kind, each once, in the order a
/// request of that kind first named them.
pub open spec fn fams_of(reqs: Seq<QueueRequestV>, strict: bool) -> Seq<u32>
    decreases reqs.len(),
{
    if reqs.len() == 0 {
        Seq::empty()
    } else {
        let pre = fams_of(reqs.drop_last(), strict);
        let r = reqs.last();
        if is_kind(r, strict) && !pre.contains(r.family) {
            pre.push(r.family)
        } else {
            pre
        }
    }
}

/// Total demand of the given kind against family `f`: the sum of the counts
/// of its requests of that kind.
pub open spec fn demand(reqs: Seq<QueueRequestV>, strict: bool, f: u32) -> int
    decreases reqs.len(),
{
    if reqs.len() == 0 {
        0
    } else {
        demand(reqs.drop_last(), strict, f) + {
            let r = reqs.last();
            if is_kind(r, strict) && r.family == f {
                r.count as int
            } else {
                0
            }
        }
    }
}

/// Demand of the given kind against `f` from labeled requests only.
pub open spec fn labeled_demand(reqs: Seq<QueueRequestV>, strict: bool, f: u32) -> int
    decreases reqs.len(),
{
    if reqs.len() == 0 {
        0
    } else {
        labeled_demand(reqs.drop_last(), strict, f) + {
            let r = reqs.last();
            if is_kind(r, strict) && r.family == f && r.label is Some {
                r.count as int
            } else {
                0
            }
        }
    }
}

/// The sum of all request counts, of both kinds and all families.
pub open spec fn total_demand(reqs: Seq<QueueRequestV>) -> int
    decreases reqs.len(),
{
    if reqs.len() == 0 {
        0
    } else {
        total_demand(reqs.drop_last()) + reqs.last().count as int
    }
}

/// The labels of requests of the given kind against `f`, each once, in the
/// order a request first carried them.
pub open spec fn labels_of(reqs: Seq<QueueRequestV>, strict: bool, f: u32) -> Seq<LabelV>
    decreases reqs.len(),
{
    if reqs.len() == 0 {
        Seq::empty()
    } else {
        let pre = labels_of(reqs.drop_last(), strict, f);
        let r = reqs.last();
        if is_kind(r, strict) && r.family == f && r.label is Some && !pre.contains(
            r.label->Some_0,
        ) {
            pre.push(r.label->Some_0)
        } else {
            pre
        }
    }
}

/// Demand of the given kind against `f` under label `l`.
pub open spec fn label_count(reqs: Seq<QueueRequestV>, strict: bool, f: u32, l: LabelV) -> int
    decreases reqs.len(),
{
    if reqs.len() == 0 {
        0
    } else {
        label_count(reqs.drop_last(), strict, f, l) + {
            let r = reqs.last();
            if is_kind(r, strict) && r.family == f && r.label == Some(l) {
                r.count as int
            } else {
                0
            }
        }
    }
}

/// The sum of `label_count` over a sequence of labels.
pub open spec fn sum_label_counts(
    reqs: Seq<QueueRequestV>,
    strict: bool,
    f: u32,
    labs: Seq<LabelV>,
) -> int
    decreases labs.len(),
{
    if labs.len() == 0 {
        0
    } else {
        sum_label_counts(reqs, strict, f, labs.drop_last()) + label_count(
            reqs,
            strict,
            f,
            labs.last(),
        )
    }
}

/// Combined demand of the first `j` labels of `f`, of the given kind: the
/// slot position where label `j`'s run begins.
pub open spec fn labels_weight(reqs: Seq<QueueRequestV>, strict: bool, f: u32, j: int) -> int {
    sum_label_counts(reqs, strict, f, labels_of(reqs, strict, f).take(j))
}

/// The slot position where label `l`'s run begins within family `f`'s
/// block of the given kind.
pub open spec fn label_start(reqs: Seq<QueueRequestV>, strict: bool, f: u32, l: LabelV) -> int {
    labels_weight(reqs, strict, f, labels_of(reqs, strict, f).index_of(l))
}

/// The capacity of family `f`: its table entry, or zero for a family the
/// table does not know.
pub open spec fn cap_of(caps: Seq<u32>, f: u32) -> int {
    if f < caps.len() {
        caps[f as int] as int
    } else {
        0
    }
}

/// The queue index that slot position `p` of family `f` maps to. Strict
/// positions map to themselves; flexible positions wrap around the range
/// the strict block left free.
pub open spec fn slot_index(
    reqs: Seq<QueueRequestV>,
    caps: Seq<u32>,
    strict: bool,
    f: u32,
    p: int,
) -> u32
    recommends
        strict || cap_of(caps, f) - demand(reqs, true, f) > 0,
{
    if strict {
        p as u32
    } else {
        (demand(reqs, true, f) + (p % (cap_of(caps, f) - demand(reqs, true, f)))) as u32
    }
}

/// The queue references label `l` receives from family `f` in the pass of
/// the given kind: one per unit of its demand, at consecutive slot
/// positions starting where the labels before it end.
pub open spec fn block(
    reqs: Seq<QueueRequestV>,
    caps: Seq<u32>,
    strict: bool,
    f: u32,
    l: LabelV,
) -> Seq<QueueRef> {
    if labels_of(reqs, strict, f).contains(l) {
        Seq::new(
            label_count(reqs, strict, f, l) as nat,
            |t: int| QueueRef {
                family: f,
                index: slot_index(reqs, caps, strict, f, label_start(reqs, strict, f, l) + t),
            },
        )
    } else {
        Seq::empty()
    }
}

/// The queue references label `l` receives from the first `k` families of
/// the pass of the given kind, concatenated in pass order.
pub open spec fn refs_upto(
    reqs: Seq<QueueRequestV>,
    caps: Seq<u32>,
    strict: bool,
    l: LabelV,
    k: int,
) -> Seq<QueueRef>
    decreases k,
{
    if k <= 0 {
        Seq::empty()
    } else {
        refs_upto(reqs, caps, strict, l, k - 1) + block(
            reqs,
            caps,
            strict,
            fams_of(reqs, strict)[k - 1],
            l,
        )
    }
}

/// What label `l` holds of family `f`'s block once the family's first `j`
/// labels are placed: its whole block once its turn has come, nothing
/// before.
pub open spec fn fam_part(
    reqs: Seq<QueueRequestV>,
    caps: Seq<u32>,
    strict: bool,
    f: u32,
    l: LabelV,
    j: int,
) -> Seq<QueueRef> {
    if labels_of(reqs, strict, f).take(j).contains(l) {
        block(reqs, caps, strict, f, l)
    } else {
        Seq::empty()
    }
}

/// Every queue reference label `l` receives: its strict references, then
/// its flexible ones.
pub open spec fn all_label_refs(reqs: Seq<QueueRequestV>, caps: Seq<u32>, l: LabelV) -> Seq<
    QueueRef,
> {
    refs_upto(reqs, caps, true, l, fams_of(reqs, true).len() as int) + refs_upto(
        reqs,
        caps,
        false,
        l,
        fams_of(reqs, false).len() as int,
    )
}

/// The label-to-references mapping allocation produces: every label that
/// received at least one queue, mapped to its references in allocation
/// order.
pub open spec fn labeled_map(reqs: Seq<QueueRequestV>, caps: Seq<u32>) -> Map<
    LabelV,
    Seq<QueueRef>,
> {
    Map::new(
        |l: LabelV| all_label_refs(reqs, caps, l).len() > 0,
        |l: LabelV| all_label_refs(reqs, caps, l),
    )
}

/// The unlabeled demand of the given kind against `f`.
pub open spec fn unlabeled_count(reqs: Seq<QueueRequestV>, strict: bool, f: u32) -> int {
    demand(reqs, strict, f) - labeled_demand(reqs, strict, f)
}

/// The queue indices the unlabeled leftover of the given kind takes in
/// family `f`: the slot positions after all the labels' runs.
pub open spec fn unlabeled_indices(
    reqs: Seq<QueueRequestV>,
    caps: Seq<u32>,
    strict: bool,
    f: u32,
) -> Seq<u32> {
    Seq::new(
        unlabeled_count(reqs, strict, f) as nat,
        |t: int| slot_index(reqs, caps, strict, f, labeled_demand(reqs, strict, f) + t),
    )
}

/// The family-to-indices mapping of allocated queues no label claimed.
pub open spec fn unlabeled_map(reqs: Seq<QueueRequestV>, caps: Seq<u32>) -> Map<u32, Set<u32>> {
    Map::new(
        |f: u32| unlabeled_count(reqs, true, f) > 0 || unlabeled_count(reqs, false, f) > 0,
        |f: u32| unlabeled_indices(reqs, caps, true, f).to_set() + unlabeled_indices(
            reqs,
            caps,
            false,
            f,
        ).to_set(),
    )
}

/// Family `f` can satisfy its strict demand.
pub open spec fn strict_fits(reqs: Seq<QueueRequestV>, caps: Seq<u32>, f: u32) -> bool {
    demand(reqs, true, f) <= cap_of(caps, f)
}

/// Family `f` has capacity left for the flexible pass to draw on.
pub open spec fn flex_fits(reqs: Seq<QueueRequestV>, caps: Seq<u32>, f: u32) -> bool {
    cap_of(caps, f) - demand(reqs, true, f) > 0
}

/// The first family among the first `k` of the strict pass whose strict
/// demand exceeds its capacity.
pub open spec fn first_unfit_strict(reqs: Seq<QueueRequestV>, caps: Seq<u32>, k: int) -> Option<
    u32,
>
    decreases k,
{
    if k <= 0 {
        None
    } else {
        match first_unfit_strict(reqs, caps, k - 1) {
            Some(f) => Some(f),
            None => {
                let f = fams_of(reqs, true)[k - 1];
                if !strict_fits(reqs, caps, f) {
                    Some(f)
                } else {
                    None
                }
            },
        }
    }
}

/// The first family among the first `k` of the flexible pass with no
/// capacity left.
pub open spec fn first_unfit_flex(reqs: Seq<QueueRequestV>, caps: Seq<u32>, k: int) -> Option<u32>
    decreases k,
{
    if k <= 0 {
        None
    } else {
        match first_unfit_flex(reqs, caps, k - 1) {
            Some(f) => Some(f),
            None => {
                let f = fams_of(reqs, false)[k - 1];
                if !flex_fits(reqs, caps, f) {
                    Some(f)
                } else {
                    None
                }
            },
        }
    }
}

/// The capacity error of the strict pass, if it fails: the first family
/// whose strict demand exceeds its capacity, with the demand against it (one
/// more when flexible demand is pending on the same family) and its
/// capacity.
pub open spec fn strict_error(reqs: Seq<QueueRequestV>, caps: Seq<u32>) -> Option<
    QueueRequestValidationError,
> {
    match first_unfit_strict(reqs, caps, fams_of(reqs, true).len() as int) {
        Some(f) => Some(
            QueueRequestValidationError::NotEnoughQueuesInFamily {
                family: f,
                req: (demand(reqs, true, f) + if fams_of(reqs, false).contains(f) {
                    1int
                } else {
                    0int
                }) as u32,
                avail: cap_of(caps, f) as u32,
            },
        ),
        None => None,
    }
}

/// The capacity error of the flexible pass, if it fails: the first flexible
/// family with no capacity left, with its strict demand plus one and its
/// capacity.
pub open spec fn flex_error(reqs: Seq<QueueRequestV>, caps: Seq<u32>) -> Option<
    QueueRequestValidationError,
> {
    match first_unfit_flex(reqs, caps, fams_of(reqs, false).len() as int) {
        Some(f) => Some(
            QueueRequestValidationError::NotEnoughQueuesInFamily {
                family: f,
                req: (demand(reqs, true, f) + 1) as u32,
                avail: cap_of(caps, f) as u32,
            },
        ),
        None => None,
    }
}

/// Why allocation fails, when it does: the strict pass's error, else the
/// flexible pass's.
pub open spec fn alloc_failure(reqs: Seq<QueueRequestV>, caps: Seq<u32>) -> Option<
    QueueRequestValidationError,
> {
    if strict_error(reqs, caps) is Some {
        strict_error(reqs, caps)
    } else {
        flex_error(reqs, caps)
    }
}

/// The queues family `f` has left after both passes: capacity, less strict
/// demand, less flexible demand clamped to what remained.
pub open spec fn remaining_of(reqs: Seq<QueueRequestV>, caps: Seq<u32>, f: u32) -> int {
    let rem = cap_of(caps, f) - demand(reqs, true, f);
    if demand(reqs, false, f) > rem {
        0
    } else {
        rem - demand(reqs, false, f)
    }
}

/// How each of the model's per-request recursions grows when one request is
/// appended to the list.
pub proof fn lemma_push_step(pre: Seq<QueueRequestV>, r: QueueRequestV, strict: bool)
    ensures
        fams_of(pre.push(r), strict) == if is_kind(r, strict) && !fams_of(pre, strict).contains(
            r.family,
        ) {
            fams_of(pre, strict).push(r.family)
        } else {
            fams_of(pre, strict)
        },
        forall|f: u32| #[trigger] demand(pre.push(r), strict, f) == demand(pre, strict, f) + (
        if is_kind(r, strict) && r.family == f {
            r.count as int
        } else {
            0
        }),
        forall|f: u32| #[trigger] labeled_demand(pre.push(r), strict, f) == labeled_demand(
            pre,
            strict,
            f,
        ) + (if is_kind(r, strict) && r.family == f && r.label is Some {
            r.count as int
        } else {
            0
        }),
        forall|f: u32| #[trigger] labels_of(pre.push(r), strict, f) == (if is_kind(r, strict)
            && r.family == f && r.label is Some && !labels_of(pre, strict, f).contains(
            r.label->Some_0,
        ) {
            labels_of(pre, strict, f).push(r.label->Some_0)
        } else {
            labels_of(pre, strict, f)
        }),
        forall|f: u32, l: LabelV| #[trigger] label_count(pre.push(r), strict, f, l) == label_count(
            pre,
            strict,
            f,
            l,
        ) + (if is_kind(r, strict) && r.family == f && r.label == Some(l) {
            r.count as int
        } else {
            0
        }),
        total_demand(pre.push(r)) == total_demand(pre) + r.count,
{
    assert(pre.push(r).drop_last() =~= pre);
    assert(pre.push(r).last() == r);
}

/// A prefix never demands more than the whole list.
pub proof fn lemma_total_demand_prefix(reqs: Seq<QueueRequestV>, j: int)
    requires
        0 <= j <= reqs.len(),
    ensures
        total_demand(reqs.take(j)) <= total_demand(reqs),
    decreases reqs.len() - j,
{
    if j == reqs.len() {
        assert(reqs.take(j) =~= reqs);
    } else {
        assert(reqs.take(j + 1).drop_last() =~= reqs.take(j));
        assert(reqs.take(j + 1).last() == reqs[j]);
        lemma_total_demand_prefix(reqs, j + 1);
    }
}

/// Taking one more element changes what a prefix contains only at that
/// element.
pub proof fn lemma_take_contains_step<A>(s: Seq<A>, j: int, x: A)
    requires
        0 <= j < s.len(),
        s[j] != x,
    ensures
        s.take(j + 1).contains(x) == s.take(j).contains(x),
{
    let t1 = s.take(j + 1);
    let t0 = s.take(j);
    if t1.contains(x) {
        let k = choose|k: int| 0 <= k < t1.len() && t1[k] == x;
        assert(t1[j] == s[j]);
        assert(k < j);
        assert(t0[k] == x);
    }
    if t0.contains(x) {
        let k = choose|k: int| 0 <= k < t0.len() && t0[k] == x;
        assert(t1[k] == x);
    }
}

/// A prefix of one more element contains that element.
pub proof fn lemma_take_contains_last<A>(s: Seq<A>, j: int)
    requires
        0 <= j < s.len(),
    ensures
        s.take(j + 1).contains(s[j]),
{
    assert(s.take(j + 1)[j] == s[j]);
}

/// What no prefix position holds, the prefix does not contain.
pub proof fn lemma_take_not_contains<A>(s: Seq<A>, j: int, x: A)
    requires
        0 <= j <= s.len(),
        forall|k: int| 0 <= k < j ==> s[k] != x,
    ensures
        !s.take(j).contains(x),
{
    let t0 = s.take(j);
    if t0.contains(x) {
        let k = choose|k: int| 0 <= k < t0.len() && t0[k] == x;
        assert(s[k] == x);
    }
}

/// The families of a pass are distinct.
pub proof fn lemma_fams_no_dup(reqs: Seq<QueueRequestV>, strict: bool)
    ensures
        no_dup_seq(fams_of(reqs, strict)),
    decreases reqs.len(),
{
    if reqs.len() > 0 {
        lemma_fams_no_dup(reqs.drop_last(), strict);
    }
}

/// No value occurs twice.
pub open spec fn no_dup_seq<A>(s: Seq<A>) -> bool {
    forall|i: int, j: int| 0 <= i < j < s.len() ==> s[i] != s[j]
}

/// A family stands among a pass's families exactly when a request of the
/// pass's kind names it.
pub proof fn lemma_fams_contains(reqs: Seq<QueueRequestV>, strict: bool, f: u32)
    ensures
        fams_of(reqs, strict).contains(f) <==> exists|i: int|
            0 <= i < reqs.len() && is_kind(#[trigger] reqs[i], strict) && reqs[i].family == f,
    decreases reqs.len(),
{
    if reqs.len() > 0 {
        let pre = reqs.drop_last();
        lemma_fams_contains(pre, strict, f);
        if fams_of(reqs, strict).contains(f) {
            if fams_of(pre, strict).contains(f) {
                let i = choose|i: int|
                    0 <= i < pre.len() && is_kind(#[trigger] pre[i], strict) && pre[i].family == f;
                assert(reqs[i] == pre[i]);
            } else {
                assert(is_kind(reqs[reqs.len() - 1], strict) && reqs[reqs.len() - 1].family == f);
            }
        }
        if exists|i: int|
            0 <= i < reqs.len() && is_kind(#[trigger] reqs[i], strict) && reqs[i].family == f {
            let i = choose|i: int|
                0 <= i < reqs.len() && is_kind(#[trigger] reqs[i], strict) && reqs[i].family == f;
            if i < reqs.len() - 1 {
                assert(pre[i] == reqs[i]);
                assert(fams_of(pre, strict).contains(f));
                if !fams_of(reqs, strict).contains(f) {
                    assert(fams_of(reqs, strict) == fams_of(pre, strict) || fams_of(reqs, strict)
                        == fams_of(pre, strict).push(reqs.last().family));
                    assert(forall|k: int|
                        0 <= k < fams_of(pre, strict).len() ==> fams_of(reqs, strict)[k]
                            == fams_of(pre, strict)[k]);
                    let k = choose|k: int|
                        0 <= k < fams_of(pre, strict).len() && fams_of(pre, strict)[k] == f;
                    assert(fams_of(reqs, strict)[k] == f);
                }
            } else {
                if !fams_of(pre, strict).contains(f) {
                    assert(fams_of(reqs, strict).last() == f);
                }
            }
        }
    }
}

/// A family outside a pass has no demand, no labels and no labeled demand
/// of that kind.
pub proof fn lemma_absent_family(reqs: Seq<QueueRequestV>, strict: bool, f: u32)
    requires
        !fams_of(reqs, strict).contains(f),
    ensures
        demand(reqs, strict, f) == 0,
        labeled_demand(reqs, strict, f) == 0,
        labels_of(reqs, strict, f) == Seq::<LabelV>::empty(),
    decreases reqs.len(),
{
    if reqs.len() > 0 {
        let pre = reqs.drop_last();
        assert(!fams_of(pre, strict).contains(f) || fams_of(reqs, strict).contains(f)) by {
            if fams_of(pre, strict).contains(f) {
                let k = choose|k: int|
                    0 <= k < fams_of(pre, strict).len() && fams_of(pre, strict)[k] == f;
                assert(forall|k: int|
                    0 <= k < fams_of(pre, strict).len() ==> fams_of(reqs, strict)[k] == fams_of(
                        pre,
                        strict,
                    )[k]);
                assert(fams_of(reqs, strict)[k] == f);
            }
        }
        lemma_absent_family(pre, strict, f);
        if is_kind(reqs.last(), strict) && reqs.last().family == f {
            lemma_fams_contains(reqs, strict, f);
            assert(fams_of(reqs, strict).contains(f));
        }
    }
}

/// Demands are nonnegative, labeled demand stays within demand, and demand
/// stays within the total.
pub proof fn lemma_demand_bounds(reqs: Seq<QueueRequestV>, strict: bool, f: u32)
    ensures
        0 <= labeled_demand(reqs, strict, f) <= demand(reqs, strict, f) <= total_demand(reqs),
    decreases reqs.len(),
{
    if reqs.len() > 0 {
        lemma_demand_bounds(reqs.drop_last(), strict, f);
    }
}

/// The labels of a family's pass are distinct.
pub proof fn lemma_labels_no_dup(reqs: Seq<QueueRequestV>, strict: bool, f: u32)
    ensures
        no_dup_seq(labels_of(reqs, strict, f)),
    decreases reqs.len(),
{
    if reqs.len() > 0 {
        lemma_labels_no_dup(reqs.drop_last(), strict, f);
    }
}

/// A label stands among a family's labels exactly when a request of the
/// kind, against the family, carries it.
pub proof fn lemma_labels_contains(reqs: Seq<QueueRequestV>, strict: bool, f: u32, l: LabelV)
    ensures
        labels_of(reqs, strict, f).contains(l) <==> exists|i: int|
            0 <= i < reqs.len() && is_kind(#[trigger] reqs[i], strict) && reqs[i].family == f
                && reqs[i].label == Some(l),
    decreases reqs.len(),
{
    if reqs.len() > 0 {
        let pre = reqs.drop_last();
        lemma_labels_contains(pre, strict, f, l);
        let ls = labels_of(reqs, strict, f);
        let lspre = labels_of(pre, strict, f);
        if ls.contains(l) {
            if lspre.contains(l) {
                let i = choose|i: int|
                    0 <= i < pre.len() && is_kind(#[trigger] pre[i], strict) && pre[i].family == f
                        && pre[i].label == Some(l);
                assert(reqs[i] == pre[i]);
            } else {
                assert(ls == lspre.push(reqs.last().label->Some_0));
                assert(ls.last() == l);
                assert(reqs[reqs.len() - 1].label == Some(l));
            }
        }
        if exists|i: int|
            0 <= i < reqs.len() && is_kind(#[trigger] reqs[i], strict) && reqs[i].family == f
                && reqs[i].label == Some(l) {
            let i = choose|i: int|
                0 <= i < reqs.len() && is_kind(#[trigger] reqs[i], strict) && reqs[i].family == f
                    && reqs[i].label == Some(l);
            if i < reqs.len() - 1 {
                assert(pre[i] == reqs[i]);
                assert(lspre.contains(l));
                let k = choose|k: int| 0 <= k < lspre.len() && lspre[k] == l;
                assert(forall|k: int| 0 <= k < lspre.len() ==> ls[k] == lspre[k]);
                assert(ls[k] == l);
            } else {
                if !lspre.contains(l) {
                    assert(ls.last() == l);
                }
            }
        }
    }
}

/// A label outside a family's labels has no count; label counts are
/// nonnegative and stay within the labeled demand.
pub proof fn lemma_label_count_bounds(reqs: Seq<QueueRequestV>, strict: bool, f: u32, l: LabelV)
    ensures
        0 <= label_count(reqs, strict, f, l) <= labeled_demand(reqs, strict, f),
        !labels_of(reqs, strict, f).contains(l) ==> label_count(reqs, strict, f, l) == 0,
    decreases reqs.len(),
{
    if reqs.len() > 0 {
        let pre = reqs.drop_last();
        lemma_label_count_bounds(pre, strict, f, l);
        let lspre = labels_of(pre, strict, f);
        let ls = labels_of(reqs, strict, f);
        if !ls.contains(l) {
            assert(!lspre.contains(l)) by {
                if lspre.contains(l) {
                    let k = choose|k: int| 0 <= k < lspre.len() && lspre[k] == l;
                    assert(forall|k: int| 0 <= k < lspre.len() ==> ls[k] == lspre[k]);
                    assert(ls[k] == l);
                }
            }
            if is_kind(reqs.last(), strict) && reqs.last().family == f && reqs.last().label
                == Some(l) {
                lemma_labels_contains(reqs, strict, f, l);
                assert(ls.contains(l));
            }
        }
    }
}

/// Appending one request adds its count to a label-set sum exactly when its
/// label stands in the (duplicate-free) set.
pub proof fn lemma_sum_push(
    pre: Seq<QueueRequestV>,
    r: QueueRequestV,
    strict: bool,
    f: u32,
    labs: Seq<LabelV>,
)
    requires
        no_dup_seq(labs),
    ensures
        sum_label_counts(pre.push(r), strict, f, labs) == sum_label_counts(pre, strict, f, labs)
            + (if is_kind(r, strict) && r.family == f && match r.label {
            Some(l0) => labs.contains(l0),
            None => false,
        } {
            r.count as int
        } else {
            0
        }),
    decreases labs.len(),
{
    lemma_push_step(pre, r, strict);
    if labs.len() > 0 {
        let init = labs.drop_last();
        assert(no_dup_seq(init)) by {
            assert(forall|i: int| 0 <= i < init.len() ==> init[i] == labs[i]);
        }
        lemma_sum_push(pre, r, strict, f, init);
        if is_kind(r, strict) && r.family == f && r.label is Some {
            let l0 = r.label->Some_0;
            if labs.contains(l0) {
                let k = choose|k: int| 0 <= k < labs.len() && labs[k] == l0;
                if k == labs.len() - 1 {
                    assert(!init.contains(l0)) by {
                        if init.contains(l0) {
                            let m = choose|m: int| 0 <= m < init.len() && init[m] == l0;
                            assert(labs[m] == l0);
                        }
                    }
                } else {
                    assert(init[k] == l0);
                    assert(init.contains(l0));
                    assert(labs.last() != l0);
                }
            } else {
                assert(!init.contains(l0)) by {
                    if init.contains(l0) {
                        let m = choose|m: int| 0 <= m < init.len() && init[m] == l0;
                        assert(labs[m] == l0);
                    }
                }
                assert(labs.last() != l0);
            }
        }
    }
}

/// Sums of label counts are nonnegative over a family's own labels.
pub proof fn lemma_sum_nonneg(reqs: Seq<QueueRequestV>, strict: bool, f: u32, labs: Seq<LabelV>)
    ensures
        sum_label_counts(reqs, strict, f, labs) >= 0,
    decreases labs.len(),
{
    if labs.len() > 0 {
        lemma_sum_nonneg(reqs, strict, f, labs.drop_last());
        lemma_label_count_bounds(reqs, strict, f, labs.last());
        lemma_demand_bounds(reqs, strict, f);
    }
}

/// The labels' counts of a family sum to its labeled demand.
pub proof fn lemma_weight_full(reqs: Seq<QueueRequestV>, strict: bool, f: u32)
    ensures
        sum_label_counts(reqs, strict, f, labels_of(reqs, strict, f)) == labeled_demand(
            reqs,
            strict,
            f,
        ),
    decreases reqs.len(),
{
    if reqs.len() > 0 {
        let pre = reqs.drop_last();
        lemma_weight_full(pre, strict, f);
        lemma_labels_no_dup(pre, strict, f);
        lemma_labels_no_dup(reqs, strict, f);
        let r = reqs.last();
        let ls = labels_of(reqs, strict, f);
        let lspre = labels_of(pre, strict, f);
        assert(pre.push(r) =~= reqs);
        if is_kind(r, strict) && r.family == f && r.label is Some {
            let l0 = r.label->Some_0;
            if lspre.contains(l0) {
                assert(ls == lspre);
                lemma_sum_push(pre, r, strict, f, lspre);
            } else {
                assert(ls == lspre.push(l0));
                assert(ls.drop_last() =~= lspre);
                lemma_sum_push(pre, r, strict, f, lspre);
                lemma_label_count_bounds(pre, strict, f, l0);
                lemma_push_step(pre, r, strict);
            }
        } else {
            assert(ls == lspre);
            lemma_sum_push(pre, r, strict, f, lspre);
        }
    }
}

/// Each label's run begins where the previous labels' runs end.
pub proof fn lemma_weight_step(reqs: Seq<QueueRequestV>, strict: bool, f: u32, j: int)
    requires
        0 <= j < labels_of(reqs, strict, f).len(),
    ensures
        labels_weight(reqs, strict, f, j + 1) == labels_weight(reqs, strict, f, j) + label_count(
            reqs,
            strict,
            f,
            labels_of(reqs, strict, f)[j],
        ),
{
    let ls = labels_of(reqs, strict, f);
    assert(ls.take(j + 1).drop_last() =~= ls.take(j));
    assert(ls.take(j + 1).last() == ls[j]);
}

/// Weights grow along the label list and stay within the labeled demand.
pub proof fn lemma_weight_bounds(reqs: Seq<QueueRequestV>, strict: bool, f: u32, j: int)
    requires
        0 <= j <= labels_of(reqs, strict, f).len(),
    ensures
        0 <= labels_weight(reqs, strict, f, j) <= labeled_demand(reqs, strict, f),
    decreases labels_of(reqs, strict, f).len() - j,
{
    let ls = labels_of(reqs, strict, f);
    lemma_sum_nonneg(reqs, strict, f, ls.take(j));
    if j == ls.len() {
        assert(ls.take(j) =~= ls);
        lemma_weight_full(reqs, strict, f);
    } else {
        lemma_weight_step(reqs, strict, f, j);
        lemma_label_count_bounds(reqs, strict, f, ls[j]);
        lemma_weight_bounds(reqs, strict, f, j + 1);
    }
}

/// In a duplicate-free label list the chosen index of a label is its
/// position, so a label's start is the weight of the labels before it.
pub proof fn lemma_label_start_at(reqs: Seq<QueueRequestV>, strict: bool, f: u32, j: int)
    requires
        0 <= j < labels_of(reqs, strict, f).len(),
        no_dup_seq(labels_of(reqs, strict, f)),
    ensures
        label_start(reqs, strict, f, labels_of(reqs, strict, f)[j]) == labels_weight(
            reqs,
            strict,
            f,
            j,
        ),
{
    let ls = labels_of(reqs, strict, f);
    let l = ls[j];
    assert(ls.contains(l));
    let k = ls.index_of(l);
    assert(0 <= k < ls.len() && ls[k] == l);
    assert(k == j);
}

/// Once every earlier strict family fits and family `i` does not, family
/// `i` is the strict pass's first failure.
pub proof fn lemma_first_unfit_strict_at(
    reqs: Seq<QueueRequestV>,
    caps: Seq<u32>,
    i: int,
    k: int,
)
    requires
        0 <= i < fams_of(reqs, true).len(),
        forall|j: int| 0 <= j < i ==> strict_fits(reqs, caps, #[trigger] fams_of(reqs, true)[j]),
        !strict_fits(reqs, caps, fams_of(reqs, true)[i]),
        i < k <= fams_of(reqs, true).len(),
    ensures
        first_unfit_strict(reqs, caps, k) == Some(fams_of(reqs, true)[i]),
    decreases k,
{
    if k - 1 > i {
        lemma_first_unfit_strict_at(reqs, caps, i, k - 1);
    } else {
        lemma_first_unfit_strict_none(reqs, caps, i);
    }
}

/// While every family seen fits, the strict pass has no failure.
pub proof fn lemma_first_unfit_strict_none(reqs: Seq<QueueRequestV>, caps: Seq<u32>, k: int)
    requires
        0 <= k <= fams_of(reqs, true).len(),
        forall|j: int| 0 <= j < k ==> strict_fits(reqs, caps, #[trigger] fams_of(reqs, true)[j]),
    ensures
        first_unfit_strict(reqs, caps, k) is None,
    decreases k,
{
    if k > 0 {
        lemma_first_unfit_strict_none(reqs, caps, k - 1);
    }
}

/// When the strict pass has no failure, every strict family fits.
pub proof fn lemma_strict_all_fit(reqs: Seq<QueueRequestV>, caps: Seq<u32>, k: int)
    requires
        0 <= k <= fams_of(reqs, true).len(),
        first_unfit_strict(reqs, caps, k) is None,
    ensures
        forall|j: int| 0 <= j < k ==> strict_fits(reqs, caps, #[trigger] fams_of(reqs, true)[j]),
    decreases k,
{
    if k > 0 {
        lemma_strict_all_fit(reqs, caps, k - 1);
    }
}

/// Once every earlier flexible family has capacity left and family `i` has
/// none, family `i` is the flexible pass's first failure.
pub proof fn lemma_first_unfit_flex_at(reqs: Seq<QueueRequestV>, caps: Seq<u32>, i: int, k: int)
    requires
        0 <= i < fams_of(reqs, false).len(),
        forall|j: int| 0 <= j < i ==> flex_fits(reqs, caps, #[trigger] fams_of(reqs, false)[j]),
        !flex_fits(reqs, caps, fams_of(reqs, false)[i]),
        i < k <= fams_of(reqs, false).len(),
    ensures
        first_unfit_flex(reqs, caps, k) == Some(fams_of(reqs, false)[i]),
    decreases k,
{
    if k - 1 > i {
        lemma_first_unfit_flex_at(reqs, caps, i, k - 1);
    } else {
        lemma_first_unfit_flex_none(reqs, caps, i);
    }
}

/// While every flexible family seen has capacity left, the flexible pass
/// has no failure.
pub proof fn lemma_first_unfit_flex_none(reqs: Seq<QueueRequestV>, caps: Seq<u32>, k: int)
    requires
        0 <= k <= fams_of(reqs, false).len(),
        forall|j: int| 0 <= j < k ==> flex_fits(reqs, caps, #[trigger] fams_of(reqs, false)[j]),
    ensures
        first_unfit_flex(reqs, caps, k) is None,
    decreases k,
{
    if k > 0 {
        lemma_first_unfit_flex_none(reqs, caps, k - 1);
    }
}

} // verus!
