//! The queue allocator: resolves a list of queue requests against the
//! family capacity table.
//!
//! Allocation first partitions the requests into per-family tallies of
//! strict and flexible demand, then runs the strict pass and the flexible
//! pass the model in [`crate::alloc_model`] describes. The result maps each
//! label to its queue references and each family to its unlabeled queue
//! indices, and reports what every family has left; a capacity failure
//! reports the first family that could not supply its demand.

use vstd::prelude::*;

use crate::alloc_model::{
    alloc_failure, all_label_refs, block, cap_of, demand, fam_part, fams_of, flex_error,
    flex_fits, is_kind, label_count, labeled_demand, labeled_map, labels_of, labels_weight,
    lemma_absent_family, lemma_demand_bounds, lemma_fams_contains, lemma_fams_no_dup,
    lemma_first_unfit_flex_at, lemma_first_unfit_flex_none, lemma_first_unfit_strict_at,
    lemma_first_unfit_strict_none, lemma_label_count_bounds, lemma_label_start_at,
    lemma_labels_no_dup, lemma_push_step, lemma_strict_all_fit, lemma_take_contains_last,
    lemma_take_contains_step, lemma_take_not_contains, lemma_total_demand_prefix,
    lemma_weight_bounds, lemma_weight_full, lemma_weight_step, no_dup_seq, refs_upto,
    remaining_of, slot_index, strict_error, strict_fits, total_demand, unlabeled_count,
    unlabeled_indices, unlabeled_map,
};
use crate::errors::QueueRequestValidationError;
use crate::queues::{
    indices_or_empty, refs_or_empty, LabelV, QueueLabel, QueueLabels, QueueRef, UnlabeledQueues,
};
use crate::requests::{QueueRequest, QueueRequestV};

verus! {

/// One family's tally of one kind of demand: its total, and each label's
/// share, in first-request order.
struct FamEntry {
    family: u32,
    total: u32,
    labels: Vec<(QueueLabel, u32)>,
}

/// The label tallies mirror the model's labels and counts for family `f`.
spec fn labels_match(
    labs: Seq<(QueueLabel, u32)>,
    reqs: Seq<QueueRequestV>,
    strict: bool,
    f: u32,
) -> bool {
    let ls = labels_of(reqs, strict, f);
    &&& labs.len() == ls.len()
    &&& forall|j: int|
        0 <= j < ls.len() ==> (#[trigger] labs[j]).0@ == ls[j] && labs[j].1 as int == label_count(
            reqs,
            strict,
            f,
            ls[j],
        )
}

/// The family tallies mirror the model's families, demands and labels for
/// one kind of request.
spec fn entries_match(entries: Seq<FamEntry>, reqs: Seq<QueueRequestV>, strict: bool) -> bool {
    let fs = fams_of(reqs, strict);
    &&& entries.len() == fs.len()
    &&& forall|i: int|
        0 <= i < fs.len() ==> {
            &&& (#[trigger] entries[i]).family == fs[i]
            &&& entries[i].total as int == demand(reqs, strict, fs[i])
            &&& labels_match(entries[i].labels@, reqs, strict, fs[i])
        }
}

/// A request of the other kind leaves a side's tallies in step with the
/// model.
proof fn lemma_entries_match_other_kind(
    entries: Seq<FamEntry>,
    pre: Seq<QueueRequestV>,
    r: QueueRequestV,
    strict: bool,
)
    requires
        entries_match(entries, pre, strict),
        !is_kind(r, strict),
    ensures
        entries_match(entries, pre.push(r), strict),
{
    lemma_push_step(pre, r, strict);
    let fs = fams_of(pre, strict);
    let reqs2 = pre.push(r);
    assert(fams_of(reqs2, strict) == fs);
    assert forall|i: int| 0 <= i < fs.len() implies {
        &&& (#[trigger] entries[i]).family == fs[i]
        &&& entries[i].total as int == demand(reqs2, strict, fs[i])
        &&& labels_match(entries[i].labels@, reqs2, strict, fs[i])
    } by {
        assert(demand(reqs2, strict, fs[i]) == demand(pre, strict, fs[i]));
        assert(labels_of(reqs2, strict, fs[i]) == labels_of(pre, strict, fs[i]));
        assert forall|j: int|
            0 <= j < labels_of(reqs2, strict, fs[i]).len() implies label_count(
            reqs2,
            strict,
            fs[i],
            labels_of(reqs2, strict, fs[i])[j],
        ) == label_count(pre, strict, fs[i], labels_of(pre, strict, fs[i])[j]) by {}
    }
}

/// Tallies one request into the entries of its kind.
fn tally_request(
    entries: &mut Vec<FamEntry>,
    req: &QueueRequest,
    strict: bool,
    Ghost(pre): Ghost<Seq<QueueRequestV>>,
)
    requires
        entries_match(old(entries)@, pre, strict),
        is_kind(req@, strict),
        total_demand(pre.push(req@)) < u32::MAX as int,
    ensures
        entries_match(final(entries)@, pre.push(req@), strict),
{
    let ghost rv = req@;
    let ghost reqs2 = pre.push(rv);
    let ghost fs = fams_of(pre, strict);
    let fam = req.family;
    proof {
        lemma_push_step(pre, rv, strict);
        lemma_fams_no_dup(pre, strict);
        lemma_fams_contains(pre, strict, fam);
        lemma_demand_bounds(pre, strict, fam);
        lemma_label_count_bounds(
            pre,
            strict,
            fam,
            match rv.label {
                Some(l) => l,
                None => LabelV::Graphics,
            },
        );
    }
    let ghost entries0 = entries@;
    let mut i: usize = 0;
    let mut found: bool = false;
    while i < entries.len() && !found
        invariant
            i <= entries@.len(),
            entries@ == entries0,
            found ==> i < entries@.len() && entries@[i as int].family == fam,
            !found ==> forall|j: int| 0 <= j < i ==> entries@[j].family != fam,
        decreases entries@.len() - i, (if found {
            0int
        } else {
            1int
        }),
    {
        if entries[i].family == fam {
            found = true;
        } else {
            i = i + 1;
        }
    }
    if found {
        proof {
            assert(fs[i as int] == fam);
            assert(fs.contains(fam));
            assert(fams_of(reqs2, strict) == fs);
            // the entry index for `fam` is exactly `i`, by distinctness
            assert(entries@[i as int].total as int == demand(pre, strict, fam));
            assert(demand(pre, strict, fam) + rv.count <= total_demand(pre) + rv.count);
        }
        entries[i].total = entries[i].total + req.count;
        match &req.label {
            Some(lab) => {
                let ghost l0 = lab@;
                let ghost ls = labels_of(pre, strict, fam);
                let ghost labs0 = entries@[i as int].labels@;
                let mut j: usize = 0;
                let mut lfound: bool = false;
                while j < entries[i].labels.len() && !lfound
                    invariant
                        0 <= i < entries@.len(),
                        j <= entries@[i as int].labels@.len(),
                        entries@[i as int].labels@ == labs0,
                        l0 == lab@,
                        lfound ==> j < labs0.len() && labs0[j as int].0@ == l0,
                        !lfound ==> forall|k: int| 0 <= k < j ==> labs0[k].0@ != l0,
                    decreases labs0.len() - j, (if lfound {
                        0int
                    } else {
                        1int
                    }),
                {
                    if entries[i].labels[j].0 == *lab {
                        lfound = true;
                    } else {
                        j = j + 1;
                    }
                }
                if lfound {
                    proof {
                        assert(labs0[j as int].0@ == ls[j as int]);
                        assert(ls[j as int] == l0);
                        assert(ls.contains(l0));
                        assert(labs0[j as int].1 as int == label_count(pre, strict, fam, l0));
                        lemma_label_count_bounds(pre, strict, fam, l0);
                        assert(label_count(pre, strict, fam, l0) + rv.count <= total_demand(pre)
                            + rv.count);
                    }
                    entries[i].labels[j].1 = entries[i].labels[j].1 + req.count;
                    proof {
                        assert(labels_of(reqs2, strict, fam) == ls);
                        lemma_labels_no_dup(pre, strict, fam);
                        assert forall|k: int| 0 <= k < ls.len() implies (
                        #[trigger] entries@[i as int].labels@[k]).0@ == ls[k]
                            && entries@[i as int].labels@[k].1 as int == label_count(
                            reqs2,
                            strict,
                            fam,
                            ls[k],
                        ) by {
                            if k != j {
                                assert(ls[k] != l0);
                                assert(entries@[i as int].labels@[k] == labs0[k]);
                            }
                        }
                    }
                } else {
                    proof {
                        assert(!ls.contains(l0)) by {
                            if ls.contains(l0) {
                                let k = choose|k: int| 0 <= k < ls.len() && ls[k] == l0;
                                assert(labs0[k].0@ == ls[k]);
                            }
                        }
                        lemma_label_count_bounds(pre, strict, fam, l0);
                    }
                    entries[i].labels.push((lab.clone(), req.count));
                    proof {
                        let ls2 = labels_of(reqs2, strict, fam);
                        assert(ls2 == ls.push(l0));
                        assert forall|k: int| 0 <= k < ls2.len() implies (
                        #[trigger] entries@[i as int].labels@[k]).0@ == ls2[k]
                            && entries@[i as int].labels@[k].1 as int == label_count(
                            reqs2,
                            strict,
                            fam,
                            ls2[k],
                        ) by {
                            if k < ls.len() {
                                assert(entries@[i as int].labels@[k] == labs0[k]);
                                assert(ls2[k] == ls[k]);
                                lemma_labels_no_dup(reqs2, strict, fam);
                                assert(ls2[k] != l0);
                            } else {
                                assert(ls2[k] == l0);
                            }
                        }
                    }
                }
            },
            None => {
                proof {
                    assert(labels_of(reqs2, strict, fam) == labels_of(pre, strict, fam));
                }
            },
        }
        proof {
            assert forall|ii: int| 0 <= ii < fs.len() implies {
                &&& (#[trigger] entries@[ii]).family == fs[ii]
                &&& entries@[ii].total as int == demand(reqs2, strict, fs[ii])
                &&& labels_match(entries@[ii].labels@, reqs2, strict, fs[ii])
            } by {
                if ii != i {
                    assert(entries@[ii] == entries0[ii]);
                    assert(fs[ii] != fam);
                    assert(labels_of(reqs2, strict, fs[ii]) == labels_of(pre, strict, fs[ii]));
                    assert forall|k: int|
                        0 <= k < labels_of(reqs2, strict, fs[ii]).len() implies label_count(
                        reqs2,
                        strict,
                        fs[ii],
                        labels_of(reqs2, strict, fs[ii])[k],
                    ) == label_count(pre, strict, fs[ii], labels_of(pre, strict, fs[ii])[k]) by {}
                }
            }
        }
    } else {
        proof {
            assert(!fs.contains(fam)) by {
                if fs.contains(fam) {
                    let k = choose|k: int| 0 <= k < fs.len() && fs[k] == fam;
                    assert(entries0[k].family == fam);
                }
            }
            assert(fams_of(reqs2, strict) == fs.push(fam));
            lemma_absent_family(pre, strict, fam);
        }
        let mut labels: Vec<(QueueLabel, u32)> = Vec::new();
        match &req.label {
            Some(lab) => {
                labels.push((lab.clone(), req.count));
            },
            None => {},
        }
        entries.push(FamEntry { family: fam, total: req.count, labels });
        proof {
            let n = fs.len() as int;
            assert(entries@.len() == n + 1);
            assert(entries@[n].family == fam);
            assert(demand(reqs2, strict, fam) == rv.count as int);
            match rv.label {
                Some(l0) => {
                    assert(labels_of(reqs2, strict, fam) =~= seq![l0]);
                    assert(entries@[n].labels@[0].0@ == l0);
                    assert(label_count(reqs2, strict, fam, l0) == rv.count as int);
                },
                None => {
                    assert(labels_of(reqs2, strict, fam) =~= Seq::<LabelV>::empty());
                },
            }
            assert forall|ii: int| 0 <= ii < n implies {
                &&& (#[trigger] entries@[ii]).family == fs[ii]
                &&& entries@[ii].total as int == demand(reqs2, strict, fs[ii])
                &&& labels_match(entries@[ii].labels@, reqs2, strict, fs[ii])
            } by {
                assert(entries@[ii] == entries0[ii]);
                assert(fs.contains(fs[ii]));
                assert(fs[ii] != fam);
                assert(labels_of(reqs2, strict, fs[ii]) == labels_of(pre, strict, fs[ii]));
            }
        }
    }
}

/// Splits the request list into its strict and flexible per-family tallies.
fn partition(requests: &Vec<QueueRequest>) -> (p: (Vec<FamEntry>, Vec<FamEntry>))
    requires
        total_demand(requests.deep_view()) < u32::MAX as int,
    ensures
        entries_match(p.0@, requests.deep_view(), true),
        entries_match(p.1@, requests.deep_view(), false),
{
    let ghost reqs = requests.deep_view();
    let mut strict_entries: Vec<FamEntry> = Vec::new();
    let mut flex_entries: Vec<FamEntry> = Vec::new();
    let mut k: usize = 0;
    proof {
        assert(reqs.take(0) =~= Seq::<QueueRequestV>::empty());
    }
    while k < requests.len()
        invariant
            k <= reqs.len(),
            reqs == requests.deep_view(),
            requests@.len() == reqs.len(),
            total_demand(reqs) < u32::MAX as int,
            entries_match(strict_entries@, reqs.take(k as int), true),
            entries_match(flex_entries@, reqs.take(k as int), false),
        decreases reqs.len() - k,
    {
        let req = &requests[k];
        let ghost pre = reqs.take(k as int);
        proof {
            assert(req@ == reqs[k as int]);
            assert(reqs.take(k as int + 1) =~= pre.push(req@));
            lemma_total_demand_prefix(reqs, k as int + 1);
        }
        if !req.allow_merge {
            tally_request(&mut strict_entries, req, true, Ghost(pre));
            proof {
                lemma_entries_match_other_kind(flex_entries@, pre, req@, false);
            }
        } else {
            tally_request(&mut flex_entries, req, false, Ghost(pre));
            proof {
                lemma_entries_match_other_kind(strict_entries@, pre, req@, true);
            }
        }
        k = k + 1;
    }
    proof {
        assert(reqs.take(reqs.len() as int) =~= reqs);
    }
    (strict_entries, flex_entries)
}

/// Finds the tally of `fam` among a pass's entries, which also decides
/// whether the pass's requests name the family at all.
fn find_family(
    entries: &Vec<FamEntry>,
    fam: u32,
    strict: bool,
    Ghost(reqs): Ghost<Seq<QueueRequestV>>,
) -> (r: Option<usize>)
    requires
        entries_match(entries@, reqs, strict),
    ensures
        match r {
            Some(i) => {
                &&& i < entries@.len()
                &&& fams_of(reqs, strict)[i as int] == fam
                &&& entries@[i as int].family == fam
                &&& fams_of(reqs, strict).contains(fam)
                &&& entries@[i as int].total as int == demand(reqs, strict, fam)
            },
            None => !fams_of(reqs, strict).contains(fam),
        },
{
    let mut i: usize = 0;
    while i < entries.len()
        invariant
            i <= entries@.len(),
            entries_match(entries@, reqs, strict),
            forall|j: int| 0 <= j < i ==> entries@[j].family != fam,
        decreases entries@.len() - i,
    {
        if entries[i].family == fam {
            return Some(i);
        }
        i = i + 1;
    }
    proof {
        if fams_of(reqs, strict).contains(fam) {
            let k = choose|k: int|
                0 <= k < fams_of(reqs, strict).len() && fams_of(reqs, strict)[k] == fam;
            assert(entries@[k].family == fam);
        }
    }
    None
}

/// Hands each label of one family its run of queue slots, in label order,
/// appending to the label map. Returns the family's labeled demand: the
/// slot position after the last labeled run.
fn place_family_labels(
    labeled: &mut QueueLabels,
    labs: &Vec<(QueueLabel, u32)>,
    family: u32,
    strict: bool,
    sd: u32,
    range: u32,
    Ghost(reqs): Ghost<Seq<QueueRequestV>>,
    Ghost(caps): Ghost<Seq<u32>>,
    Ghost(i): Ghost<int>,
    Ghost(base): Ghost<spec_fn(LabelV) -> Seq<QueueRef>>,
) -> (cursor: u32)
    requires
        old(labeled).wf(),
        0 <= i < fams_of(reqs, strict).len(),
        fams_of(reqs, strict)[i] == family,
        labels_match(labs@, reqs, strict, family),
        total_demand(reqs) < u32::MAX as int,
        !strict ==> sd as int == demand(reqs, true, family) && range as int == cap_of(caps, family)
            - sd && range > 0,
        forall|l: LabelV| refs_or_empty(old(labeled)@, l) == base(l) + refs_upto(
            reqs,
            caps,
            strict,
            l,
            i,
        ),
        forall|l: LabelV| old(labeled)@.contains_key(l) ==> old(labeled)@[l].len() > 0,
    ensures
        final(labeled).wf(),
        forall|l: LabelV| refs_or_empty(final(labeled)@, l) == base(l) + refs_upto(
            reqs,
            caps,
            strict,
            l,
            i + 1,
        ),
        forall|l: LabelV| final(labeled)@.contains_key(l) ==> final(labeled)@[l].len() > 0,
        cursor as int == labeled_demand(reqs, strict, family),
{
    let ghost ls = labels_of(reqs, strict, family);
    proof {
        lemma_labels_no_dup(reqs, strict, family);
        lemma_demand_bounds(reqs, strict, family);
        assert(ls.take(0) =~= Seq::<LabelV>::empty());
        assert(labels_weight(reqs, strict, family, 0) == 0) by {
            assert(ls.take(0) =~= Seq::<LabelV>::empty());
        }
    }
    let mut cursor: u32 = 0;
    let mut j: usize = 0;
    while j < labs.len()
        invariant
            labeled.wf(),
            j <= labs@.len(),
            0 <= i < fams_of(reqs, strict).len(),
            fams_of(reqs, strict)[i] == family,
            ls == labels_of(reqs, strict, family),
            no_dup_seq(ls),
            labels_match(labs@, reqs, strict, family),
            total_demand(reqs) < u32::MAX as int,
            !strict ==> sd as int == demand(reqs, true, family) && range as int == cap_of(
                caps,
                family,
            ) - sd && range > 0,
            cursor as int == labels_weight(reqs, strict, family, j as int),
            forall|l: LabelV| refs_or_empty(labeled@, l) == base(l) + refs_upto(
                reqs,
                caps,
                strict,
                l,
                i,
            ) + fam_part(reqs, caps, strict, family, l, j as int),
            forall|l: LabelV| labeled@.contains_key(l) ==> labeled@[l].len() > 0,
        decreases labs@.len() - j,
    {
        let cnt = labs[j].1;
        let ghost l0 = ls[j as int];
        proof {
            assert(labs@[j as int].0@ == l0);
            assert(cnt as int == label_count(reqs, strict, family, l0));
            lemma_weight_step(reqs, strict, family, j as int);
            lemma_weight_bounds(reqs, strict, family, j as int + 1);
            lemma_weight_bounds(reqs, strict, family, j as int);
            lemma_label_start_at(reqs, strict, family, j as int);
            lemma_demand_bounds(reqs, strict, family);
            assert(cursor + cnt <= labeled_demand(reqs, strict, family));
        }
        if cnt > 0 {
            let mut refs: Vec<QueueRef> = Vec::new();
            let mut t: u32 = 0;
            while t < cnt
                invariant
                    t <= cnt,
                    cursor + cnt <= labeled_demand(reqs, strict, family) <= total_demand(reqs)
                        < u32::MAX as int,
                    !strict ==> sd as int == demand(reqs, true, family) && range as int == cap_of(
                        caps,
                        family,
                    ) - sd && range > 0,
                    refs@.len() == t,
                    forall|tt: int| 0 <= tt < t ==> refs@[tt] == (QueueRef {
                        family,
                        index: slot_index(reqs, caps, strict, family, cursor + tt),
                    }),
                decreases cnt - t,
            {
                let index: u32 = if strict {
                    cursor + t
                } else {
                    sd + ((cursor + t) % range)
                };
                refs.push(QueueRef { family, index });
                t = t + 1;
            }
            proof {
                assert(ls.contains(l0));
                assert(refs@ =~= block(reqs, caps, strict, family, l0));
            }
            let ghost labeled0 = labeled@;
            labeled.append(&labs[j].0, refs);
            proof {
                assert(!ls.take(j as int).contains(l0)) by {
                    assert(forall|k: int| 0 <= k < j ==> ls[k] != l0);
                    lemma_take_not_contains(ls, j as int, l0);
                }
                assert(fam_part(reqs, caps, strict, family, l0, j as int)
                    == Seq::<QueueRef>::empty());
                assert(ls.take(j as int + 1).contains(l0)) by {
                    lemma_take_contains_last(ls, j as int);
                }
                assert forall|l: LabelV| refs_or_empty(labeled@, l) == base(l) + refs_upto(
                    reqs,
                    caps,
                    strict,
                    l,
                    i,
                ) + fam_part(reqs, caps, strict, family, l, j as int + 1) by {
                    if l == l0 {
                        assert(refs_or_empty(labeled@, l) == refs_or_empty(labeled0, l0) + block(
                            reqs,
                            caps,
                            strict,
                            family,
                            l0,
                        ));
                    } else {
                        assert(refs_or_empty(labeled@, l) == refs_or_empty(labeled0, l));
                        lemma_take_contains_step(ls, j as int, l);
                    }
                }
            }
        } else {
            proof {
                assert(ls.take(j as int + 1).contains(l0)) by {
                    lemma_take_contains_last(ls, j as int);
                }
                assert(block(reqs, caps, strict, family, l0) =~= Seq::<QueueRef>::empty());
                assert forall|l: LabelV| refs_or_empty(labeled@, l) == base(l) + refs_upto(
                    reqs,
                    caps,
                    strict,
                    l,
                    i,
                ) + fam_part(reqs, caps, strict, family, l, j as int + 1) by {
                    if l != l0 {
                        lemma_take_contains_step(ls, j as int, l);
                    } else {
                        assert(fam_part(reqs, caps, strict, family, l0, j as int)
                            == Seq::<QueueRef>::empty());
                        assert(base(l0) + refs_upto(reqs, caps, strict, l0, i) + Seq::<
                            QueueRef,
                        >::empty() =~= base(l0) + refs_upto(reqs, caps, strict, l0, i));
                    }
                }
            }
        }
        cursor = cursor + cnt;
        j = j + 1;
    }
    proof {
        assert(ls.take(labs@.len() as int) =~= ls);
        lemma_weight_full(reqs, strict, family);
        assert forall|l: LabelV| refs_or_empty(labeled@, l) == base(l) + refs_upto(
            reqs,
            caps,
            strict,
            l,
            i + 1,
        ) by {
            assert(fam_part(reqs, caps, strict, family, l, labs@.len() as int) == block(
                reqs,
                caps,
                strict,
                family,
                l,
            )) by {
                if !ls.contains(l) {
                    assert(block(reqs, caps, strict, family, l) == Seq::<QueueRef>::empty());
                }
            }
            assert(refs_upto(reqs, caps, strict, l, i + 1) == refs_upto(reqs, caps, strict, l, i)
                + block(reqs, caps, strict, family, l));
            assert(base(l) + refs_upto(reqs, caps, strict, l, i) + block(
                reqs,
                caps,
                strict,
                family,
                l,
            ) =~= base(l) + (refs_upto(reqs, caps, strict, l, i) + block(
                reqs,
                caps,
                strict,
                family,
                l,
            )));
        }
    }
    cursor
}

/// The queue indices of one family's unlabeled leftover of one kind: the
/// slot positions after the labeled runs, mapped to queue indices.
fn build_unlabeled(
    family: u32,
    strict: bool,
    sd: u32,
    range: u32,
    start: u32,
    total: u32,
    Ghost(reqs): Ghost<Seq<QueueRequestV>>,
    Ghost(caps): Ghost<Seq<u32>>,
) -> (v: Vec<u32>)
    requires
        start as int == labeled_demand(reqs, strict, family),
        total as int == demand(reqs, strict, family),
        start <= total,
        total_demand(reqs) < u32::MAX as int,
        total as int <= total_demand(reqs),
        !strict ==> sd as int == demand(reqs, true, family) && range as int == cap_of(caps, family)
            - sd && range > 0,
    ensures
        v@ == unlabeled_indices(reqs, caps, strict, family),
{
    let cnt = total - start;
    let mut v: Vec<u32> = Vec::new();
    let mut t: u32 = 0;
    while t < cnt
        invariant
            t <= cnt,
            cnt == total - start,
            start as int == labeled_demand(reqs, strict, family),
            total as int <= total_demand(reqs) < u32::MAX as int,
            !strict ==> sd as int == demand(reqs, true, family) && range as int == cap_of(
                caps,
                family,
            ) - sd && range > 0,
            v@.len() == t,
            forall|tt: int| 0 <= tt < t ==> v@[tt] == slot_index(
                reqs,
                caps,
                strict,
                family,
                start + tt,
            ),
        decreases cnt - t,
    {
        let index: u32 = if strict {
            start + t
        } else {
            sd + ((start + t) % range)
        };
        v.push(index);
        t = t + 1;
    }
    proof {
        assert(v@ =~= unlabeled_indices(reqs, caps, strict, family));
    }
    v
}


/// The strict pass: walks the families with strict demand in first-request
/// order, failing on the first whose demand exceeds its capacity, and
/// otherwise placing each family's labels and unlabeled leftover at
/// consecutive slot indices from zero.
fn strict_pass(
    strict_entries: &Vec<FamEntry>,
    flex_entries: &Vec<FamEntry>,
    capacities: &Vec<u32>,
    labeled: &mut QueueLabels,
    unlabeled: &mut UnlabeledQueues,
    remaining: &mut Vec<u32>,
    Ghost(reqs): Ghost<Seq<QueueRequestV>>,
) -> (r: Option<QueueRequestValidationError>)
    requires
        entries_match(strict_entries@, reqs, true),
        entries_match(flex_entries@, reqs, false),
        total_demand(reqs) < u32::MAX as int,
        old(labeled).wf(),
        old(labeled)@ == Map::<LabelV, Seq<QueueRef>>::empty(),
        old(unlabeled).wf(),
        old(unlabeled)@ == Map::<u32, Set<u32>>::empty(),
        old(remaining)@ == capacities@,
        capacities@.len() <= u32::MAX,
    ensures
        match r {
            Some(e) => strict_error(reqs, capacities@) == Some(e),
            None => {
                &&& strict_error(reqs, capacities@) is None
                &&& final(labeled).wf()
                &&& forall|l: LabelV| refs_or_empty(final(labeled)@, l) == refs_upto(
                    reqs,
                    capacities@,
                    true,
                    l,
                    fams_of(reqs, true).len() as int,
                )
                &&& forall|l: LabelV| final(labeled)@.contains_key(l) ==> final(labeled)@[l].len()
                    > 0
                &&& final(unlabeled).wf()
                &&& forall|f: u32| indices_or_empty(final(unlabeled)@, f) == (if unlabeled_count(
                    reqs,
                    true,
                    f,
                ) > 0 {
                    unlabeled_indices(reqs, capacities@, true, f).to_set()
                } else {
                    Set::<u32>::empty()
                })
                &&& forall|f: u32| final(unlabeled)@.contains_key(f) ==> unlabeled_count(
                    reqs,
                    true,
                    f,
                ) > 0
                &&& final(remaining)@.len() == capacities@.len()
                &&& forall|fi: int|
                    0 <= fi < capacities@.len() ==> final(remaining)@[fi] as int == capacities@[fi]
                        - demand(reqs, true, fi as u32)
            },
        },
{
    let ghost caps = capacities@;
    let ghost sfams = fams_of(reqs, true);
    let n = strict_entries.len();
    proof {
        lemma_fams_no_dup(reqs, true);
        assert(sfams.take(0) =~= Seq::<u32>::empty());
    }
    let mut i: usize = 0;
    while i < n
        invariant
            i <= n,
            n == strict_entries@.len(),
            caps == capacities@,
            caps.len() <= u32::MAX,
            sfams == fams_of(reqs, true),
            no_dup_seq(sfams),
            entries_match(strict_entries@, reqs, true),
            entries_match(flex_entries@, reqs, false),
            total_demand(reqs) < u32::MAX as int,
            labeled.wf(),
            unlabeled.wf(),
            remaining@.len() == caps.len(),
            forall|j: int| 0 <= j < i ==> strict_fits(reqs, caps, #[trigger] sfams[j]),
            forall|fi: int|
                0 <= fi < caps.len() ==> remaining@[fi] as int == caps[fi] - (
                if sfams.take(i as int).contains(fi as u32) {
                    demand(reqs, true, fi as u32)
                } else {
                    0int
                }),
            forall|l: LabelV| refs_or_empty(labeled@, l) == refs_upto(reqs, caps, true, l, i as int),
            forall|l: LabelV| labeled@.contains_key(l) ==> labeled@[l].len() > 0,
            forall|f: u32| indices_or_empty(unlabeled@, f) == (if sfams.take(i as int).contains(f)
                && unlabeled_count(reqs, true, f) > 0 {
                unlabeled_indices(reqs, caps, true, f).to_set()
            } else {
                Set::<u32>::empty()
            }),
            forall|f: u32| unlabeled@.contains_key(f) ==> sfams.take(i as int).contains(f)
                && unlabeled_count(reqs, true, f) > 0,
        decreases n - i,
    {
        let family = strict_entries[i].family;
        let total = strict_entries[i].total;
        let ghost fam = sfams[i as int];
        proof {
            assert(family == fam);
            assert(total as int == demand(reqs, true, fam));
            lemma_demand_bounds(reqs, true, fam);
        }
        let capf: u32 = if (family as usize) < capacities.len() {
            capacities[family as usize]
        } else {
            0
        };
        proof {
            assert(capf as int == cap_of(caps, fam));
        }
        if total > capf {
            let pending = match find_family(flex_entries, family, false, Ghost(reqs)) {
                Some(_) => true,
                None => false,
            };
            let req_amt: u32 = if pending {
                total + 1
            } else {
                total
            };
            proof {
                lemma_first_unfit_strict_at(reqs, caps, i as int, sfams.len() as int);
            }
            return Some(
                QueueRequestValidationError::NotEnoughQueuesInFamily {
                    family,
                    req: req_amt,
                    avail: capf,
                },
            );
        }
        if (family as usize) < capacities.len() {
            proof {
                assert(!sfams.take(i as int).contains(fam)) by {
                    lemma_take_not_contains(sfams, i as int, fam);
                }
                assert(remaining@[family as int] as int == caps[family as int]);
            }
            let cur = remaining[family as usize];
            remaining[family as usize] = cur - total;
        } else {
            proof {
                assert(total == 0);
            }
        }
        let cursor = place_family_labels(
            labeled,
            &strict_entries[i].labels,
            family,
            true,
            0,
            1,
            Ghost(reqs),
            Ghost(caps),
            Ghost(i as int),
            Ghost(|l: LabelV| Seq::<QueueRef>::empty()),
        );
        proof {
            assert forall|l: LabelV| refs_or_empty(labeled@, l) == refs_upto(
                reqs,
                caps,
                true,
                l,
                i as int + 1,
            ) by {
                assert((|l: LabelV| Seq::<QueueRef>::empty())(l) =~= Seq::<QueueRef>::empty());
                assert(Seq::<QueueRef>::empty() + refs_upto(reqs, caps, true, l, i as int + 1)
                    =~= refs_upto(reqs, caps, true, l, i as int + 1));
            }
        }
        if cursor < total {
            let v = build_unlabeled(family, true, 0, 1, cursor, total, Ghost(reqs), Ghost(caps));
            let ghost unl0 = unlabeled@;
            unlabeled.add_indices(family, &v);
            proof {
                assert(!sfams.take(i as int).contains(fam)) by {
                    lemma_take_not_contains(sfams, i as int, fam);
                }
                assert(indices_or_empty(unl0, fam) =~= Set::<u32>::empty());
                assert(Set::<u32>::empty() + v@.to_set() =~= v@.to_set());
                assert forall|f: u32| indices_or_empty(unlabeled@, f) == (if sfams.take(
                    i as int + 1,
                ).contains(f) && unlabeled_count(reqs, true, f) > 0 {
                    unlabeled_indices(reqs, caps, true, f).to_set()
                } else {
                    Set::<u32>::empty()
                }) by {
                    if f == fam {
                        lemma_take_contains_last(sfams, i as int);
                    } else {
                        lemma_take_contains_step(sfams, i as int, f);
                        assert(indices_or_empty(unlabeled@, f) == indices_or_empty(unl0, f));
                    }
                }
            }
        } else {
            proof {
                assert(cursor == total);
                assert forall|f: u32| indices_or_empty(unlabeled@, f) == (if sfams.take(
                    i as int + 1,
                ).contains(f) && unlabeled_count(reqs, true, f) > 0 {
                    unlabeled_indices(reqs, caps, true, f).to_set()
                } else {
                    Set::<u32>::empty()
                }) by {
                    if f == fam {
                        assert(unlabeled_count(reqs, true, fam) == 0);
                    } else {
                        lemma_take_contains_step(sfams, i as int, f);
                    }
                }
                assert forall|f: u32| unlabeled@.contains_key(f) implies sfams.take(
                    i as int + 1,
                ).contains(f) && unlabeled_count(reqs, true, f) > 0 by {
                    assert(sfams.take(i as int).contains(f));
                    let k = choose|k: int|
                        0 <= k < sfams.take(i as int).len() && sfams.take(i as int)[k] == f;
                    assert(sfams.take(i as int + 1)[k] == f);
                }
            }
        }
        proof {
            assert forall|fi: int| 0 <= fi < caps.len() implies remaining@[fi] as int == caps[fi]
                - (if sfams.take(i as int + 1).contains(fi as u32) {
                demand(reqs, true, fi as u32)
            } else {
                0int
            }) by {
                if fi as u32 == fam {
                    lemma_take_contains_last(sfams, i as int);
                } else {
                    lemma_take_contains_step(sfams, i as int, fi as u32);
                }
            }
            assert forall|f: u32| unlabeled@.contains_key(f) implies sfams.take(
                i as int + 1,
            ).contains(f) && unlabeled_count(reqs, true, f) > 0 by {
                if f != fam {
                    lemma_take_contains_step(sfams, i as int, f);
                } else {
                    lemma_take_contains_last(sfams, i as int);
                }
            }
        }
        i = i + 1;
    }
    proof {
        lemma_first_unfit_strict_none(reqs, caps, sfams.len() as int);
        assert(sfams.take(n as int) =~= sfams);
        assert forall|fi: int| 0 <= fi < caps.len() implies remaining@[fi] as int == caps[fi]
            - demand(reqs, true, fi as u32) by {
            if !sfams.contains(fi as u32) {
                lemma_fams_contains(reqs, true, fi as u32);
                lemma_absent_family(reqs, true, fi as u32);
            }
        }
        assert forall|f: u32| indices_or_empty(unlabeled@, f) == (if unlabeled_count(reqs, true, f)
            > 0 {
            unlabeled_indices(reqs, caps, true, f).to_set()
        } else {
            Set::<u32>::empty()
        }) by {
            if unlabeled_count(reqs, true, f) > 0 && !sfams.contains(f) {
                lemma_fams_contains(reqs, true, f);
                lemma_absent_family(reqs, true, f);
            }
        }
    }
    None
}


/// The flexible pass: walks the families with flexible demand in
/// first-request order, failing on the first with no capacity left, and
/// otherwise mapping each label's run and the unlabeled leftover into the
/// range above the strict block, wrapping around it.
fn flex_pass(
    strict_entries: &Vec<FamEntry>,
    flex_entries: &Vec<FamEntry>,
    capacities: &Vec<u32>,
    labeled: &mut QueueLabels,
    unlabeled: &mut UnlabeledQueues,
    remaining: &mut Vec<u32>,
    Ghost(reqs): Ghost<Seq<QueueRequestV>>,
) -> (r: Option<QueueRequestValidationError>)
    requires
        entries_match(strict_entries@, reqs, true),
        entries_match(flex_entries@, reqs, false),
        total_demand(reqs) < u32::MAX as int,
        capacities@.len() <= u32::MAX,
        strict_error(reqs, capacities@) is None,
        old(labeled).wf(),
        forall|l: LabelV| refs_or_empty(old(labeled)@, l) == refs_upto(
            reqs,
            capacities@,
            true,
            l,
            fams_of(reqs, true).len() as int,
        ),
        forall|l: LabelV| old(labeled)@.contains_key(l) ==> old(labeled)@[l].len() > 0,
        old(unlabeled).wf(),
        forall|f: u32| indices_or_empty(old(unlabeled)@, f) == (if unlabeled_count(reqs, true, f)
            > 0 {
            unlabeled_indices(reqs, capacities@, true, f).to_set()
        } else {
            Set::<u32>::empty()
        }),
        forall|f: u32| old(unlabeled)@.contains_key(f) ==> unlabeled_count(reqs, true, f) > 0,
        old(remaining)@.len() == capacities@.len(),
        forall|fi: int|
            0 <= fi < capacities@.len() ==> old(remaining)@[fi] as int == capacities@[fi] - demand(
                reqs,
                true,
                fi as u32,
            ),
    ensures
        match r {
            Some(e) => flex_error(reqs, capacities@) == Some(e),
            None => {
                &&& flex_error(reqs, capacities@) is None
                &&& final(labeled).wf()
                &&& forall|l: LabelV| refs_or_empty(final(labeled)@, l) == all_label_refs(
                    reqs,
                    capacities@,
                    l,
                )
                &&& forall|l: LabelV| final(labeled)@.contains_key(l) ==> final(labeled)@[l].len()
                    > 0
                &&& final(unlabeled).wf()
                &&& forall|f: u32| indices_or_empty(final(unlabeled)@, f) == (if unlabeled_count(
                    reqs,
                    true,
                    f,
                ) > 0 || unlabeled_count(reqs, false, f) > 0 {
                    unlabeled_indices(reqs, capacities@, true, f).to_set() + unlabeled_indices(
                        reqs,
                        capacities@,
                        false,
                        f,
                    ).to_set()
                } else {
                    Set::<u32>::empty()
                })
                &&& forall|f: u32| final(unlabeled)@.contains_key(f) ==> unlabeled_count(
                    reqs,
                    true,
                    f,
                ) > 0 || unlabeled_count(reqs, false, f) > 0
                &&& final(remaining)@.len() == capacities@.len()
                &&& forall|fi: int|
                    0 <= fi < capacities@.len() ==> final(remaining)@[fi] as int == remaining_of(
                        reqs,
                        capacities@,
                        fi as u32,
                    )
            },
        },
{
    let ghost caps = capacities@;
    let ghost ffams = fams_of(reqs, false);
    let ghost ns = fams_of(reqs, true).len() as int;
    let n = flex_entries.len();
    proof {
        lemma_fams_no_dup(reqs, false);
        assert(ffams.take(0) =~= Seq::<u32>::empty());
    }
    let mut i: usize = 0;
    while i < n
        invariant
            i <= n,
            n == flex_entries@.len(),
            caps == capacities@,
            caps.len() <= u32::MAX,
            ffams == fams_of(reqs, false),
            ns == fams_of(reqs, true).len() as int,
            no_dup_seq(ffams),
            entries_match(strict_entries@, reqs, true),
            entries_match(flex_entries@, reqs, false),
            total_demand(reqs) < u32::MAX as int,
            strict_error(reqs, caps) is None,
            labeled.wf(),
            unlabeled.wf(),
            remaining@.len() == caps.len(),
            forall|j: int| 0 <= j < i ==> flex_fits(reqs, caps, #[trigger] ffams[j]),
            forall|fi: int|
                0 <= fi < caps.len() ==> remaining@[fi] as int == (if ffams.take(
                    i as int,
                ).contains(fi as u32) {
                    remaining_of(reqs, caps, fi as u32)
                } else {
                    caps[fi] - demand(reqs, true, fi as u32)
                }),
            forall|l: LabelV| refs_or_empty(labeled@, l) == refs_upto(reqs, caps, true, l, ns)
                + refs_upto(reqs, caps, false, l, i as int),
            forall|l: LabelV| labeled@.contains_key(l) ==> labeled@[l].len() > 0,
            forall|f: u32| indices_or_empty(unlabeled@, f) == (if ffams.take(i as int).contains(f)
                && unlabeled_count(reqs, false, f) > 0 {
                (if unlabeled_count(reqs, true, f) > 0 {
                    unlabeled_indices(reqs, caps, true, f).to_set()
                } else {
                    Set::<u32>::empty()
                }) + unlabeled_indices(reqs, caps, false, f).to_set()
            } else {
                (if unlabeled_count(reqs, true, f) > 0 {
                    unlabeled_indices(reqs, caps, true, f).to_set()
                } else {
                    Set::<u32>::empty()
                })
            }),
            forall|f: u32| unlabeled@.contains_key(f) ==> unlabeled_count(reqs, true, f) > 0 || (
            ffams.take(i as int).contains(f) && unlabeled_count(reqs, false, f) > 0),
        decreases n - i,
    {
        let family = flex_entries[i].family;
        let total = flex_entries[i].total;
        let ghost fam = ffams[i as int];
        proof {
            assert(family == fam);
            assert(total as int == demand(reqs, false, fam));
            lemma_demand_bounds(reqs, false, fam);
            lemma_demand_bounds(reqs, true, fam);
        }
        let sd: u32 = match find_family(strict_entries, family, true, Ghost(reqs)) {
            Some(si) => strict_entries[si].total,
            None => {
                proof {
                    lemma_absent_family(reqs, true, family);
                }
                0
            },
        };
        proof {
            assert(sd as int == demand(reqs, true, fam));
            if fams_of(reqs, true).contains(fam) {
                let k = choose|k: int|
                    0 <= k < fams_of(reqs, true).len() && fams_of(reqs, true)[k] == fam;
                lemma_strict_all_fit(reqs, caps, fams_of(reqs, true).len() as int);
                assert(strict_fits(reqs, caps, fam));
            } else {
                lemma_absent_family(reqs, true, fam);
            }
            assert(sd as int <= cap_of(caps, fam));
        }
        if (family as usize) >= capacities.len() {
            proof {
                assert(cap_of(caps, fam) == 0);
                assert(!flex_fits(reqs, caps, fam));
                lemma_first_unfit_flex_at(reqs, caps, i as int, ffams.len() as int);
            }
            return Some(
                QueueRequestValidationError::NotEnoughQueuesInFamily {
                    family,
                    req: sd + 1,
                    avail: 0,
                },
            );
        }
        let capf: u32 = capacities[family as usize];
        proof {
            assert(capf as int == cap_of(caps, fam));
            assert(!ffams.take(i as int).contains(fam)) by {
                lemma_take_not_contains(ffams, i as int, fam);
            }
            assert(remaining@[family as int] as int == capf - sd);
        }
        let rem_now: u32 = remaining[family as usize];
        if rem_now == 0 {
            proof {
                assert(!flex_fits(reqs, caps, fam));
                lemma_first_unfit_flex_at(reqs, caps, i as int, ffams.len() as int);
            }
            return Some(
                QueueRequestValidationError::NotEnoughQueuesInFamily {
                    family,
                    req: sd + 1,
                    avail: capf,
                },
            );
        }
        proof {
            assert(flex_fits(reqs, caps, fam));
        }
        let range: u32 = rem_now;
        if total > rem_now {
            remaining[family as usize] = 0;
        } else {
            remaining[family as usize] = rem_now - total;
        }
        proof {
            assert(remaining@[family as int] as int == remaining_of(reqs, caps, fam));
        }
        let cursor = place_family_labels(
            labeled,
            &flex_entries[i].labels,
            family,
            false,
            sd,
            range,
            Ghost(reqs),
            Ghost(caps),
            Ghost(i as int),
            Ghost(|l: LabelV| refs_upto(reqs, caps, true, l, ns)),
        );
        if cursor < total {
            let v = build_unlabeled(
                family,
                false,
                sd,
                range,
                cursor,
                total,
                Ghost(reqs),
                Ghost(caps),
            );
            let ghost unl0 = unlabeled@;
            unlabeled.add_indices(family, &v);
            proof {
                assert forall|f: u32| indices_or_empty(unlabeled@, f) == (if ffams.take(
                    i as int + 1,
                ).contains(f) && unlabeled_count(reqs, false, f) > 0 {
                    (if unlabeled_count(reqs, true, f) > 0 {
                        unlabeled_indices(reqs, caps, true, f).to_set()
                    } else {
                        Set::<u32>::empty()
                    }) + unlabeled_indices(reqs, caps, false, f).to_set()
                } else {
                    (if unlabeled_count(reqs, true, f) > 0 {
                        unlabeled_indices(reqs, caps, true, f).to_set()
                    } else {
                        Set::<u32>::empty()
                    })
                }) by {
                    if f == fam {
                        lemma_take_contains_last(ffams, i as int);
                        if unlabeled_count(reqs, true, fam) > 0 {
                        } else {
                            assert(indices_or_empty(unl0, fam) =~= Set::<u32>::empty());
                            assert(Set::<u32>::empty() + v@.to_set() =~= v@.to_set());
                            assert(Set::<u32>::empty() + unlabeled_indices(
                                reqs,
                                caps,
                                false,
                                fam,
                            ).to_set() =~= unlabeled_indices(reqs, caps, false, fam).to_set());
                        }
                    } else {
                        lemma_take_contains_step(ffams, i as int, f);
                        assert(indices_or_empty(unlabeled@, f) == indices_or_empty(unl0, f));
                    }
                }
                assert forall|f: u32| unlabeled@.contains_key(f) implies unlabeled_count(
                    reqs,
                    true,
                    f,
                ) > 0 || (ffams.take(i as int + 1).contains(f) && unlabeled_count(reqs, false, f)
                    > 0) by {
                    if f == fam {
                        lemma_take_contains_last(ffams, i as int);
                    } else {
                        assert(unl0.contains_key(f));
                        if !(unlabeled_count(reqs, true, f) > 0) {
                            assert(ffams.take(i as int).contains(f));
                            lemma_take_contains_step(ffams, i as int, f);
                        }
                    }
                }
            }
        } else {
            proof {
                assert(cursor == total);
                assert(unlabeled_count(reqs, false, fam) == 0);
                assert forall|f: u32| indices_or_empty(unlabeled@, f) == (if ffams.take(
                    i as int + 1,
                ).contains(f) && unlabeled_count(reqs, false, f) > 0 {
                    (if unlabeled_count(reqs, true, f) > 0 {
                        unlabeled_indices(reqs, caps, true, f).to_set()
                    } else {
                        Set::<u32>::empty()
                    }) + unlabeled_indices(reqs, caps, false, f).to_set()
                } else {
                    (if unlabeled_count(reqs, true, f) > 0 {
                        unlabeled_indices(reqs, caps, true, f).to_set()
                    } else {
                        Set::<u32>::empty()
                    })
                }) by {
                    if f != fam {
                        lemma_take_contains_step(ffams, i as int, f);
                    }
                }
                assert forall|f: u32| unlabeled@.contains_key(f) implies unlabeled_count(
                    reqs,
                    true,
                    f,
                ) > 0 || (ffams.take(i as int + 1).contains(f) && unlabeled_count(reqs, false, f)
                    > 0) by {
                    if !(unlabeled_count(reqs, true, f) > 0) {
                        assert(ffams.take(i as int).contains(f));
                        let k = choose|k: int|
                            0 <= k < ffams.take(i as int).len() && ffams.take(i as int)[k] == f;
                        assert(ffams.take(i as int + 1)[k] == f);
                    }
                }
            }
        }
        proof {
            assert forall|fi: int| 0 <= fi < caps.len() implies remaining@[fi] as int == (
            if ffams.take(i as int + 1).contains(fi as u32) {
                remaining_of(reqs, caps, fi as u32)
            } else {
                caps[fi] - demand(reqs, true, fi as u32)
            }) by {
                if fi as u32 == fam {
                    lemma_take_contains_last(ffams, i as int);
                } else {
                    lemma_take_contains_step(ffams, i as int, fi as u32);
                }
            }
        }
        i = i + 1;
    }
    proof {
        lemma_first_unfit_flex_none(reqs, caps, ffams.len() as int);
        assert(ffams.take(n as int) =~= ffams);
        assert forall|l: LabelV| refs_or_empty(labeled@, l) == all_label_refs(reqs, caps, l) by {}
        assert forall|fi: int| 0 <= fi < caps.len() implies remaining@[fi] as int == remaining_of(
            reqs,
            caps,
            fi as u32,
        ) by {
            if !ffams.contains(fi as u32) {
                lemma_fams_contains(reqs, false, fi as u32);
                lemma_absent_family(reqs, false, fi as u32);
            }
        }
        assert forall|f: u32| indices_or_empty(unlabeled@, f) == (if unlabeled_count(reqs, true, f)
            > 0 || unlabeled_count(reqs, false, f) > 0 {
            unlabeled_indices(reqs, caps, true, f).to_set() + unlabeled_indices(
                reqs,
                caps,
                false,
                f,
            ).to_set()
        } else {
            Set::<u32>::empty()
        }) by {
            lemma_demand_bounds(reqs, true, f);
            lemma_demand_bounds(reqs, false, f);
            if unlabeled_count(reqs, false, f) > 0 && !ffams.contains(f) {
                lemma_fams_contains(reqs, false, f);
                lemma_absent_family(reqs, false, f);
            }
            if unlabeled_count(reqs, false, f) <= 0 {
                assert(unlabeled_indices(reqs, caps, false, f).to_set() =~= Set::<u32>::empty());
                if unlabeled_count(reqs, true, f) > 0 {
                    assert(unlabeled_indices(reqs, caps, true, f).to_set() + unlabeled_indices(
                        reqs,
                        caps,
                        false,
                        f,
                    ).to_set() =~= unlabeled_indices(reqs, caps, true, f).to_set());
                }
            } else {
                if !(unlabeled_count(reqs, true, f) > 0) {
                    assert(Set::<u32>::empty() + unlabeled_indices(reqs, caps, false, f).to_set()
                        =~= unlabeled_indices(reqs, caps, false, f).to_set());
                    assert(unlabeled_indices(reqs, caps, true, f).to_set() =~= Set::<u32>::empty());
                    assert(unlabeled_indices(reqs, caps, true, f).to_set() + unlabeled_indices(
                        reqs,
                        caps,
                        false,
                        f,
                    ).to_set() =~= unlabeled_indices(reqs, caps, false, f).to_set());
                }
            }
        }
    }
    None
}


/// What allocation produced: each label's queue references, the unlabeled
/// queue indices per family, and what every family has left.
#[derive(Debug)]
pub struct AllocationResult {
    pub labeled: QueueLabels,
    pub unlabeled: UnlabeledQueues,
    pub remaining: Vec<u32>,
}

/// Whether the combined queue demand of `requests` stays below the largest
/// demand a capacity error can report.
pub fn demand_fits(requests: &Vec<QueueRequest>) -> (r: bool)
    ensures
        r == (total_demand(requests.deep_view()) < u32::MAX),
{
    let ghost reqs = requests.deep_view();
    let mut acc: u64 = 0;
    let mut k: usize = 0;
    proof {
        assert(reqs.take(0) =~= Seq::<QueueRequestV>::empty());
    }
    while k < requests.len()
        invariant
            k <= reqs.len(),
            reqs == requests.deep_view(),
            requests@.len() == reqs.len(),
            acc as int == total_demand(reqs.take(k as int)),
            acc < u32::MAX,
        decreases reqs.len() - k,
    {
        let ghost pre = reqs.take(k as int);
        proof {
            assert(reqs.take(k as int + 1) =~= pre.push(reqs[k as int]));
            assert(requests@[k as int]@ == reqs[k as int]);
            lemma_push_step(pre, reqs[k as int], true);
        }
        acc = acc + requests[k].count as u64;
        if acc >= u32::MAX as u64 {
            proof {
                lemma_total_demand_prefix(reqs, k as int + 1);
            }
            return false;
        }
        k = k + 1;
    }
    proof {
        assert(reqs.take(reqs.len() as int) =~= reqs);
    }
    true
}

/// Resolves the queue requests against the capacity table.
///
/// On success, every label of a request that received queues maps to its
/// queue references in allocation order, every family keeps the set of its
/// allocated but unlabeled queue indices, and `remaining` reports what each
/// family has left. On failure, the error carries the first family that
/// could not supply the demand against it, the amount demanded and the
/// family's capacity; strict over-subscription fails, while flexible demand
/// beyond capacity merges instead of failing.
pub fn allocate(requests: &Vec<QueueRequest>, capacities: &Vec<u32>) -> (r: Result<
    AllocationResult,
    QueueRequestValidationError,
>)
    requires
        total_demand(requests.deep_view()) < u32::MAX,
        capacities@.len() <= u32::MAX,
    ensures
        match r {
            Err(e) => alloc_failure(requests.deep_view(), capacities@) == Some(e),
            Ok(a) => {
                &&& alloc_failure(requests.deep_view(), capacities@) is None
                &&& a.labeled.wf()
                &&& a.labeled@ == labeled_map(requests.deep_view(), capacities@)
                &&& a.unlabeled.wf()
                &&& a.unlabeled@ == unlabeled_map(requests.deep_view(), capacities@)
                &&& a.remaining@.len() == capacities@.len()
                &&& forall|fi: int|
                    0 <= fi < capacities@.len() ==> a.remaining@[fi] as int == remaining_of(
                        requests.deep_view(),
                        capacities@,
                        fi as u32,
                    )
            },
        },
{
    let ghost reqs = requests.deep_view();
    let ghost caps = capacities@;
    let (strict_entries, flex_entries) = partition(requests);
    let mut labeled = QueueLabels::new();
    let mut unlabeled = UnlabeledQueues::new();
    let mut remaining: Vec<u32> = Vec::new();
    let mut k: usize = 0;
    while k < capacities.len()
        invariant
            k <= caps.len(),
            caps == capacities@,
            remaining@.len() == k,
            forall|j: int| 0 <= j < k ==> remaining@[j] == caps[j],
        decreases caps.len() - k,
    {
        remaining.push(capacities[k]);
        k = k + 1;
    }
    proof {
        assert(remaining@ =~= caps);
    }
    match strict_pass(
        &strict_entries,
        &flex_entries,
        capacities,
        &mut labeled,
        &mut unlabeled,
        &mut remaining,
        Ghost(reqs),
    ) {
        Some(e) => {
            return Err(e);
        },
        None => {},
    }
    match flex_pass(
        &strict_entries,
        &flex_entries,
        capacities,
        &mut labeled,
        &mut unlabeled,
        &mut remaining,
        Ghost(reqs),
    ) {
        Some(e) => {
            return Err(e);
        },
        None => {},
    }
    proof {
        assert(labeled@ =~= labeled_map(reqs, caps)) by {
            assert forall|l: LabelV|
                labeled@.contains_key(l) <==> labeled_map(reqs, caps).contains_key(l) by {
                if labeled@.contains_key(l) {
                    assert(refs_or_empty(labeled@, l) == labeled@[l]);
                    assert(all_label_refs(reqs, caps, l).len() > 0);
                }
                if all_label_refs(reqs, caps, l).len() > 0 {
                    assert(refs_or_empty(labeled@, l) == all_label_refs(reqs, caps, l));
                    assert(labeled@.contains_key(l));
                }
            }
            assert forall|l: LabelV| labeled@.contains_key(l) implies labeled@[l] == labeled_map(
                reqs,
                caps,
            )[l] by {
                assert(refs_or_empty(labeled@, l) == all_label_refs(reqs, caps, l));
            }
        }
        assert(unlabeled@ =~= unlabeled_map(reqs, caps)) by {
            assert forall|f: u32|
                unlabeled@.contains_key(f) <==> unlabeled_map(reqs, caps).contains_key(f) by {
                if unlabeled_count(reqs, true, f) > 0 || unlabeled_count(reqs, false, f) > 0 {
                    assert(indices_or_empty(unlabeled@, f) == unlabeled_indices(
                        reqs,
                        caps,
                        true,
                        f,
                    ).to_set() + unlabeled_indices(reqs, caps, false, f).to_set());
                    if unlabeled_count(reqs, true, f) > 0 {
                        let s = unlabeled_indices(reqs, caps, true, f);
                        assert(s.to_set().contains(s[0]));
                        assert(indices_or_empty(unlabeled@, f).contains(s[0]));
                        assert(unlabeled@.contains_key(f));
                    } else {
                        let s = unlabeled_indices(reqs, caps, false, f);
                        assert(s.to_set().contains(s[0]));
                        assert(indices_or_empty(unlabeled@, f).contains(s[0]));
                        assert(unlabeled@.contains_key(f));
                    }
                }
            }
            assert forall|f: u32| unlabeled@.contains_key(f) implies unlabeled@[f]
                == unlabeled_map(reqs, caps)[f] by {
                assert(indices_or_empty(unlabeled@, f) == unlabeled@[f]);
            }
        }
    }
    Ok(AllocationResult { labeled, unlabeled, remaining })
}


/// Resolves the queue requests against the capacity table, first checking
/// the bounds [`allocate`] asks of its callers: `None` when the combined
/// demand or the table size is out of range, else the allocation outcome.
pub fn try_allocate(requests: &Vec<QueueRequest>, capacities: &Vec<u32>) -> (r: Option<
    Result<AllocationResult, QueueRequestValidationError>,
>)
    ensures
        match r {
            None => total_demand(requests.deep_view()) >= u32::MAX || capacities@.len()
                > u32::MAX,
            Some(Err(e)) => alloc_failure(requests.deep_view(), capacities@) == Some(e),
            Some(Ok(a)) => {
                &&& alloc_failure(requests.deep_view(), capacities@) is None
                &&& a.labeled.wf()
                &&& a.labeled@ == labeled_map(requests.deep_view(), capacities@)
                &&& a.unlabeled.wf()
                &&& a.unlabeled@ == unlabeled_map(requests.deep_view(), capacities@)
                &&& a.remaining@.len() == capacities@.len()
                &&& forall|fi: int|
                    0 <= fi < capacities@.len() ==> a.remaining@[fi] as int == remaining_of(
                        requests.deep_view(),
                        capacities@,
                        fi as u32,
                    )
            },
        },
{
    if !demand_fits(requests) {
        return None;
    }
    if capacities.len() > u32::MAX as usize {
        return None;
    }
    Some(allocate(requests, capacities))
}

/// One family's entry in the device queue-creation parameters: how many
/// queues to create in it.
#[derive(Debug, Copy, Clone, Eq, PartialEq, Structural)]
pub struct QueueCreateParam {
    pub family: u32,
    pub count: u32,
}

/// The queue-creation parameter list an allocation outcome calls for: one
/// entry per family whose remaining count fell below its capacity, in
/// ascending family order, asking for the difference.
pub open spec fn create_params_of(caps: Seq<u32>, rem: Seq<u32>) -> Seq<QueueCreateParam>
    decreases caps.len(),
{
    if caps.len() == 0 {
        Seq::empty()
    } else {
        let init = create_params_of(caps.drop_last(), rem.drop_last());
        if rem.last() < caps.last() {
            init.push(
                QueueCreateParam {
                    family: (caps.len() - 1) as u32,
                    count: (caps.last() - rem.last()) as u32,
                },
            )
        } else {
            init
        }
    }
}

/// Builds the device queue-creation parameters from the capacity table and
/// the allocator's remaining counts: families with no net demand are
/// absent, and every other family asks for exactly the queues claimed from
/// it.
pub fn queue_create_params(capacities: &Vec<u32>, remaining: &Vec<u32>) -> (r: Vec<
    QueueCreateParam,
>)
    requires
        remaining@.len() == capacities@.len(),
        capacities@.len() <= u32::MAX,
        forall|fi: int| 0 <= fi < capacities@.len() ==> remaining@[fi] <= capacities@[fi],
    ensures
        r@ == create_params_of(capacities@, remaining@),
{
    let ghost caps = capacities@;
    let ghost rem = remaining@;
    let mut r: Vec<QueueCreateParam> = Vec::new();
    let mut f: usize = 0;
    proof {
        assert(caps.take(0) =~= Seq::<u32>::empty());
        assert(rem.take(0) =~= Seq::<u32>::empty());
    }
    while f < capacities.len()
        invariant
            f <= caps.len(),
            caps == capacities@,
            rem == remaining@,
            rem.len() == caps.len() <= u32::MAX,
            r@ == create_params_of(caps.take(f as int), rem.take(f as int)),
        decreases caps.len() - f,
    {
        proof {
            assert(caps.take(f as int + 1).drop_last() =~= caps.take(f as int));
            assert(rem.take(f as int + 1).drop_last() =~= rem.take(f as int));
            assert(caps.take(f as int + 1).last() == caps[f as int]);
            assert(rem.take(f as int + 1).last() == rem[f as int]);
        }
        if remaining[f] < capacities[f] {
            r.push(QueueCreateParam { family: f as u32, count: capacities[f] - remaining[f] });
        }
        f = f + 1;
    }
    proof {
        assert(caps.take(caps.len() as int) =~= caps);
        assert(rem.take(rem.len() as int) =~= rem);
    }
    r
}

} // verus!
