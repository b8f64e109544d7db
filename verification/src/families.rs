//! The capability registry's view of the hardware's queue families, and the
//! collection of the engine's mandatory queue requests against it.
//!
//! A [`FamilyInfo`] carries what the engine reads of one queue family: its
//! queue count, its operation flag bits and whether it can present to the
//! platform's display system. The host queries these from the hardware and
//! hands them in as plain values.

use vstd::prelude::*;

use crate::queues::QueueLabel;
use crate::requests::{QueueRequest, QueueRequestV};
use crate::errors::CollectRequestsError;

verus! {

/// Flag bit advertising graphics operations.
pub const QUEUE_FLAG_GRAPHICS: u32 = 1;

/// Flag bit advertising compute operations.
pub const QUEUE_FLAG_COMPUTE: u32 = 2;

/// Flag bit advertising transfer operations.
pub const QUEUE_FLAG_TRANSFER: u32 = 4;

/// One queue family as the hardware advertises it.
#[derive(Debug, Copy, Clone, Eq, PartialEq, Structural)]
pub struct FamilyInfo {
    pub queue_count: u32,
    pub flags: u32,
    pub can_present: bool,
}

/// Whether every bit of `mask` is set in `flags`.
pub open spec fn spec_has_flags(flags: u32, mask: u32) -> bool {
    flags & mask == mask
}

/// The family advertises graphics operations.
pub open spec fn is_graphics_family(fam: FamilyInfo) -> bool {
    spec_has_flags(fam.flags, QUEUE_FLAG_GRAPHICS)
}

/// The family advertises compute operations.
pub open spec fn is_compute_family(fam: FamilyInfo) -> bool {
    spec_has_flags(fam.flags, QUEUE_FLAG_COMPUTE)
}

/// The family is a dedicated transfer family: transfer set, graphics and
/// compute both clear.
pub open spec fn is_transfer_only_family(fam: FamilyInfo) -> bool {
    &&& spec_has_flags(fam.flags, QUEUE_FLAG_TRANSFER)
    &&& !spec_has_flags(fam.flags, QUEUE_FLAG_GRAPHICS)
    &&& !spec_has_flags(fam.flags, QUEUE_FLAG_COMPUTE)
}

/// The family can present to the platform's display system.
pub open spec fn is_present_family(fam: FamilyInfo) -> bool {
    fam.can_present
}

/// Whether every bit of `mask` is set in `flags`.
pub fn has_flags(flags: u32, mask: u32) -> (r: bool)
    ensures
        r == spec_has_flags(flags, mask),
{
    flags & mask == mask
}

/// The index of the first family satisfying `p`, in ascending family order.
pub open spec fn first_matching(
    fams: Seq<FamilyInfo>,
    p: spec_fn(FamilyInfo) -> bool,
) -> Option<int>
    decreases fams.len(),
{
    if fams.len() == 0 {
        None
    } else {
        match first_matching(fams.drop_last(), p) {
            Some(i) => Some(i),
            None => if p(fams.last()) {
                Some(fams.len() - 1)
            } else {
                None
            },
        }
    }
}

/// `first_matching` returns the least matching index, and `None` exactly
/// when no family matches.
pub proof fn lemma_first_matching(fams: Seq<FamilyInfo>, p: spec_fn(FamilyInfo) -> bool)
    ensures
        match first_matching(fams, p) {
            Some(i) => 0 <= i < fams.len() && p(fams[i]) && forall|j: int|
                0 <= j < i ==> !p(fams[j]),
            None => forall|j: int| 0 <= j < fams.len() ==> !p(fams[j]),
        },
    decreases fams.len(),
{
    if fams.len() > 0 {
        lemma_first_matching(fams.drop_last(), p);
        assert(forall|j: int| 0 <= j < fams.len() - 1 ==> fams.drop_last()[j] == fams[j]);
    }
}

/// A capacity table for the allocator: entry `f` is the total queue count of
/// family `f`.
pub fn family_capacities(families: &Vec<FamilyInfo>) -> (r: Vec<u32>)
    ensures
        r@.len() == families@.len(),
        forall|i: int| 0 <= i < r@.len() ==> r@[i] == families@[i].queue_count,
{
    let mut caps: Vec<u32> = Vec::new();
    let mut i: usize = 0;
    while i < families.len()
        invariant
            i <= families@.len(),
            caps@.len() == i,
            forall|j: int| 0 <= j < i ==> caps@[j] == families@[j].queue_count,
        decreases families@.len() - i,
    {
        caps.push(families[i].queue_count);
        i = i + 1;
    }
    caps
}

/// A condition the collector noted but continued past.
#[derive(Debug, Copy, Clone, Eq, PartialEq, Structural)]
pub enum CollectDiagnostic {
    /// No dedicated transfer family exists; the transfer request falls back
    /// on the graphics family.
    NoDedicatedTransferFamily,
    /// No family can present; no presentation request is made and windowed
    /// operation will not work.
    NoPresentationFamily,
}

/// What engine request collection produced: the mandatory request list, and
/// the diagnostics noted on the way.
#[derive(Debug)]
pub struct CollectedRequests {
    pub requests: Vec<QueueRequest>,
    pub diagnostics: Vec<CollectDiagnostic>,
}

/// The mandatory engine request list for the given families: one flexible
/// graphics request, one flexible compute request, one transfer request
/// (strict on a dedicated transfer family, else flexible on the graphics
/// family), and one flexible presentation request if any family can present.
pub open spec fn engine_requests(fams: Seq<FamilyInfo>) -> Seq<QueueRequestV>
    recommends
        first_matching(fams, |f: FamilyInfo| is_graphics_family(f)) is Some,
        first_matching(fams, |f: FamilyInfo| is_compute_family(f)) is Some,
{
    let g = first_matching(fams, |f: FamilyInfo| is_graphics_family(f))->Some_0 as u32;
    let c = first_matching(fams, |f: FamilyInfo| is_compute_family(f))->Some_0 as u32;
    let base = seq![
        QueueRequestV {
            family: g,
            count: 1,
            label: Some(crate::queues::LabelV::Graphics),
            allow_merge: true,
        },
        QueueRequestV {
            family: c,
            count: 1,
            label: Some(crate::queues::LabelV::Compute),
            allow_merge: true,
        },
    ];
    let with_transfer = match first_matching(fams, |f: FamilyInfo| is_transfer_only_family(f)) {
        Some(t) => base.push(
            QueueRequestV {
                family: t as u32,
                count: 1,
                label: Some(crate::queues::LabelV::Transfer),
                allow_merge: false,
            },
        ),
        None => base.push(
            QueueRequestV {
                family: g,
                count: 1,
                label: Some(crate::queues::LabelV::Transfer),
                allow_merge: true,
            },
        ),
    };
    match first_matching(fams, |f: FamilyInfo| is_present_family(f)) {
        Some(p) => with_transfer.push(
            QueueRequestV {
                family: p as u32,
                count: 1,
                label: Some(crate::queues::LabelV::Presentation),
                allow_merge: true,
            },
        ),
        None => with_transfer,
    }
}

/// Collects the engine's mandatory queue requests against the advertised
/// families, selecting each role's family by first match in ascending family
/// order. Fails when no family advertises graphics, or none advertises
/// compute; notes a diagnostic, and continues, when no dedicated transfer
/// family or no presenting family exists.
pub fn collect_engine_requests(families: &Vec<FamilyInfo>) -> (r: Result<
    CollectedRequests,
    CollectRequestsError,
>)
    requires
        families@.len() <= u32::MAX,
    ensures
        match r {
            Ok(c) => {
                &&& first_matching(families@, |f: FamilyInfo| is_graphics_family(f)) is Some
                &&& first_matching(families@, |f: FamilyInfo| is_compute_family(f)) is Some
                &&& c.requests.deep_view() == engine_requests(families@)
                &&& c.diagnostics@ == collect_diagnostics(families@)
            },
            Err(CollectRequestsError::NoGraphicsFamily) => first_matching(
                families@,
                |f: FamilyInfo| is_graphics_family(f),
            ) is None,
            Err(CollectRequestsError::NoComputeFamily) => {
                &&& first_matching(families@, |f: FamilyInfo| is_graphics_family(f)) is Some
                &&& first_matching(families@, |f: FamilyInfo| is_compute_family(f)) is None
            },
        },
{
    let graphics = find_first_graphics(families);
    let compute = find_first_compute(families);
    let transfer = find_first_transfer_only(families);
    let present = find_first_present(families);

    let graphics = match graphics {
        Some(g) => g,
        None => {
            return Err(CollectRequestsError::NoGraphicsFamily);
        },
    };
    let compute = match compute {
        Some(c) => c,
        None => {
            return Err(CollectRequestsError::NoComputeFamily);
        },
    };

    let mut requests: Vec<QueueRequest> = Vec::new();
    let mut diagnostics: Vec<CollectDiagnostic> = Vec::new();
    requests.push(QueueRequest::flexible_labeled(graphics, 1, QueueLabel::Graphics));
    requests.push(QueueRequest::flexible_labeled(compute, 1, QueueLabel::Compute));
    match transfer {
        Some(t) => {
            requests.push(QueueRequest::strict_labeled(t, 1, QueueLabel::Transfer));
        },
        None => {
            diagnostics.push(CollectDiagnostic::NoDedicatedTransferFamily);
            requests.push(QueueRequest::flexible_labeled(graphics, 1, QueueLabel::Transfer));
        },
    }
    match present {
        Some(p) => {
            requests.push(QueueRequest::flexible_labeled(p, 1, QueueLabel::Presentation));
        },
        None => {
            diagnostics.push(CollectDiagnostic::NoPresentationFamily);
        },
    }
    proof {
        assert(requests.deep_view() =~= engine_requests(families@));
        assert(diagnostics@ =~= collect_diagnostics(families@));
    }
    Ok(CollectedRequests { requests, diagnostics })
}

/// The diagnostics collection notes: no dedicated transfer family, and no
/// presenting family, in that order, each when it holds.
pub open spec fn collect_diagnostics(fams: Seq<FamilyInfo>) -> Seq<CollectDiagnostic> {
    let base: Seq<CollectDiagnostic> = seq![];
    let with_transfer = if first_matching(fams, |f: FamilyInfo| is_transfer_only_family(f))
        is None {
        base.push(CollectDiagnostic::NoDedicatedTransferFamily)
    } else {
        base
    };
    if first_matching(fams, |f: FamilyInfo| is_present_family(f)) is None {
        with_transfer.push(CollectDiagnostic::NoPresentationFamily)
    } else {
        with_transfer
    }
}

/// The first family advertising graphics, in ascending family order.
pub fn find_first_graphics(families: &Vec<FamilyInfo>) -> (r: Option<u32>)
    requires
        families@.len() <= u32::MAX,
    ensures
        match first_matching(families@, |f: FamilyInfo| is_graphics_family(f)) {
            Some(i) => r == Some(i as u32),
            None => r is None,
        },
{
    let mut i: usize = 0;
    while i < families.len()
        invariant
            i <= families@.len() <= u32::MAX,
            first_matching(families@.take(i as int), |f: FamilyInfo| is_graphics_family(f))
                is None,
        decreases families@.len() - i,
    {
        let ghost pre = families@.take(i as int);
        if has_flags(families[i].flags, QUEUE_FLAG_GRAPHICS) {
            proof {
                assert(families@.take(i as int + 1).drop_last() =~= pre);
                assert(families@.take(i as int + 1).last() == families@[i as int]);
                assert(families@.take(families@.len() as int) =~= families@);
                lemma_first_matching_extends_found(
                    families@,
                    |f: FamilyInfo| is_graphics_family(f),
                    i as int,
                );
            }
            return Some(i as u32);
        }
        proof {
            assert(families@.take(i as int + 1).drop_last() =~= pre);
            assert(families@.take(i as int + 1).last() == families@[i as int]);
        }
        i = i + 1;
    }
    proof {
        assert(families@.take(families@.len() as int) =~= families@);
    }
    None
}

/// The first family advertising compute, in ascending family order.
pub fn find_first_compute(families: &Vec<FamilyInfo>) -> (r: Option<u32>)
    requires
        families@.len() <= u32::MAX,
    ensures
        match first_matching(families@, |f: FamilyInfo| is_compute_family(f)) {
            Some(i) => r == Some(i as u32),
            None => r is None,
        },
{
    let mut i: usize = 0;
    while i < families.len()
        invariant
            i <= families@.len() <= u32::MAX,
            first_matching(families@.take(i as int), |f: FamilyInfo| is_compute_family(f))
                is None,
        decreases families@.len() - i,
    {
        let ghost pre = families@.take(i as int);
        if has_flags(families[i].flags, QUEUE_FLAG_COMPUTE) {
            proof {
                assert(families@.take(i as int + 1).drop_last() =~= pre);
                assert(families@.take(i as int + 1).last() == families@[i as int]);
                assert(families@.take(families@.len() as int) =~= families@);
                lemma_first_matching_extends_found(
                    families@,
                    |f: FamilyInfo| is_compute_family(f),
                    i as int,
                );
            }
            return Some(i as u32);
        }
        proof {
            assert(families@.take(i as int + 1).drop_last() =~= pre);
            assert(families@.take(i as int + 1).last() == families@[i as int]);
        }
        i = i + 1;
    }
    proof {
        assert(families@.take(families@.len() as int) =~= families@);
    }
    None
}

/// The first dedicated transfer family, in ascending family order.
pub fn find_first_transfer_only(families: &Vec<FamilyInfo>) -> (r: Option<u32>)
    requires
        families@.len() <= u32::MAX,
    ensures
        match first_matching(families@, |f: FamilyInfo| is_transfer_only_family(f)) {
            Some(i) => r == Some(i as u32),
            None => r is None,
        },
{
    let mut i: usize = 0;
    while i < families.len()
        invariant
            i <= families@.len() <= u32::MAX,
            first_matching(
                families@.take(i as int),
                |f: FamilyInfo| is_transfer_only_family(f),
            ) is None,
        decreases families@.len() - i,
    {
        let ghost pre = families@.take(i as int);
        let fam = families[i];
        if has_flags(fam.flags, QUEUE_FLAG_TRANSFER) && !has_flags(fam.flags, QUEUE_FLAG_GRAPHICS)
            && !has_flags(fam.flags, QUEUE_FLAG_COMPUTE) {
            proof {
                assert(families@.take(i as int + 1).drop_last() =~= pre);
                assert(families@.take(i as int + 1).last() == families@[i as int]);
                assert(families@.take(families@.len() as int) =~= families@);
                lemma_first_matching_extends_found(
                    families@,
                    |f: FamilyInfo| is_transfer_only_family(f),
                    i as int,
                );
            }
            return Some(i as u32);
        }
        proof {
            assert(families@.take(i as int + 1).drop_last() =~= pre);
            assert(families@.take(i as int + 1).last() == families@[i as int]);
        }
        i = i + 1;
    }
    proof {
        assert(families@.take(families@.len() as int) =~= families@);
    }
    None
}

/// The first family that can present, in ascending family order.
pub fn find_first_present(families: &Vec<FamilyInfo>) -> (r: Option<u32>)
    requires
        families@.len() <= u32::MAX,
    ensures
        match first_matching(families@, |f: FamilyInfo| is_present_family(f)) {
            Some(i) => r == Some(i as u32),
            None => r is None,
        },
{
    let mut i: usize = 0;
    while i < families.len()
        invariant
            i <= families@.len() <= u32::MAX,
            first_matching(families@.take(i as int), |f: FamilyInfo| is_present_family(f))
                is None,
        decreases families@.len() - i,
    {
        let ghost pre = families@.take(i as int);
        if families[i].can_present {
            proof {
                assert(families@.take(i as int + 1).drop_last() =~= pre);
                assert(families@.take(i as int + 1).last() == families@[i as int]);
                assert(families@.take(families@.len() as int) =~= families@);
                lemma_first_matching_extends_found(
                    families@,
                    |f: FamilyInfo| is_present_family(f),
                    i as int,
                );
            }
            return Some(i as u32);
        }
        proof {
            assert(families@.take(i as int + 1).drop_last() =~= pre);
            assert(families@.take(i as int + 1).last() == families@[i as int]);
        }
        i = i + 1;
    }
    proof {
        assert(families@.take(families@.len() as int) =~= families@);
    }
    None
}

/// When no prefix of `fams` up to `i` matches and `fams[i]` matches, the
/// first match over all of `fams` is `i`.
proof fn lemma_first_matching_extends_found(
    fams: Seq<FamilyInfo>,
    p: spec_fn(FamilyInfo) -> bool,
    i: int,
)
    requires
        0 <= i < fams.len(),
        first_matching(fams.take(i), p) is None,
        p(fams[i]),
    ensures
        first_matching(fams, p) == Some(i),
    decreases fams.len(),
{
    if fams.len() - 1 > i {
        assert(fams.drop_last().take(i) =~= fams.take(i));
        lemma_first_matching_extends_found(fams.drop_last(), p, i);
    } else {
        assert(fams.take(i) =~= fams.drop_last());
    }
}

} // verus!
