use neuron_engine::allocator::allocate;
use neuron_engine::errors::CollectRequestsError;
use neuron_engine::families::{
    collect_engine_requests, family_capacities, CollectDiagnostic, FamilyInfo,
    QUEUE_FLAG_COMPUTE, QUEUE_FLAG_GRAPHICS, QUEUE_FLAG_TRANSFER,
};
use neuron_engine::queues::QueueLabel;

fn fam(queue_count: u32, flags: u32, can_present: bool) -> FamilyInfo {
    FamilyInfo { queue_count, flags, can_present }
}

#[test]
fn collects_mandatory_requests_with_dedicated_transfer() {
    let all = QUEUE_FLAG_GRAPHICS | QUEUE_FLAG_COMPUTE | QUEUE_FLAG_TRANSFER;
    let families = vec![fam(4, all, true), fam(2, QUEUE_FLAG_TRANSFER, false)];
    let c = collect_engine_requests(&families).unwrap();
    assert!(c.diagnostics.is_empty());
    assert_eq!(c.requests.len(), 4);
    // flexible graphics on family 0
    assert_eq!(c.requests[0].family, 0);
    assert_eq!(c.requests[0].label, Some(QueueLabel::Graphics));
    assert!(c.requests[0].allow_merge);
    // flexible compute on family 0
    assert_eq!(c.requests[1].family, 0);
    assert_eq!(c.requests[1].label, Some(QueueLabel::Compute));
    assert!(c.requests[1].allow_merge);
    // strict transfer on the dedicated family 1
    assert_eq!(c.requests[2].family, 1);
    assert_eq!(c.requests[2].label, Some(QueueLabel::Transfer));
    assert!(!c.requests[2].allow_merge);
    // flexible presentation on family 0
    assert_eq!(c.requests[3].family, 0);
    assert_eq!(c.requests[3].label, Some(QueueLabel::Presentation));
    assert!(c.requests[3].allow_merge);
}

#[test]
fn transfer_falls_back_on_graphics_family() {
    let gc = QUEUE_FLAG_GRAPHICS | QUEUE_FLAG_COMPUTE | QUEUE_FLAG_TRANSFER;
    let families = vec![fam(4, gc, true)];
    let c = collect_engine_requests(&families).unwrap();
    assert_eq!(c.diagnostics, vec![CollectDiagnostic::NoDedicatedTransferFamily]);
    assert_eq!(c.requests.len(), 4);
    assert_eq!(c.requests[2].family, 0);
    assert_eq!(c.requests[2].label, Some(QueueLabel::Transfer));
    assert!(c.requests[2].allow_merge);
}

#[test]
fn transfer_family_with_graphics_flag_is_not_dedicated() {
    let gc = QUEUE_FLAG_GRAPHICS | QUEUE_FLAG_COMPUTE | QUEUE_FLAG_TRANSFER;
    let gt = QUEUE_FLAG_GRAPHICS | QUEUE_FLAG_TRANSFER;
    let families = vec![fam(4, gc, true), fam(2, gt, false)];
    let c = collect_engine_requests(&families).unwrap();
    assert!(c.diagnostics.contains(&CollectDiagnostic::NoDedicatedTransferFamily));
    assert_eq!(c.requests[2].family, 0);
    assert!(c.requests[2].allow_merge);
}

#[test]
fn no_graphics_family_fails() {
    let families = vec![fam(2, QUEUE_FLAG_COMPUTE | QUEUE_FLAG_TRANSFER, false)];
    let e = collect_engine_requests(&families).unwrap_err();
    assert_eq!(e, CollectRequestsError::NoGraphicsFamily);
}

#[test]
fn no_compute_family_fails() {
    let families = vec![fam(2, QUEUE_FLAG_GRAPHICS | QUEUE_FLAG_TRANSFER, false)];
    let e = collect_engine_requests(&families).unwrap_err();
    assert_eq!(e, CollectRequestsError::NoComputeFamily);
}

#[test]
fn scenario_no_presentation_family() {
    // no family can present: the presentation request is never added, a
    // diagnostic is noted, initialization continues and a later lookup of
    // the presentation label comes back empty.
    let gc = QUEUE_FLAG_GRAPHICS | QUEUE_FLAG_COMPUTE;
    let families = vec![fam(4, gc, false), fam(2, QUEUE_FLAG_TRANSFER, false)];
    let c = collect_engine_requests(&families).unwrap();
    assert_eq!(c.diagnostics, vec![CollectDiagnostic::NoPresentationFamily]);
    assert_eq!(c.requests.len(), 3);
    let caps = family_capacities(&families);
    assert_eq!(caps, vec![4u32, 2u32]);
    let r = allocate(&c.requests, &caps).unwrap();
    assert!(r.labeled.get(&QueueLabel::Presentation).is_none());
    assert!(r.labeled.get(&QueueLabel::Graphics).is_some());
}

#[test]
fn first_match_selects_lowest_family() {
    let gc = QUEUE_FLAG_GRAPHICS | QUEUE_FLAG_COMPUTE;
    let families = vec![
        fam(1, QUEUE_FLAG_TRANSFER, false),
        fam(4, gc, false),
        fam(4, gc, true),
    ];
    let c = collect_engine_requests(&families).unwrap();
    // graphics and compute pick family 1, the first advertising them;
    // transfer picks the dedicated family 0; presentation picks family 2
    assert_eq!(c.requests[0].family, 1);
    assert_eq!(c.requests[1].family, 1);
    assert_eq!(c.requests[2].family, 0);
    assert_eq!(c.requests[3].family, 2);
    assert_eq!(c.requests[3].label, Some(QueueLabel::Presentation));
}
