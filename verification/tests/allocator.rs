use neuron_engine::allocator::{
    allocate, demand_fits, queue_create_params, try_allocate, QueueCreateParam,
};
use neuron_engine::errors::QueueRequestValidationError;
use neuron_engine::queues::{QueueLabel, QueueRef};
use neuron_engine::requests::QueueRequest;

fn qr(family: u32, index: u32) -> QueueRef {
    QueueRef { family, index }
}

#[test]
fn strict_within_capacity_takes_prefix_indices() {
    // strict demand 3 against capacity 4: indices 0..3, no sharing
    let requests = vec![
        QueueRequest::strict_labeled(0, 2, QueueLabel::Graphics),
        QueueRequest::strict_labeled(0, 1, QueueLabel::Compute),
    ];
    let caps = vec![4u32];
    assert!(demand_fits(&requests));
    let r = allocate(&requests, &caps).unwrap();
    let g = r.labeled.get(&QueueLabel::Graphics).unwrap();
    assert_eq!(g.as_slice(), &[qr(0, 0), qr(0, 1)]);
    let c = r.labeled.get(&QueueLabel::Compute).unwrap();
    assert_eq!(c.as_slice(), &[qr(0, 2)]);
    assert_eq!(r.remaining, vec![1u32]);
    assert!(r.unlabeled.get(0).is_none());
}

#[test]
fn strict_oversubscription_fails_with_exact_error() {
    let requests = vec![QueueRequest::strict_labeled(0, 5, QueueLabel::Graphics)];
    let caps = vec![4u32];
    let e = allocate(&requests, &caps).unwrap_err();
    assert_eq!(
        e,
        QueueRequestValidationError::NotEnoughQueuesInFamily { family: 0, req: 5, avail: 4 }
    );
}

#[test]
fn strict_error_counts_pending_flexible_marker() {
    let requests = vec![
        QueueRequest::strict_labeled(0, 3, QueueLabel::Graphics),
        QueueRequest::flexible_labeled(0, 1, QueueLabel::Compute),
    ];
    let caps = vec![2u32];
    let e = allocate(&requests, &caps).unwrap_err();
    assert_eq!(
        e,
        QueueRequestValidationError::NotEnoughQueuesInFamily { family: 0, req: 4, avail: 2 }
    );
}

#[test]
fn flexible_within_capacity_gets_distinct_indices() {
    // strict 1, flexible 2, capacity 4: flexible lands on 1 and 2
    let requests = vec![
        QueueRequest::strict_labeled(0, 1, QueueLabel::Graphics),
        QueueRequest::flexible_labeled(0, 1, QueueLabel::Compute),
        QueueRequest::flexible_labeled(0, 1, QueueLabel::Transfer),
    ];
    let caps = vec![4u32];
    let r = allocate(&requests, &caps).unwrap();
    assert_eq!(
        r.labeled.get(&QueueLabel::Compute).unwrap().as_slice(),
        &[qr(0, 1)]
    );
    assert_eq!(
        r.labeled.get(&QueueLabel::Transfer).unwrap().as_slice(),
        &[qr(0, 2)]
    );
    assert_eq!(r.remaining, vec![1u32]);
}

#[test]
fn scenario_flexible_overflow_round_robins() {
    // capacity 4 in family 0; strict (family 0, count 2, Graphics);
    // flexible (family 0, count 4, Transfer): Graphics takes {0,1},
    // Transfer wraps over {2,3} twice, and no error is raised.
    let requests = vec![
        QueueRequest::strict_labeled(0, 2, QueueLabel::Graphics),
        QueueRequest::flexible_labeled(0, 4, QueueLabel::Transfer),
    ];
    let caps = vec![4u32];
    let r = allocate(&requests, &caps).unwrap();
    let g = r.labeled.get(&QueueLabel::Graphics).unwrap();
    assert_eq!(g.as_slice(), &[qr(0, 0), qr(0, 1)]);
    let t = r.labeled.get(&QueueLabel::Transfer).unwrap();
    assert_eq!(t.as_slice(), &[qr(0, 2), qr(0, 3), qr(0, 2), qr(0, 3)]);
    assert_eq!(r.remaining, vec![0u32]);
}

#[test]
fn scenario_strict_total_over_capacity() {
    // capacity 2 in family 1; strict (1, 1, Compute) and (1, 2, Custom("X")):
    // total strict demand 3 over capacity 2 fails with (family 1, req 3, avail 2).
    let requests = vec![
        QueueRequest::strict_labeled(1, 1, QueueLabel::Compute),
        QueueRequest::strict_labeled_custom(1, 2, String::from("X")),
    ];
    let caps = vec![0u32, 2u32];
    let e = allocate(&requests, &caps).unwrap_err();
    assert_eq!(
        e,
        QueueRequestValidationError::NotEnoughQueuesInFamily { family: 1, req: 3, avail: 2 }
    );
}

#[test]
fn flexible_against_exhausted_family_fails() {
    let requests = vec![
        QueueRequest::strict_labeled(0, 2, QueueLabel::Graphics),
        QueueRequest::flexible_labeled(0, 1, QueueLabel::Compute),
    ];
    let caps = vec![2u32];
    let e = allocate(&requests, &caps).unwrap_err();
    assert_eq!(
        e,
        QueueRequestValidationError::NotEnoughQueuesInFamily { family: 0, req: 3, avail: 2 }
    );
}

#[test]
fn flexible_against_unknown_family_fails() {
    let requests = vec![QueueRequest::flexible_labeled(5, 1, QueueLabel::Graphics)];
    let caps = vec![2u32];
    let e = allocate(&requests, &caps).unwrap_err();
    assert_eq!(
        e,
        QueueRequestValidationError::NotEnoughQueuesInFamily { family: 5, req: 1, avail: 0 }
    );
}

#[test]
fn strict_against_unknown_family_fails() {
    let requests = vec![QueueRequest::strict_labeled(7, 1, QueueLabel::Graphics)];
    let caps = vec![1u32];
    let e = allocate(&requests, &caps).unwrap_err();
    assert_eq!(
        e,
        QueueRequestValidationError::NotEnoughQueuesInFamily { family: 7, req: 1, avail: 0 }
    );
}

#[test]
fn strict_unlabeled_leftover_is_recorded() {
    let requests = vec![
        QueueRequest::strict_labeled(0, 1, QueueLabel::Graphics),
        QueueRequest::strict_unlabeled(0, 2),
    ];
    let caps = vec![4u32];
    let r = allocate(&requests, &caps).unwrap();
    let u = r.unlabeled.get(0).unwrap();
    assert_eq!(u.as_slice(), &[1u32, 2u32]);
    assert_eq!(r.remaining, vec![1u32]);
}

#[test]
fn flexible_unlabeled_wraps_and_collapses() {
    // flexible demand 5 against capacity 2 with no strict demand: indices
    // wrap over {0,1}, each physical index recorded once
    let requests = vec![QueueRequest::flexible_unlabeled(0, 5)];
    let caps = vec![2u32];
    let r = allocate(&requests, &caps).unwrap();
    let u = r.unlabeled.get(0).unwrap();
    assert_eq!(u.as_slice(), &[0u32, 1u32]);
    assert_eq!(r.remaining, vec![0u32]);
}

#[test]
fn unlabeled_union_of_strict_and_flexible() {
    let requests = vec![
        QueueRequest::strict_unlabeled(0, 1),
        QueueRequest::flexible_unlabeled(0, 2),
    ];
    let caps = vec![3u32];
    let r = allocate(&requests, &caps).unwrap();
    let u = r.unlabeled.get(0).unwrap();
    let mut got = u.clone();
    got.sort();
    assert_eq!(got, vec![0u32, 1u32, 2u32]);
}

#[test]
fn flexible_without_strict_starts_at_zero() {
    // a flexible family with no strict demand starts at index 0
    let requests = vec![QueueRequest::flexible_labeled(0, 2, QueueLabel::Compute)];
    let caps = vec![4u32];
    let r = allocate(&requests, &caps).unwrap();
    let c = r.labeled.get(&QueueLabel::Compute).unwrap();
    assert_eq!(c.as_slice(), &[qr(0, 0), qr(0, 1)]);
}

#[test]
fn label_collects_refs_across_kinds_and_families() {
    // the same label used strictly in one family and flexibly in another
    // keeps all of its references, strict pass first
    let requests = vec![
        QueueRequest::flexible_labeled(1, 1, QueueLabel::Transfer),
        QueueRequest::strict_labeled(0, 1, QueueLabel::Transfer),
    ];
    let caps = vec![2u32, 2u32];
    let r = allocate(&requests, &caps).unwrap();
    let t = r.labeled.get(&QueueLabel::Transfer).unwrap();
    assert_eq!(t.as_slice(), &[qr(0, 0), qr(1, 0)]);
}

#[test]
fn labels_are_recoverable_in_request_order() {
    let requests = vec![
        QueueRequest::strict_labeled_custom(0, 1, String::from("first")),
        QueueRequest::strict_labeled_custom(0, 2, String::from("second")),
        QueueRequest::strict_labeled_custom(0, 1, String::from("first")),
    ];
    let caps = vec![8u32];
    let r = allocate(&requests, &caps).unwrap();
    // "first" was tallied to count 2; its run starts at 0
    let a = r.labeled.get(&QueueLabel::Custom(String::from("first"))).unwrap();
    assert_eq!(a.as_slice(), &[qr(0, 0), qr(0, 1)]);
    let b = r.labeled.get(&QueueLabel::Custom(String::from("second"))).unwrap();
    assert_eq!(b.as_slice(), &[qr(0, 2), qr(0, 3)]);
    assert!(r.labeled.get(&QueueLabel::Custom(String::from("third"))).is_none());
}

#[test]
fn queue_create_params_round_trip() {
    let requests = vec![
        QueueRequest::strict_labeled(0, 2, QueueLabel::Graphics),
        QueueRequest::flexible_labeled(2, 1, QueueLabel::Compute),
    ];
    let caps = vec![4u32, 3u32, 2u32];
    let r = allocate(&requests, &caps).unwrap();
    assert_eq!(r.remaining, vec![2u32, 3u32, 1u32]);
    let params = queue_create_params(&caps, &r.remaining);
    // family 1 had no demand and is absent; the others ask for capacity
    // minus remaining
    assert_eq!(
        params,
        vec![
            QueueCreateParam { family: 0, count: 2 },
            QueueCreateParam { family: 2, count: 1 },
        ]
    );
}

#[test]
fn zero_demand_creates_no_queues() {
    let requests: Vec<QueueRequest> = Vec::new();
    let caps = vec![4u32, 2u32];
    let r = allocate(&requests, &caps).unwrap();
    assert_eq!(r.remaining, vec![4u32, 2u32]);
    let params = queue_create_params(&caps, &r.remaining);
    assert!(params.is_empty());
}

#[test]
fn first_ref_picks_first_entry() {
    let requests = vec![QueueRequest::strict_labeled(0, 2, QueueLabel::Graphics)];
    let caps = vec![2u32];
    let r = allocate(&requests, &caps).unwrap();
    assert_eq!(r.labeled.first_ref(&QueueLabel::Graphics), Some(qr(0, 0)));
    assert_eq!(r.labeled.first_ref(&QueueLabel::Compute), None);
}

#[test]
fn demand_fits_rejects_huge_demand() {
    let requests = vec![
        QueueRequest::strict_unlabeled(0, u32::MAX - 1),
        QueueRequest::strict_unlabeled(1, 1),
    ];
    assert!(!demand_fits(&requests));
    let small = vec![QueueRequest::strict_unlabeled(0, 7)];
    assert!(demand_fits(&small));
}

#[test]
fn try_allocate_guards_and_delegates() {
    let requests = vec![QueueRequest::strict_labeled(0, 1, QueueLabel::Graphics)];
    let caps = vec![1u32];
    let r = try_allocate(&requests, &caps).unwrap().unwrap();
    assert_eq!(
        r.labeled.get(&QueueLabel::Graphics).unwrap().as_slice(),
        &[qr(0, 0)]
    );
    let huge = vec![
        QueueRequest::strict_unlabeled(0, u32::MAX - 1),
        QueueRequest::strict_unlabeled(1, 2),
    ];
    assert!(try_allocate(&huge, &caps).is_none());
}
