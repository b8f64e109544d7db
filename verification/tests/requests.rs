use neuron_engine::make_api_version;
use neuron_engine::queues::QueueLabel;
use neuron_engine::requests::{DeviceFeature, DeviceFeatureRequest, ExtensionRequest, QueueRequest};

#[test]
fn queue_request_constructors_set_fields() {
    let r = QueueRequest::strict_labeled(3, 2, QueueLabel::Transfer);
    assert_eq!(r.family, 3);
    assert_eq!(r.count, 2);
    assert_eq!(r.label, Some(QueueLabel::Transfer));
    assert!(!r.allow_merge);

    let r = QueueRequest::strict_labeled_custom(1, 1, String::from("video"));
    assert_eq!(r.label, Some(QueueLabel::Custom(String::from("video"))));
    assert!(!r.allow_merge);

    let r = QueueRequest::strict_unlabeled(0, 4);
    assert_eq!(r.label, None);
    assert!(!r.allow_merge);

    let r = QueueRequest::flexible_labeled(2, 1, QueueLabel::Presentation);
    assert_eq!(r.label, Some(QueueLabel::Presentation));
    assert!(r.allow_merge);

    let r = QueueRequest::flexible_labeled_custom(2, 1, String::from("decode"));
    assert_eq!(r.label, Some(QueueLabel::Custom(String::from("decode"))));
    assert!(r.allow_merge);

    let r = QueueRequest::flexible_unlabeled(2, 3);
    assert_eq!(r.label, None);
    assert!(r.allow_merge);
}

#[test]
fn labels_compare_by_content() {
    assert_eq!(QueueLabel::Graphics, QueueLabel::Graphics);
    assert_ne!(QueueLabel::Graphics, QueueLabel::Compute);
    assert_eq!(
        QueueLabel::Custom(String::from("x")),
        QueueLabel::Custom(String::from("x"))
    );
    assert_ne!(
        QueueLabel::Custom(String::from("x")),
        QueueLabel::Custom(String::from("y"))
    );
    assert_ne!(QueueLabel::Custom(String::from("Graphics")), QueueLabel::Graphics);
}

#[test]
fn capability_request_constructors_set_fields() {
    let e = ExtensionRequest::required(String::from("swapchain"));
    assert_eq!(e.name, "swapchain");
    assert!(e.required);
    let e = ExtensionRequest::optional(String::from("debug"));
    assert!(!e.required);

    let f = DeviceFeatureRequest::required(DeviceFeature::TimelineSemaphore);
    assert_eq!(f.feature, DeviceFeature::TimelineSemaphore);
    assert!(f.required);
    let f = DeviceFeatureRequest::optional(DeviceFeature::Maintenance4);
    assert!(!f.required);
}

#[test]
fn api_version_packs_components() {
    assert_eq!(make_api_version(0, 1, 2, 3), (1u32 << 22) | (2u32 << 12) | 3);
    assert_eq!(make_api_version(0, 0, 1, 0), 1u32 << 12);
    assert_eq!(make_api_version(1, 0, 0, 0), 1u32 << 29);
}
