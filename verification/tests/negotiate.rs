use neuron_engine::negotiate::{resolve_extensions, resolve_features};
use neuron_engine::requests::{DeviceFeature, DeviceFeatureRequest, ExtensionRequest, RequestHelper};

fn names(v: &[&str]) -> Vec<String> {
    v.iter().map(|s| String::from(*s)).collect()
}

#[test]
fn scenario_missing_required_extension() {
    // a required extension absent from the available set fails, naming
    // exactly that extension; an absent optional one is silently excluded.
    let requested = vec![
        ExtensionRequest::required(String::from("swapchain")),
        ExtensionRequest::required(String::from("raytracing")),
        ExtensionRequest::optional(String::from("debug_marker")),
    ];
    let available = names(&["swapchain"]);
    let e = resolve_extensions(&requested, &available).unwrap_err();
    assert_eq!(e.missing, names(&["raytracing"]));

    let requested = vec![
        ExtensionRequest::required(String::from("swapchain")),
        ExtensionRequest::optional(String::from("debug_marker")),
    ];
    let r = resolve_extensions(&requested, &available).unwrap();
    assert_eq!(r.resolved, names(&["swapchain"]));
    assert_eq!(r.missing_optionals, names(&["debug_marker"]));
}

#[test]
fn missing_required_extensions_all_enumerated() {
    let requested = vec![
        ExtensionRequest::required(String::from("a")),
        ExtensionRequest::optional(String::from("b")),
        ExtensionRequest::required(String::from("c")),
    ];
    let available: Vec<String> = Vec::new();
    let e = resolve_extensions(&requested, &available).unwrap_err();
    assert_eq!(e.missing, names(&["a", "c"]));
}

#[test]
fn resolved_extensions_deduplicate() {
    let requested = vec![
        ExtensionRequest::optional(String::from("a")),
        ExtensionRequest::required(String::from("a")),
        ExtensionRequest::optional(String::from("b")),
    ];
    let available = names(&["a", "b", "c"]);
    let r = resolve_extensions(&requested, &available).unwrap();
    assert_eq!(r.resolved, names(&["a", "b"]));
    assert!(r.missing_optionals.is_empty());
}

#[test]
fn required_wins_over_optional_when_missing() {
    // the same name requested both ways and unavailable: the required
    // occurrence makes it a failure
    let requested = vec![
        ExtensionRequest::optional(String::from("a")),
        ExtensionRequest::required(String::from("a")),
    ];
    let available: Vec<String> = Vec::new();
    let e = resolve_extensions(&requested, &available).unwrap_err();
    assert_eq!(e.missing, names(&["a"]));
}

#[test]
fn missing_required_features_all_enumerated() {
    let requested = vec![
        DeviceFeatureRequest::required(DeviceFeature::GeometryShader),
        DeviceFeatureRequest::required(DeviceFeature::WideLines),
        DeviceFeatureRequest::optional(DeviceFeature::ShaderInt64),
    ];
    let supported = vec![DeviceFeature::GeometryShader];
    let e = resolve_features(&requested, &supported).unwrap_err();
    assert_eq!(e.missing, vec![DeviceFeature::WideLines]);
}

#[test]
fn optional_features_dropped_silently() {
    let requested = vec![
        DeviceFeatureRequest::required(DeviceFeature::GeometryShader),
        DeviceFeatureRequest::optional(DeviceFeature::ShaderInt64),
        DeviceFeatureRequest::optional(DeviceFeature::WideLines),
    ];
    let supported = vec![DeviceFeature::GeometryShader, DeviceFeature::WideLines];
    let r = resolve_features(&requested, &supported).unwrap();
    assert_eq!(r, vec![DeviceFeature::GeometryShader, DeviceFeature::WideLines]);
}

#[test]
fn resolved_features_deduplicate() {
    let requested = vec![
        DeviceFeatureRequest::required(DeviceFeature::Synchronization2),
        DeviceFeatureRequest::optional(DeviceFeature::Synchronization2),
    ];
    let supported = vec![DeviceFeature::Synchronization2];
    let r = resolve_features(&requested, &supported).unwrap();
    assert_eq!(r, vec![DeviceFeature::Synchronization2]);
}

#[test]
fn request_helper_appends_entries() {
    let mut feats: Vec<DeviceFeatureRequest> = Vec::new();
    feats.required(DeviceFeature::DynamicRendering);
    feats.optional(DeviceFeature::WideLines);
    assert_eq!(feats.len(), 2);
    assert_eq!(feats[0].feature, DeviceFeature::DynamicRendering);
    assert!(feats[0].required);
    assert_eq!(feats[1].feature, DeviceFeature::WideLines);
    assert!(!feats[1].required);

    let mut exts: Vec<ExtensionRequest> = Vec::new();
    exts.required(String::from("swapchain"));
    exts.optional(String::from("debug_marker"));
    assert_eq!(exts.len(), 2);
    assert_eq!(exts[0].name, "swapchain");
    assert!(exts[0].required);
    assert_eq!(exts[1].name, "debug_marker");
    assert!(!exts[1].required);
}
