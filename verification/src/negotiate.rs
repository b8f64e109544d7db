//! Extension and feature negotiation: resolving what was requested against
//! what the hardware offers.
//!
//! A required entry that the available set lacks fails negotiation, and the
//! failure enumerates every missing name. An optional entry that the set
//! lacks is dropped and reported for the host's diagnostics. What remains is
//! the resolved set, each entry once, in request order. The same resolution
//! serves instance extensions, device extensions and device features.

use vstd::prelude::*;

use crate::errors::{MissingRequiredExtensions, MissingRequiredFeatures};
use crate::requests::{DeviceFeature, DeviceFeatureRequest, ExtensionRequest, ExtensionRequestV};

verus! {

/// The names of required extensions the available set lacks, in request
/// order, repeated as requested.
pub open spec fn missing_required_names(
    reqs: Seq<ExtensionRequestV>,
    avail: Seq<Seq<char>>,
) -> Seq<Seq<char>>
    decreases reqs.len(),
{
    if reqs.len() == 0 {
        Seq::empty()
    } else {
        let pre = missing_required_names(reqs.drop_last(), avail);
        let r = reqs.last();
        if r.required && !avail.contains(r.name) {
            pre.push(r.name)
        } else {
            pre
        }
    }
}

/// The names of optional extensions the available set lacks, in request
/// order, repeated as requested.
pub open spec fn missing_optional_names(
    reqs: Seq<ExtensionRequestV>,
    avail: Seq<Seq<char>>,
) -> Seq<Seq<char>>
    decreases reqs.len(),
{
    if reqs.len() == 0 {
        Seq::empty()
    } else {
        let pre = missing_optional_names(reqs.drop_last(), avail);
        let r = reqs.last();
        if !r.required && !avail.contains(r.name) {
            pre.push(r.name)
        } else {
            pre
        }
    }
}

/// The resolved extension names: every requested name the available set
/// holds, each once, in first-request order.
pub open spec fn resolved_names(
    reqs: Seq<ExtensionRequestV>,
    avail: Seq<Seq<char>>,
) -> Seq<Seq<char>>
    decreases reqs.len(),
{
    if reqs.len() == 0 {
        Seq::empty()
    } else {
        let pre = resolved_names(reqs.drop_last(), avail);
        let r = reqs.last();
        if avail.contains(r.name) && !pre.contains(r.name) {
            pre.push(r.name)
        } else {
            pre
        }
    }
}

/// What extension negotiation produced: the resolved names, and the
/// optional names that were dropped for being unavailable.
#[derive(Debug)]
pub struct ExtensionResolution {
    pub resolved: Vec<String>,
    pub missing_optionals: Vec<String>,
}

/// Whether any of the names holds the same characters as `name`.
fn contains_name(names: &Vec<String>, name: &String) -> (r: bool)
    ensures
        r == names.deep_view().contains(name@),
{
    let ghost dv = names.deep_view();
    let mut i: usize = 0;
    while i < names.len()
        invariant
            i <= dv.len(),
            dv == names.deep_view(),
            names@.len() == dv.len(),
            forall|j: int| 0 <= j < i ==> dv[j] != name@,
        decreases dv.len() - i,
    {
        if names[i] == *name {
            proof {
                assert(dv[i as int] == name@);
            }
            return true;
        }
        i = i + 1;
    }
    false
}

/// Resolves the requested extensions against the available names: fails
/// when any required name is unavailable, enumerating every such name, and
/// otherwise keeps each available requested name once, in request order,
/// dropping and reporting the unavailable optional ones.
pub fn resolve_extensions(requested: &Vec<ExtensionRequest>, available: &Vec<String>) -> (r:
    Result<ExtensionResolution, MissingRequiredExtensions>)
    ensures
        match r {
            Ok(res) => {
                &&& missing_required_names(requested.deep_view(), available.deep_view())
                    == Seq::<Seq<char>>::empty()
                &&& res.resolved.deep_view() == resolved_names(
                    requested.deep_view(),
                    available.deep_view(),
                )
                &&& res.missing_optionals.deep_view() == missing_optional_names(
                    requested.deep_view(),
                    available.deep_view(),
                )
            },
            Err(e) => {
                &&& missing_required_names(requested.deep_view(), available.deep_view()).len() > 0
                &&& e.missing.deep_view() == missing_required_names(
                    requested.deep_view(),
                    available.deep_view(),
                )
            },
        },
{
    let ghost reqs = requested.deep_view();
    let ghost avail = available.deep_view();
    let mut missing: Vec<String> = Vec::new();
    let mut missing_optionals: Vec<String> = Vec::new();
    let mut resolved: Vec<String> = Vec::new();
    let mut k: usize = 0;
    proof {
        assert(reqs.take(0) =~= Seq::<ExtensionRequestV>::empty());
    }
    while k < requested.len()
        invariant
            k <= reqs.len(),
            reqs == requested.deep_view(),
            avail == available.deep_view(),
            requested@.len() == reqs.len(),
            missing.deep_view() == missing_required_names(reqs.take(k as int), avail),
            missing_optionals.deep_view() == missing_optional_names(reqs.take(k as int), avail),
            resolved.deep_view() == resolved_names(reqs.take(k as int), avail),
        decreases reqs.len() - k,
    {
        let ghost pre = reqs.take(k as int);
        proof {
            assert(reqs.take(k as int + 1) =~= pre.push(reqs[k as int]));
            assert(reqs.take(k as int + 1).drop_last() =~= pre);
            assert(requested@[k as int]@ == reqs[k as int]);
        }
        let req = &requested[k];
        let have = contains_name(available, &req.name);
        if !have {
            if req.required {
                missing.push(req.name.clone());
            } else {
                missing_optionals.push(req.name.clone());
            }
        } else {
            if !contains_name(&resolved, &req.name) {
                resolved.push(req.name.clone());
            }
        }
        proof {
            assert(missing.deep_view() =~= missing_required_names(reqs.take(k as int + 1), avail));
            assert(missing_optionals.deep_view() =~= missing_optional_names(
                reqs.take(k as int + 1),
                avail,
            ));
            assert(resolved.deep_view() =~= resolved_names(reqs.take(k as int + 1), avail));
        }
        k = k + 1;
    }
    proof {
        assert(reqs.take(reqs.len() as int) =~= reqs);
    }
    if missing.len() > 0 {
        Err(MissingRequiredExtensions { missing })
    } else {
        proof {
            assert(missing_required_names(reqs, avail) =~= Seq::<Seq<char>>::empty());
        }
        Ok(ExtensionResolution { resolved, missing_optionals })
    }
}

/// The required features the hardware does not support, in request order,
/// repeated as requested.
pub open spec fn missing_required_feats(
    reqs: Seq<DeviceFeatureRequest>,
    supported: Seq<DeviceFeature>,
) -> Seq<DeviceFeature>
    decreases reqs.len(),
{
    if reqs.len() == 0 {
        Seq::empty()
    } else {
        let pre = missing_required_feats(reqs.drop_last(), supported);
        let r = reqs.last();
        if r.required && !supported.contains(r.feature) {
            pre.push(r.feature)
        } else {
            pre
        }
    }
}

/// The resolved features: every requested feature the hardware supports,
/// each once, in first-request order.
pub open spec fn resolved_feats(
    reqs: Seq<DeviceFeatureRequest>,
    supported: Seq<DeviceFeature>,
) -> Seq<DeviceFeature>
    decreases reqs.len(),
{
    if reqs.len() == 0 {
        Seq::empty()
    } else {
        let pre = resolved_feats(reqs.drop_last(), supported);
        let r = reqs.last();
        if supported.contains(r.feature) && !pre.contains(r.feature) {
            pre.push(r.feature)
        } else {
            pre
        }
    }
}

/// Whether the feature stands among the supported ones.
fn contains_feature(features: &Vec<DeviceFeature>, feature: DeviceFeature) -> (r: bool)
    ensures
        r == features@.contains(feature),
{
    let mut i: usize = 0;
    while i < features.len()
        invariant
            i <= features@.len(),
            forall|j: int| 0 <= j < i ==> features@[j] != feature,
        decreases features@.len() - i,
    {
        if features[i] == feature {
            return true;
        }
        i = i + 1;
    }
    false
}

/// Resolves the requested features against the supported set: fails when
/// any required feature is unsupported, enumerating every such feature, and
/// otherwise keeps each supported requested feature once, in request order,
/// silently dropping unsupported optional ones.
pub fn resolve_features(requested: &Vec<DeviceFeatureRequest>, supported: &Vec<DeviceFeature>) -> (
    r: Result<Vec<DeviceFeature>, MissingRequiredFeatures>)
    ensures
        match r {
            Ok(res) => {
                &&& missing_required_feats(requested@, supported@)
                    == Seq::<DeviceFeature>::empty()
                &&& res@ == resolved_feats(requested@, supported@)
            },
            Err(e) => {
                &&& missing_required_feats(requested@, supported@).len() > 0
                &&& e.missing@ == missing_required_feats(requested@, supported@)
            },
        },
{
    let ghost reqs = requested@;
    let ghost supp = supported@;
    let mut missing: Vec<DeviceFeature> = Vec::new();
    let mut resolved: Vec<DeviceFeature> = Vec::new();
    let mut k: usize = 0;
    proof {
        assert(reqs.take(0) =~= Seq::<DeviceFeatureRequest>::empty());
    }
    while k < requested.len()
        invariant
            k <= reqs.len(),
            reqs == requested@,
            supp == supported@,
            missing@ == missing_required_feats(reqs.take(k as int), supp),
            resolved@ == resolved_feats(reqs.take(k as int), supp),
        decreases reqs.len() - k,
    {
        let ghost pre = reqs.take(k as int);
        proof {
            assert(reqs.take(k as int + 1) =~= pre.push(reqs[k as int]));
            assert(reqs.take(k as int + 1).drop_last() =~= pre);
        }
        let req = requested[k];
        let have = contains_feature(supported, req.feature);
        if !have {
            if req.required {
                missing.push(req.feature);
            }
        } else {
            if !contains_feature(&resolved, req.feature) {
                resolved.push(req.feature);
            }
        }
        proof {
            assert(missing@ =~= missing_required_feats(reqs.take(k as int + 1), supp));
            assert(resolved@ =~= resolved_feats(reqs.take(k as int + 1), supp));
        }
        k = k + 1;
    }
    proof {
        assert(reqs.take(reqs.len() as int) =~= reqs);
    }
    if missing.len() > 0 {
        Err(MissingRequiredFeatures { missing })
    } else {
        proof {
            assert(missing_required_feats(reqs, supp) =~= Seq::<DeviceFeature>::empty());
        }
        Ok(resolved)
    }
}

} // verus!
