//! Requests the engine and the host place against the hardware: queue
//! demands, device extensions and device features.
//!
//! Extension names are carried as plain strings; feature identifiers as the
//! [`DeviceFeature`] enum. Duplicates are allowed in request lists; the
//! negotiation functions take the union, and a required request wins over an
//! optional one for the same name.

use vstd::prelude::*;

use crate::queues::{LabelV, QueueLabel};

verus! {

/// A demand for `count` queues from queue family `family`.
///
/// `allow_merge` distinguishes flexible requests, which may share (round-robin
/// over) queue slots with other flexible requests of the same family, from
/// strict requests, which receive dedicated slots or fail allocation.
#[derive(Debug)]
pub struct QueueRequest {
    pub family: u32,
    pub count: u32,
    pub label: Option<QueueLabel>,
    pub allow_merge: bool,
}

/// Mathematical value of a [`QueueRequest`].
pub struct QueueRequestV {
    pub family: u32,
    pub count: u32,
    pub label: Option<LabelV>,
    pub allow_merge: bool,
}

impl View for QueueRequest {
    type V = QueueRequestV;

    open spec fn view(&self) -> QueueRequestV {
        QueueRequestV {
            family: self.family,
            count: self.count,
            label: match self.label {
                Some(l) => Some(l@),
                None => None,
            },
            allow_merge: self.allow_merge,
        }
    }
}

impl DeepView for QueueRequest {
    type V = QueueRequestV;

    open spec fn deep_view(&self) -> QueueRequestV {
        self@
    }
}

impl QueueRequest {
    /// A strict demand for `count` dedicated queues under a well-known label.
    pub fn strict_labeled(family: u32, count: u32, label: QueueLabel) -> (r: Self)
        ensures
            r@ == (QueueRequestV { family, count, label: Some(label@), allow_merge: false }),
    {
        Self { family, count, label: Some(label), allow_merge: false }
    }

    /// A strict demand for `count` dedicated queues under a custom name.
    pub fn strict_labeled_custom(family: u32, count: u32, label: String) -> (r: Self)
        ensures
            r@ == (QueueRequestV {
                family,
                count,
                label: Some(LabelV::Custom(label@)),
                allow_merge: false,
            }),
    {
        Self { family, count, label: Some(QueueLabel::Custom(label)), allow_merge: false }
    }

    /// A strict demand for `count` dedicated queues with no label.
    pub fn strict_unlabeled(family: u32, count: u32) -> (r: Self)
        ensures
            r@ == (QueueRequestV { family, count, label: None, allow_merge: false }),
    {
        Self { family, count, label: None, allow_merge: false }
    }

    /// A flexible demand for `count` queues under a well-known label.
    pub fn flexible_labeled(family: u32, count: u32, label: QueueLabel) -> (r: Self)
        ensures
            r@ == (QueueRequestV { family, count, label: Some(label@), allow_merge: true }),
    {
        Self { family, count, label: Some(label), allow_merge: true }
    }

    /// A flexible demand for `count` queues under a custom name.
    pub fn flexible_labeled_custom(family: u32, count: u32, label: String) -> (r: Self)
        ensures
            r@ == (QueueRequestV {
                family,
                count,
                label: Some(LabelV::Custom(label@)),
                allow_merge: true,
            }),
    {
        Self { family, count, label: Some(QueueLabel::Custom(label)), allow_merge: true }
    }

    /// A flexible demand for `count` queues with no label.
    pub fn flexible_unlabeled(family: u32, count: u32) -> (r: Self)
        ensures
            r@ == (QueueRequestV { family, count, label: None, allow_merge: true }),
    {
        Self { family, count, label: None, allow_merge: true }
    }
}

/// A demand for a device extension, by name.
#[derive(Debug)]
pub struct ExtensionRequest {
    pub name: String,
    pub required: bool,
}

/// Mathematical value of an [`ExtensionRequest`].
pub struct ExtensionRequestV {
    pub name: Seq<char>,
    pub required: bool,
}

impl View for ExtensionRequest {
    type V = ExtensionRequestV;

    open spec fn view(&self) -> ExtensionRequestV {
        ExtensionRequestV { name: self.name@, required: self.required }
    }
}

impl DeepView for ExtensionRequest {
    type V = ExtensionRequestV;

    open spec fn deep_view(&self) -> ExtensionRequestV {
        self@
    }
}

impl ExtensionRequest {
    /// An extension whose absence fails device creation.
    pub fn required(name: String) -> (r: Self)
        ensures
            r@ == (ExtensionRequestV { name: name@, required: true }),
    {
        Self { name, required: true }
    }

    /// An extension that is enabled when present and dropped when absent.
    pub fn optional(name: String) -> (r: Self)
        ensures
            r@ == (ExtensionRequestV { name: name@, required: false }),
    {
        Self { name, required: false }
    }
}

/// A boolean device capability, grouped by the API version tier that
/// introduced it.
#[derive(Copy, Clone, Eq, PartialEq, Hash, Debug, Structural)]
pub enum DeviceFeature {
    RobustBufferAccess,
    FullDrawIndexUint32,
    ImageCubeArray,
    IndependentBlend,
    GeometryShader,
    TessellationShader,
    SampleRateShading,
    DualSourceBlend,
    LogicOperation,
    MultiDrawIndirect,
    WideLines,
    LargePoints,
    AlphaToOne,
    MultiViewport,
    SamplerAnisotropy,
    TextureCompressionETC2,
    TextureCompressionASTCLDR,
    TextureCompressionBC,
    OcclusionQueryPrecise,
    PipelineStatisticsQuery,
    VertexPipelineStoresAndAtomics,
    FragmentStoresAndAtomics,
    ShaderTessellationAndGeometryPointSize,
    ShaderImageGatherExtended,
    ShaderStorageImageExtendedFormats,
    ShaderStorageImageMultisample,
    ShaderStorageImageReadWithoutFormat,
    ShaderStorageImageWriteWithoutFormat,
    ShaderUniformBufferArrayDynamicIndexing,
    ShaderSampledImageArrayDynamicIndexing,
    ShaderStorageBufferArrayDynamicIndexing,
    ShaderStorageImageArrayDynamicIndexing,
    ShaderClipDistance,
    ShaderCullDistance,
    ShaderFloat64,
    ShaderInt64,
    ShaderInt16,
    ShaderResourceResidency,
    ShaderResourceMinLod,
    SparseBinding,
    SparseResidencyBuffer,
    SparseResidencyImage2D,
    SparseResidencyImage3D,
    SparseResidency2Samples,
    SparseResidency4Samples,
    SparseResidency8Samples,
    SparseResidency16Samples,
    VariableMultisampleRate,
    InheritedQueries,
    StorageBuffer16BitAccess,
    UniformAndStorageBuffer16BitAccess,
    StoragePushConstant16,
    StorageInputOutput16,
    Multiview,
    MultiviewGeometryShader,
    MultiviewTessellationShader,
    VariablePointersStorageBuffer,
    VariablePointers,
    ProtectedMemory,
    SamplerYcbcrConversion,
    ShaderDrawParameters,
    SamplerMirrorClampToEdge,
    DrawIndirectCount,
    StorageBuffer8BitAccess,
    UniformAndStorageBuffer8BitAccess,
    ShaderBufferInt64Atomics,
    ShaderSharedInt64Atomics,
    ShaderFloat16,
    ShaderInt8,
    DescriptorIndexing,
    ShaderInputAttachmentArrayDynamicIndexing,
    ShaderUniformTexelBufferArrayDynamicIndexing,
    ShaderStorageTexelBufferArrayDynamicIndexing,
    ShaderUniformBufferArrayNonUniformIndexing,
    ShaderSampledImageArrayNonUniformIndexing,
    ShaderStorageBufferArrayNonUniformIndexing,
    ShaderStorageImageArrayNonUniformIndexing,
    ShaderInputAttachmentArrayNonUniformIndexing,
    ShaderUniformTexelBufferArrayNonUniformIndexing,
    ShaderStorageTexelBufferArrayNonUniformIndexing,
    DescriptorBindingUniformBufferUpdateAfterBind,
    DescriptorBindingSampledImageUpdateAfterBind,
    DescriptorBindingStorageImageUpdateAfterBind,
    DescriptorBindingStorageBufferUpdateAfterBind,
    DescriptorBindingUniformTexelBufferUpdateAfterBind,
    DescriptorBindingStorageTexelBufferUpdateAfterBind,
    DescriptorBindingUpdateUnusedWhilePending,
    DescriptorBindingPartiallyBound,
    DescriptorBindingVariableDescriptorCount,
    RuntimeDescriptorArray,
    SamplerFilterMinmax,
    ScalarBlockLayout,
    ImagelessFramebuffer,
    UniformBufferStandardLayout,
    ShaderSubgroupExtendedTypes,
    SeparateDepthStencilLayouts,
    HostQueryReset,
    TimelineSemaphore,
    BufferDeviceAddress,
    BufferDeviceAddressCaptureReplay,
    BufferDeviceAddressMultiDevice,
    VulkanMemoryModel,
    VulkanMemoryModelDeviceScope,
    VulkanMemoryModelAvailabilityVisibilityChains,
    ShaderOutputViewportIndex,
    ShaderOutputLayer,
    SubgroupBroadcastDynamicId,
    RobustImageAccess,
    InlineUniformBlock,
    DescriptorBindingInlineUniformBlockUpdateAfterBind,
    PipelineCreationCacheControl,
    PrivateData,
    ShaderDemoteToHelperInvocation,
    ShaderTerminateInvocation,
    ComputeFullSubgroups,
    Synchronization2,
    TextureCompressionASTCHDR,
    ShaderZeroInitializeWorkgroupMemory,
    DynamicRendering,
    ShaderIntegerDotProduct,
    Maintenance4,
}

/// A demand for a device feature.
#[derive(Copy, Clone, Eq, PartialEq, Hash, Debug, Structural)]
pub struct DeviceFeatureRequest {
    pub feature: DeviceFeature,
    pub required: bool,
}

impl DeviceFeatureRequest {
    /// A feature whose absence fails device creation.
    pub fn required(feature: DeviceFeature) -> (r: DeviceFeatureRequest)
        ensures
            r == (DeviceFeatureRequest { feature, required: true }),
    {
        Self { feature, required: true }
    }

    /// A feature that is enabled when supported and dropped when not.
    pub fn optional(feature: DeviceFeature) -> (r: DeviceFeatureRequest)
        ensures
            r == (DeviceFeatureRequest { feature, required: false }),
    {
        Self { feature, required: false }
    }
}

/// Convenience for appending required and optional entries to a request
/// list, used from the host's negotiation callbacks.
pub trait RequestHelper<R> {
    /// The (value, required) pairs the list holds, in order.
    spec fn entries(&self) -> Seq<(R, bool)>;

    /// Appends an optional entry for `value`.
    fn optional(&mut self, value: R)
        ensures
            final(self).entries() == old(self).entries().push((value, false)),
    ;

    /// Appends a required entry for `value`.
    fn required(&mut self, value: R)
        ensures
            final(self).entries() == old(self).entries().push((value, true)),
    ;
}

impl RequestHelper<DeviceFeature> for Vec<DeviceFeatureRequest> {
    open spec fn entries(&self) -> Seq<(DeviceFeature, bool)> {
        self@.map_values(|r: DeviceFeatureRequest| (r.feature, r.required))
    }

    fn optional(&mut self, value: DeviceFeature) {
        self.push(DeviceFeatureRequest::optional(value));
        proof {
            assert(self.entries() =~= old(self).entries().push((value, false)));
        }
    }

    fn required(&mut self, value: DeviceFeature) {
        self.push(DeviceFeatureRequest::required(value));
        proof {
            assert(self.entries() =~= old(self).entries().push((value, true)));
        }
    }
}

impl RequestHelper<String> for Vec<ExtensionRequest> {
    open spec fn entries(&self) -> Seq<(String, bool)> {
        self@.map_values(|r: ExtensionRequest| (r.name, r.required))
    }

    fn optional(&mut self, value: String) {
        self.push(ExtensionRequest { name: value, required: false });
        proof {
            assert(self.entries() =~= old(self).entries().push((value, false)));
        }
    }

    fn required(&mut self, value: String) {
        self.push(ExtensionRequest { name: value, required: true });
        proof {
            assert(self.entries() =~= old(self).entries().push((value, true)));
        }
    }
}

} // verus!
