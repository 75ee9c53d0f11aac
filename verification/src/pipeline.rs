//! Render state keys: the non-shared parts of a pipeline, used for
//! pipeline caching, and the values derived from them.

use vstd::prelude::*;

verus! {

/// Which render pass an object draws in.
#[derive(Debug, Clone, Copy, PartialEq, Eq, Structural)]
pub enum RenderPassType {
    Unk0,
    Unk1,
    Unk6,
    Unk7,
    Unk9,
}

/// Stencil reference values observed in practice.
#[derive(Debug, Clone, Copy, PartialEq, Eq, Structural)]
pub enum StencilValue {
    Unk0,
    Unk1,
    Unk4,
    Unk5,
    Unk8,
    Unk9,
    Unk12,
    Unk16,
    Unk20,
    Unk33,
    Unk37,
    Unk41,
    Unk49,
    Unk97,
    Unk105,
}

/// Stencil test modes observed in practice.
#[derive(Debug, Clone, Copy, PartialEq, Eq, Structural)]
pub enum StencilMode {
    Unk0,
    Unk1,
    Unk2,
    Unk6,
    Unk7,
    Unk8,
}

/// Alpha blending modes.
#[derive(Debug, Clone, Copy, PartialEq, Eq, Structural)]
pub enum BlendMode {
    Disabled,
    Blend,
    Unk2,
    Multiply,
    MultiplyInverted,
    Add,
}

/// Face culling modes.
#[derive(Debug, Clone, Copy, PartialEq, Eq, Structural)]
pub enum CullMode {
    Back,
    Front,
    Disabled,
    Unk3,
}

/// Depth comparison functions.
#[derive(Debug, Clone, Copy, PartialEq, Eq, Structural)]
pub enum DepthFunc {
    Disabled,
    LessEqual,
    Equal,
}

/// The render state flags a material declares.
#[derive(Debug, Clone, Copy, PartialEq, Eq, Structural)]
pub struct StateFlags {
    pub depth_func: DepthFunc,
    pub cull_mode: CullMode,
    pub blend_mode: BlendMode,
    pub stencil_value: StencilValue,
    pub stencil_mode: StencilMode,
}

/// What the fifth color output of the deferred pass carries.
#[derive(Debug, Clone, Copy, PartialEq, Eq, Structural)]
pub enum Output5Type {
    Specular,
    Emission,
}

/// The non-shared components of a pipeline, for use with pipeline
/// caching.
#[derive(Debug, Clone, Copy, PartialEq, Eq, Structural)]
pub struct PipelineKey {
    pub pass_type: RenderPassType,
    pub flags: StateFlags,
    pub is_outline: bool,
    pub output5_type: Output5Type,
}

/// The stencil reference value each declared stencil value selects.
pub open spec fn stencil_reference_value(v: StencilValue) -> u32 {
    match v {
        StencilValue::Unk0 => 10,
        StencilValue::Unk4 => 14,
        StencilValue::Unk16 => 74,
        _ => 0,
    }
}

impl PipelineKey {
    /// Does this pipeline write to every deferred output?
    pub fn write_to_all_outputs(&self) -> (r: bool)
        ensures
            r == (self.pass_type == RenderPassType::Unk0),
    {
        self.pass_type == RenderPassType::Unk0
    }

    /// The stencil reference value for this pipeline.
    pub fn stencil_reference(&self) -> (r: u32)
        ensures
            r == stencil_reference_value(self.flags.stencil_value),
    {
        match self.flags.stencil_value {
            StencilValue::Unk0 => 10,
            StencilValue::Unk1 => 0,
            StencilValue::Unk4 => 14,
            StencilValue::Unk5 => 0,
            StencilValue::Unk8 => 0,
            StencilValue::Unk9 => 0,
            StencilValue::Unk12 => 0,
            StencilValue::Unk16 => 74,
            StencilValue::Unk20 => 0,
            StencilValue::Unk33 => 0,
            StencilValue::Unk37 => 0,
            StencilValue::Unk41 => 0,
            StencilValue::Unk49 => 0,
            StencilValue::Unk97 => 0,
            StencilValue::Unk105 => 0,
        }
    }
}

} // verus!
