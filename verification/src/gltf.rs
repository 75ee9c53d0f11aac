//! Keys that tell the flat buffer lists of an exported scene apart by
//! model, group and buffer.

use vstd::prelude::*;

verus! {

/// Identifies one vertex or index buffer of one model group.
#[derive(Debug, Clone, Copy, PartialEq, Eq, Structural)]
pub struct BufferKey {
    pub root_index: usize,
    pub group_index: usize,
    pub buffers_index: usize,
    /// Vertex or index buffer index.
    pub buffer_index: usize,
}

/// Identifies one group of skin weights of one buffer.
#[derive(Debug, Clone, Copy, PartialEq, Eq, Structural)]
pub struct WeightGroupKey {
    pub weights_start_index: usize,
    pub flags2: u32,
    pub buffer: BufferKey,
}

/// The accessor indices of one written weight group.
#[derive(Debug, Clone, Copy, PartialEq, Eq, Structural)]
pub struct WeightGroup {
    /// Accessor index of the weight values.
    pub weights: usize,
    /// Accessor index of the bone indices.
    pub indices: usize,
}

} // verus!
