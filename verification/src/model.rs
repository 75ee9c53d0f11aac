//! Plain pieces of the decoded model representation: submesh
//! descriptors, index buffers, level-of-detail selection and shader
//! dependency records.

use vstd::prelude::*;
use vstd::string::StringSliceAdditionalSpecFns;

verus! {

/// One submesh record of a legacy mesh table.
#[derive(Debug, Clone)]
pub struct SubDataItem {
    pub unk1: u32,
    pub flag: u32,
    pub vertex_buffer_index: i16,
    pub index_buffer_index: i16,
    pub unk_index: i16,
    pub material_index: i16,
    pub unk2: i16,
    pub unk3: i16,
    pub unk4: i16,
    pub unk5: i16,
    pub unk6: i16,
    pub unk7: i16,
    pub unk8: i16,
    pub unk9: i16,
    pub unks: [i16; 8],
}

/// The indices of one index buffer.
#[derive(Debug, Clone, PartialEq, Eq)]
pub struct IndexBuffer {
    pub indices: Vec<u16>,
}

/// A single buffer access in shader code, like one element of one
/// field of a named uniform buffer.
#[derive(Debug, Clone, PartialEq, Eq)]
pub struct BufferDependency {
    pub name: String,
    pub field: String,
    pub index: usize,
    pub channels: String,
}

/// A single texture access in shader code.
#[derive(Debug, Clone, PartialEq, Eq)]
pub struct TextureDependency {
    pub name: String,
    pub channels: String,
}

/// Whether a mesh with the given level of detail belongs to the highest
/// detail or base level of detail: its predecessor level is listed in
/// the base indices, or no list is given at all.
pub fn should_render_lod(lod: u16, base_lod_indices: &Option<Vec<u16>>) -> (r: bool)
    ensures
        r == (match base_lod_indices {
            Option::Some(indices) => indices@.contains(
                (if lod == 0 {
                    0u16
                } else {
                    (lod - 1) as u16
                }),
            ),
            Option::None => true,
        }),
{
    match base_lod_indices {
        Option::Some(indices) => {
            let target: u16 = if lod == 0 {
                0
            } else {
                lod - 1
            };
            let mut i: usize = 0;
            let mut found = false;
            while i < indices.len()
                invariant
                    i <= indices@.len(),
                    found == exists|q: int| 0 <= q < i && indices@[q] == target,
                decreases indices@.len() - i,
            {
                if indices[i] == target {
                    found = true;
                }
                i = i + 1;
            }
            proof {
                if found {
                    assert(indices@.contains(target));
                } else {
                    assert(!indices@.contains(target)) by {
                        if indices@.contains(target) {
                            let q = choose|q: int|
                                0 <= q < indices@.len() && indices@[q] == target;
                        }
                    }
                }
            }
            found
        },
        Option::None => true,
    }
}

/// The material sampler index a sampler name like `s3` selects, for the
/// ten material samplers.
pub fn material_sampler_index(sampler: &str) -> (r: Option<usize>)
    ensures
        r == (if sampler.spec_bytes().len() == 2 && sampler.spec_bytes()[0] == 0x73u8
            && 0x30u8 <= sampler.spec_bytes()[1] <= 0x39u8 {
            Option::Some((sampler.spec_bytes()[1] - 0x30) as usize)
        } else {
            Option::<usize>::None
        }),
{
    let b = sampler.as_bytes();
    if b.len() == 2 {
        let b0 = b[0];
        let b1 = b[1];
        if b0 == 0x73 && 0x30 <= b1 && b1 <= 0x39 {
            return Option::Some((b1 - 0x30) as usize);
        }
    }
    Option::None
}

} // verus!
