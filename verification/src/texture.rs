//! Decoded image textures: the plain description a renderer consumes,
//! with the mappings from the legacy surface description.

use vstd::prelude::*;

use crate::mtxt::SurfaceFormat;

verus! {

/// How a texture is viewed by a sampler.
#[derive(Debug, Clone, Copy, PartialEq, Eq, Structural)]
pub enum ViewDimension {
    D2,
    D3,
    Cube,
}

/// Image formats of decoded textures.
#[derive(Debug, Clone, Copy, PartialEq, Eq, Structural)]
pub enum ImageFormat {
    R8G8B8A8Unorm,
    BC1Unorm,
    BC2Unorm,
    BC3Unorm,
    BC4Unorm,
    BC5Unorm,
}

/// Hints on how a texture is used.  Actual usage is determined by the
/// shader code.
#[derive(Debug, Clone, Copy, PartialEq, Eq, Structural)]
pub enum TextureUsage {
    Col,
    Nrm,
}

/// Usage hints of the legacy texture format.
#[derive(Debug, Clone, Copy, PartialEq, Eq, Structural)]
pub enum LegacyTextureUsage {
    Spm,
    Nrm,
    Unk32,
    Unk34,
    Unk48,
    Col,
    Unk96,
    Unk112,
    Spm2,
    Nrm2,
    Unk544,
    Unk1056,
    Unk1120,
    Cube,
}

/// A non swizzled texture: plain dimensions, format and row-major data.
#[derive(Debug, Clone, PartialEq, Eq)]
pub struct ImageTexture {
    /// An optional name assigned to some textures.  This will typically
    /// be absent and can not be used for reliably identifying textures.
    pub name: Option<String>,
    /// Hints on how the texture is used.
    pub usage: Option<TextureUsage>,
    /// The width of the base mip level in pixels.
    pub width: u32,
    /// The height of the base mip level in pixels.
    pub height: u32,
    /// The depth of the base mip level in pixels.
    pub depth: u32,
    pub view_dimension: ViewDimension,
    pub image_format: ImageFormat,
    /// The number of mip levels or 1 if there are no mipmaps.
    pub mipmap_count: u32,
    /// The combined image surface data in a standard row-major layout,
    /// ordered layer by layer, mip by mip.
    pub image_data: Vec<u8>,
}

impl ImageTexture {
    /// The number of array layers in this surface.
    pub fn layers(&self) -> (r: u32)
        ensures
            r == (if self.view_dimension == ViewDimension::Cube {
                6u32
            } else {
                1u32
            }),
    {
        if self.view_dimension == ViewDimension::Cube {
            6
        } else {
            1
        }
    }
}

/// The decoded image format equivalent to a legacy surface format.
pub fn mtxt_image_format(image_format: SurfaceFormat) -> (r: ImageFormat)
    ensures
        r == (match image_format {
            SurfaceFormat::R8G8B8A8Unorm => ImageFormat::R8G8B8A8Unorm,
            SurfaceFormat::BC1Unorm => ImageFormat::BC1Unorm,
            SurfaceFormat::BC2Unorm => ImageFormat::BC2Unorm,
            SurfaceFormat::BC3Unorm => ImageFormat::BC3Unorm,
            SurfaceFormat::BC4Unorm => ImageFormat::BC4Unorm,
            SurfaceFormat::BC5Unorm => ImageFormat::BC5Unorm,
        }),
{
    match image_format {
        SurfaceFormat::R8G8B8A8Unorm => ImageFormat::R8G8B8A8Unorm,
        SurfaceFormat::BC1Unorm => ImageFormat::BC1Unorm,
        SurfaceFormat::BC2Unorm => ImageFormat::BC2Unorm,
        SurfaceFormat::BC3Unorm => ImageFormat::BC3Unorm,
        SurfaceFormat::BC4Unorm => ImageFormat::BC4Unorm,
        SurfaceFormat::BC5Unorm => ImageFormat::BC5Unorm,
    }
}

/// The usage hint corresponding to a legacy usage hint, if any.
pub fn mtxt_usage(usage: LegacyTextureUsage) -> (r: Option<TextureUsage>)
    ensures
        r == (match usage {
            LegacyTextureUsage::Nrm => Option::Some(TextureUsage::Nrm),
            LegacyTextureUsage::Nrm2 => Option::Some(TextureUsage::Nrm),
            LegacyTextureUsage::Unk32 => Option::Some(TextureUsage::Col),
            LegacyTextureUsage::Unk48 => Option::Some(TextureUsage::Col),
            LegacyTextureUsage::Col => Option::Some(TextureUsage::Col),
            LegacyTextureUsage::Unk96 => Option::Some(TextureUsage::Col),
            _ => Option::<TextureUsage>::None,
        }),
{
    match usage {
        LegacyTextureUsage::Spm => Option::None,
        LegacyTextureUsage::Nrm => Option::Some(TextureUsage::Nrm),
        LegacyTextureUsage::Unk32 => Option::Some(TextureUsage::Col),
        LegacyTextureUsage::Unk34 => Option::None,
        LegacyTextureUsage::Unk48 => Option::Some(TextureUsage::Col),
        LegacyTextureUsage::Col => Option::Some(TextureUsage::Col),
        LegacyTextureUsage::Unk96 => Option::Some(TextureUsage::Col),
        LegacyTextureUsage::Unk112 => Option::None,
        LegacyTextureUsage::Spm2 => Option::None,
        LegacyTextureUsage::Nrm2 => Option::Some(TextureUsage::Nrm),
        LegacyTextureUsage::Unk544 => Option::None,
        LegacyTextureUsage::Unk1056 => Option::None,
        LegacyTextureUsage::Unk1120 => Option::None,
        LegacyTextureUsage::Cube => Option::None,
    }
}

} // verus!
