//! Legacy texture containers: the trailing footer that describes an
//! image surface, read and written through the verified scalar codec.
//!
//! The footer sits in the last 112 bytes of the container; everything
//! before it is the combined image surface data.  The swizzled pixel
//! layout itself is outside this crate's scope.

use vstd::prelude::*;

use crate::stream::Endian;
use crate::stream::Stream;
use crate::stream::Width;
use crate::stream::lemma_scalar_bytes_len;
use crate::stream::lemma_scalar_bytes_of_val;
use crate::stream::scalar_bytes;
use crate::stream::scalar_val;

verus! {

/// Surface dimensionality variants used by the legacy texture format.
#[derive(Debug, Clone, Copy, PartialEq, Eq, Structural)]
pub enum SurfaceDim {
    D2,
    D3,
    Cube,
}

/// Surface format variants used by the legacy texture format.
#[derive(Debug, Clone, Copy, PartialEq, Eq, Structural)]
pub enum SurfaceFormat {
    R8G8B8A8Unorm,
    BC1Unorm,
    BC2Unorm,
    BC3Unorm,
    BC4Unorm,
    BC5Unorm,
}

/// Tiling mode variants used by the legacy texture format.
#[derive(Debug, Clone, Copy, PartialEq, Eq, Structural)]
pub enum TileMode {
    D1TiledThin1,
    D2TiledThin1,
    D2TiledThick,
}

impl SurfaceDim {
    /// The stored integer representation of the variant.
    pub open spec fn spec_repr(self) -> u32 {
        match self {
            SurfaceDim::D2 => 1,
            SurfaceDim::D3 => 2,
            SurfaceDim::Cube => 3,
        }
    }

    pub open spec fn spec_from_repr(v: u32) -> Option<SurfaceDim> {
        match v {
            1u32 => Option::Some(SurfaceDim::D2),
            2u32 => Option::Some(SurfaceDim::D3),
            3u32 => Option::Some(SurfaceDim::Cube),
            _ => Option::None,
        }
    }

    pub fn repr(self) -> (r: u32)
        ensures
            r == self.spec_repr(),
    {
        match self {
            SurfaceDim::D2 => 1,
            SurfaceDim::D3 => 2,
            SurfaceDim::Cube => 3,
        }
    }

    pub fn from_repr(v: u32) -> (r: Option<SurfaceDim>)
        ensures
            r == SurfaceDim::spec_from_repr(v),
    {
        match v {
            1u32 => Option::Some(SurfaceDim::D2),
            2u32 => Option::Some(SurfaceDim::D3),
            3u32 => Option::Some(SurfaceDim::Cube),
            _ => Option::None,
        }
    }
}

impl SurfaceFormat {
    /// The stored integer representation of the variant.
    pub open spec fn spec_repr(self) -> u32 {
        match self {
            SurfaceFormat::R8G8B8A8Unorm => 26,
            SurfaceFormat::BC1Unorm => 49,
            SurfaceFormat::BC2Unorm => 50,
            SurfaceFormat::BC3Unorm => 51,
            SurfaceFormat::BC4Unorm => 52,
            SurfaceFormat::BC5Unorm => 53,
        }
    }

    pub open spec fn spec_from_repr(v: u32) -> Option<SurfaceFormat> {
        match v {
            26u32 => Option::Some(SurfaceFormat::R8G8B8A8Unorm),
            49u32 => Option::Some(SurfaceFormat::BC1Unorm),
            50u32 => Option::Some(SurfaceFormat::BC2Unorm),
            51u32 => Option::Some(SurfaceFormat::BC3Unorm),
            52u32 => Option::Some(SurfaceFormat::BC4Unorm),
            53u32 => Option::Some(SurfaceFormat::BC5Unorm),
            _ => Option::None,
        }
    }

    pub fn repr(self) -> (r: u32)
        ensures
            r == self.spec_repr(),
    {
        match self {
            SurfaceFormat::R8G8B8A8Unorm => 26,
            SurfaceFormat::BC1Unorm => 49,
            SurfaceFormat::BC2Unorm => 50,
            SurfaceFormat::BC3Unorm => 51,
            SurfaceFormat::BC4Unorm => 52,
            SurfaceFormat::BC5Unorm => 53,
        }
    }

    pub fn from_repr(v: u32) -> (r: Option<SurfaceFormat>)
        ensures
            r == SurfaceFormat::spec_from_repr(v),
    {
        match v {
            26u32 => Option::Some(SurfaceFormat::R8G8B8A8Unorm),
            49u32 => Option::Some(SurfaceFormat::BC1Unorm),
            50u32 => Option::Some(SurfaceFormat::BC2Unorm),
            51u32 => Option::Some(SurfaceFormat::BC3Unorm),
            52u32 => Option::Some(SurfaceFormat::BC4Unorm),
            53u32 => Option::Some(SurfaceFormat::BC5Unorm),
            _ => Option::None,
        }
    }

    /// The block dimensions of the compressed format, in pixels.
    pub fn block_dim(&self) -> (r: (u32, u32))
        ensures
            r == (match *self {
                SurfaceFormat::R8G8B8A8Unorm => (1u32, 1u32),
                _ => (4u32, 4u32),
            }),
    {
        match self {
            SurfaceFormat::R8G8B8A8Unorm => (1, 1),
            SurfaceFormat::BC1Unorm => (4, 4),
            SurfaceFormat::BC2Unorm => (4, 4),
            SurfaceFormat::BC3Unorm => (4, 4),
            SurfaceFormat::BC4Unorm => (4, 4),
            SurfaceFormat::BC5Unorm => (4, 4),
        }
    }

    /// Bytes per pixel, or per block for block-compressed formats.
    pub fn bytes_per_pixel(&self) -> (r: u32)
        ensures
            r == (match *self {
                SurfaceFormat::R8G8B8A8Unorm => 4u32,
                SurfaceFormat::BC1Unorm => 8u32,
                SurfaceFormat::BC2Unorm => 16u32,
                SurfaceFormat::BC3Unorm => 16u32,
                SurfaceFormat::BC4Unorm => 8u32,
                SurfaceFormat::BC5Unorm => 16u32,
            }),
    {
        match self {
            SurfaceFormat::R8G8B8A8Unorm => 4,
            SurfaceFormat::BC1Unorm => 8,
            SurfaceFormat::BC2Unorm => 16,
            SurfaceFormat::BC3Unorm => 16,
            SurfaceFormat::BC4Unorm => 8,
            SurfaceFormat::BC5Unorm => 16,
        }
    }
}

impl TileMode {
    /// The stored integer representation of the variant.
    pub open spec fn spec_repr(self) -> u32 {
        match self {
            TileMode::D1TiledThin1 => 2,
            TileMode::D2TiledThin1 => 4,
            TileMode::D2TiledThick => 7,
        }
    }

    pub open spec fn spec_from_repr(v: u32) -> Option<TileMode> {
        match v {
            2u32 => Option::Some(TileMode::D1TiledThin1),
            4u32 => Option::Some(TileMode::D2TiledThin1),
            7u32 => Option::Some(TileMode::D2TiledThick),
            _ => Option::None,
        }
    }

    pub fn repr(self) -> (r: u32)
        ensures
            r == self.spec_repr(),
    {
        match self {
            TileMode::D1TiledThin1 => 2,
            TileMode::D2TiledThin1 => 4,
            TileMode::D2TiledThick => 7,
        }
    }

    pub fn from_repr(v: u32) -> (r: Option<TileMode>)
        ensures
            r == TileMode::spec_from_repr(v),
    {
        match v {
            2u32 => Option::Some(TileMode::D1TiledThin1),
            4u32 => Option::Some(TileMode::D2TiledThin1),
            7u32 => Option::Some(TileMode::D2TiledThick),
            _ => Option::None,
        }
    }
}

/// A description of the image surface, stored in the last 112 bytes of
/// the container, ending in its magic tag.
#[derive(Debug, Clone, PartialEq, Eq)]
pub struct MtxtFooter {
    pub swizzle: u32,
    pub surface_dim: SurfaceDim,
    /// The width of the base mip level in pixels.
    pub width: u32,
    /// The height of the base mip level in pixels.
    pub height: u32,
    /// The depth of the base mip level in pixels for 3D textures
    /// or the number of array layers for 2D textures.
    pub depth_or_array_layers: u32,
    /// The number of mip levels or 1 if there are no mipmaps.
    pub mipmap_count: u32,
    pub surface_format: SurfaceFormat,
    pub size: u32,
    pub unk_mip_offset: u32,
    pub tile_mode: TileMode,
    pub unk1: u32,
    /// Usually set to 512 times the bytes per pixel.
    pub alignment: u32,
    pub pitch: u32,
    /// Offsets into the image data for each mipmap past the base level.
    pub mip_offsets: Vec<u32>,
    pub version: u32,
}

/// A legacy texture container: the combined image surface data followed
/// by its footer.
#[derive(Debug, Clone, PartialEq, Eq)]
pub struct Mtxt {
    /// The combined image surface data.
    pub image_data: Vec<u8>,
    /// A description of the surface in the image data.
    pub footer: MtxtFooter,
}

/// The number of inline mip offsets the footer stores.
pub open spec fn mip_offset_count() -> nat {
    13
}

/// A footer is well formed when it stores exactly the inline table of
/// mip offsets.
pub open spec fn footer_wf(f: MtxtFooter) -> bool {
    f.mip_offsets@.len() == mip_offset_count()
}

/// The four magic bytes closing the footer.
pub open spec fn mtxt_magic() -> Seq<u8> {
    seq![0x4du8, 0x54u8, 0x58u8, 0x54u8]
}

/// The byte string of a mip offset table.
pub open spec fn mips_bytes(ms: Seq<u32>, e: Endian) -> Seq<u8>
    decreases ms.len(),
{
    if ms.len() == 0 {
        Seq::empty()
    } else {
        scalar_bytes(e, ms[0] as nat, 4) + mips_bytes(ms.drop_first(), e)
    }
}

/// The 112 footer bytes of `f` at endianness `e`.
pub open spec fn footer_bytes(f: MtxtFooter, e: Endian) -> Seq<u8> {
    scalar_bytes(e, f.swizzle as nat, 4) + scalar_bytes(e, f.surface_dim.spec_repr() as nat, 4)
        + scalar_bytes(e, f.width as nat, 4) + scalar_bytes(e, f.height as nat, 4)
        + scalar_bytes(e, f.depth_or_array_layers as nat, 4) + scalar_bytes(
        e,
        f.mipmap_count as nat,
        4,
    ) + scalar_bytes(e, f.surface_format.spec_repr() as nat, 4) + scalar_bytes(
        e,
        f.size as nat,
        4,
    ) + scalar_bytes(e, f.unk_mip_offset as nat, 4) + scalar_bytes(
        e,
        f.tile_mode.spec_repr() as nat,
        4,
    ) + scalar_bytes(e, f.unk1 as nat, 4) + scalar_bytes(e, f.alignment as nat, 4)
        + scalar_bytes(e, f.pitch as nat, 4) + mips_bytes(f.mip_offsets@, e) + scalar_bytes(
        e,
        f.version as nat,
        4,
    ) + mtxt_magic()
}

/// Errors of the legacy texture codec.
#[derive(Debug, Clone, Copy, PartialEq, Eq, Structural)]
pub enum MtxtError {
    /// Fewer bytes than one footer.
    Truncated,
    /// A field holds a value the format does not define, or the magic
    /// tag is missing.
    UnsupportedValue,
}


/// Are the 112 bytes at `pos` a well-formed footer?
pub open spec fn valid_footer(buf: Seq<u8>, pos: nat, e: Endian) -> bool {
    &&& SurfaceDim::spec_from_repr(
        scalar_val(e, buf.subrange(pos as int + 4, pos as int + 8)) as u32,
    ) is Some
    &&& SurfaceFormat::spec_from_repr(
        scalar_val(e, buf.subrange(pos as int + 24, pos as int + 28)) as u32,
    ) is Some
    &&& TileMode::spec_from_repr(scalar_val(e, buf.subrange(pos as int + 36, pos as int + 40)) as u32) is Some
    &&& buf.subrange(pos as int + 108, pos as int + 112) == mtxt_magic()
}

proof fn lemma_mips_bytes_eq(ms: Seq<u32>, bs: Seq<u8>, e: Endian)
    requires
        bs.len() == ms.len() * 4,
        forall|q: int|
            0 <= q < ms.len() ==> (#[trigger] ms[q]) as nat == scalar_val(
                e,
                bs.subrange(4 * q, 4 * q + 4),
            ),
    ensures
        mips_bytes(ms, e) == bs,
    decreases ms.len(),
{
    if ms.len() == 0 {
        assert(mips_bytes(ms, e) =~= bs);
    } else {
        let rest = bs.subrange(4, bs.len() as int);
        assert((ms.len() - 1) * 4 == ms.len() * 4 - 4) by (nonlinear_arith);
        assert forall|q: int| 0 <= q < ms.drop_first().len() implies (#[trigger] ms.drop_first()[
            q
        ]) as nat == scalar_val(e, rest.subrange(4 * q, 4 * q + 4)) by {
            assert(ms.drop_first()[q] == ms[q + 1]);
            assert(rest.subrange(4 * q, 4 * q + 4) =~= bs.subrange(4 * (q + 1), 4 * (q + 1) + 4));
        }
        lemma_mips_bytes_eq(ms.drop_first(), rest, e);
        assert(bs.subrange(0, 4) =~= bs.subrange(4int * 0, 4int * 0 + 4));
        lemma_scalar_bytes_of_val(e, bs.subrange(0, 4));
        assert(mips_bytes(ms, e) =~= bs);
    }
}

proof fn lemma_mips_bytes_len(ms: Seq<u32>, e: Endian)
    ensures
        mips_bytes(ms, e).len() == ms.len() * 4,
    decreases ms.len(),
{
    if ms.len() > 0 {
        lemma_mips_bytes_len(ms.drop_first(), e);
        lemma_scalar_bytes_len(e, ms[0] as nat, 4);
        assert((ms.len() - 1) * 4 == ms.len() * 4 - 4) by (nonlinear_arith);
    } else {
        assert(ms.len() * 4 == 0) by (nonlinear_arith)
            requires
                ms.len() == 0,
        ;
    }
}

/// Appends the 112 footer bytes of `f` to the stream.
#[verifier::rlimit(100)]
pub fn write_mtxt_footer(f: &MtxtFooter, stream: &mut Stream, e: Endian)
    requires
        footer_wf(*f),
    ensures
        final(stream)@ == old(stream)@ + footer_bytes(*f, e),
{
    proof {
        crate::write::lemma_width_max_vals();
    }
    let ghost pre = stream@;
    stream.append_scalar(e, Width::W32, f.swizzle as u64);
    stream.append_scalar(e, Width::W32, f.surface_dim.repr() as u64);
    stream.append_scalar(e, Width::W32, f.width as u64);
    stream.append_scalar(e, Width::W32, f.height as u64);
    stream.append_scalar(e, Width::W32, f.depth_or_array_layers as u64);
    stream.append_scalar(e, Width::W32, f.mipmap_count as u64);
    stream.append_scalar(e, Width::W32, f.surface_format.repr() as u64);
    stream.append_scalar(e, Width::W32, f.size as u64);
    stream.append_scalar(e, Width::W32, f.unk_mip_offset as u64);
    stream.append_scalar(e, Width::W32, f.tile_mode.repr() as u64);
    stream.append_scalar(e, Width::W32, f.unk1 as u64);
    stream.append_scalar(e, Width::W32, f.alignment as u64);
    stream.append_scalar(e, Width::W32, f.pitch as u64);
    let ghost mid = stream@;
    let ghost ms = f.mip_offsets@;
    proof {
        assert(ms.subrange(0, ms.len() as int) =~= ms);
    }
    let mut j: usize = 0;
    while j < f.mip_offsets.len()
        invariant
            j <= f.mip_offsets@.len(),
            ms == f.mip_offsets@,
            stream@ + mips_bytes(ms.subrange(j as int, ms.len() as int), e) == mid + mips_bytes(
                ms,
                e,
            ),
        decreases f.mip_offsets@.len() - j,
    {
        let ghost spre = stream@;
        proof {
            crate::write::lemma_width_max_vals();
            let suffix = ms.subrange(j as int, ms.len() as int);
            assert(suffix.drop_first() =~= ms.subrange(j + 1, ms.len() as int));
        }
        stream.append_scalar(e, Width::W32, f.mip_offsets[j] as u64);
        proof {
            let suffix = ms.subrange(j as int, ms.len() as int);
            assert(stream@ + mips_bytes(ms.subrange(j + 1, ms.len() as int), e) =~= spre
                + mips_bytes(suffix, e));
        }
        j = j + 1;
    }
    proof {
        assert(ms.subrange(ms.len() as int, ms.len() as int) =~= Seq::<u32>::empty());
        assert(stream@ =~= mid + mips_bytes(ms, e));
    }
    stream.append_scalar(e, Width::W32, f.version as u64);
    stream.append_byte(0x4d);
    stream.append_byte(0x54);
    stream.append_byte(0x58);
    stream.append_byte(0x54);
    proof {
        lemma_mips_bytes_len(ms, e);
        assert(stream@ =~= pre + footer_bytes(*f, e));
    }
}

/// Parses the 112 footer bytes at `pos`: succeeds exactly when they are
/// a well-formed footer, and then reproduces them byte for byte.
#[verifier::rlimit(100)]
#[verifier::spinoff_prover]
pub fn parse_mtxt_footer(stream: &Stream, pos: usize, e: Endian) -> (r: Result<
    MtxtFooter,
    MtxtError,
>)
    requires
        pos + 112 <= stream@.len(),
    ensures
        r is Ok <==> valid_footer(stream@, pos as nat, e),
        r is Err ==> r == Result::<MtxtFooter, MtxtError>::Err(MtxtError::UnsupportedValue),
        r is Ok ==> footer_wf(r->Ok_0) && stream@.subrange(pos as int, pos + 112) == footer_bytes(
            r->Ok_0,
            e,
        ),
{
    proof {
        vstd::std_specs::vec::axiom_spec_len(&stream.data);
        crate::write::lemma_width_max_vals();
    }
    let swizzle = stream.get_scalar(pos, e, Width::W32) as u32;
    let dim_raw = stream.get_scalar(pos + 4, e, Width::W32) as u32;
    let width = stream.get_scalar(pos + 8, e, Width::W32) as u32;
    let height = stream.get_scalar(pos + 12, e, Width::W32) as u32;
    let depth = stream.get_scalar(pos + 16, e, Width::W32) as u32;
    let mipmap_count = stream.get_scalar(pos + 20, e, Width::W32) as u32;
    let format_raw = stream.get_scalar(pos + 24, e, Width::W32) as u32;
    let size = stream.get_scalar(pos + 28, e, Width::W32) as u32;
    let unk_mip_offset = stream.get_scalar(pos + 32, e, Width::W32) as u32;
    let tile_raw = stream.get_scalar(pos + 36, e, Width::W32) as u32;
    let unk1 = stream.get_scalar(pos + 40, e, Width::W32) as u32;
    let alignment = stream.get_scalar(pos + 44, e, Width::W32) as u32;
    let pitch = stream.get_scalar(pos + 48, e, Width::W32) as u32;
    let mut mip_offsets: Vec<u32> = Vec::new();
    let mut j: usize = 0;
    while j < 13
        invariant
            j <= 13,
            pos + 112 <= stream@.len(),
            stream@.len() <= usize::MAX,
            mip_offsets@.len() == j,
            forall|q: int|
                0 <= q < j ==> (#[trigger] mip_offsets@[q]) as nat == scalar_val(
                    e,
                    stream@.subrange(pos + 52 + 4 * q, pos + 52 + 4 * q + 4),
                ),
        decreases 13 - j,
    {
        proof {
            crate::write::lemma_width_max_vals();
        }
        mip_offsets.push(stream.get_scalar(pos + 52 + 4 * j, e, Width::W32) as u32);
        j = j + 1;
    }
    let version = stream.get_scalar(pos + 104, e, Width::W32) as u32;
    let m0 = stream.get_byte(pos + 108);
    let m1 = stream.get_byte(pos + 109);
    let m2 = stream.get_byte(pos + 110);
    let m3 = stream.get_byte(pos + 111);
    let magic_ok = m0 == 0x4d && m1 == 0x54 && m2 == 0x58 && m3 == 0x54;
    proof {
        assert(stream@.subrange(pos + 108, pos + 112) =~= mtxt_magic() <==> (m0 == 0x4du8 && m1
            == 0x54u8 && m2 == 0x58u8 && m3 == 0x54u8)) by {
            if m0 == 0x4du8 && m1 == 0x54u8 && m2 == 0x58u8 && m3 == 0x54u8 {
                assert(stream@.subrange(pos + 108, pos + 112) =~= mtxt_magic());
            } else {
                if stream@.subrange(pos + 108, pos + 112) =~= mtxt_magic() {
                    assert(stream@[pos + 108] == 0x4du8);
                    assert(stream@[pos + 109] == 0x54u8);
                    assert(stream@[pos + 110] == 0x58u8);
                    assert(stream@[pos + 111] == 0x54u8);
                }
            }
        }
    }
    let dim_opt = SurfaceDim::from_repr(dim_raw);
    let format_opt = SurfaceFormat::from_repr(format_raw);
    let tile_opt = TileMode::from_repr(tile_raw);
    if !magic_ok {
        return Result::Err(MtxtError::UnsupportedValue);
    }
    match (dim_opt, format_opt, tile_opt) {
        (Option::Some(surface_dim), Option::Some(surface_format), Option::Some(tile_mode)) => {
            let f = MtxtFooter {
                swizzle,
                surface_dim,
                width,
                height,
                depth_or_array_layers: depth,
                mipmap_count,
                surface_format,
                size,
                unk_mip_offset,
                tile_mode,
                unk1,
                alignment,
                pitch,
                mip_offsets,
                version,
            };
            proof {
                let bs = stream@.subrange(pos as int, pos + 112);
                assert forall|lo: int, hi: int|
                    pos <= lo <= hi <= pos + 112 implies #[trigger] stream@.subrange(lo, hi)
                    =~= bs.subrange(lo - pos, hi - pos) by {}
                lemma_scalar_bytes_of_val(e, stream@.subrange(pos as int, pos + 4));
                lemma_scalar_bytes_of_val(e, stream@.subrange(pos + 4, pos + 8));
                lemma_scalar_bytes_of_val(e, stream@.subrange(pos + 8, pos + 12));
                lemma_scalar_bytes_of_val(e, stream@.subrange(pos + 12, pos + 16));
                lemma_scalar_bytes_of_val(e, stream@.subrange(pos + 16, pos + 20));
                lemma_scalar_bytes_of_val(e, stream@.subrange(pos + 20, pos + 24));
                lemma_scalar_bytes_of_val(e, stream@.subrange(pos + 24, pos + 28));
                lemma_scalar_bytes_of_val(e, stream@.subrange(pos + 28, pos + 32));
                lemma_scalar_bytes_of_val(e, stream@.subrange(pos + 32, pos + 36));
                lemma_scalar_bytes_of_val(e, stream@.subrange(pos + 36, pos + 40));
                lemma_scalar_bytes_of_val(e, stream@.subrange(pos + 40, pos + 44));
                lemma_scalar_bytes_of_val(e, stream@.subrange(pos + 44, pos + 48));
                lemma_scalar_bytes_of_val(e, stream@.subrange(pos + 48, pos + 52));
                lemma_scalar_bytes_of_val(e, stream@.subrange(pos + 104, pos + 108));
                assert forall|q: int|
                    0 <= q < f.mip_offsets@.len() implies (#[trigger] f.mip_offsets@[q]) as nat
                    == scalar_val(
                    e,
                    stream@.subrange(pos + 52, pos + 104).subrange(4 * q, 4 * q + 4),
                ) by {
                    assert(stream@.subrange(pos + 52, pos + 104).subrange(4 * q, 4 * q + 4)
                        =~= stream@.subrange(pos + 52 + 4 * q, pos + 52 + 4 * q + 4));
                }
                lemma_mips_bytes_eq(f.mip_offsets@, stream@.subrange(pos + 52, pos + 104), e);
                lemma_mips_bytes_len(f.mip_offsets@, e);
                assert(stream@.subrange(pos as int, pos + 112) =~= footer_bytes(f, e));
            }
            Result::Ok(f)
        },
        _ => Result::Err(MtxtError::UnsupportedValue),
    }
}

impl Mtxt {
    /// Parses a whole container from the stream: the footer from the last
    /// 112 bytes, the image surface data from everything before it.
    pub fn from_bytes(stream: &Stream, e: Endian) -> (r: Result<Mtxt, MtxtError>)
        ensures
            stream@.len() < 112 ==> r == Result::<Mtxt, MtxtError>::Err(MtxtError::Truncated),
            stream@.len() >= 112 ==> (r is Ok <==> valid_footer(
                stream@,
                (stream@.len() - 112) as nat,
                e,
            )),
            r is Ok ==> ({
                let m = r->Ok_0;
                &&& footer_wf(m.footer)
                &&& m.image_data@ == stream@.subrange(0, stream@.len() - 112)
                &&& stream@.subrange(stream@.len() - 112, stream@.len() as int) == footer_bytes(
                    m.footer,
                    e,
                )
            }),
    {
        let n = stream.len();
        if n < 112 {
            return Result::Err(MtxtError::Truncated);
        }
        match parse_mtxt_footer(stream, n - 112, e) {
            Result::Ok(footer) => {
                let image_data = stream.get_bytes(0, n - 112);
                Result::Ok(Mtxt { image_data, footer })
            },
            Result::Err(er) => Result::Err(er),
        }
    }

    /// Appends the whole container: image surface data, then footer.
    pub fn write_to(&self, stream: &mut Stream, e: Endian)
        requires
            footer_wf(self.footer),
        ensures
            final(stream)@ == old(stream)@ + self.image_data@ + footer_bytes(self.footer, e),
    {
        stream.append_vec(&self.image_data);
        write_mtxt_footer(&self.footer, stream, e);
    }
}

} // verus!
