//! Tests of the format helper modules: the legacy texture footer codec,
//! surface format queries, texture conversions, render state keys and
//! model helpers.

use xc3_codec::gltf::BufferKey;
use xc3_codec::gltf::WeightGroup;
use xc3_codec::gltf::WeightGroupKey;
use xc3_codec::model::material_sampler_index;
use xc3_codec::model::BufferDependency;
use xc3_codec::model::IndexBuffer;
use xc3_codec::model::SubDataItem;
use xc3_codec::model::TextureDependency;
use xc3_codec::write::Offset;
use xc3_codec::model::should_render_lod;
use xc3_codec::mtxt::parse_mtxt_footer;
use xc3_codec::mtxt::write_mtxt_footer;
use xc3_codec::mtxt::Mtxt;
use xc3_codec::mtxt::MtxtError;
use xc3_codec::mtxt::MtxtFooter;
use xc3_codec::mtxt::SurfaceDim;
use xc3_codec::mtxt::SurfaceFormat;
use xc3_codec::mtxt::TileMode;
use xc3_codec::pipeline::BlendMode;
use xc3_codec::pipeline::CullMode;
use xc3_codec::pipeline::DepthFunc;
use xc3_codec::pipeline::Output5Type;
use xc3_codec::pipeline::PipelineKey;
use xc3_codec::pipeline::RenderPassType;
use xc3_codec::pipeline::StateFlags;
use xc3_codec::pipeline::StencilMode;
use xc3_codec::pipeline::StencilValue;
use xc3_codec::stream::Endian;
use xc3_codec::stream::Stream;
use xc3_codec::texture::mtxt_image_format;
use xc3_codec::texture::mtxt_usage;
use xc3_codec::texture::ImageFormat;
use xc3_codec::texture::ImageTexture;
use xc3_codec::texture::LegacyTextureUsage;
use xc3_codec::texture::TextureUsage;
use xc3_codec::texture::ViewDimension;

fn sample_footer() -> MtxtFooter {
    MtxtFooter {
        swizzle: 0x70000,
        surface_dim: SurfaceDim::D2,
        width: 256,
        height: 128,
        depth_or_array_layers: 1,
        mipmap_count: 3,
        surface_format: SurfaceFormat::BC1Unorm,
        size: 0x8000,
        unk_mip_offset: 0,
        tile_mode: TileMode::D2TiledThin1,
        unk1: 0x70000,
        alignment: 4096,
        pitch: 64,
        mip_offsets: vec![0x8000, 0x2000, 0, 0, 0, 0, 0, 0, 0, 0, 0, 0, 0],
        version: 10002,
    }
}

#[test]
fn mtxt_footer_round_trip_big_endian() {
    let footer = sample_footer();
    let mut stream = Stream::new();
    write_mtxt_footer(&footer, &mut stream, Endian::Big);
    assert_eq!(112, stream.data.len());
    // The magic tag closes the footer.
    assert_eq!(&[0x4d, 0x54, 0x58, 0x54], &stream.data[108..112]);
    let back = parse_mtxt_footer(&stream, 0, Endian::Big).unwrap();
    assert_eq!(footer, back);
}

#[test]
fn mtxt_footer_field_encoding() {
    let footer = sample_footer();
    let mut stream = Stream::new();
    write_mtxt_footer(&footer, &mut stream, Endian::Big);
    // surface_dim D2 stores 1; surface_format BC1 stores 49; tile mode
    // stores 4, all big-endian at their fixed positions.
    assert_eq!(&[0, 0, 0, 1], &stream.data[4..8]);
    assert_eq!(&[0, 0, 0, 49], &stream.data[24..28]);
    assert_eq!(&[0, 0, 0, 4], &stream.data[36..40]);
    assert_eq!(&[0, 0, 1, 0], &stream.data[8..12]);
}

#[test]
fn mtxt_footer_rejects_bad_magic() {
    let footer = sample_footer();
    let mut stream = Stream::new();
    write_mtxt_footer(&footer, &mut stream, Endian::Big);
    stream.data[111] = 0;
    let err = parse_mtxt_footer(&stream, 0, Endian::Big).unwrap_err();
    assert_eq!(MtxtError::UnsupportedValue, err);
}

#[test]
fn mtxt_footer_rejects_unknown_format() {
    let footer = sample_footer();
    let mut stream = Stream::new();
    write_mtxt_footer(&footer, &mut stream, Endian::Big);
    stream.data[27] = 99;
    let err = parse_mtxt_footer(&stream, 0, Endian::Big).unwrap_err();
    assert_eq!(MtxtError::UnsupportedValue, err);
}

#[test]
fn mtxt_container_round_trip() {
    let m = Mtxt {
        image_data: vec![0xab; 64],
        footer: sample_footer(),
    };
    let mut stream = Stream::new();
    m.write_to(&mut stream, Endian::Big);
    assert_eq!(64 + 112, stream.data.len());
    let back = Mtxt::from_bytes(&stream, Endian::Big).unwrap();
    assert_eq!(m, back);
}

#[test]
fn mtxt_truncated() {
    let stream = Stream {
        data: vec![0; 50],
    };
    let err = Mtxt::from_bytes(&stream, Endian::Big).unwrap_err();
    assert_eq!(MtxtError::Truncated, err);
}

#[test]
fn block_dim() {
    assert_eq!((1, 1), SurfaceFormat::R8G8B8A8Unorm.block_dim());
    assert_eq!((4, 4), SurfaceFormat::BC1Unorm.block_dim());
    assert_eq!((4, 4), SurfaceFormat::BC5Unorm.block_dim());
}

#[test]
fn bytes_per_pixel() {
    assert_eq!(4, SurfaceFormat::R8G8B8A8Unorm.bytes_per_pixel());
    assert_eq!(8, SurfaceFormat::BC1Unorm.bytes_per_pixel());
    assert_eq!(16, SurfaceFormat::BC2Unorm.bytes_per_pixel());
    assert_eq!(16, SurfaceFormat::BC3Unorm.bytes_per_pixel());
    assert_eq!(8, SurfaceFormat::BC4Unorm.bytes_per_pixel());
    assert_eq!(16, SurfaceFormat::BC5Unorm.bytes_per_pixel());
}

#[test]
fn texture_layers() {
    let mut t = ImageTexture {
        name: None,
        usage: Some(TextureUsage::Col),
        width: 4,
        height: 4,
        depth: 1,
        view_dimension: ViewDimension::Cube,
        image_format: ImageFormat::BC1Unorm,
        mipmap_count: 1,
        image_data: vec![0; 8],
    };
    assert_eq!(6, t.layers());
    t.view_dimension = ViewDimension::D2;
    assert_eq!(1, t.layers());
    t.view_dimension = ViewDimension::D3;
    assert_eq!(1, t.layers());
}

#[test]
fn mtxt_format_mapping() {
    assert_eq!(
        ImageFormat::R8G8B8A8Unorm,
        mtxt_image_format(SurfaceFormat::R8G8B8A8Unorm)
    );
    assert_eq!(ImageFormat::BC4Unorm, mtxt_image_format(SurfaceFormat::BC4Unorm));
}

#[test]
fn mtxt_usage_mapping() {
    assert_eq!(Some(TextureUsage::Nrm), mtxt_usage(LegacyTextureUsage::Nrm));
    assert_eq!(Some(TextureUsage::Nrm), mtxt_usage(LegacyTextureUsage::Nrm2));
    assert_eq!(Some(TextureUsage::Col), mtxt_usage(LegacyTextureUsage::Col));
    assert_eq!(Some(TextureUsage::Col), mtxt_usage(LegacyTextureUsage::Unk32));
    assert_eq!(None, mtxt_usage(LegacyTextureUsage::Spm));
    assert_eq!(None, mtxt_usage(LegacyTextureUsage::Cube));
}

fn key_with_stencil(v: StencilValue) -> PipelineKey {
    PipelineKey {
        pass_type: RenderPassType::Unk0,
        flags: StateFlags {
            depth_func: DepthFunc::LessEqual,
            cull_mode: CullMode::Back,
            blend_mode: BlendMode::Disabled,
            stencil_value: v,
            stencil_mode: StencilMode::Unk0,
        },
        is_outline: false,
        output5_type: Output5Type::Specular,
    }
}

#[test]
fn stencil_reference_values() {
    assert_eq!(10, key_with_stencil(StencilValue::Unk0).stencil_reference());
    assert_eq!(14, key_with_stencil(StencilValue::Unk4).stencil_reference());
    assert_eq!(74, key_with_stencil(StencilValue::Unk16).stencil_reference());
    assert_eq!(0, key_with_stencil(StencilValue::Unk1).stencil_reference());
    assert_eq!(0, key_with_stencil(StencilValue::Unk105).stencil_reference());
}

#[test]
fn write_to_all_outputs() {
    let mut key = key_with_stencil(StencilValue::Unk0);
    assert!(key.write_to_all_outputs());
    key.pass_type = RenderPassType::Unk1;
    assert!(!key.write_to_all_outputs());
}

#[test]
fn should_render_lod_cases() {
    assert!(should_render_lod(3, &None));
    assert!(should_render_lod(1, &Some(vec![0, 3])));
    assert!(!should_render_lod(2, &Some(vec![0, 3])));
    assert!(should_render_lod(4, &Some(vec![0, 3])));
    assert!(should_render_lod(0, &Some(vec![0])));
}

#[test]
fn material_sampler_indices() {
    assert_eq!(Some(0), material_sampler_index("s0"));
    assert_eq!(Some(9), material_sampler_index("s9"));
    assert_eq!(None, material_sampler_index("s10"));
    assert_eq!(None, material_sampler_index("t0"));
    assert_eq!(None, material_sampler_index(""));
    assert_eq!(None, material_sampler_index("gTResidentTex05"));
}

#[test]
fn plain_records_hold_their_fields() {
    let rec = Offset::new(12, 3, 16);
    assert_eq!(12, rec.position);
    assert_eq!(3, rec.field_index);
    assert_eq!(16, rec.field_alignment);

    let key = BufferKey {
        root_index: 0,
        group_index: 1,
        buffers_index: 2,
        buffer_index: 3,
    };
    let wkey = WeightGroupKey {
        weights_start_index: 4,
        flags2: 5,
        buffer: key,
    };
    let group = WeightGroup {
        weights: 7,
        indices: 8,
    };
    assert_eq!(3, wkey.buffer.buffer_index);
    assert_eq!((7, 8), (group.weights, group.indices));

    let ib = IndexBuffer {
        indices: vec![0, 1, 2, 2, 1, 3],
    };
    assert_eq!(6, ib.indices.len());

    let dep = BufferDependency {
        name: "U_Mate".to_string(),
        field: "gWrkFl4".to_string(),
        index: 0,
        channels: "x".to_string(),
    };
    let tex = TextureDependency {
        name: "s0".to_string(),
        channels: "xyz".to_string(),
    };
    assert_eq!("U_Mate", dep.name);
    assert_eq!("xyz", tex.channels);

    let item = SubDataItem {
        unk1: 0,
        flag: 1,
        vertex_buffer_index: 2,
        index_buffer_index: 3,
        unk_index: -1,
        material_index: 4,
        unk2: 0,
        unk3: 0,
        unk4: 0,
        unk5: 0,
        unk6: 0,
        unk7: 0,
        unk8: 0,
        unk9: 0,
        unks: [0; 8],
    };
    assert_eq!(-1, item.unk_index);
}
