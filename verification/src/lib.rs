//! A verified engine for binary container formats whose internal structure is
//! a graph of relatively-addressed pointers ("offsets"): fields store an
//! integer offset that is added to a contextual base address to find the real
//! location of referenced data, and containers nest arbitrarily.
//!
//! The crate provides the primitive scalar codec, the pointer-chasing reader,
//! and the deferred offset-patching writer.  The laws module states and
//! proves the guarantees the codec gives: the round trip — a freshly
//! written buffer parses back to the original value — and the monotonic
//! cursor, alignment, null encoding, shared offset and count fidelity
//! properties.  Beside the codec stand small verified helpers for the
//! formats built on it: texture footers, render state keys and model
//! lookups.

pub mod gltf;
pub mod laws;
pub mod model;
pub mod mtxt;
pub mod pipeline;
pub mod read;
pub mod schema;
pub mod stream;
pub mod texture;
pub mod write;

pub use gltf::BufferKey;
pub use gltf::WeightGroup;
pub use gltf::WeightGroupKey;
pub use model::BufferDependency;
pub use model::IndexBuffer;
pub use model::SubDataItem;
pub use model::TextureDependency;
pub use model::material_sampler_index;
pub use model::should_render_lod;
pub use mtxt::Mtxt;
pub use mtxt::MtxtFooter;
pub use mtxt::SurfaceDim;
pub use mtxt::SurfaceFormat;
pub use mtxt::TileMode;
pub use pipeline::Output5Type;
pub use pipeline::PipelineKey;
pub use pipeline::StateFlags;
pub use schema::BaseKind;
pub use schema::ContainerSchema;
pub use schema::ContainerValue;
pub use schema::CountOrder;
pub use schema::FieldSchema;
pub use schema::FieldValue;
pub use schema::PayloadSchema;
pub use schema::PayloadValue;
pub use texture::ImageTexture;
pub use texture::TextureUsage;
pub use texture::ViewDimension;
pub use texture::mtxt_image_format;
pub use texture::mtxt_usage;
pub use read::read_container;
pub use write::align;
pub use write::write_full;
pub use write::write_skeleton;
pub use stream::Endian;
pub use stream::Stream;
pub use stream::Width;
pub use write::Error;
pub use write::Offset;
pub use write::round_up;
