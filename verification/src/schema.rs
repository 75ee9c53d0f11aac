//! The data model of the pointer-graph codec.
//!
//! A container is a sequence of fields.  Inline fields (scalars, fixed
//! arrays) occupy bytes of the container itself; pointer fields store an
//! offset relative to the container's base address and own data placed
//! elsewhere.  The schema describes the layout; a value holds the data.
//! Every schema/value pair is connected by [`conforms`], and every schema
//! carries its own well-formedness predicate [`schema_wf`].

use vstd::prelude::*;

use crate::stream::Endian;
use crate::stream::Width;
use crate::stream::scalar_bytes;
use crate::stream::zero_bytes;

verus! {

/// Which base address the offsets of a child container are relative to:
/// its own first byte, or the base forwarded from the enclosing container.
#[derive(Debug, Clone, Copy, PartialEq, Eq, Structural)]
pub enum BaseKind {
    Establish,
    Forward,
}

/// Field order of an offset + count pair: both orders appear in real
/// schemas and are supported.
#[derive(Debug, Clone, Copy, PartialEq, Eq, Structural)]
pub enum CountOrder {
    CountFirst,
    OffsetFirst,
}

/// Layout description of one container: its fields in declaration order.
#[derive(Debug, PartialEq, Eq)]
pub struct ContainerSchema {
    pub fields: Vec<FieldSchema>,
}

/// Layout description of one field.
#[derive(Debug, PartialEq, Eq)]
pub enum FieldSchema {
    /// An inline scalar of the given width.
    Scalar { width: Width },
    /// A fixed-size inline byte array (also used for magic tags).
    FixedBytes { len: usize },
    /// An offset field owning zero or one pointed-to payload.  A stored
    /// value of zero means "absent" when `nullable` is set.
    OffsetField {
        width: Width,
        nullable: bool,
        /// Field-level alignment override; may be stricter than the
        /// payload's own alignment, never relaxes it.
        field_align: usize,
        /// Byte used to fill alignment padding before the payload.
        pad_byte: u8,
        payload: PayloadSchema,
    },
    /// A 32-bit offset paired with an inline 32-bit element count.
    CountOffset {
        order: CountOrder,
        elem_width: Width,
        field_align: usize,
        pad_byte: u8,
    },
    /// An offset that owns no data: its value must equal the resolved
    /// value of the earlier sibling field `alias`.
    SharedOffset { width: Width, alias: usize },
}

/// Layout description of pointed-to data.
#[derive(Debug, PartialEq, Eq)]
pub enum PayloadSchema {
    /// Raw bytes of a schema-fixed length.
    Bytes { len: usize, align: usize },
    /// Null-terminated string bytes.
    CStr { align: usize },
    /// A nested container, optionally establishing its own base address.
    Container { base: BaseKind, align: usize, schema: ContainerSchema },
}

/// One container value: its field values in declaration order.
#[derive(Debug, PartialEq, Eq)]
pub struct ContainerValue {
    pub fields: Vec<FieldValue>,
}

/// One field value, mirroring [`FieldSchema`].
#[derive(Debug, PartialEq, Eq)]
pub enum FieldValue {
    Scalar { value: u64 },
    FixedBytes { data: Vec<u8> },
    OffsetField { payload: Option<PayloadValue> },
    CountOffset { elems: Vec<u64> },
    SharedOffset,
}

/// Pointed-to data, mirroring [`PayloadSchema`].
#[derive(Debug, PartialEq, Eq)]
pub enum PayloadValue {
    Bytes { data: Vec<u8> },
    CStr { data: Vec<u8> },
    Container { value: ContainerValue },
}

/// Mathematical model of a container value.
pub ghost struct ContainerG {
    pub fields: Seq<FieldG>,
}

/// Mathematical model of a field value.
pub ghost enum FieldG {
    Scalar { value: u64 },
    FixedBytes { data: Seq<u8> },
    OffsetField { payload: Option<PayloadG> },
    CountOffset { elems: Seq<u64> },
    SharedOffset,
}

/// Mathematical model of pointed-to data.
pub ghost enum PayloadG {
    Bytes { data: Seq<u8> },
    CStr { data: Seq<u8> },
    Container { value: ContainerG },
}

pub open spec fn view_container(v: ContainerValue) -> ContainerG
    decreases v,
{
    ContainerG {
        fields: Seq::new(
            v.fields@.len(),
            |i: int|
                if 0 <= i < v.fields@.len() {
                    view_field(v.fields@[i])
                } else {
                    FieldG::SharedOffset
                },
        ),
    }
}

pub open spec fn view_field(f: FieldValue) -> FieldG
    decreases f,
{
    match f {
        FieldValue::Scalar { value } => FieldG::Scalar { value },
        FieldValue::FixedBytes { data } => FieldG::FixedBytes { data: data@ },
        FieldValue::OffsetField { payload } => FieldG::OffsetField {
            payload: match payload {
                Option::Some(p) => Option::Some(view_payload(p)),
                Option::None => Option::None,
            },
        },
        FieldValue::CountOffset { elems } => FieldG::CountOffset { elems: elems@ },
        FieldValue::SharedOffset => FieldG::SharedOffset,
    }
}

pub open spec fn view_payload(p: PayloadValue) -> PayloadG
    decreases p,
{
    match p {
        PayloadValue::Bytes { data } => PayloadG::Bytes { data: data@ },
        PayloadValue::CStr { data } => PayloadG::CStr { data: data@ },
        PayloadValue::Container { value } => PayloadG::Container { value: view_container(value) },
    }
}

impl View for ContainerValue {
    type V = ContainerG;

    open spec fn view(&self) -> ContainerG {
        view_container(*self)
    }
}

impl View for FieldValue {
    type V = FieldG;

    open spec fn view(&self) -> FieldG {
        view_field(*self)
    }
}

impl View for PayloadValue {
    type V = PayloadG;

    open spec fn view(&self) -> PayloadG {
        view_payload(*self)
    }
}

/// The larger of two alignments.
pub open spec fn nat_max(a: nat, b: nat) -> nat {
    if a >= b {
        a
    } else {
        b
    }
}

/// Does the value `g` have the shape that the schema `s` describes?
pub open spec fn conforms(g: ContainerG, s: ContainerSchema) -> bool
    decreases g,
{
    &&& g.fields.len() == s.fields@.len()
    &&& forall|i: int|
        0 <= i < g.fields.len() ==> field_conforms(#[trigger] g.fields[i], s.fields@[i])
}

pub open spec fn field_conforms(f: FieldG, fs: FieldSchema) -> bool
    decreases f,
{
    match fs {
        FieldSchema::Scalar { width } => f matches FieldG::Scalar { value } && value
            < width.max_val(),
        FieldSchema::FixedBytes { len } => f matches FieldG::FixedBytes { data } && data.len()
            == len,
        FieldSchema::OffsetField { nullable, payload: ps, .. } => match f {
            FieldG::OffsetField { payload } => match payload {
                Option::Some(p) => payload_conforms(p, ps),
                Option::None => nullable,
            },
            _ => false,
        },
        FieldSchema::CountOffset { elem_width, .. } => match f {
            FieldG::CountOffset { elems } => elems.len() < 0x1_0000_0000 && forall|k: int|
                0 <= k < elems.len() ==> (#[trigger] elems[k]) < elem_width.max_val(),
            _ => false,
        },
        FieldSchema::SharedOffset { .. } => f matches FieldG::SharedOffset,
    }
}

pub open spec fn payload_conforms(p: PayloadG, ps: PayloadSchema) -> bool
    decreases p,
{
    match ps {
        PayloadSchema::Bytes { len, .. } => p matches PayloadG::Bytes { data } && data.len()
            == len,
        PayloadSchema::CStr { .. } => match p {
            PayloadG::CStr { data } => forall|k: int| 0 <= k < data.len() ==> data[k] != 0u8,
            _ => false,
        },
        PayloadSchema::Container { schema, .. } => match p {
            PayloadG::Container { value } => conforms(value, schema),
            _ => false,
        },
    }
}

/// The offset width of an offset-bearing field, if the field is one.
pub open spec fn offset_width_of(fs: FieldSchema) -> Option<Width> {
    match fs {
        FieldSchema::OffsetField { width, .. } => Option::Some(width),
        FieldSchema::CountOffset { .. } => Option::Some(Width::W32),
        FieldSchema::SharedOffset { width, .. } => Option::Some(width),
        _ => Option::None,
    }
}

/// Well-formedness of one field description on its own: alignments are
/// at least one byte, recursively for nested payloads.
pub open spec fn field_wf(fs: FieldSchema) -> bool
    decreases fs, 0int,
{
    match fs {
        FieldSchema::Scalar { .. } => true,
        FieldSchema::FixedBytes { .. } => true,
        FieldSchema::OffsetField { field_align, payload, .. } => field_align >= 1 && payload_wf(
            payload,
        ),
        FieldSchema::CountOffset { field_align, .. } => field_align >= 1,
        FieldSchema::SharedOffset { .. } => true,
    }
}

/// A shared offset must alias an earlier offset-bearing sibling of the
/// same width.
pub open spec fn shared_wf(s: ContainerSchema, i: int) -> bool {
    match s.fields@[i] {
        FieldSchema::SharedOffset { width, alias } => 0 <= alias < i && offset_width_of(
            s.fields@[alias as int],
        ) == Option::Some(width),
        _ => true,
    }
}

pub open spec fn payload_wf(ps: PayloadSchema) -> bool
    decreases ps, 1int,
{
    match ps {
        PayloadSchema::Bytes { align, .. } => align >= 1,
        PayloadSchema::CStr { align } => align >= 1,
        PayloadSchema::Container { align, schema, .. } => align >= 1 && schema_wf(schema),
    }
}

/// Well-formedness of a whole schema: alignments are at least one byte,
/// and every shared offset aliases an earlier offset-bearing sibling of
/// the same width.
pub open spec fn schema_wf(s: ContainerSchema) -> bool
    decreases s, 1int,
{
    forall|i: int|
        0 <= i < s.fields@.len() ==> field_wf(#[trigger] s.fields@[i]) && shared_wf(s, i)
}

/// Bytes the field occupies inline in its container.
pub open spec fn field_inline_size(fs: FieldSchema) -> nat {
    match fs {
        FieldSchema::Scalar { width } => width.spec_nbytes(),
        FieldSchema::FixedBytes { len } => len as nat,
        FieldSchema::OffsetField { width, .. } => width.spec_nbytes(),
        FieldSchema::CountOffset { .. } => 8,
        FieldSchema::SharedOffset { width, .. } => width.spec_nbytes(),
    }
}

/// Sum of the inline sizes of the first `i` fields.
pub open spec fn prefix_size(s: ContainerSchema, i: int) -> nat
    decreases i,
{
    if i <= 0 {
        0
    } else {
        prefix_size(s, i - 1) + field_inline_size(s.fields@[i - 1])
    }
}

/// Total inline size of the container: the size of its skeleton.
pub open spec fn inline_size(s: ContainerSchema) -> nat {
    prefix_size(s, s.fields@.len() as int)
}

/// Distance from the start of the field's inline bytes to its offset
/// cell: nonzero only when an inline count precedes the offset.
pub open spec fn offset_cell_delta(fs: FieldSchema) -> nat {
    match fs {
        FieldSchema::CountOffset { order: CountOrder::CountFirst, .. } => 4,
        _ => 0,
    }
}

/// Absolute position of the offset cell of field `i`, for a container
/// whose first byte is at `start`.
pub open spec fn offset_cell_pos(s: ContainerSchema, start: nat, i: int) -> nat {
    start + prefix_size(s, i) + offset_cell_delta(s.fields@[i])
}

/// Intrinsic alignment the payload declares for itself.
pub open spec fn payload_align(ps: PayloadSchema) -> nat {
    match ps {
        PayloadSchema::Bytes { align, .. } => align as nat,
        PayloadSchema::CStr { align } => align as nat,
        PayloadSchema::Container { align, .. } => align as nat,
    }
}

/// The alignment the pointed-to data of field `i` must be placed at: the
/// payload's own alignment or the field-level override, whichever is
/// stricter.  Element arrays have intrinsic alignment one.
pub open spec fn field_eff_align(fs: FieldSchema) -> nat {
    match fs {
        FieldSchema::OffsetField { field_align, payload, .. } => nat_max(
            payload_align(payload),
            field_align as nat,
        ),
        FieldSchema::CountOffset { field_align, .. } => nat_max(1, field_align as nat),
        _ => 1,
    }
}

/// Padding byte used in front of the pointed-to data of field `i`.
pub open spec fn field_pad_byte(fs: FieldSchema) -> u8 {
    match fs {
        FieldSchema::OffsetField { pad_byte, .. } => pad_byte,
        FieldSchema::CountOffset { pad_byte, .. } => pad_byte,
        _ => 0u8,
    }
}

/// The inline bytes field `i` contributes during skeleton emission:
/// scalars and fixed arrays in final form, offset cells as zero
/// placeholders, counts in final form.
pub open spec fn field_inline_bytes(f: FieldG, fs: FieldSchema, e: Endian) -> Seq<u8> {
    match fs {
        FieldSchema::Scalar { width } => match f {
            FieldG::Scalar { value } => scalar_bytes(e, value as nat, width.spec_nbytes()),
            _ => Seq::empty(),
        },
        FieldSchema::FixedBytes { .. } => match f {
            FieldG::FixedBytes { data } => data,
            _ => Seq::empty(),
        },
        FieldSchema::OffsetField { width, .. } => zero_bytes(width.spec_nbytes()),
        FieldSchema::CountOffset { order, .. } => match f {
            FieldG::CountOffset { elems } => match order {
                CountOrder::CountFirst => scalar_bytes(e, elems.len(), 4) + zero_bytes(4),
                CountOrder::OffsetFirst => zero_bytes(4) + scalar_bytes(e, elems.len(), 4),
            },
            _ => Seq::empty(),
        },
        FieldSchema::SharedOffset { width, .. } => zero_bytes(width.spec_nbytes()),
    }
}

/// Does field `i` produce a pending offset record during skeleton
/// emission?  Nullable offsets with no value do not; phase two is a no-op
/// for them.
pub open spec fn field_pending(f: FieldG, fs: FieldSchema) -> bool {
    match fs {
        FieldSchema::Scalar { .. } => false,
        FieldSchema::FixedBytes { .. } => false,
        FieldSchema::OffsetField { .. } => !(f matches FieldG::OffsetField {
            payload: Option::None,
        }),
        FieldSchema::CountOffset { .. } => true,
        FieldSchema::SharedOffset { .. } => true,
    }
}

/// The offset cell of an offset-bearing field lies within the field's
/// own inline region.
pub proof fn lemma_cell_in_field(fs: FieldSchema)
    requires
        offset_width_of(fs) is Some,
    ensures
        offset_cell_delta(fs) + (offset_width_of(fs)->Some_0).spec_nbytes() <= field_inline_size(
            fs,
        ),
{
}

pub proof fn lemma_prefix_size_mono(s: ContainerSchema, i: int, j: int)
    requires
        0 <= i <= j,
    ensures
        prefix_size(s, i) <= prefix_size(s, j),
    decreases j - i,
{
    if i < j {
        lemma_prefix_size_mono(s, i, j - 1);
    }
}

/// The inline region of field `i` lies within the skeleton.
pub proof fn lemma_field_region_in_skeleton(s: ContainerSchema, i: int)
    requires
        0 <= i < s.fields@.len(),
    ensures
        prefix_size(s, i) + field_inline_size(s.fields@[i]) <= inline_size(s),
    decreases s.fields@.len() - i,
{
    lemma_prefix_size_mono(s, i + 1, s.fields@.len() as int);
}

} // verus!
