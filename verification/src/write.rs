//! The deferred offset-patching writer.
//!
//! Writing one container proceeds in two phases.  Phase one emits the
//! skeleton: inline fields in final form and zero placeholders for every
//! offset cell, producing a pending offset record per pointer field.
//! Phase two processes the pending records in creation order: it aligns
//! the data cursor, patches the placeholder with `target - base`, and
//! places the pointed-to data, recursing for nested containers.  The
//! data cursor is the stream length throughout: it never decreases.
//!
//! [`write_from`] is the functional description of phase two that the
//! executable writer is proved against.
//!
//! Misuse of the two-phase discipline — resolving an offset before its
//! target is placed, or an alignment below one — cannot arise here: the
//! writer demands a well-formed schema up front, and the placement
//! order is fixed by construction.

use vstd::prelude::*;

use crate::schema::BaseKind;
use crate::schema::ContainerG;
use crate::schema::ContainerSchema;
use crate::schema::ContainerValue;
use crate::schema::FieldValue;
use crate::schema::PayloadValue;
use crate::schema::CountOrder;
use crate::schema::FieldG;
use crate::schema::FieldSchema;
use crate::schema::PayloadG;
use crate::schema::PayloadSchema;
use crate::schema::conforms;
use crate::schema::field_conforms;
use crate::schema::field_eff_align;
use crate::schema::field_inline_bytes;
use crate::schema::field_inline_size;
use crate::schema::field_pad_byte;
use crate::schema::field_pending;
use crate::schema::field_wf;
use crate::schema::inline_size;
use crate::schema::nat_max;
use crate::schema::offset_cell_pos;
use crate::schema::offset_width_of;
use crate::schema::payload_align;
use crate::schema::payload_conforms;
use crate::schema::payload_wf;
use crate::schema::prefix_size;
use crate::schema::schema_wf;
use crate::schema::shared_wf;
use crate::stream::Endian;
use crate::stream::Stream;
use crate::stream::Width;
use crate::stream::repeat_byte;
use crate::stream::scalar_bytes;
use crate::stream::scalar_val;

verus! {

/// Errors of the codec.  Read-side errors carry the declared base and the
/// raw stored value of the offending field; write-side errors report an
/// offset that cannot be encoded in its declared width or a stream that
/// outgrew the address space.
#[derive(Debug, Clone, Copy, PartialEq, Eq, Structural)]
pub enum Error {
    /// An offset resolved outside the buffer, failed its required
    /// alignment, or disagreed with its aliased sibling on read.
    MalformedOffset { base: u64, raw: u64 },
    /// Not enough bytes remain to satisfy a fixed-size read.
    TruncatedData { pos: u64, len: u64 },
    /// A pointed-to string has no terminator before the end of the buffer.
    UnterminatedString { pos: u64 },
    /// `target - base` does not fit the declared offset width on write.
    UnencodableOffset { base: u64, target: u64 },
    /// Aligning the data cursor would overflow the address space.
    SizeOverflow,
}

/// `x` rounded up to the next multiple of `n`.
pub open spec fn round_up_spec(x: nat, n: nat) -> nat
    recommends
        n >= 1,
{
    ((x + n - 1) / (n as int) * (n as int)) as nat
}

pub proof fn lemma_round_up(x: nat, n: nat)
    requires
        n >= 1,
    ensures
        round_up_spec(x, n) >= x,
        round_up_spec(x, n) < x + n,
        round_up_spec(x, n) as int % (n as int) == 0,
{
    let y: int = x + n - 1;
    let d: int = n as int;
    vstd::arithmetic::div_mod::lemma_fundamental_div_mod(y, d);
    vstd::arithmetic::div_mod::lemma_mod_division_less_than_divisor(y, d);
    vstd::arithmetic::div_mod::lemma_mod_multiples_basic(y / d, d);
}

/// Rounds `x` up to the next multiple of `n`.
///
/// This is the alignment step of phase two: the data cursor is rounded up
/// before a pointed-to value is placed.
pub fn round_up(x: u64, n: u64) -> (r: u64)
    requires
        n >= 1,
        x + n - 1 <= u64::MAX,
    ensures
        r == round_up_spec(x as nat, n as nat),
{
    let y = x + (n - 1);
    proof {
        assert((y as int) / (n as int) * (n as int) <= y as int) by (nonlinear_arith)
            requires
                n >= 1,
                y >= 0,
        ;
    }
    y / n * n
}

/// `round_up` with an explicit overflow check, on stream positions.
fn round_up_checked(x: usize, n: usize) -> (r: Option<usize>)
    requires
        n >= 1,
    ensures
        match r {
            Option::Some(v) => x + n - 1 <= usize::MAX && v == round_up_spec(x as nat, n as nat),
            Option::None => x + n - 1 > usize::MAX,
        },
{
    match x.checked_add(n - 1) {
        Option::Some(y) => {
            proof {
                assert((y as int) / (n as int) * (n as int) <= y as int) by (nonlinear_arith)
                    requires
                        n >= 1,
                        y >= 0,
                ;
            }
            Option::Some(y / n * n)
        },
        Option::None => Option::None,
    }
}

/// Pads the stream with zero bytes up to the next multiple of
/// `alignment`.
pub fn align(stream: &mut Stream, alignment: usize)
    requires
        alignment >= 1,
        old(stream)@.len() + alignment - 1 <= usize::MAX,
    ensures
        final(stream)@ == old(stream)@ + repeat_byte(
            0,
            (round_up_spec(old(stream)@.len(), alignment as nat) - old(stream)@.len()) as nat,
        ),
        final(stream)@.len() == round_up_spec(old(stream)@.len(), alignment as nat),
{
    let cur = stream.len();
    proof {
        lemma_round_up(cur as nat, alignment as nat);
    }
    let aligned = round_up_checked(cur, alignment).unwrap();
    stream.append_repeat(0, aligned - cur);
}

/// A pending offset record: phase-one output naming the stream position
/// of a placeholder offset cell, the field it belongs to, and the
/// field-level alignment override for the pointed-to data.
#[derive(Debug, Clone, Copy, PartialEq, Eq, Structural)]
pub struct Offset {
    /// The position in the stream of the placeholder offset cell.
    pub position: usize,
    /// The index of the field the placeholder belongs to.
    pub field_index: usize,
    /// Additional alignment applied at the field level.
    /// This may be stricter than the alignment of the pointed-to data.
    pub field_alignment: usize,
}

impl Offset {
    pub fn new(position: usize, field_index: usize, field_alignment: usize) -> (r: Offset)
        ensures
            r == (Offset { position, field_index, field_alignment }),
    {
        Offset { position, field_index, field_alignment }
    }
}

/// Is field `i` one that produced a pending offset record?
pub open spec fn is_pending_at(g: ContainerG, s: ContainerSchema, i: int) -> bool {
    0 <= i < g.fields.len() && i < s.fields@.len() && field_pending(g.fields[i], s.fields@[i])
}

/// How many fields before `i` produced pending offset records.
pub open spec fn pending_count(g: ContainerG, s: ContainerSchema, i: int) -> nat
    decreases i,
{
    if i <= 0 {
        0
    } else {
        pending_count(g, s, i - 1) + (if is_pending_at(g, s, i - 1) {
            1nat
        } else {
            0nat
        })
    }
}

/// The skeleton bytes of fields `i` onward.
pub open spec fn inline_bytes_from(g: ContainerG, s: ContainerSchema, e: Endian, i: int) -> Seq<u8>
    decreases s.fields@.len() - i,
{
    if !(0 <= i < s.fields@.len()) {
        Seq::empty()
    } else {
        field_inline_bytes(g.fields[i], s.fields@[i], e) + inline_bytes_from(g, s, e, i + 1)
    }
}

/// The whole skeleton of the container: what phase one appends.
pub open spec fn container_inline_bytes(g: ContainerG, s: ContainerSchema, e: Endian) -> Seq<u8> {
    inline_bytes_from(g, s, e, 0)
}

/// The contiguous bytes of an element array.
pub open spec fn elems_bytes(es: Seq<u64>, w: Width, e: Endian) -> Seq<u8>
    decreases es.len(),
{
    if es.len() == 0 {
        Seq::empty()
    } else {
        scalar_bytes(e, es[0] as nat, w.spec_nbytes()) + elems_bytes(es.drop_first(), w, e)
    }
}

/// `buf` with the bytes at `p` replaced by `bs`.
pub open spec fn patch_bytes(buf: Seq<u8>, p: nat, bs: Seq<u8>) -> Seq<u8>
    recommends
        p + bs.len() <= buf.len(),
{
    buf.subrange(0, p as int) + bs + buf.subrange((p + bs.len()) as int, buf.len() as int)
}

/// Phase two from field `i` on: the state of the stream after the pending
/// records of fields `i..` have been placed and patched, starting from a
/// stream whose skeleton begins at `start` and whose offsets are relative
/// to `base`.
pub open spec fn write_from(
    buf: Seq<u8>,
    g: ContainerG,
    s: ContainerSchema,
    start: nat,
    base: nat,
    e: Endian,
    i: int,
) -> Result<Seq<u8>, Error>
    decreases g, 0int, s.fields@.len() - i, 1int,
{
    if !(0 <= i < s.fields@.len() && i < g.fields.len()) {
        Result::Ok(buf)
    } else {
        match write_step(buf, g, s, start, base, e, i) {
            Result::Ok(buf2) => write_from(buf2, g, s, start, base, e, i + 1),
            Result::Err(er) => Result::Err(er),
        }
    }
}

/// The placement of the pending record of field `i` alone: a no-op for
/// inline fields and absent nullable offsets.
pub open spec fn write_step(
    buf: Seq<u8>,
    g: ContainerG,
    s: ContainerSchema,
    start: nat,
    base: nat,
    e: Endian,
    i: int,
) -> Result<Seq<u8>, Error>
    decreases g, 0int, s.fields@.len() - i, 0int,
{
    if !(0 <= i < s.fields@.len() && i < g.fields.len()) {
        Result::Ok(buf)
    } else if !field_pending(g.fields[i], s.fields@[i]) {
        Result::Ok(buf)
    } else {
        match s.fields@[i] {
            FieldSchema::SharedOffset { width, alias } => {
                let wb = width.spec_nbytes();
                let apos = offset_cell_pos(s, start, alias as int);
                let raw = scalar_val(e, buf.subrange(apos as int, (apos + wb) as int));
                let cell = offset_cell_pos(s, start, i);
                Result::Ok(patch_bytes(buf, cell, scalar_bytes(e, raw, wb)))
            },
            _ => {
                let width = offset_width_of(s.fields@[i])->Some_0;
                let a = field_eff_align(s.fields@[i]);
                let cur = buf.len();
                if cur + a - 1 > usize::MAX {
                    Result::Err(Error::SizeOverflow)
                } else {
                    let target = round_up_spec(cur, a);
                    let rawi: int = target - base;
                    if !(0 <= rawi < width.max_val()) {
                        Result::Err(
                            Error::UnencodableOffset { base: base as u64, target: target as u64 },
                        )
                    } else {
                        let cell = offset_cell_pos(s, start, i);
                        let buf2 = patch_bytes(
                            buf,
                            cell,
                            scalar_bytes(e, rawi as nat, width.spec_nbytes()),
                        );
                        let buf3 = buf2 + repeat_byte(
                            field_pad_byte(s.fields@[i]),
                            (target - cur) as nat,
                        );
                        write_field_payload(buf3, g.fields[i], s.fields@[i], base, e)
                    }
                }
            },
        }
    }
}

/// Place the pointed-to data of one pending field at the end of `buf`.
pub open spec fn write_field_payload(
    buf: Seq<u8>,
    f: FieldG,
    fs: FieldSchema,
    base: nat,
    e: Endian,
) -> Result<Seq<u8>, Error>
    decreases f, 1int, 0int, 0int,
{
    match fs {
        FieldSchema::OffsetField { payload: ps, .. } => match f {
            FieldG::OffsetField { payload: Option::Some(p) } => write_payload(buf, p, ps, base, e),
            _ => Result::Ok(buf),
        },
        FieldSchema::CountOffset { elem_width, .. } => match f {
            FieldG::CountOffset { elems } => Result::Ok(buf + elems_bytes(elems, elem_width, e)),
            _ => Result::Ok(buf),
        },
        _ => Result::Ok(buf),
    }
}

/// Place one payload at the end of `buf`: raw bytes as they are, string
/// bytes with their terminator, a nested container by a full recursive
/// write, relative to its own start or to the forwarded base.
pub open spec fn write_payload(
    buf: Seq<u8>,
    p: PayloadG,
    ps: PayloadSchema,
    base: nat,
    e: Endian,
) -> Result<Seq<u8>, Error>
    decreases p, 2int, 0int, 0int,
{
    match ps {
        PayloadSchema::Bytes { .. } => match p {
            PayloadG::Bytes { data } => Result::Ok(buf + data),
            _ => Result::Ok(buf),
        },
        PayloadSchema::CStr { .. } => match p {
            PayloadG::CStr { data } => Result::Ok(buf + data + seq![0u8]),
            _ => Result::Ok(buf),
        },
        PayloadSchema::Container { base: bk, schema: cs, .. } => match p {
            PayloadG::Container { value } => {
                let child_base = if bk is Establish {
                    buf.len()
                } else {
                    base
                };
                write_spec(buf, value, cs, child_base, e)
            },
            _ => Result::Ok(buf),
        },
    }
}

/// The whole two-phase write of one container at the end of `buf`: the
/// skeleton is appended, then phase two runs over the pending records in
/// creation order.
pub open spec fn write_spec(
    buf: Seq<u8>,
    g: ContainerG,
    s: ContainerSchema,
    base: nat,
    e: Endian,
) -> Result<Seq<u8>, Error>
    decreases g, 1int, 0int, 0int,
{
    let buf1 = buf + container_inline_bytes(g, s, e);
    write_from(buf1, g, s, buf.len(), base, e, 0)
}


/// The facts phase one records about the pending record of field `j`.
pub open spec fn pending_rec_ok(
    pend: Seq<Offset>,
    g: ContainerG,
    s: ContainerSchema,
    start: nat,
    j: int,
) -> bool {
    let k = pending_count(g, s, j) as int;
    &&& k < pend.len()
    &&& pend[k].field_index == j
    &&& pend[k].position == offset_cell_pos(s, start, j)
    &&& pend[k].field_alignment == field_eff_align(s.fields@[j])
}

pub proof fn lemma_width_max_vals()
    ensures
        Width::W8.max_val() == 0x100,
        Width::W16.max_val() == 0x1_0000,
        Width::W32.max_val() == 0x1_0000_0000,
        Width::W64.max_val() == 0x1_0000_0000_0000_0000,
{
    reveal_with_fuel(crate::stream::p256, 9);
}

/// Does `v` fit the scalar width `w`?
pub(crate) fn width_fits(v: u64, w: Width) -> (r: bool)
    ensures
        r == (v < w.max_val()),
{
    proof {
        lemma_width_max_vals();
    }
    match w {
        Width::W8 => v < 0x100,
        Width::W16 => v < 0x1_0000,
        Width::W32 => v < 0x1_0000_0000,
        Width::W64 => true,
    }
}

pub(crate) fn payload_align_exec(ps: &PayloadSchema) -> (r: usize)
    ensures
        r as nat == payload_align(*ps),
{
    match ps {
        PayloadSchema::Bytes { align, .. } => *align,
        PayloadSchema::CStr { align } => *align,
        PayloadSchema::Container { align, .. } => *align,
    }
}

pub(crate) fn field_size_exec(fs: &FieldSchema) -> (r: usize)
    ensures
        r as nat == field_inline_size(*fs),
{
    match fs {
        FieldSchema::Scalar { width } => width.nbytes(),
        FieldSchema::FixedBytes { len } => *len,
        FieldSchema::OffsetField { width, .. } => width.nbytes(),
        FieldSchema::CountOffset { .. } => 8,
        FieldSchema::SharedOffset { width, .. } => width.nbytes(),
    }
}

pub(crate) fn usize_max(a: usize, b: usize) -> (r: usize)
    ensures
        r as nat == nat_max(a as nat, b as nat),
{
    if a >= b {
        a
    } else {
        b
    }
}

/// Absolute position of the offset cell of field `i` of a container whose
/// first byte is at `start`.
pub(crate) fn cell_pos_exec(s: &ContainerSchema, start: usize, i: usize) -> (r: usize)
    requires
        i < s.fields@.len(),
        start + prefix_size(*s, i as int) + field_inline_size(s.fields@[i as int]) <= usize::MAX,
    ensures
        r as nat == offset_cell_pos(*s, start as nat, i as int),
{
    let mut acc: usize = start;
    let mut j: usize = 0;
    while j < i
        invariant
            j <= i,
            i < s.fields@.len(),
            start + prefix_size(*s, i as int) + field_inline_size(s.fields@[i as int])
                <= usize::MAX,
            acc == start + prefix_size(*s, j as int),
        decreases i - j,
    {
        proof {
            crate::schema::lemma_prefix_size_mono(*s, j + 1, i as int);
        }
        acc = acc + field_size_exec(&s.fields[j]);
        j = j + 1;
    }
    match &s.fields[i] {
        FieldSchema::CountOffset { order: CountOrder::CountFirst, .. } => acc + 4,
        _ => acc,
    }
}

/// Phase one alone: emits the container's skeleton at the end of the
/// stream — inline fields in final form, zero placeholders for offset
/// cells — and returns the pending offset records in creation order.
/// The data cursor is advanced past the skeleton.
pub fn write_skeleton(
    value: &ContainerValue,
    schema: &ContainerSchema,
    stream: &mut Stream,
    data_ptr: &mut usize,
    endian: Endian,
) -> (pending: Vec<Offset>)
    requires
        schema_wf(*schema),
        conforms(value@, *schema),
        *old(data_ptr) <= old(stream)@.len(),
    ensures
        final(stream)@ == old(stream)@ + container_inline_bytes(value@, *schema, endian),
        final(stream)@.len() == old(stream)@.len() + inline_size(*schema),
        *final(data_ptr) == final(stream)@.len(),
        *final(data_ptr) >= *old(data_ptr),
        pending@.len() == pending_count(value@, *schema, schema.fields@.len() as int),
        forall|j: int|
            0 <= j < schema.fields@.len() && is_pending_at(value@, *schema, j)
                ==> pending_rec_ok(pending@, value@, *schema, old(stream)@.len(), j),
{
    let ghost g = value@;
    let ghost buf0 = old(stream)@;
    let start = stream.len();
    let n = value.fields.len();
    proof {
        assert(g.fields.len() == n);
        assert(schema.fields@.len() == n);
    }
    let mut pending: Vec<Offset> = Vec::new();
    let mut i: usize = 0;
    while i < n
        invariant
            schema_wf(*schema),
            conforms(g, *schema),
            g == value@,
            n == value.fields@.len(),
            g.fields.len() == n,
            schema.fields@.len() == n,
            i <= n,
            start == buf0.len(),
            stream@.len() == start + prefix_size(*schema, i as int),
            stream@ + inline_bytes_from(g, *schema, endian, i as int) == buf0
                + container_inline_bytes(g, *schema, endian),
            stream@.subrange(0, start as int) == buf0,
            pending@.len() == pending_count(g, *schema, i as int),
            forall|j: int|
                0 <= j < i && is_pending_at(g, *schema, j) ==> pending_rec_ok(
                    pending@,
                    g,
                    *schema,
                    start as nat,
                    j,
                ),
        decreases n - i,
    {
        let ghost pre = stream@;
        let fs = &schema.fields[i];
        let fv = &value.fields[i];
        proof {
            assert(g.fields[i as int] == crate::schema::view_field(value.fields@[i as int]));
            assert(field_conforms(g.fields[i as int], schema.fields@[i as int]));
        }
        match (fs, fv) {
            (FieldSchema::Scalar { width }, FieldValue::Scalar { value: v }) => {
                stream.append_scalar(endian, *width, *v);
            },
            (FieldSchema::FixedBytes { .. }, FieldValue::FixedBytes { data }) => {
                stream.append_vec(data);
            },
            (
                FieldSchema::OffsetField { width, field_align, payload: ps, .. },
                FieldValue::OffsetField { payload },
            ) => {
                if payload.is_some() {
                    let eff = usize_max(payload_align_exec(ps), *field_align);
                    pending.push(Offset::new(stream.len(), i, eff));
                }
                proof {
                    lemma_width_max_vals();
                    crate::stream::lemma_scalar_bytes_zero(endian, width.spec_nbytes());
                }
                stream.append_scalar(endian, *width, 0);
            },
            (
                FieldSchema::CountOffset { order, field_align, .. },
                FieldValue::CountOffset { elems },
            ) => {
                let count = elems.len() as u64;
                proof {
                    lemma_width_max_vals();
                    crate::stream::lemma_scalar_bytes_zero(endian, 4);
                    assert(field_eff_align(schema.fields@[i as int]) == nat_max(
                        1,
                        *field_align as nat,
                    ));
                }
                match order {
                    CountOrder::CountFirst => {
                        stream.append_scalar(endian, Width::W32, count);
                        pending.push(
                            Offset::new(stream.len(), i, usize_max(1, *field_align)),
                        );
                        stream.append_scalar(endian, Width::W32, 0);
                    },
                    CountOrder::OffsetFirst => {
                        pending.push(
                            Offset::new(stream.len(), i, usize_max(1, *field_align)),
                        );
                        stream.append_scalar(endian, Width::W32, 0);
                        stream.append_scalar(endian, Width::W32, count);
                    },
                }
            },
            (FieldSchema::SharedOffset { width, .. }, FieldValue::SharedOffset) => {
                pending.push(Offset::new(stream.len(), i, 1));
                proof {
                    lemma_width_max_vals();
                    crate::stream::lemma_scalar_bytes_zero(endian, width.spec_nbytes());
                }
                stream.append_scalar(endian, *width, 0);
            },
            _ => {
                proof {
                    assert(false);
                }
            },
        }
        proof {
            let ii = i as int;
            let fib = field_inline_bytes(g.fields[ii], schema.fields@[ii], endian);
            assert(stream@ =~= pre + fib);
            assert(inline_bytes_from(g, *schema, endian, ii) == fib + inline_bytes_from(
                g,
                *schema,
                endian,
                ii + 1,
            ));
            assert(stream@ + inline_bytes_from(g, *schema, endian, ii + 1) =~= pre
                + inline_bytes_from(g, *schema, endian, ii));
            assert(stream@.subrange(0, start as int) =~= buf0);
        }
        i = i + 1;
    }
    proof {
        assert(inline_bytes_from(g, *schema, endian, n as int) =~= Seq::<u8>::empty());
        assert(stream@ =~= buf0 + container_inline_bytes(g, *schema, endian));
        assert(stream@.len() == start + inline_size(*schema));
    }
    *data_ptr = stream.len();
    pending
}

/// Writes one container value and everything it points to: phase one
/// emits the skeleton and collects the pending offset records, phase two
/// places and backpatches them in creation order.
///
/// `base_offset` is the base address the container's offset fields are
/// relative to; `data_ptr` is the data cursor, which tracks the first
/// free byte and never decreases.
#[verifier::rlimit(100)]
pub fn write_full(
    value: &ContainerValue,
    schema: &ContainerSchema,
    stream: &mut Stream,
    base_offset: usize,
    data_ptr: &mut usize,
    endian: Endian,
) -> (r: Result<(), Error>)
    requires
        schema_wf(*schema),
        conforms(value@, *schema),
        base_offset <= old(stream)@.len(),
        *old(data_ptr) <= old(stream)@.len(),
    ensures
        final(stream)@.len() >= old(stream)@.len(),
        final(stream)@.subrange(0, old(stream)@.len() as int) == old(stream)@,
        *final(data_ptr) == final(stream)@.len(),
        *final(data_ptr) >= *old(data_ptr),
        match write_spec(old(stream)@, value@, *schema, base_offset as nat, endian) {
            Result::Ok(b2) => r == Result::Ok::<(), Error>(()) && final(stream)@ == b2,
            Result::Err(er) => r == Result::Err::<(), Error>(er),
        },
    decreases *value, 1int,
{
    let ghost g = value@;
    let ghost buf0 = old(stream)@;
    let start = stream.len();
    let n = value.fields.len();
    proof {
        assert(g.fields.len() == n);
        assert(schema.fields@.len() == n);
    }

    // Phase one: skeleton emission.
    let pending = write_skeleton(value, schema, stream, data_ptr, endian);
    let ghost buf1 = stream@;
    proof {
        assert(stream@.subrange(0, start as int) =~= buf0);
    }
    // Phase two: placement and backpatch, in record creation order.
    let mut k: usize = 0;
    let mut i2: usize = 0;
    while i2 < n
        invariant
            schema_wf(*schema),
            conforms(g, *schema),
            g == value@,
            n == value.fields@.len(),
            g.fields.len() == n,
            schema.fields@.len() == n,
            i2 <= n,
            start == buf0.len(),
            buf0 == old(stream)@,
            *old(data_ptr) <= start,
            base_offset <= start,
            stream@.len() >= start + inline_size(*schema),
            stream@.subrange(0, start as int) == buf0,
            buf1 == buf0 + container_inline_bytes(g, *schema, endian),
            buf1.len() == start + inline_size(*schema),
            pending@.len() == pending_count(g, *schema, n as int),
            k == pending_count(g, *schema, i2 as int),
            forall|j: int|
                0 <= j < n && is_pending_at(g, *schema, j) ==> pending_rec_ok(
                    pending@,
                    g,
                    *schema,
                    start as nat,
                    j,
                ),
            write_from(stream@, g, *schema, start as nat, base_offset as nat, endian, i2 as int)
                == write_from(buf1, g, *schema, start as nat, base_offset as nat, endian, 0),
            *data_ptr <= stream@.len(),
        decreases n - i2,
    {
        let ghost pre = stream@;
        let pend_here = match (&schema.fields[i2], &value.fields[i2]) {
            (FieldSchema::OffsetField { .. }, FieldValue::OffsetField { payload }) => {
                payload.is_some()
            },
            (FieldSchema::CountOffset { .. }, _) => true,
            (FieldSchema::SharedOffset { .. }, _) => true,
            _ => false,
        };
        proof {
            assert(g.fields[i2 as int] == crate::schema::view_field(value.fields@[i2 as int]));
            assert(field_conforms(g.fields[i2 as int], schema.fields@[i2 as int]));
            assert(pend_here == field_pending(g.fields[i2 as int], schema.fields@[i2 as int]));
        }
        if pend_here {
            proof {
                assert(is_pending_at(g, *schema, i2 as int));
                assert(pending_rec_ok(pending@, g, *schema, start as nat, i2 as int));
            }
            proof {
                vstd::std_specs::vec::axiom_spec_len(&pending);
            }
            let rec = pending[k];
            let res = place_pending_field(
                value,
                schema,
                stream,
                i2,
                rec,
                start,
                base_offset,
                data_ptr,
                endian,
            );
            match res {
                Result::Ok(()) => {
                    proof {
                        assert(stream@.subrange(0, start as int) =~= pre.subrange(
                            0,
                            start as int,
                        ));
                    }
                    k = k + 1;
                },
                Result::Err(er) => {
                    proof {
                        assert(write_from(
                            pre,
                            g,
                            *schema,
                            start as nat,
                            base_offset as nat,
                            endian,
                            i2 as int,
                        ) == Result::<Seq<u8>, Error>::Err(er));
                        assert(stream@.subrange(0, start as int) == buf0);
                        assert(stream@.subrange(0, buf0.len() as int) == buf0);
                    }
                    *data_ptr = stream.len();
                    return Result::Err(er);
                },
            }
        } else {
            proof {
                assert(write_step(
                    pre,
                    g,
                    *schema,
                    start as nat,
                    base_offset as nat,
                    endian,
                    i2 as int,
                ) == Result::<Seq<u8>, Error>::Ok(pre));
            }
        }
        i2 = i2 + 1;
    }
    *data_ptr = stream.len();
    Result::Ok(())
}

/// Places and backpatches the pending record of field `i`: the alignment,
/// patch, padding and payload-placement step of phase two.
#[verifier::rlimit(100)]
fn place_pending_field(
    value: &ContainerValue,
    schema: &ContainerSchema,
    stream: &mut Stream,
    i: usize,
    rec: Offset,
    start: usize,
    base_offset: usize,
    data_ptr: &mut usize,
    endian: Endian,
) -> (r: Result<(), Error>)
    requires
        schema_wf(*schema),
        conforms(value@, *schema),
        value@.fields.len() == schema.fields@.len(),
        value.fields@.len() == schema.fields@.len(),
        i < schema.fields@.len(),
        is_pending_at(value@, *schema, i as int),
        rec.position == offset_cell_pos(*schema, start as nat, i as int),
        rec.field_alignment == field_eff_align(schema.fields@[i as int]),
        base_offset <= start,
        start + inline_size(*schema) <= old(stream)@.len(),
        *old(data_ptr) <= old(stream)@.len(),
    ensures
        final(stream)@.len() >= old(stream)@.len(),
        final(stream)@.subrange(0, start as int) == old(stream)@.subrange(0, start as int),
        final(stream)@.len() >= start + inline_size(*schema),
        *final(data_ptr) <= final(stream)@.len(),
        *final(data_ptr) >= *old(data_ptr),
        match write_step(
            old(stream)@,
            value@,
            *schema,
            start as nat,
            base_offset as nat,
            endian,
            i as int,
        ) {
            Result::Ok(b) => r == Result::Ok::<(), Error>(()) && final(stream)@ == b,
            Result::Err(er) => r == Result::Err::<(), Error>(er),
        },
    decreases *value, 0int,
{
    let ghost g = value@;
    let ghost pre = stream@;
    let fs = &schema.fields[i];
    let fv = &value.fields[i];
    proof {
        assert(g.fields[i as int] == crate::schema::view_field(value.fields@[i as int]));
        assert(field_conforms(g.fields[i as int], schema.fields@[i as int]));
        assert(field_wf(schema.fields@[i as int]));
        assert(shared_wf(*schema, i as int));
        crate::schema::lemma_field_region_in_skeleton(*schema, i as int);
        vstd::std_specs::vec::axiom_spec_len(&stream.data);
    }
    match (fs, fv) {
        (FieldSchema::SharedOffset { width, alias }, FieldValue::SharedOffset) => {
            proof {
                crate::schema::lemma_field_region_in_skeleton(*schema, *alias as int);
            }
            let apos = cell_pos_exec(schema, start, *alias);
            let raw = stream.get_scalar(apos, endian, *width);
            stream.patch_scalar(rec.position, endian, *width, raw);
            proof {
                assert(stream@.subrange(0, start as int) =~= pre.subrange(0, start as int));
            }
            Result::Ok(())
        },
        (
            FieldSchema::OffsetField { width, pad_byte, payload: ps, .. },
            FieldValue::OffsetField { payload },
        ) => {
            let a = rec.field_alignment;
            let cur = stream.len();
            match round_up_checked(cur, a) {
                Option::None => Result::Err(Error::SizeOverflow),
                Option::Some(target) => {
                    proof {
                        lemma_round_up(cur as nat, a as nat);
                    }
                    let raw = target - base_offset;
                    if !width_fits(raw as u64, *width) {
                        return Result::Err(
                            Error::UnencodableOffset {
                                base: base_offset as u64,
                                target: target as u64,
                            },
                        );
                    }
                    stream.patch_scalar(rec.position, endian, *width, raw as u64);
                    stream.append_repeat(*pad_byte, target - cur);
                    let ghost buf3 = stream@;
                    match payload {
                        Option::Some(p) => {
                            let res = place_payload(
                                p,
                                ps,
                                stream,
                                base_offset,
                                data_ptr,
                                endian,
                            );
                            proof {
                                assert(stream@.subrange(0, start as int) =~= pre.subrange(
                                    0,
                                    start as int,
                                ));
                            }
                            res
                        },
                        Option::None => {
                            proof {
                                assert(false);
                            }
                            Result::Ok(())
                        },
                    }
                },
            }
        },
        (
            FieldSchema::CountOffset { elem_width, pad_byte, .. },
            FieldValue::CountOffset { elems },
        ) => {
            let a = rec.field_alignment;
            let cur = stream.len();
            match round_up_checked(cur, a) {
                Option::None => Result::Err(Error::SizeOverflow),
                Option::Some(target) => {
                    proof {
                        lemma_round_up(cur as nat, a as nat);
                        lemma_width_max_vals();
                    }
                    let raw = target - base_offset;
                    if !width_fits(raw as u64, Width::W32) {
                        return Result::Err(
                            Error::UnencodableOffset {
                                base: base_offset as u64,
                                target: target as u64,
                            },
                        );
                    }
                    stream.patch_scalar(rec.position, endian, Width::W32, raw as u64);
                    stream.append_repeat(*pad_byte, target - cur);
                    let ghost buf3 = stream@;
                    let ghost es = elems@;
                    let m = elems.len();
                    proof {
                        assert(es.subrange(0, m as int) =~= es);
                    }
                    let mut j: usize = 0;
                    while j < m
                        invariant
                            j <= m,
                            m == elems@.len(),
                            es == elems@,
                            forall|q: int|
                                0 <= q < es.len() ==> (#[trigger] es[q]) < elem_width.max_val(),
                            stream@ + elems_bytes(
                                es.subrange(j as int, m as int),
                                *elem_width,
                                endian,
                            ) == buf3 + elems_bytes(es, *elem_width, endian),
                            stream@.len() >= buf3.len(),
                        decreases m - j,
                    {
                        let ghost spre = stream@;
                        stream.append_scalar(endian, *elem_width, elems[j]);
                        proof {
                            let suffix = es.subrange(j as int, m as int);
                            assert(suffix.drop_first() =~= es.subrange(j + 1, m as int));
                            assert(elems_bytes(suffix, *elem_width, endian)
                                == crate::stream::scalar_bytes(
                                endian,
                                es[j as int] as nat,
                                elem_width.spec_nbytes(),
                            ) + elems_bytes(es.subrange(j + 1, m as int), *elem_width, endian));
                            assert(stream@ + elems_bytes(
                                es.subrange(j + 1, m as int),
                                *elem_width,
                                endian,
                            ) =~= spre + elems_bytes(suffix, *elem_width, endian));
                        }
                        j = j + 1;
                    }
                    proof {
                        assert(es.subrange(m as int, m as int) =~= Seq::<u64>::empty());
                        assert(stream@ =~= buf3 + elems_bytes(es, *elem_width, endian));
                        assert(stream@.subrange(0, start as int) =~= pre.subrange(
                            0,
                            start as int,
                        ));
                    }
                    Result::Ok(())
                },
            }
        },
        _ => {
            proof {
                assert(false);
            }
            Result::Ok(())
        },
    }
}

/// Places one pointed-to payload at the end of the stream.
fn place_payload(
    p: &PayloadValue,
    ps: &PayloadSchema,
    stream: &mut Stream,
    base_offset: usize,
    data_ptr: &mut usize,
    endian: Endian,
) -> (r: Result<(), Error>)
    requires
        payload_wf(*ps),
        payload_conforms(p@, *ps),
        base_offset <= old(stream)@.len(),
        *old(data_ptr) <= old(stream)@.len(),
    ensures
        final(stream)@.len() >= old(stream)@.len(),
        final(stream)@.subrange(0, old(stream)@.len() as int) == old(stream)@,
        *final(data_ptr) <= final(stream)@.len(),
        *final(data_ptr) >= *old(data_ptr),
        match write_payload(old(stream)@, p@, *ps, base_offset as nat, endian) {
            Result::Ok(b) => r == Result::Ok::<(), Error>(()) && final(stream)@ == b,
            Result::Err(er) => r == Result::Err::<(), Error>(er),
        },
    decreases *p, 1int,
{
    let ghost pre = stream@;
    match (ps, p) {
        (PayloadSchema::Bytes { .. }, PayloadValue::Bytes { data }) => {
            stream.append_vec(data);
            proof {
                assert(pre.subrange(0, pre.len() as int) =~= pre);
                assert(stream@.subrange(0, pre.len() as int) =~= pre);
            }
            Result::Ok(())
        },
        (PayloadSchema::CStr { .. }, PayloadValue::CStr { data }) => {
            stream.append_vec(data);
            stream.append_byte(0);
            proof {
                assert(stream@ =~= pre + data@ + seq![0u8]);
                assert(stream@.subrange(0, pre.len() as int) =~= pre);
            }
            Result::Ok(())
        },
        (
            PayloadSchema::Container { base: bk, schema: cs, .. },
            PayloadValue::Container { value: cv },
        ) => {
            let child_base = match bk {
                BaseKind::Establish => stream.len(),
                BaseKind::Forward => base_offset,
            };
            *data_ptr = stream.len();
            write_full(cv, cs, stream, child_base, data_ptr, endian)
        },
        _ => {
            proof {
                assert(false);
            }
            Result::Ok(())
        },
    }
}

} // verus!
