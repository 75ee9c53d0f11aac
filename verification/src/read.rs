//! The pointer-chasing reader.
//!
//! Reading walks a container's fields in declaration order at positions
//! fixed by the schema.  An offset field's stored value is added to the
//! container's base address; the target is checked against the buffer
//! bounds and its required alignment, the pointed-to data is parsed
//! there, and reading continues after the inline cell, so the cursor is
//! restored.  A stored zero means "absent" for nullable offsets.
//!
//! [`read_container_spec`] is the functional description the executable
//! reader is proved against; it is also the reader the round-trip law
//! speaks of.

use vstd::prelude::*;

use crate::schema::BaseKind;
use crate::schema::ContainerG;
use crate::schema::ContainerSchema;
use crate::schema::ContainerValue;
use crate::schema::CountOrder;
use crate::schema::FieldG;
use crate::schema::FieldSchema;
use crate::schema::FieldValue;
use crate::schema::PayloadG;
use crate::schema::PayloadSchema;
use crate::schema::PayloadValue;
use crate::schema::field_eff_align;
use crate::schema::field_inline_size;
use crate::schema::field_wf;
use crate::schema::offset_cell_pos;
use crate::schema::payload_wf;
use crate::schema::prefix_size;
use crate::schema::schema_wf;
use crate::schema::shared_wf;
use crate::schema::view_field;
use crate::stream::Endian;
use crate::stream::Stream;
use crate::stream::Width;
use crate::stream::scalar_val;
use crate::write::Error;

verus! {

/// The first position at or after `from` holding a zero byte.
pub open spec fn find_zero(buf: Seq<u8>, from: nat) -> Option<nat>
    decreases buf.len() - from,
{
    if from >= buf.len() {
        Option::None
    } else if buf[from as int] == 0u8 {
        Option::Some(from)
    } else {
        find_zero(buf, from + 1)
    }
}

/// The views of a sequence of field values.
pub open spec fn fields_view(vs: Seq<FieldValue>) -> Seq<FieldG> {
    Seq::new(
        vs.len(),
        |i: int|
            if 0 <= i < vs.len() {
                view_field(vs[i])
            } else {
                FieldG::SharedOffset
            },
    )
}

/// Reads field `i` of a container whose first byte is at `start` and
/// whose offsets are relative to `base`.
pub open spec fn read_field(
    buf: Seq<u8>,
    s: ContainerSchema,
    start: nat,
    base: nat,
    e: Endian,
    i: int,
) -> Result<FieldG, Error>
    decreases s, 0int, 0int,
{
    if !(0 <= i < s.fields@.len()) {
        Result::Err(Error::SizeOverflow)
    } else {
        let pos = start + prefix_size(s, i);
        match s.fields@[i] {
            FieldSchema::Scalar { width } => {
                let wb = width.spec_nbytes();
                if pos + wb > buf.len() {
                    Result::Err(Error::TruncatedData { pos: pos as u64, len: wb as u64 })
                } else {
                    Result::Ok(
                        FieldG::Scalar {
                            value: scalar_val(e, buf.subrange(pos as int, (pos + wb) as int))
                                as u64,
                        },
                    )
                }
            },
            FieldSchema::FixedBytes { len } => {
                if pos + len > buf.len() {
                    Result::Err(Error::TruncatedData { pos: pos as u64, len: len as u64 })
                } else {
                    Result::Ok(
                        FieldG::FixedBytes { data: buf.subrange(pos as int, pos + len) },
                    )
                }
            },
            FieldSchema::OffsetField { width, nullable, payload: ps, .. } => {
                let wb = width.spec_nbytes();
                if pos + wb > buf.len() {
                    Result::Err(Error::TruncatedData { pos: pos as u64, len: wb as u64 })
                } else {
                    let raw = scalar_val(e, buf.subrange(pos as int, (pos + wb) as int));
                    if nullable && raw == 0 {
                        Result::Ok(FieldG::OffsetField { payload: Option::None })
                    } else {
                        let target = base + raw;
                        let a = field_eff_align(s.fields@[i]);
                        if target > buf.len() {
                            Result::Err(
                                Error::MalformedOffset { base: base as u64, raw: raw as u64 },
                            )
                        } else if target as int % (a as int) != 0 {
                            Result::Err(
                                Error::MalformedOffset { base: base as u64, raw: raw as u64 },
                            )
                        } else {
                            match read_payload(buf, ps, target, base, e) {
                                Result::Ok(p) => Result::Ok(
                                    FieldG::OffsetField { payload: Option::Some(p) },
                                ),
                                Result::Err(er) => Result::Err(er),
                            }
                        }
                    }
                }
            },
            FieldSchema::CountOffset { order, elem_width, .. } => {
                if pos + 8 > buf.len() {
                    Result::Err(Error::TruncatedData { pos: pos as u64, len: 8u64 })
                } else {
                    let cpos = if order is CountFirst {
                        pos
                    } else {
                        pos + 4
                    };
                    let opos = if order is CountFirst {
                        pos + 4
                    } else {
                        pos
                    };
                    let count = scalar_val(e, buf.subrange(cpos as int, cpos as int + 4));
                    let raw = scalar_val(e, buf.subrange(opos as int, opos as int + 4));
                    let target = base + raw;
                    let a = field_eff_align(s.fields@[i]);
                    let esz = elem_width.spec_nbytes();
                    if target > buf.len() {
                        Result::Err(
                            Error::MalformedOffset { base: base as u64, raw: raw as u64 },
                        )
                    } else if target as int % (a as int) != 0 {
                        Result::Err(
                            Error::MalformedOffset { base: base as u64, raw: raw as u64 },
                        )
                    } else if target + count * esz > buf.len() {
                        Result::Err(
                            Error::MalformedOffset { base: base as u64, raw: raw as u64 },
                        )
                    } else {
                        Result::Ok(
                            FieldG::CountOffset {
                                elems: Seq::new(
                                    count,
                                    |k: int| scalar_val(
                                        e,
                                        buf.subrange(
                                            target + k * esz,
                                            target + (k + 1) * esz,
                                        ),
                                    ) as u64,
                                ),
                            },
                        )
                    }
                }
            },
            FieldSchema::SharedOffset { width, alias } => {
                let wb = width.spec_nbytes();
                if pos + wb > buf.len() {
                    Result::Err(Error::TruncatedData { pos: pos as u64, len: wb as u64 })
                } else {
                    let raw = scalar_val(e, buf.subrange(pos as int, (pos + wb) as int));
                    let apos = offset_cell_pos(s, start, alias as int);
                    let raw_alias = scalar_val(e, buf.subrange(apos as int, (apos + wb) as int));
                    if raw != raw_alias {
                        Result::Err(
                            Error::MalformedOffset { base: base as u64, raw: raw as u64 },
                        )
                    } else {
                        Result::Ok(FieldG::SharedOffset)
                    }
                }
            },
        }
    }
}

/// Reads the pointed-to data of one offset field at `target`.
pub open spec fn read_payload(
    buf: Seq<u8>,
    ps: PayloadSchema,
    target: nat,
    base: nat,
    e: Endian,
) -> Result<PayloadG, Error>
    decreases ps, 2int, 0int,
{
    match ps {
        PayloadSchema::Bytes { len, .. } => {
            if target + len > buf.len() {
                Result::Err(Error::TruncatedData { pos: target as u64, len: len as u64 })
            } else {
                Result::Ok(PayloadG::Bytes { data: buf.subrange(target as int, target + len) })
            }
        },
        PayloadSchema::CStr { .. } => match find_zero(buf, target) {
            Option::Some(z) => Result::Ok(
                PayloadG::CStr { data: buf.subrange(target as int, z as int) },
            ),
            Option::None => Result::Err(Error::UnterminatedString { pos: target as u64 }),
        },
        PayloadSchema::Container { base: bk, schema: cs, .. } => {
            let child_base = if bk is Establish {
                target
            } else {
                base
            };
            match read_from(buf, cs, target, child_base, e, 0) {
                Result::Ok(fs) => Result::Ok(
                    PayloadG::Container { value: ContainerG { fields: fs } },
                ),
                Result::Err(er) => Result::Err(er),
            }
        },
    }
}

/// Reads fields `i..` of a container whose first byte is at `start`.
pub open spec fn read_from(
    buf: Seq<u8>,
    s: ContainerSchema,
    start: nat,
    base: nat,
    e: Endian,
    i: int,
) -> Result<Seq<FieldG>, Error>
    decreases s, 1int, s.fields@.len() - i,
{
    if !(0 <= i < s.fields@.len()) {
        Result::Ok(Seq::empty())
    } else {
        match read_field(buf, s, start, base, e, i) {
            Result::Ok(f) => match read_from(buf, s, start, base, e, i + 1) {
                Result::Ok(rest) => Result::Ok(seq![f] + rest),
                Result::Err(er) => Result::Err(er),
            },
            Result::Err(er) => Result::Err(er),
        }
    }
}

/// Reads one whole container: every field, and recursively everything
/// the container points to.  The result is the logical value; the read
/// consumes only the container's inline bytes, every pointer chase
/// restoring its position.
pub open spec fn read_container_spec(
    buf: Seq<u8>,
    s: ContainerSchema,
    start: nat,
    base: nat,
    e: Endian,
) -> Result<ContainerG, Error> {
    match read_from(buf, s, start, base, e, 0) {
        Result::Ok(fs) => Result::Ok(ContainerG { fields: fs }),
        Result::Err(er) => Result::Err(er),
    }
}


/// Reads one whole container value: the executable pointer-chasing
/// reader, proved equal to [`read_container_spec`].
///
/// `start` is the position of the container's first byte; `base` is the
/// base address its offset fields are relative to.
pub fn read_container(
    stream: &Stream,
    schema: &ContainerSchema,
    start: usize,
    base: usize,
    endian: Endian,
) -> (r: Result<ContainerValue, Error>)
    requires
        schema_wf(*schema),
    ensures
        match read_container_spec(stream@, *schema, start as nat, base as nat, endian) {
            Result::Ok(gc) => r is Ok && r->Ok_0@ == gc,
            Result::Err(er) => r == Result::Err::<ContainerValue, Error>(er),
        },
    decreases *schema, 3int,
{
    let n = schema.fields.len();
    let mut out: Vec<FieldValue> = Vec::new();
    let mut pos = start;
    let mut i: usize = 0;
    while i < n
        invariant
            schema_wf(*schema),
            n == schema.fields@.len(),
            i <= n,
            out@.len() == i,
            pos == start + prefix_size(*schema, i as int),
            match read_from(stream@, *schema, start as nat, base as nat, endian, i as int) {
                Result::Ok(rest) => read_from(
                    stream@,
                    *schema,
                    start as nat,
                    base as nat,
                    endian,
                    0,
                ) == Result::<Seq<FieldG>, Error>::Ok(fields_view(out@) + rest),
                Result::Err(er) => read_from(
                    stream@,
                    *schema,
                    start as nat,
                    base as nat,
                    endian,
                    0,
                ) == Result::<Seq<FieldG>, Error>::Err(er),
            },
        decreases n - i,
    {
        let res = read_field_exec(stream, schema, start, pos, base, endian, i);
        match res {
            Result::Ok(fv) => {
                proof {
                    let gf = read_field(
                        stream@,
                        *schema,
                        start as nat,
                        base as nat,
                        endian,
                        i as int,
                    )->Ok_0;
                    match read_from(
                        stream@,
                        *schema,
                        start as nat,
                        base as nat,
                        endian,
                        i + 1,
                    ) {
                        Result::Ok(rest2) => {
                            assert(fields_view(out@.push(fv)) =~= fields_view(out@).push(
                                view_field(fv),
                            ));
                            assert(fields_view(out@) + (seq![gf] + rest2) =~= fields_view(
                                out@.push(fv),
                            ) + rest2);
                        },
                        Result::Err(_) => {},
                    }
                }
                proof {
                    vstd::std_specs::vec::axiom_spec_len(&stream.data);
                }
                out.push(fv);
                pos = pos + crate::write::field_size_exec(&schema.fields[i]);
                i = i + 1;
            },
            Result::Err(er) => {
                return Result::Err(er);
            },
        }
    }
    proof {
        assert(read_from(stream@, *schema, start as nat, base as nat, endian, n as int)
            == Result::<Seq<FieldG>, Error>::Ok(Seq::<FieldG>::empty()));
        assert(fields_view(out@) + Seq::<FieldG>::empty() =~= fields_view(out@));
    }
    let result = ContainerValue { fields: out };
    proof {
        assert(result@.fields =~= fields_view(result.fields@));
    }
    Result::Ok(result)
}

/// Reads field `i`, whose inline bytes sit at `pos`.  On success the
/// field's inline region is known to lie inside the buffer.
fn read_field_exec(
    stream: &Stream,
    schema: &ContainerSchema,
    start: usize,
    pos: usize,
    base: usize,
    endian: Endian,
    i: usize,
) -> (r: Result<FieldValue, Error>)
    requires
        schema_wf(*schema),
        i < schema.fields@.len(),
        pos == start + prefix_size(*schema, i as int),
    ensures
        match read_field(stream@, *schema, start as nat, base as nat, endian, i as int) {
            Result::Ok(fg) => r is Ok && r->Ok_0@ == fg,
            Result::Err(er) => r == Result::Err::<FieldValue, Error>(er),
        },
        r is Ok ==> pos + field_inline_size(schema.fields@[i as int]) <= stream@.len(),
    decreases *schema, 2int,
{
    proof {
        assert(field_wf(schema.fields@[i as int]));
        assert(shared_wf(*schema, i as int));
        vstd::std_specs::vec::axiom_spec_len(&stream.data);
        crate::write::lemma_width_max_vals();
    }
    let slen = stream.len();
    match &schema.fields[i] {
        FieldSchema::Scalar { width } => {
            let wb = width.nbytes();
            if pos > slen || wb > slen - pos {
                return Result::Err(Error::TruncatedData { pos: pos as u64, len: wb as u64 });
            }
            let v = stream.get_scalar(pos, endian, *width);
            Result::Ok(FieldValue::Scalar { value: v })
        },
        FieldSchema::FixedBytes { len } => {
            if pos > slen || *len > slen - pos {
                return Result::Err(Error::TruncatedData { pos: pos as u64, len: *len as u64 });
            }
            let data = stream.get_bytes(pos, *len);
            Result::Ok(FieldValue::FixedBytes { data })
        },
        FieldSchema::OffsetField { width, nullable, field_align, payload: ps, .. } => {
            let wb = width.nbytes();
            if pos > slen || wb > slen - pos {
                return Result::Err(Error::TruncatedData { pos: pos as u64, len: wb as u64 });
            }
            let raw = stream.get_scalar(pos, endian, *width);
            if *nullable && raw == 0 {
                return Result::Ok(FieldValue::OffsetField { payload: Option::None });
            }
            let target = match checked_target(base, raw, slen) {
                Option::Some(t) => t,
                Option::None => {
                    return Result::Err(
                        Error::MalformedOffset { base: base as u64, raw },
                    );
                },
            };
            let a = crate::write::usize_max(crate::write::payload_align_exec(ps), *field_align);
            if target % a != 0 {
                return Result::Err(Error::MalformedOffset { base: base as u64, raw });
            }
            match read_payload_exec(stream, ps, target, base, endian) {
                Result::Ok(p) => Result::Ok(
                    FieldValue::OffsetField { payload: Option::Some(p) },
                ),
                Result::Err(er) => Result::Err(er),
            }
        },
        FieldSchema::CountOffset { order, elem_width, field_align, .. } => {
            if pos > slen || 8 > slen - pos {
                return Result::Err(Error::TruncatedData { pos: pos as u64, len: 8u64 });
            }
            let cpos = match order {
                CountOrder::CountFirst => pos,
                CountOrder::OffsetFirst => pos + 4,
            };
            let opos = match order {
                CountOrder::CountFirst => pos + 4,
                CountOrder::OffsetFirst => pos,
            };
            let count = stream.get_scalar(cpos, endian, Width::W32);
            let raw = stream.get_scalar(opos, endian, Width::W32);
            let target = match checked_target(base, raw, slen) {
                Option::Some(t) => t,
                Option::None => {
                    return Result::Err(
                        Error::MalformedOffset { base: base as u64, raw },
                    );
                },
            };
            let a = crate::write::usize_max(1, *field_align);
            if target % a != 0 {
                return Result::Err(Error::MalformedOffset { base: base as u64, raw });
            }
            let esz = elem_width.nbytes();
            proof {
                assert((count as int) * (esz as int) < 0x1_0000_0000 * 8) by (nonlinear_arith)
                    requires
                        0 <= count < 0x1_0000_0000,
                        0 <= esz <= 8,
                ;
            }
            let need = count * (esz as u64);
            if need > (slen - target) as u64 {
                return Result::Err(Error::MalformedOffset { base: base as u64, raw });
            }
            let mut elems: Vec<u64> = Vec::new();
            let mut k: usize = 0;
            let cnt = count as usize;
            proof {
                assert(target + cnt * esz <= stream@.len());
            }
            while k < cnt
                invariant
                    k <= cnt,
                    cnt == count,
                    esz == elem_width.spec_nbytes(),
                    target + cnt * esz <= stream@.len(),
                    stream@.len() <= usize::MAX,
                    elems@.len() == k,
                    forall|q: int|
                        0 <= q < k ==> elems@[q] == scalar_val(
                            endian,
                            stream@.subrange(
                                target + q * esz,
                                target + (q + 1) * esz,
                            ),
                        ) as u64,
                decreases cnt - k,
            {
                proof {
                    assert((k + 1) * esz <= cnt * esz) by (nonlinear_arith)
                        requires
                            k + 1 <= cnt,
                            esz >= 0,
                    ;
                    assert(k * esz + esz == (k + 1) * esz) by (nonlinear_arith);
                    assert(0 <= k * esz <= (k + 1) * esz) by (nonlinear_arith)
                        requires
                            k >= 0,
                            esz >= 0,
                    ;
                }
                let v = stream.get_scalar(target + k * esz, endian, *elem_width);
                elems.push(v);
                k = k + 1;
            }
            proof {
                let fspec = read_field(
                    stream@,
                    *schema,
                    start as nat,
                    base as nat,
                    endian,
                    i as int,
                );
                assert(elems@ =~= fspec->Ok_0->CountOffset_elems);
            }
            Result::Ok(FieldValue::CountOffset { elems })
        },
        FieldSchema::SharedOffset { width, alias } => {
            let wb = width.nbytes();
            if pos > slen || wb > slen - pos {
                return Result::Err(Error::TruncatedData { pos: pos as u64, len: wb as u64 });
            }
            let raw = stream.get_scalar(pos, endian, *width);
            proof {
                crate::schema::lemma_prefix_size_mono(*schema, *alias as int + 1, i as int);
                crate::schema::lemma_cell_in_field(schema.fields@[*alias as int]);
            }
            let apos = crate::write::cell_pos_exec(schema, start, *alias);
            let raw_alias = stream.get_scalar(apos, endian, *width);
            if raw != raw_alias {
                return Result::Err(Error::MalformedOffset { base: base as u64, raw });
            }
            Result::Ok(FieldValue::SharedOffset)
        },
    }
}

/// `base + raw` as a stream position, or nothing when it lies outside
/// the buffer.
fn checked_target(base: usize, raw: u64, slen: usize) -> (r: Option<usize>)
    requires
        slen <= usize::MAX,
    ensures
        match r {
            Option::Some(t) => t == base + raw && t <= slen,
            Option::None => base + raw > slen,
        },
{
    match (base as u64).checked_add(raw) {
        Option::Some(t64) => {
            if t64 > slen as u64 {
                Option::None
            } else {
                Option::Some(t64 as usize)
            }
        },
        Option::None => Option::None,
    }
}

/// Reads the pointed-to data of one offset field at `target`.
fn read_payload_exec(
    stream: &Stream,
    ps: &PayloadSchema,
    target: usize,
    base: usize,
    endian: Endian,
) -> (r: Result<PayloadValue, Error>)
    requires
        payload_wf(*ps),
    ensures
        match read_payload(stream@, *ps, target as nat, base as nat, endian) {
            Result::Ok(pg) => r is Ok && r->Ok_0@ == pg,
            Result::Err(er) => r == Result::Err::<PayloadValue, Error>(er),
        },
    decreases *ps, 4int,
{
    let slen = stream.len();
    match ps {
        PayloadSchema::Bytes { len, .. } => {
            if target > slen || *len > slen - target {
                return Result::Err(
                    Error::TruncatedData { pos: target as u64, len: *len as u64 },
                );
            }
            let data = stream.get_bytes(target, *len);
            Result::Ok(PayloadValue::Bytes { data })
        },
        PayloadSchema::CStr { .. } => {
            if target >= slen {
                return Result::Err(Error::UnterminatedString { pos: target as u64 });
            }
            let mut z = target;
            while z < slen && stream.get_byte(z) != 0
                invariant
                    target <= z <= slen,
                    slen == stream@.len(),
                    find_zero(stream@, target as nat) == find_zero(stream@, z as nat),
                decreases slen - z,
            {
                z = z + 1;
            }
            if z == slen {
                return Result::Err(Error::UnterminatedString { pos: target as u64 });
            }
            let data = stream.get_bytes(target, z - target);
            Result::Ok(PayloadValue::CStr { data })
        },
        PayloadSchema::Container { base: bk, schema: cs, .. } => {
            let child_base = match bk {
                BaseKind::Establish => target,
                BaseKind::Forward => base,
            };
            match read_container(stream, cs, target, child_base, endian) {
                Result::Ok(cv) => Result::Ok(PayloadValue::Container { value: cv }),
                Result::Err(er) => Result::Err(er),
            }
        },
    }
}

} // verus!
