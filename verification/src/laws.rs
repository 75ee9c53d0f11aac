//! The laws of the codec, proved of the functional writer and reader:
//! above all the round-trip law — parsing a freshly written buffer
//! reproduces the original value — together with the alignment, null
//! encoding, shared offset and count fidelity guarantees.

use vstd::prelude::*;

use crate::read::find_zero;
use crate::read::read_container_spec;
use crate::read::read_field;
use crate::read::read_from;
use crate::read::read_payload;
use crate::schema::ContainerG;
use crate::schema::ContainerSchema;
use crate::schema::FieldG;
use crate::schema::FieldSchema;
use crate::schema::PayloadG;
use crate::schema::PayloadSchema;
use crate::schema::conforms;
use crate::schema::field_conforms;
use crate::schema::field_eff_align;
use crate::schema::field_inline_bytes;
use crate::schema::field_inline_size;
use crate::schema::field_pad_byte;
use crate::schema::field_pending;
use crate::schema::field_wf;
use crate::schema::inline_size;
use crate::schema::lemma_cell_in_field;
use crate::schema::lemma_field_region_in_skeleton;
use crate::schema::lemma_prefix_size_mono;
use crate::schema::offset_cell_delta;
use crate::schema::offset_cell_pos;
use crate::schema::offset_width_of;
use crate::schema::payload_conforms;
use crate::schema::payload_wf;
use crate::schema::prefix_size;
use crate::schema::schema_wf;
use crate::schema::shared_wf;
use crate::stream::Endian;
use crate::stream::Width;
use crate::stream::lemma_scalar_bytes_len;
use crate::stream::lemma_scalar_bytes_zero;
use crate::stream::lemma_scalar_round_trip;
use crate::stream::lemma_scalar_val_bound;
use crate::stream::repeat_byte;
use crate::stream::scalar_bytes;
use crate::stream::scalar_val;
use crate::stream::zero_bytes;
use crate::write::Error;
use crate::write::container_inline_bytes;
use crate::write::elems_bytes;
use crate::write::inline_bytes_from;
use crate::write::is_pending_at;
use crate::write::lemma_round_up;
use crate::write::lemma_width_max_vals;
use crate::write::patch_bytes;
use crate::write::round_up_spec;
use crate::write::write_from;
use crate::write::write_payload;
use crate::write::write_spec;
use crate::write::write_step;

verus! {

/// Inline bytes of one field match its inline size when the value
/// conforms to the schema.
pub proof fn lemma_field_inline_len(f: FieldG, fs: FieldSchema, e: Endian)
    requires
        field_conforms(f, fs),
    ensures
        field_inline_bytes(f, fs, e).len() == field_inline_size(fs),
{
    match fs {
        FieldSchema::Scalar { width } => {
            lemma_scalar_bytes_len(e, f->Scalar_value as nat, width.spec_nbytes());
        },
        FieldSchema::FixedBytes { .. } => {},
        FieldSchema::OffsetField { .. } => {},
        FieldSchema::CountOffset { .. } => {
            lemma_scalar_bytes_len(e, f->CountOffset_elems.len(), 4);
        },
        FieldSchema::SharedOffset { .. } => {},
    }
}

/// Within the skeleton bytes of fields `i..`, the inline bytes of field
/// `j` stand at offset `prefix_size(j) - prefix_size(i)`.
pub proof fn lemma_inline_at(g: ContainerG, s: ContainerSchema, e: Endian, i: int, j: int)
    requires
        conforms(g, s),
        0 <= i <= j < s.fields@.len(),
    ensures
        inline_bytes_from(g, s, e, i).len() == inline_size(s) - prefix_size(s, i),
        inline_bytes_from(g, s, e, i).subrange(
            prefix_size(s, j) - prefix_size(s, i),
            prefix_size(s, j) - prefix_size(s, i) + field_inline_size(s.fields@[j]),
        ) == field_inline_bytes(g.fields[j], s.fields@[j], e),
    decreases s.fields@.len() - i,
{
    lemma_inline_from_len(g, s, e, i);
    lemma_field_inline_len(g.fields[i], s.fields@[i], e);
    lemma_inline_from_len(g, s, e, i + 1);
    if i == j {
        lemma_prefix_size_mono(s, j + 1, s.fields@.len() as int);
        assert(inline_bytes_from(g, s, e, i).subrange(
            0,
            field_inline_size(s.fields@[j]) as int,
        ) =~= field_inline_bytes(g.fields[j], s.fields@[j], e));
    } else {
        lemma_inline_at(g, s, e, i + 1, j);
        let lo = prefix_size(s, j) - prefix_size(s, i);
        let hi = lo + field_inline_size(s.fields@[j]);
        let szi = field_inline_size(s.fields@[i]) as int;
        lemma_prefix_size_mono(s, i + 1, j);
        lemma_field_region_in_skeleton(s, j);
        assert(lo >= szi);
        assert(hi <= inline_bytes_from(g, s, e, i).len());
        assert(inline_bytes_from(g, s, e, i).subrange(lo, hi) =~= inline_bytes_from(
            g,
            s,
            e,
            i + 1,
        ).subrange(lo - szi, hi - szi));
    }
}

/// The length of the skeleton bytes of fields `i..`.
pub proof fn lemma_inline_from_len(g: ContainerG, s: ContainerSchema, e: Endian, i: int)
    requires
        conforms(g, s),
        0 <= i,
    ensures
        inline_bytes_from(g, s, e, i).len() == if i <= s.fields@.len() {
            inline_size(s) - prefix_size(s, i)
        } else {
            0
        },
    decreases s.fields@.len() - i,
{
    let n = s.fields@.len() as int;
    if i < n {
        lemma_field_inline_len(g.fields[i], s.fields@[i], e);
        lemma_inline_from_len(g, s, e, i + 1);
        lemma_prefix_unfold(s, i);
    } else if i == n {
        assert(prefix_size(s, n) == inline_size(s));
    }
}

proof fn lemma_prefix_unfold(s: ContainerSchema, i: int)
    requires
        0 <= i,
    ensures
        prefix_size(s, i + 1) == prefix_size(s, i) + field_inline_size(s.fields@[i]),
{
}

/// The inline regions of two distinct fields do not overlap.
pub proof fn lemma_regions_disjoint(s: ContainerSchema, i: int, j: int)
    requires
        0 <= i < j < s.fields@.len(),
    ensures
        prefix_size(s, i) + field_inline_size(s.fields@[i]) <= prefix_size(s, j),
{
    lemma_prefix_size_mono(s, i + 1, j);
}

/// Indexing into a patched buffer.
pub proof fn lemma_patch_index(buf: Seq<u8>, p: nat, bs: Seq<u8>)
    requires
        p + bs.len() <= buf.len(),
    ensures
        patch_bytes(buf, p, bs).len() == buf.len(),
        forall|q: int|
            0 <= q < buf.len() ==> #[trigger] patch_bytes(buf, p, bs)[q] == if p <= q < p
                + bs.len() {
                bs[q - p]
            } else {
                buf[q]
            },
{
}

/// The byte string of an element array: its length, and the bytes of the
/// element at `k`.
pub proof fn lemma_elems_bytes_len(es: Seq<u64>, w: Width, e: Endian)
    ensures
        elems_bytes(es, w, e).len() == es.len() * w.spec_nbytes(),
    decreases es.len(),
{
    let esz = w.spec_nbytes();
    if es.len() > 0 {
        lemma_elems_bytes_len(es.drop_first(), w, e);
        lemma_scalar_bytes_len(e, es[0] as nat, esz);
        assert((es.len() - 1) * esz == es.len() * esz - esz) by (nonlinear_arith);
    } else {
        assert(es.len() * esz == 0) by (nonlinear_arith)
            requires
                es.len() == 0,
        ;
    }
}

pub proof fn lemma_elems_bytes_at(es: Seq<u64>, w: Width, e: Endian, k: int)
    requires
        0 <= k < es.len(),
    ensures
        elems_bytes(es, w, e).subrange(
            k * w.spec_nbytes(),
            (k + 1) * w.spec_nbytes(),
        ) == scalar_bytes(e, es[k] as nat, w.spec_nbytes()),
    decreases k,
{
    let esz = w.spec_nbytes() as int;
    lemma_elems_bytes_len(es, w, e);
    lemma_elems_bytes_len(es.drop_first(), w, e);
    lemma_scalar_bytes_len(e, es[0] as nat, w.spec_nbytes());
    assert(0 <= k * esz && (k + 1) * esz <= es.len() * esz) by (nonlinear_arith)
        requires
            0 <= k < es.len(),
            esz >= 0,
    ;
    if k == 0 {
        assert(elems_bytes(es, w, e).subrange(0, esz) =~= scalar_bytes(
            e,
            es[0] as nat,
            w.spec_nbytes(),
        ));
    } else {
        lemma_elems_bytes_at(es.drop_first(), w, e, k - 1);
        assert((k - 1) * esz == k * esz - esz) by (nonlinear_arith);
        assert(elems_bytes(es, w, e).subrange(k * esz, (k + 1) * esz) =~= elems_bytes(
            es.drop_first(),
            w,
            e,
        ).subrange((k - 1) * esz, k * esz));
        assert(es.drop_first()[k - 1] == es[k]);
    }
}

/// When the bytes from `from` up to `z` are nonzero and the byte at `z`
/// is zero, the terminator search finds exactly `z`.
pub proof fn lemma_find_zero_exact(buf: Seq<u8>, from: nat, z: nat)
    requires
        from <= z < buf.len(),
        forall|q: int| from <= q < z ==> buf[q] != 0u8,
        buf[z as int] == 0u8,
    ensures
        find_zero(buf, from) == Option::Some(z),
    decreases z - from,
{
    if from < z {
        lemma_find_zero_exact(buf, from + 1, z);
    }
}

/// A zero placeholder reads back as the stored value zero.
pub proof fn lemma_scalar_val_zero(e: Endian, n: nat)
    ensures
        scalar_val(e, zero_bytes(n)) == 0,
{
    lemma_scalar_bytes_zero(e, n);
    crate::stream::lemma_p256_pos(n);
    lemma_scalar_round_trip(e, 0, n);
}

/// When reading all fields from `i` succeeds, reading each single field
/// `j >= i` succeeds with the corresponding element.
pub proof fn lemma_read_from_at(
    buf: Seq<u8>,
    s: ContainerSchema,
    start: nat,
    base: nat,
    e: Endian,
    i: int,
    j: int,
)
    requires
        0 <= i <= j < s.fields@.len(),
        read_from(buf, s, start, base, e, i) is Ok,
    ensures
        read_field(buf, s, start, base, e, j) is Ok,
        read_from(buf, s, start, base, e, i)->Ok_0.len() == s.fields@.len() - i,
        read_from(buf, s, start, base, e, i)->Ok_0[j - i] == read_field(
            buf,
            s,
            start,
            base,
            e,
            j,
        )->Ok_0,
    decreases j - i,
{
    lemma_read_from_len(buf, s, start, base, e, i);
    if i < j {
        lemma_read_from_at(buf, s, start, base, e, i + 1, j);
        lemma_read_from_len(buf, s, start, base, e, i + 1);
    }
}

pub proof fn lemma_read_from_len(
    buf: Seq<u8>,
    s: ContainerSchema,
    start: nat,
    base: nat,
    e: Endian,
    i: int,
)
    requires
        0 <= i <= s.fields@.len(),
        read_from(buf, s, start, base, e, i) is Ok,
    ensures
        read_from(buf, s, start, base, e, i)->Ok_0.len() == s.fields@.len() - i,
    decreases s.fields@.len() - i,
{
    if i < s.fields@.len() {
        lemma_read_from_len(buf, s, start, base, e, i + 1);
    }
}


/// Region of field `j`: the half-open position range of its inline bytes.
pub open spec fn field_region_ok(
    buf: Seq<u8>,
    g: ContainerG,
    s: ContainerSchema,
    start: nat,
    e: Endian,
    j: int,
) -> bool {
    buf.subrange(
        (start + prefix_size(s, j)) as int,
        (start + prefix_size(s, j) + field_inline_size(s.fields@[j])) as int,
    ) == field_inline_bytes(g.fields[j], s.fields@[j], e)
}

/// The skeleton bytes of fields `i..` stand unmodified in `buf`.
pub open spec fn skeleton_ok(
    buf: Seq<u8>,
    g: ContainerG,
    s: ContainerSchema,
    start: nat,
    e: Endian,
    i: int,
) -> bool {
    forall|j: int|
        i <= j < s.fields@.len() ==> #[trigger] field_region_ok(buf, g, s, start, e, j)
}

/// Position `p` lies in the offset cell of a pending field `j >= i`.
pub open spec fn in_pending_cell(
    g: ContainerG,
    s: ContainerSchema,
    start: nat,
    i: int,
    p: int,
) -> bool {
    exists|j: int|
        i <= j < s.fields@.len() && is_pending_at(g, s, j) && offset_cell_pos(s, start, j) <= p
            < offset_cell_pos(s, start, j) + (offset_width_of(
            s.fields@[j],
        )->Some_0).spec_nbytes()
}

/// Every pending offset cell lies inside the skeleton.
pub proof fn lemma_cells_in_skeleton(
    g: ContainerG,
    s: ContainerSchema,
    start: nat,
    i: int,
    p: int,
)
    requires
        in_pending_cell(g, s, start, i, p),
    ensures
        start <= p < start + inline_size(s),
{
    let j = choose|j: int|
        i <= j < s.fields@.len() && is_pending_at(g, s, j) && offset_cell_pos(s, start, j) <= p
            < offset_cell_pos(s, start, j) + (offset_width_of(
            s.fields@[j],
        )->Some_0).spec_nbytes();
    lemma_cell_in_field(s.fields@[j]);
    lemma_field_region_in_skeleton(s, j);
}

/// The offset cell of a pending field `j` lies inside field `j`'s region.
pub proof fn lemma_cell_region(s: ContainerSchema, j: int)
    requires
        0 <= j < s.fields@.len(),
        offset_width_of(s.fields@[j]) is Some,
    ensures
        prefix_size(s, j) + offset_cell_delta(s.fields@[j]) + (offset_width_of(
            s.fields@[j],
        )->Some_0).spec_nbytes() <= prefix_size(s, j) + field_inline_size(s.fields@[j]),
{
    lemma_cell_in_field(s.fields@[j]);
}

/// The readback property of one placed container: any buffer that agrees
/// with `out` on the bytes this write produced parses back to `g`.
pub open spec fn reads_back(
    out: Seq<u8>,
    g: ContainerG,
    s: ContainerSchema,
    start: nat,
    base: nat,
    e: Endian,
    i: int,
    datalo: nat,
) -> bool {
    forall|buf3: Seq<u8>|
        buf3.len() >= out.len() && buf3.subrange(start as int, (start + inline_size(s)) as int)
            == out.subrange(start as int, (start + inline_size(s)) as int) && buf3.subrange(
            datalo as int,
            out.len() as int,
        ) == out.subrange(datalo as int, out.len() as int) ==> #[trigger] read_from(
            buf3,
            s,
            start,
            base,
            e,
            i,
        ) == Result::<Seq<FieldG>, Error>::Ok(
            g.fields.subrange(i, s.fields@.len() as int),
        )
}

/// The per-step readback property: any buffer that agrees with `buf4` on
/// the regions of fields up to `i` and on the data this step placed
/// parses field `i` back.
pub open spec fn step_reads_back(
    buf4: Seq<u8>,
    g: ContainerG,
    s: ContainerSchema,
    start: nat,
    base: nat,
    e: Endian,
    i: int,
    datalo: nat,
) -> bool {
    forall|bufr: Seq<u8>|
        bufr.len() >= buf4.len() && bufr.subrange(
            start as int,
            (start + prefix_size(s, i + 1)) as int,
        ) == buf4.subrange(start as int, (start + prefix_size(s, i + 1)) as int) && bufr.subrange(
            datalo as int,
            buf4.len() as int,
        ) == buf4.subrange(datalo as int, buf4.len() as int) ==> #[trigger] read_field(
            bufr,
            s,
            start,
            base,
            e,
            i,
        ) == Result::<FieldG, Error>::Ok(g.fields[i])
}


/// Agreement on a range carries to any subrange of it.
pub proof fn lemma_subrange_within(a: Seq<u8>, b: Seq<u8>, lo: int, hi: int, lo2: int, hi2: int)
    requires
        0 <= lo <= lo2 <= hi2 <= hi,
        hi <= a.len(),
        hi <= b.len(),
        a.subrange(lo, hi) == b.subrange(lo, hi),
    ensures
        a.subrange(lo2, hi2) == b.subrange(lo2, hi2),
{
    assert forall|q: int| lo2 <= q < hi2 implies a[q] == b[q] by {
        assert(a.subrange(lo, hi)[q - lo] == a[q]);
        assert(b.subrange(lo, hi)[q - lo] == b[q]);
    }
    assert(a.subrange(lo2, hi2) =~= b.subrange(lo2, hi2));
}

/// When `b` stands in `a` at offset `off`, slices of `b` stand there too.
pub proof fn lemma_seq_eq_slice(a: Seq<u8>, b: Seq<u8>, off: int, lo: int, hi: int)
    requires
        0 <= lo <= hi <= b.len(),
        0 <= off,
        off + b.len() <= a.len(),
        a.subrange(off, off + b.len()) == b,
    ensures
        a.subrange(off + lo, off + hi) == b.subrange(lo, hi),
{
    assert forall|q: int| lo <= q < hi implies a[off + q] == b[q] by {
        assert(a.subrange(off, off + b.len())[q] == a[off + q]);
    }
    assert(a.subrange(off + lo, off + hi) =~= b.subrange(lo, hi));
}

/// An inline field whose phase-two step is a no-op reads back from its
/// skeleton bytes alone.
proof fn lemma_step_inline(
    buf1: Seq<u8>,
    g: ContainerG,
    s: ContainerSchema,
    start: nat,
    base: nat,
    e: Endian,
    i: int,
)
    requires
        schema_wf(s),
        conforms(g, s),
        base <= start,
        start + inline_size(s) <= buf1.len(),
        field_region_ok(buf1, g, s, start, e, i),
        0 <= i < s.fields@.len(),
        g.fields.len() == s.fields@.len(),
        !field_pending(g.fields[i], s.fields@[i]),
    ensures
        step_reads_back(buf1, g, s, start, base, e, i, buf1.len()),
{
    let n = s.fields@.len() as int;
    let pos = (start + prefix_size(s, i)) as int;
    let sz = field_inline_size(s.fields@[i]) as int;
    lemma_field_region_in_skeleton(s, i);
    lemma_field_inline_len(g.fields[i], s.fields@[i], e);
    assert forall|bufr: Seq<u8>|
        bufr.len() >= buf1.len() && bufr.subrange(
            start as int,
            (start + prefix_size(s, i + 1)) as int,
        ) == buf1.subrange(start as int, (start + prefix_size(s, i + 1)) as int) && bufr.subrange(
            buf1.len() as int,
            buf1.len() as int,
        ) == buf1.subrange(buf1.len() as int, buf1.len() as int) implies read_field(
        bufr,
        s,
        start,
        base,
        e,
        i,
    ) == Result::<FieldG, Error>::Ok(g.fields[i]) by {
        lemma_subrange_within(
            bufr,
            buf1,
            start as int,
            (start + prefix_size(s, i + 1)) as int,
            pos,
            pos + sz,
        );
        assert(bufr.subrange(pos, pos + sz) == field_inline_bytes(
            g.fields[i],
            s.fields@[i],
            e,
        ));
        match s.fields@[i] {
            FieldSchema::Scalar { width } => {
                let value = g.fields[i]->Scalar_value;
                lemma_scalar_round_trip(e, value as nat, width.spec_nbytes());
            },
            FieldSchema::FixedBytes { .. } => {},
            FieldSchema::OffsetField { width, .. } => {
                lemma_scalar_val_zero(e, width.spec_nbytes());
            },
            FieldSchema::CountOffset { .. } => {
                assert(false);
            },
            FieldSchema::SharedOffset { .. } => {
                assert(false);
            },
        }
    }
}


/// The shared-offset step: the alias cell's resolved value is copied into
/// this field's cell, and the field reads back.
proof fn lemma_step_shared(
    buf1: Seq<u8>,
    g: ContainerG,
    s: ContainerSchema,
    start: nat,
    base: nat,
    e: Endian,
    i: int,
)
    requires
        schema_wf(s),
        conforms(g, s),
        base <= start,
        start + inline_size(s) <= buf1.len(),
        skeleton_ok(buf1, g, s, start, e, i),
        0 <= i < s.fields@.len(),
        g.fields.len() == s.fields@.len(),
        s.fields@[i] is SharedOffset,
        field_pending(g.fields[i], s.fields@[i]),
    ensures
        write_step(buf1, g, s, start, base, e, i) is Ok,
        ({
            let buf4 = write_step(buf1, g, s, start, base, e, i)->Ok_0;
            let cell = offset_cell_pos(s, start, i) as int;
            let wb = (offset_width_of(s.fields@[i])->Some_0).spec_nbytes() as int;
            &&& buf4.len() == buf1.len()
            &&& forall|p: int|
                0 <= p < buf1.len() && !(cell <= p < cell + wb) ==> buf4[p] == buf1[p]
            &&& skeleton_ok(buf4, g, s, start, e, i + 1)
            &&& step_reads_back(buf4, g, s, start, base, e, i, buf1.len())
        }),
{
    let n = s.fields@.len() as int;
    let width = s.fields@[i]->SharedOffset_width;
    let alias = s.fields@[i]->SharedOffset_alias as int;
    let wb = width.spec_nbytes();
    let pos = (start + prefix_size(s, i)) as int;
    let cell = offset_cell_pos(s, start, i) as int;
    let apos = offset_cell_pos(s, start, alias) as int;
    assert(field_wf(s.fields@[i]) && shared_wf(s, i));
    assert(field_region_ok(buf1, g, s, start, e, i));
    lemma_cell_in_field(s.fields@[i]);
    lemma_cell_in_field(s.fields@[alias]);
    lemma_field_region_in_skeleton(s, i);
    lemma_field_region_in_skeleton(s, alias);
    lemma_regions_disjoint(s, alias, i);
    lemma_prefix_size_mono(s, alias + 1, i);
    let raw_a = scalar_val(e, buf1.subrange(apos, apos + wb));
    lemma_scalar_val_bound(e, buf1.subrange(apos, apos + wb));
    lemma_scalar_bytes_len(e, raw_a, wb);
    let patched = patch_bytes(buf1, cell as nat, scalar_bytes(e, raw_a, wb));
    lemma_patch_index(buf1, cell as nat, scalar_bytes(e, raw_a, wb));
    assert(write_step(buf1, g, s, start, base, e, i) == Result::<Seq<u8>, Error>::Ok(patched));
    let buf4 = patched;

    // Skeleton of later fields is untouched.
    assert forall|j: int| i + 1 <= j < n implies field_region_ok(buf4, g, s, start, e, j) by {
        lemma_regions_disjoint(s, i, j);
        lemma_field_region_in_skeleton(s, j);
        assert(field_region_ok(buf1, g, s, start, e, j));
        let lo = (start + prefix_size(s, j)) as int;
        let hi = lo + field_inline_size(s.fields@[j]);
        assert(buf4.subrange(lo, hi) =~= buf1.subrange(lo, hi));
    }

    // The field reads back from any agreeing buffer.
    assert forall|bufr: Seq<u8>|
        bufr.len() >= buf4.len() && bufr.subrange(
            start as int,
            (start + prefix_size(s, i + 1)) as int,
        ) == buf4.subrange(start as int, (start + prefix_size(s, i + 1)) as int) && bufr.subrange(
            buf1.len() as int,
            buf4.len() as int,
        ) == buf4.subrange(buf1.len() as int, buf4.len() as int) implies read_field(
        bufr,
        s,
        start,
        base,
        e,
        i,
    ) == Result::<FieldG, Error>::Ok(g.fields[i]) by {
        lemma_prefix_size_mono(s, i + 1, n);
        lemma_subrange_within(
            bufr,
            buf4,
            start as int,
            (start + prefix_size(s, i + 1)) as int,
            pos,
            pos + wb,
        );
        lemma_subrange_within(
            bufr,
            buf4,
            start as int,
            (start + prefix_size(s, i + 1)) as int,
            apos,
            apos + wb,
        );
        assert(buf4.subrange(pos, pos + wb) =~= scalar_bytes(e, raw_a, wb));
        assert(buf4.subrange(apos, apos + wb) =~= buf1.subrange(apos, apos + wb));
        lemma_scalar_round_trip(e, raw_a, wb);
        assert(scalar_val(e, bufr.subrange(pos, pos + wb)) == raw_a);
        assert(scalar_val(e, bufr.subrange(apos, apos + wb)) == raw_a);
        assert(g.fields[i] is SharedOffset);
    }
}


/// The offset + count step: the cursor is aligned, the offset patched,
/// and the elements placed; the field reads back with exactly its count.
proof fn lemma_step_count(
    buf1: Seq<u8>,
    g: ContainerG,
    s: ContainerSchema,
    start: nat,
    base: nat,
    e: Endian,
    i: int,
)
    requires
        schema_wf(s),
        conforms(g, s),
        base <= start,
        start + inline_size(s) <= buf1.len(),
        skeleton_ok(buf1, g, s, start, e, i),
        0 <= i < s.fields@.len(),
        g.fields.len() == s.fields@.len(),
        s.fields@[i] is CountOffset,
        write_step(buf1, g, s, start, base, e, i) is Ok,
    ensures
        ({
            let buf4 = write_step(buf1, g, s, start, base, e, i)->Ok_0;
            let cell = offset_cell_pos(s, start, i) as int;
            &&& buf4.len() >= buf1.len()
            &&& forall|p: int|
                0 <= p < buf1.len() && !(cell <= p < cell + 4) ==> buf4[p] == buf1[p]
            &&& skeleton_ok(buf4, g, s, start, e, i + 1)
            &&& step_reads_back(buf4, g, s, start, base, e, i, buf1.len())
        }),
{
    let n = s.fields@.len() as int;
    let fs = s.fields@[i];
    let order = fs->CountOffset_order;
    let ew = fs->CountOffset_elem_width;
    let esz = ew.spec_nbytes() as int;
    let pad = field_pad_byte(fs);
    let es = g.fields[i]->CountOffset_elems;
    let pos = (start + prefix_size(s, i)) as int;
    let cell = offset_cell_pos(s, start, i) as int;
    let cpos = if order is CountFirst {
        pos
    } else {
        pos + 4
    };
    assert(field_wf(fs));
    assert(field_conforms(g.fields[i], fs));
    assert(field_region_ok(buf1, g, s, start, e, i));
    lemma_cell_in_field(fs);
    lemma_field_region_in_skeleton(s, i);

    let a = field_eff_align(fs);
    let cur = buf1.len();
    let target = round_up_spec(cur, a);
    lemma_round_up(cur, a);
    let rawi: int = target - base;
    lemma_width_max_vals();
    assert(0 <= rawi < Width::W32.max_val());
    let raw = rawi as nat;
    lemma_scalar_bytes_len(e, raw, 4);
    let buf2 = patch_bytes(buf1, cell as nat, scalar_bytes(e, raw, 4));
    lemma_patch_index(buf1, cell as nat, scalar_bytes(e, raw, 4));
    let buf3w = buf2 + repeat_byte(pad, (target - cur) as nat);
    let buf4 = buf3w + elems_bytes(es, ew, e);
    assert(write_step(buf1, g, s, start, base, e, i) == Result::<Seq<u8>, Error>::Ok(buf4));
    lemma_elems_bytes_len(es, ew, e);
    assert(buf3w.len() == target);
    assert(buf4.len() == target + es.len() * esz);
    assert(es.len() * esz >= 0) by (nonlinear_arith)
        requires
            es.len() >= 0,
            esz >= 0,
    ;

    // Frame below the old length, outside the patched cell.
    assert forall|p: int|
        0 <= p < buf1.len() && !(cell <= p < cell + 4) implies buf4[p] == buf1[p] by {
        assert(buf4[p] == buf2[p]);
    }

    // Skeleton of later fields is untouched.
    assert forall|j: int| i + 1 <= j < n implies field_region_ok(buf4, g, s, start, e, j) by {
        lemma_regions_disjoint(s, i, j);
        lemma_field_region_in_skeleton(s, j);
        assert(field_region_ok(buf1, g, s, start, e, j));
        let lo = (start + prefix_size(s, j)) as int;
        let hi = lo + field_inline_size(s.fields@[j]);
        assert(buf4.subrange(lo, hi) =~= buf1.subrange(lo, hi));
    }

    // The field reads back from any agreeing buffer.
    assert forall|bufr: Seq<u8>|
        bufr.len() >= buf4.len() && bufr.subrange(
            start as int,
            (start + prefix_size(s, i + 1)) as int,
        ) == buf4.subrange(start as int, (start + prefix_size(s, i + 1)) as int) && bufr.subrange(
            buf1.len() as int,
            buf4.len() as int,
        ) == buf4.subrange(buf1.len() as int, buf4.len() as int) implies read_field(
        bufr,
        s,
        start,
        base,
        e,
        i,
    ) == Result::<FieldG, Error>::Ok(g.fields[i]) by {
        // Offset cell: the patched raw value.
        lemma_subrange_within(
            bufr,
            buf4,
            start as int,
            (start + prefix_size(s, i + 1)) as int,
            cell,
            cell + 4,
        );
        assert(buf4.subrange(cell, cell + 4) =~= scalar_bytes(e, raw, 4));
        lemma_scalar_round_trip(e, raw, 4);
        assert(scalar_val(e, bufr.subrange(cell, cell + 4)) == raw);
        // Count cell: the inline count, untouched by the patch.
        lemma_subrange_within(
            bufr,
            buf4,
            start as int,
            (start + prefix_size(s, i + 1)) as int,
            cpos,
            cpos + 4,
        );
        assert(buf4.subrange(cpos, cpos + 4) =~= buf1.subrange(cpos, cpos + 4));
        lemma_scalar_bytes_len(e, es.len(), 4);
        assert(buf1.subrange(cpos, cpos + 4) =~= field_inline_bytes(g.fields[i], fs, e)
            .subrange(cpos - pos, cpos - pos + 4));
        assert(field_inline_bytes(g.fields[i], fs, e).subrange(cpos - pos, cpos - pos + 4)
            =~= scalar_bytes(e, es.len(), 4));
        lemma_scalar_round_trip(e, es.len(), 4);
        assert(scalar_val(e, bufr.subrange(cpos, cpos + 4)) == es.len());
        // Target, alignment and extent checks pass.
        assert(base + raw == target);
        assert(target as int % (a as int) == 0);
        assert(target + es.len() * esz <= bufr.len());
        // The elements read back one by one.
        let ebytes = elems_bytes(es, ew, e);
        let elen = es.len() * esz;
        lemma_subrange_within(
            bufr,
            buf4,
            buf1.len() as int,
            buf4.len() as int,
            target as int,
            target + elen,
        );
        assert(buf4.subrange(target as int, target + elen) =~= ebytes);
        assert(bufr.subrange(target as int, target + elen) == ebytes);
        let got = Seq::new(
            es.len(),
            |k: int| scalar_val(
                e,
                bufr.subrange(target + k * esz, target + (k + 1) * esz),
            ) as u64,
        );
        assert forall|k: int| 0 <= k < es.len() implies got[k] == es[k] by {
            lemma_elems_bytes_at(es, ew, e, k);
            assert(0 <= k * esz <= (k + 1) * esz && (k + 1) * esz <= es.len() * esz)
                by (nonlinear_arith)
                requires
                    0 <= k < es.len(),
                    esz >= 0,
            ;
            lemma_seq_eq_slice(bufr, ebytes, target as int, k * esz, (k + 1) * esz);
            lemma_scalar_round_trip(e, es[k] as nat, ew.spec_nbytes());
        }
        assert(got =~= es);
        assert(read_field(bufr, s, start, base, e, i) == Result::<FieldG, Error>::Ok(
            FieldG::CountOffset { elems: got },
        ));
    }
}


/// The offset-field step: the cursor is aligned, the placeholder patched
/// with `target - base`, and the payload placed there; the field reads
/// back.  For nested containers this rests on the whole-container
/// round-trip, recursively.
#[verifier::rlimit(100)]
#[verifier::spinoff_prover]
proof fn lemma_step_offset(
    buf1: Seq<u8>,
    g: ContainerG,
    s: ContainerSchema,
    start: nat,
    base: nat,
    e: Endian,
    i: int,
)
    requires
        schema_wf(s),
        conforms(g, s),
        base <= start,
        start + inline_size(s) <= buf1.len(),
        skeleton_ok(buf1, g, s, start, e, i),
        0 <= i < s.fields@.len(),
        g.fields.len() == s.fields@.len(),
        s.fields@[i] is OffsetField,
        field_pending(g.fields[i], s.fields@[i]),
        write_step(buf1, g, s, start, base, e, i) is Ok,
    ensures
        ({
            let buf4 = write_step(buf1, g, s, start, base, e, i)->Ok_0;
            let cell = offset_cell_pos(s, start, i) as int;
            let wb = (offset_width_of(s.fields@[i])->Some_0).spec_nbytes() as int;
            &&& buf4.len() >= buf1.len()
            &&& forall|p: int|
                0 <= p < buf1.len() && !(cell <= p < cell + wb) ==> buf4[p] == buf1[p]
            &&& skeleton_ok(buf4, g, s, start, e, i + 1)
            &&& step_reads_back(buf4, g, s, start, base, e, i, buf1.len())
        }),
    decreases g, 0int, 0int, 2int,
{
    let n = s.fields@.len() as int;
    let fs = s.fields@[i];
    let width = fs->OffsetField_width;
    let nullable = fs->OffsetField_nullable;
    let ps = fs->OffsetField_payload;
    let pad = field_pad_byte(fs);
    let wb = width.spec_nbytes();
    let pos = (start + prefix_size(s, i)) as int;
    let cell = offset_cell_pos(s, start, i) as int;
    let p_val = g.fields[i]->OffsetField_payload->0;
    assert(field_wf(fs));
    assert(field_conforms(g.fields[i], fs));
    assert(payload_conforms(p_val, ps));
    assert(payload_wf(ps));
    assert(field_region_ok(buf1, g, s, start, e, i));
    lemma_cell_in_field(fs);
    lemma_field_region_in_skeleton(s, i);
    assert(cell == pos);

    let a = field_eff_align(fs);
    let cur = buf1.len();
    let target = round_up_spec(cur, a);
    lemma_round_up(cur, a);
    let rawi: int = target - base;
    assert(0 <= rawi < width.max_val());
    let raw = rawi as nat;
    assert(raw >= 1);
    lemma_scalar_bytes_len(e, raw, wb);
    let buf2 = patch_bytes(buf1, cell as nat, scalar_bytes(e, raw, wb));
    lemma_patch_index(buf1, cell as nat, scalar_bytes(e, raw, wb));
    let buf3w = buf2 + repeat_byte(pad, (target - cur) as nat);
    assert(buf3w.len() == target);
    let buf4 = write_payload(buf3w, p_val, ps, base, e)->Ok_0;
    assert(write_payload(buf3w, p_val, ps, base, e) == Result::<Seq<u8>, Error>::Ok(buf4));
    assert(write_step(buf1, g, s, start, base, e, i) == Result::<Seq<u8>, Error>::Ok(buf4));

    // Facts about the payload placement, by its kind.
    match ps {
        PayloadSchema::Bytes { .. } => {
            assert(buf4 == buf3w + p_val->Bytes_data);
        },
        PayloadSchema::CStr { .. } => {
            assert(buf4 == buf3w + p_val->CStr_data + seq![0u8]);
        },
        PayloadSchema::Container { base: bk, schema: cs, .. } => {
            let child = p_val->Container_value;
            let cbase = if bk is Establish {
                target
            } else {
                base
            };
            assert(conforms(child, cs) && schema_wf(cs));
            assert(cbase <= buf3w.len());
            lemma_write_spec_reads(buf3w, child, cs, cbase, e);
        },
    }
    assert(buf4.len() >= buf3w.len());
    assert(buf4.subrange(0, target as int) == buf3w) by {
        match ps {
            PayloadSchema::Container { .. } => {},
            _ => {
                assert(buf4.subrange(0, target as int) =~= buf3w);
            },
        }
    }
    assert forall|p: int| 0 <= p < target implies buf4[p] == buf3w[p] by {
        assert(buf4.subrange(0, target as int)[p] == buf4[p]);
    }

    // Frame below the old length, outside the patched cell.
    assert forall|p: int|
        0 <= p < buf1.len() && !(cell <= p < cell + wb) implies buf4[p] == buf1[p] by {
        assert(buf4[p] == buf3w[p]);
        assert(buf3w[p] == buf2[p]);
    }

    // Skeleton of later fields is untouched.
    assert forall|j: int| i + 1 <= j < n implies field_region_ok(buf4, g, s, start, e, j) by {
        lemma_regions_disjoint(s, i, j);
        lemma_field_region_in_skeleton(s, j);
        assert(field_region_ok(buf1, g, s, start, e, j));
        let lo = (start + prefix_size(s, j)) as int;
        let hi = lo + field_inline_size(s.fields@[j]);
        assert(buf4.subrange(lo, hi) =~= buf1.subrange(lo, hi));
    }

    // The field reads back from any agreeing buffer.
    assert forall|bufr: Seq<u8>|
        bufr.len() >= buf4.len() && bufr.subrange(
            start as int,
            (start + prefix_size(s, i + 1)) as int,
        ) == buf4.subrange(start as int, (start + prefix_size(s, i + 1)) as int) && bufr.subrange(
            buf1.len() as int,
            buf4.len() as int,
        ) == buf4.subrange(buf1.len() as int, buf4.len() as int) implies read_field(
        bufr,
        s,
        start,
        base,
        e,
        i,
    ) == Result::<FieldG, Error>::Ok(g.fields[i]) by {
        lemma_subrange_within(
            bufr,
            buf4,
            start as int,
            (start + prefix_size(s, i + 1)) as int,
            cell,
            cell + wb,
        );
        assert(buf4.subrange(cell, cell + wb) =~= scalar_bytes(e, raw, wb));
        lemma_scalar_round_trip(e, raw, wb);
        assert(scalar_val(e, bufr.subrange(cell, cell + wb)) == raw);
        assert(base + raw == target);
        assert(target <= buf4.len() <= bufr.len());
        assert(target as int % (a as int) == 0);
        match ps {
            PayloadSchema::Bytes { len, .. } => {
                let data = p_val->Bytes_data;
                assert(data.len() == len);
                lemma_subrange_within(
                    bufr,
                    buf4,
                    buf1.len() as int,
                    buf4.len() as int,
                    target as int,
                    target + len,
                );
                assert(buf4.subrange(target as int, target + len) =~= data);
                assert(read_payload(bufr, ps, target, base, e) == Result::<
                    PayloadG,
                    Error,
                >::Ok(PayloadG::Bytes { data: bufr.subrange(target as int, target + len) }));
                assert(bufr.subrange(target as int, target + len) == data);
            },
            PayloadSchema::CStr { .. } => {
                let data = p_val->CStr_data;
                let dlen = data.len() as int;
                lemma_subrange_within(
                    bufr,
                    buf4,
                    buf1.len() as int,
                    buf4.len() as int,
                    target as int,
                    target + dlen + 1,
                );
                assert forall|q: int| target <= q < target + dlen implies bufr[q] != 0u8 by {
                    assert(bufr.subrange(target as int, target + dlen + 1)[q - target]
                        == bufr[q]);
                    assert(buf4[q] == data[q - target]);
                };
                assert(bufr.subrange(target as int, target + dlen + 1)[dlen] == bufr[target
                    + dlen]);
                assert(buf4[target + dlen] == 0u8);
                assert(bufr[target + dlen] == 0u8);
                lemma_find_zero_exact(bufr, target, (target + dlen) as nat);
                assert(bufr.subrange(target as int, target + dlen) =~= data);
            },
            PayloadSchema::Container { base: bk, schema: cs, .. } => {
                let child = p_val->Container_value;
                let cbase = if bk is Establish {
                    target
                } else {
                    base
                };
                lemma_subrange_within(
                    bufr,
                    buf4,
                    buf1.len() as int,
                    buf4.len() as int,
                    target as int,
                    buf4.len() as int,
                );
                assert(read_from(bufr, cs, target, cbase, e, 0) == Result::<
                    Seq<FieldG>,
                    Error,
                >::Ok(child.fields));
                assert(ContainerG { fields: child.fields } == child);
            },
        }
    }
}

/// Phase two of fields `i..` preserves everything but the suffix's
/// offset cells, and afterwards fields `i..` read back from any buffer
/// that agrees on the skeleton and on the data placed here.
proof fn lemma_write_from_reads(
    buf1: Seq<u8>,
    g: ContainerG,
    s: ContainerSchema,
    start: nat,
    base: nat,
    e: Endian,
    i: int,
)
    requires
        schema_wf(s),
        conforms(g, s),
        base <= start,
        start + inline_size(s) <= buf1.len(),
        skeleton_ok(buf1, g, s, start, e, i),
        0 <= i <= s.fields@.len(),
        g.fields.len() == s.fields@.len(),
        write_from(buf1, g, s, start, base, e, i) is Ok,
    ensures
        ({
            let out = write_from(buf1, g, s, start, base, e, i)->Ok_0;
            &&& out.len() >= buf1.len()
            &&& forall|p: int|
                0 <= p < buf1.len() && !in_pending_cell(g, s, start, i, p) ==> out[p]
                    == buf1[p]
            &&& reads_back(out, g, s, start, base, e, i, buf1.len())
        }),
    decreases g, 0int, s.fields@.len() - i, 3int,
{
    let n = s.fields@.len() as int;
    let out = write_from(buf1, g, s, start, base, e, i)->Ok_0;
    if i == n {
        assert(out == buf1);
        assert forall|buf3: Seq<u8>|
            buf3.len() >= out.len() && buf3.subrange(
                start as int,
                (start + inline_size(s)) as int,
            ) == out.subrange(start as int, (start + inline_size(s)) as int) && buf3.subrange(
                buf1.len() as int,
                out.len() as int,
            ) == out.subrange(buf1.len() as int, out.len() as int) implies read_from(
            buf3,
            s,
            start,
            base,
            e,
            i,
        ) == Result::<Seq<FieldG>, Error>::Ok(g.fields.subrange(i, n)) by {
            assert(g.fields.subrange(n, n) =~= Seq::<FieldG>::empty());
        }
    } else {
        let step = write_step(buf1, g, s, start, base, e, i);
        assert(step is Ok);
        let buf4 = step->Ok_0;
        let pend = field_pending(g.fields[i], s.fields@[i]);
        let cell = offset_cell_pos(s, start, i) as int;
        let wb: int = if pend {
            (offset_width_of(s.fields@[i])->Some_0).spec_nbytes() as int
        } else {
            0
        };
        assert(field_conforms(g.fields[i], s.fields@[i]));

        // Step facts, by the field's kind.
        if !pend {
            assert(buf4 == buf1);
            lemma_step_inline(buf1, g, s, start, base, e, i);
        } else {
            match s.fields@[i] {
                FieldSchema::SharedOffset { .. } => {
                    lemma_step_shared(buf1, g, s, start, base, e, i);
                },
                FieldSchema::CountOffset { .. } => {
                    lemma_step_count(buf1, g, s, start, base, e, i);
                },
                FieldSchema::OffsetField { .. } => {
                    lemma_step_offset(buf1, g, s, start, base, e, i);
                },
                _ => {
                    assert(false);
                },
            }
        }
        assert(buf4.len() >= buf1.len());
        assert(skeleton_ok(buf4, g, s, start, e, i + 1));
        assert(step_reads_back(buf4, g, s, start, base, e, i, buf1.len()));
        assert(forall|p: int|
            0 <= p < buf1.len() && !(cell <= p < cell + wb) ==> buf4[p] == buf1[p]);

        // Recurse over the remaining fields.
        lemma_write_from_reads(buf4, g, s, start, base, e, i + 1);
        assert(out == write_from(buf4, g, s, start, base, e, i + 1)->Ok_0);
        assert(out.len() >= buf4.len());

        // Positions in the regions of fields up to `i` are not suffix cells.
        assert forall|p: int|
            0 <= p < start + prefix_size(s, i + 1) && p < buf4.len() implies !(
            #[trigger] in_pending_cell(g, s, start, i + 1, p)) by {
            if in_pending_cell(g, s, start, i + 1, p) {
                let j = choose|j: int|
                    i + 1 <= j < s.fields@.len() && is_pending_at(g, s, j) && offset_cell_pos(
                        s,
                        start,
                        j,
                    ) <= p < offset_cell_pos(s, start, j) + (offset_width_of(
                        s.fields@[j],
                    )->Some_0).spec_nbytes();
                lemma_prefix_size_mono(s, i + 1, j);
            }
        }
        // No suffix cell lies at or past the end of the skeleton.
        assert forall|p: int|
            start + inline_size(s) <= p implies !(#[trigger] in_pending_cell(
            g,
            s,
            start,
            i + 1,
            p,
        )) by {
            if in_pending_cell(g, s, start, i + 1, p) {
                lemma_cells_in_skeleton(g, s, start, i + 1, p);
            }
        }
        lemma_prefix_size_mono(s, i + 1, n);

        // Frame: combine the step frame with the recursive frame.
        assert forall|p: int|
            0 <= p < buf1.len() && !in_pending_cell(g, s, start, i, p) implies out[p]
            == buf1[p] by {
            assert(!in_pending_cell(g, s, start, i + 1, p)) by {
                if in_pending_cell(g, s, start, i + 1, p) {
                    let j = choose|j: int|
                        i + 1 <= j < s.fields@.len() && is_pending_at(g, s, j)
                            && offset_cell_pos(s, start, j) <= p < offset_cell_pos(s, start, j)
                            + (offset_width_of(s.fields@[j])->Some_0).spec_nbytes();
                    assert(i <= j < s.fields@.len() && is_pending_at(g, s, j)
                        && offset_cell_pos(s, start, j) <= p < offset_cell_pos(s, start, j)
                        + (offset_width_of(s.fields@[j])->Some_0).spec_nbytes());
                }
            }
            assert(out[p] == buf4[p]);
            if pend {
                assert(!(cell <= p < cell + wb)) by {
                    if cell <= p < cell + wb {
                        assert(is_pending_at(g, s, i) && offset_cell_pos(s, start, i) <= p
                            < offset_cell_pos(s, start, i) + (offset_width_of(
                            s.fields@[i],
                        )->Some_0).spec_nbytes());
                    }
                }
            }
            assert(buf4[p] == buf1[p]);
        }

        // Readback: field `i` from the step, the rest from the recursion.
        assert forall|buf3: Seq<u8>|
            buf3.len() >= out.len() && buf3.subrange(
                start as int,
                (start + inline_size(s)) as int,
            ) == out.subrange(start as int, (start + inline_size(s)) as int) && buf3.subrange(
                buf1.len() as int,
                out.len() as int,
            ) == out.subrange(buf1.len() as int, out.len() as int) implies read_from(
            buf3,
            s,
            start,
            base,
            e,
            i,
        ) == Result::<Seq<FieldG>, Error>::Ok(g.fields.subrange(i, n)) by {
            // The suffix reads back via the recursion.
            lemma_subrange_within(
                buf3,
                out,
                buf1.len() as int,
                out.len() as int,
                buf4.len() as int,
                out.len() as int,
            );
            assert(read_from(buf3, s, start, base, e, i + 1) == Result::<
                Seq<FieldG>,
                Error,
            >::Ok(g.fields.subrange(i + 1, n)));
            // Field `i` reads back via the step property.
            // First: buf3 agrees with buf4 on the fields up to `i`.
            assert forall|q: int|
                start <= q < start + prefix_size(s, i + 1) implies buf3[q] == buf4[q] by {
                assert(buf3.subrange(start as int, (start + inline_size(s)) as int)[q - start]
                    == buf3[q]);
                assert(out[q] == buf4[q]);
            }
            assert(buf3.subrange(start as int, (start + prefix_size(s, i + 1)) as int)
                =~= buf4.subrange(start as int, (start + prefix_size(s, i + 1)) as int));
            // Second: buf3 agrees with buf4 on the data the step placed.
            assert forall|q: int|
                buf1.len() <= q < buf4.len() implies buf3[q] == buf4[q] by {
                assert(buf3.subrange(buf1.len() as int, out.len() as int)[q - buf1.len()]
                    == buf3[q]);
                assert(out[q] == buf4[q]);
            }
            assert(buf3.subrange(buf1.len() as int, buf4.len() as int) =~= buf4.subrange(
                buf1.len() as int,
                buf4.len() as int,
            ));
            assert(read_field(buf3, s, start, base, e, i) == Result::<FieldG, Error>::Ok(
                g.fields[i],
            ));
            assert(seq![g.fields[i]] + g.fields.subrange(i + 1, n) =~= g.fields.subrange(
                i,
                n,
            ));
        }
    }
}

/// The whole-container write reads back: any buffer that agrees with the
/// written one on everything this write produced parses to the value.
proof fn lemma_write_spec_reads(
    buf: Seq<u8>,
    g: ContainerG,
    s: ContainerSchema,
    base: nat,
    e: Endian,
)
    requires
        schema_wf(s),
        conforms(g, s),
        base <= buf.len(),
        write_spec(buf, g, s, base, e) is Ok,
    ensures
        ({
            let out = write_spec(buf, g, s, base, e)->Ok_0;
            &&& out.len() >= buf.len() + inline_size(s)
            &&& out.subrange(0, buf.len() as int) == buf
            &&& forall|buf3: Seq<u8>|
                buf3.len() >= out.len() && buf3.subrange(buf.len() as int, out.len() as int)
                    == out.subrange(buf.len() as int, out.len() as int)
                    ==> #[trigger] read_from(buf3, s, buf.len(), base, e, 0) == Result::<
                    Seq<FieldG>,
                    Error,
                >::Ok(g.fields)
        }),
    decreases g, 1int, 0int, 0int,
{
    let n = s.fields@.len() as int;
    let start = buf.len();
    let inline = container_inline_bytes(g, s, e);
    let buf1 = buf + inline;
    lemma_inline_from_len(g, s, e, 0);
    assert(buf1.len() == start + inline_size(s));
    let out = write_spec(buf, g, s, base, e)->Ok_0;
    assert(write_from(buf1, g, s, start, base, e, 0) is Ok);
    assert(out == write_from(buf1, g, s, start, base, e, 0)->Ok_0);

    // The fresh skeleton is in place.
    assert forall|j: int| 0 <= j < n implies field_region_ok(buf1, g, s, start, e, j) by {
        lemma_inline_at(g, s, e, 0, j);
        lemma_field_region_in_skeleton(s, j);
        let lo = prefix_size(s, j) as int;
        let hi = lo + field_inline_size(s.fields@[j]);
        assert(buf1.subrange(start + lo, start + hi) =~= inline.subrange(lo, hi));
    }

    lemma_write_from_reads(buf1, g, s, start, base, e, 0);
    assert(out.len() >= buf1.len());

    // Nothing below the original end is touched.
    assert forall|p: int| 0 <= p < buf.len() implies out[p] == buf[p] by {
        assert(!in_pending_cell(g, s, start, 0, p)) by {
            if in_pending_cell(g, s, start, 0, p) {
                lemma_cells_in_skeleton(g, s, start, 0, p);
            }
        }
        assert(out[p] == buf1[p]);
        assert(buf1[p] == buf[p]);
    }
    assert(out.subrange(0, buf.len() as int) =~= buf);

    // Readback from any buffer agreeing on everything written here.
    assert forall|buf3: Seq<u8>|
        buf3.len() >= out.len() && buf3.subrange(buf.len() as int, out.len() as int)
            == out.subrange(buf.len() as int, out.len() as int) implies read_from(
        buf3,
        s,
        start,
        base,
        e,
        0,
    ) == Result::<Seq<FieldG>, Error>::Ok(g.fields) by {
        lemma_subrange_within(
            buf3,
            out,
            start as int,
            out.len() as int,
            start as int,
            (start + inline_size(s)) as int,
        );
        lemma_subrange_within(
            buf3,
            out,
            start as int,
            out.len() as int,
            buf1.len() as int,
            out.len() as int,
        );
        assert(read_from(buf3, s, start, base, e, 0) == Result::<Seq<FieldG>, Error>::Ok(
            g.fields.subrange(0, n),
        ));
        assert(g.fields.subrange(0, n) =~= g.fields);
    }
}


/// Only the all-zero byte string stores the value zero.
pub proof fn lemma_scalar_val_zero_inv(e: Endian, bs: Seq<u8>)
    requires
        scalar_val(e, bs) == 0,
    ensures
        bs == zero_bytes(bs.len()),
{
    match e {
        Endian::Little => {
            lemma_le_val_zero_inv(bs);
        },
        Endian::Big => {
            lemma_le_val_zero_inv(bs.reverse());
            assert forall|q: int| 0 <= q < bs.len() implies bs[q] == 0u8 by {
                assert(bs.reverse()[bs.len() - 1 - q] == bs[q]);
                assert(zero_bytes(bs.len())[bs.len() - 1 - q] == 0u8);
            }
            assert(bs =~= zero_bytes(bs.len()));
        },
    }
}

proof fn lemma_le_val_zero_inv(bs: Seq<u8>)
    requires
        crate::stream::le_val(bs) == 0,
    ensures
        bs == zero_bytes(bs.len()),
    decreases bs.len(),
{
    if bs.len() > 0 {
        lemma_le_val_zero_inv(bs.drop_first());
        assert forall|q: int| 0 <= q < bs.len() implies bs[q] == 0u8 by {
            if q > 0 {
                assert(bs.drop_first()[q - 1] == bs[q]);
                assert(zero_bytes((bs.len() - 1) as nat)[q - 1] == 0u8);
            }
        }
    }
    assert(bs =~= zero_bytes(bs.len()));
}

/// The round-trip law: writing a well-formed value and re-parsing the
/// resulting buffer — from the position and base the write used —
/// reproduces the value exactly, for every supported container shape.
pub proof fn lemma_round_trip(buf: Seq<u8>, g: ContainerG, s: ContainerSchema, base: nat, e: Endian)
    requires
        schema_wf(s),
        conforms(g, s),
        base <= buf.len(),
        write_spec(buf, g, s, base, e) is Ok,
    ensures
        read_container_spec(
            write_spec(buf, g, s, base, e)->Ok_0,
            s,
            buf.len(),
            base,
            e,
        ) == Result::<ContainerG, Error>::Ok(g),
{
    lemma_write_spec_reads(buf, g, s, base, e);
    let out = write_spec(buf, g, s, base, e)->Ok_0;
    assert(out.subrange(buf.len() as int, out.len() as int) == out.subrange(
        buf.len() as int,
        out.len() as int,
    ));
    assert(read_from(out, s, buf.len(), base, e, 0) == Result::<Seq<FieldG>, Error>::Ok(
        g.fields,
    ));
    assert(ContainerG { fields: g.fields } == g);
}

/// The monotonic-cursor law: a write only ever appends or patches bytes it wrote
/// itself: the stream grows by at least the skeleton, and every byte that
/// was in the stream before is still there.
pub proof fn lemma_write_monotonic(
    buf: Seq<u8>,
    g: ContainerG,
    s: ContainerSchema,
    base: nat,
    e: Endian,
)
    requires
        schema_wf(s),
        conforms(g, s),
        base <= buf.len(),
        write_spec(buf, g, s, base, e) is Ok,
    ensures
        write_spec(buf, g, s, base, e)->Ok_0.len() >= buf.len() + inline_size(s),
        write_spec(buf, g, s, base, e)->Ok_0.subrange(0, buf.len() as int) == buf,
{
    lemma_write_spec_reads(buf, g, s, base, e);
}

/// The alignment law: every resolved pointer target of the written container is
/// a multiple of its declared effective alignment: the payload's own
/// alignment or the field-level override, whichever is stricter.
pub proof fn lemma_alignment(
    buf: Seq<u8>,
    g: ContainerG,
    s: ContainerSchema,
    base: nat,
    e: Endian,
    i: int,
)
    requires
        schema_wf(s),
        conforms(g, s),
        base <= buf.len(),
        write_spec(buf, g, s, base, e) is Ok,
        0 <= i < s.fields@.len(),
        is_pending_at(g, s, i),
        !(s.fields@[i] is SharedOffset),
    ensures
        ({
            let out = write_spec(buf, g, s, base, e)->Ok_0;
            let cell = offset_cell_pos(s, buf.len(), i);
            let wb = (offset_width_of(s.fields@[i])->Some_0).spec_nbytes();
            let raw = scalar_val(e, out.subrange(cell as int, (cell + wb) as int));
            (base + raw) as int % (field_eff_align(s.fields@[i]) as int) == 0
        }),
{
    lemma_write_spec_reads(buf, g, s, base, e);
    let out = write_spec(buf, g, s, base, e)->Ok_0;
    let start = buf.len();
    assert(out.subrange(start as int, out.len() as int) == out.subrange(
        start as int,
        out.len() as int,
    ));
    assert(read_from(out, s, start, base, e, 0) == Result::<Seq<FieldG>, Error>::Ok(g.fields));
    lemma_read_from_at(out, s, start, base, e, 0, i);
    assert(read_field(out, s, start, base, e, i)->Ok_0 == g.fields[i]);
    assert(field_conforms(g.fields[i], s.fields@[i]));
}

/// The null-encoding law: a nullable offset with no value present serializes its
/// placeholder as literal zero bytes.
pub proof fn lemma_null_encoding(
    buf: Seq<u8>,
    g: ContainerG,
    s: ContainerSchema,
    base: nat,
    e: Endian,
    i: int,
)
    requires
        schema_wf(s),
        conforms(g, s),
        base <= buf.len(),
        write_spec(buf, g, s, base, e) is Ok,
        0 <= i < s.fields@.len(),
        s.fields@[i] is OffsetField,
        g.fields[i] == (FieldG::OffsetField { payload: Option::<PayloadG>::None }),
    ensures
        ({
            let out = write_spec(buf, g, s, base, e)->Ok_0;
            let cell = offset_cell_pos(s, buf.len(), i);
            let wb = (s.fields@[i]->OffsetField_width).spec_nbytes();
            out.subrange(cell as int, (cell + wb) as int) == zero_bytes(wb)
        }),
{
    lemma_write_spec_reads(buf, g, s, base, e);
    let out = write_spec(buf, g, s, base, e)->Ok_0;
    let start = buf.len();
    let cell = offset_cell_pos(s, start, i);
    let wb = (s.fields@[i]->OffsetField_width).spec_nbytes();
    assert(out.subrange(start as int, out.len() as int) == out.subrange(
        start as int,
        out.len() as int,
    ));
    assert(read_from(out, s, start, base, e, 0) == Result::<Seq<FieldG>, Error>::Ok(g.fields));
    lemma_read_from_at(out, s, start, base, e, 0, i);
    assert(read_field(out, s, start, base, e, i)->Ok_0 == g.fields[i]);
    let bs = out.subrange(cell as int, (cell + wb) as int);
    assert(scalar_val(e, bs) == 0) by {
        if scalar_val(e, bs) != 0 {
            assert(read_field(out, s, start, base, e, i)->Ok_0 is OffsetField);
        }
    }
    lemma_scalar_bytes_len(e, 0, wb);
    lemma_scalar_val_zero_inv(e, bs);
    assert(bs.len() == wb);
}

/// The null-encoding law, second half: a container none of whose fields owns
/// pointed-to data writes its skeleton and nothing else: absent values
/// contribute no child bytes.
pub proof fn lemma_inline_only_write(
    buf: Seq<u8>,
    g: ContainerG,
    s: ContainerSchema,
    base: nat,
    e: Endian,
)
    requires
        schema_wf(s),
        conforms(g, s),
        base <= buf.len(),
        forall|j: int|
            0 <= j < s.fields@.len() ==> !field_pending(#[trigger] g.fields[j], s.fields@[j]),
    ensures
        write_spec(buf, g, s, base, e) == Result::<Seq<u8>, Error>::Ok(
            buf + container_inline_bytes(g, s, e),
        ),
{
    lemma_write_from_nop(buf + container_inline_bytes(g, s, e), g, s, buf.len(), base, e, 0);
}

proof fn lemma_write_from_nop(
    buf1: Seq<u8>,
    g: ContainerG,
    s: ContainerSchema,
    start: nat,
    base: nat,
    e: Endian,
    i: int,
)
    requires
        0 <= i <= s.fields@.len(),
        forall|j: int|
            i <= j < s.fields@.len() ==> !field_pending(#[trigger] g.fields[j], s.fields@[j]),
    ensures
        write_from(buf1, g, s, start, base, e, i) == Result::<Seq<u8>, Error>::Ok(buf1),
    decreases s.fields@.len() - i,
{
    if i < s.fields@.len() {
        assert(write_step(buf1, g, s, start, base, e, i) == Result::<Seq<u8>, Error>::Ok(buf1));
        lemma_write_from_nop(buf1, g, s, start, base, e, i + 1);
    }
}

/// The shared-offset law: a shared offset's stored value — and so its
/// resolved address — exactly equals its aliased sibling's.
pub proof fn lemma_shared_offset_equality(
    buf: Seq<u8>,
    g: ContainerG,
    s: ContainerSchema,
    base: nat,
    e: Endian,
    i: int,
)
    requires
        schema_wf(s),
        conforms(g, s),
        base <= buf.len(),
        write_spec(buf, g, s, base, e) is Ok,
        0 <= i < s.fields@.len(),
        s.fields@[i] is SharedOffset,
    ensures
        ({
            let out = write_spec(buf, g, s, base, e)->Ok_0;
            let cell = offset_cell_pos(s, buf.len(), i);
            let acell = offset_cell_pos(s, buf.len(), s.fields@[i]->SharedOffset_alias as int);
            let wb = (s.fields@[i]->SharedOffset_width).spec_nbytes();
            base + scalar_val(e, out.subrange(cell as int, (cell + wb) as int)) == base
                + scalar_val(e, out.subrange(acell as int, (acell + wb) as int))
        }),
{
    lemma_write_spec_reads(buf, g, s, base, e);
    let out = write_spec(buf, g, s, base, e)->Ok_0;
    let start = buf.len();
    assert(out.subrange(start as int, out.len() as int) == out.subrange(
        start as int,
        out.len() as int,
    ));
    assert(read_from(out, s, start, base, e, 0) == Result::<Seq<FieldG>, Error>::Ok(g.fields));
    lemma_read_from_at(out, s, start, base, e, 0, i);
}

/// The count-fidelity law: an offset + count field stores exactly its element
/// count inline, and reading the written buffer back yields exactly that
/// many elements; an empty array contributes no pointed-to bytes at all.
pub proof fn lemma_count_fidelity(
    buf: Seq<u8>,
    g: ContainerG,
    s: ContainerSchema,
    base: nat,
    e: Endian,
    i: int,
)
    requires
        schema_wf(s),
        conforms(g, s),
        base <= buf.len(),
        write_spec(buf, g, s, base, e) is Ok,
        0 <= i < s.fields@.len(),
        s.fields@[i] is CountOffset,
    ensures
        ({
            let out = write_spec(buf, g, s, base, e)->Ok_0;
            let pos = buf.len() + prefix_size(s, i);
            let cpos = if s.fields@[i]->CountOffset_order is CountFirst {
                pos
            } else {
                pos + 4
            };
            let k = g.fields[i]->CountOffset_elems.len();
            &&& scalar_val(e, out.subrange(cpos as int, cpos as int + 4)) == k
            &&& read_field(out, s, buf.len(), base, e, i) == Result::<FieldG, Error>::Ok(
                FieldG::CountOffset { elems: g.fields[i]->CountOffset_elems },
            )
        }),
        g.fields[i]->CountOffset_elems.len() == 0 ==> elems_bytes(
            g.fields[i]->CountOffset_elems,
            s.fields@[i]->CountOffset_elem_width,
            e,
        ) == Seq::<u8>::empty(),
{
    lemma_write_spec_reads(buf, g, s, base, e);
    let out = write_spec(buf, g, s, base, e)->Ok_0;
    let start = buf.len();
    assert(out.subrange(start as int, out.len() as int) == out.subrange(
        start as int,
        out.len() as int,
    ));
    assert(read_from(out, s, start, base, e, 0) == Result::<Seq<FieldG>, Error>::Ok(g.fields));
    lemma_read_from_at(out, s, start, base, e, 0, i);
    assert(read_field(out, s, start, base, e, i)->Ok_0 == g.fields[i]);
    assert(field_conforms(g.fields[i], s.fields@[i]));
    assert(g.fields[i] == (FieldG::CountOffset { elems: g.fields[i]->CountOffset_elems }));
}

} // verus!
