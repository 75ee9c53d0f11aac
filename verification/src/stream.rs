//! In-memory seekable byte buffer and the primitive scalar codec.
//!
//! All multi-byte integers are read and written at a caller-chosen
//! endianness; little-endian is the common case, big-endian covers the
//! legacy schema variant.

use vstd::prelude::*;

verus! {

/// Byte order for multi-byte integers, chosen per call.
#[derive(Debug, Clone, Copy, PartialEq, Eq, Structural)]
pub enum Endian {
    Little,
    Big,
}

/// Width in bytes of an inline scalar or offset field.
#[derive(Debug, Clone, Copy, PartialEq, Eq, Structural)]
pub enum Width {
    W8,
    W16,
    W32,
    W64,
}

/// 256 to the power `n`: the number of values a little-endian integer of
/// `n` bytes can take.
pub open spec fn p256(n: nat) -> nat
    decreases n,
{
    if n == 0 {
        1
    } else {
        256 * p256((n - 1) as nat)
    }
}

impl Width {
    pub open spec fn spec_nbytes(self) -> nat {
        match self {
            Width::W8 => 1,
            Width::W16 => 2,
            Width::W32 => 4,
            Width::W64 => 8,
        }
    }

    /// One more than the largest value a scalar of this width can hold.
    pub open spec fn max_val(self) -> nat {
        p256(self.spec_nbytes())
    }

    pub fn nbytes(self) -> (n: usize)
        ensures
            n == self.spec_nbytes(),
    {
        match self {
            Width::W8 => 1,
            Width::W16 => 2,
            Width::W32 => 4,
            Width::W64 => 8,
        }
    }

    proof fn lemma_max_val_fits(self)
        ensures
            self.max_val() <= 0x1_0000_0000_0000_0000,
            self.max_val() >= 256,
    {
        reveal_with_fuel(p256, 9);
    }
}

/// The little-endian byte representation of `v % p256(n)` in `n` bytes.
pub open spec fn le_bytes_of(v: nat, n: nat) -> Seq<u8>
    decreases n,
{
    if n == 0 {
        Seq::empty()
    } else {
        seq![(v % 256) as u8] + le_bytes_of(v / 256, (n - 1) as nat)
    }
}

/// The value of a little-endian byte string.
pub open spec fn le_val(bs: Seq<u8>) -> nat
    decreases bs.len(),
{
    if bs.len() == 0 {
        0
    } else {
        (bs[0] + 256 * le_val(bs.drop_first())) as nat
    }
}

/// The byte representation of `v` in `n` bytes at endianness `e`.
pub open spec fn scalar_bytes(e: Endian, v: nat, n: nat) -> Seq<u8> {
    match e {
        Endian::Little => le_bytes_of(v, n),
        Endian::Big => le_bytes_of(v, n).reverse(),
    }
}

/// The value of the byte string `bs` at endianness `e`.
pub open spec fn scalar_val(e: Endian, bs: Seq<u8>) -> nat {
    match e {
        Endian::Little => le_val(bs),
        Endian::Big => le_val(bs.reverse()),
    }
}

/// `n` zero bytes: the placeholder written for every offset field.
pub open spec fn zero_bytes(n: nat) -> Seq<u8> {
    Seq::new(n, |i: int| 0u8)
}

/// `n` copies of the padding byte `b`.
pub open spec fn repeat_byte(b: u8, n: nat) -> Seq<u8> {
    Seq::new(n, |i: int| b)
}

pub proof fn lemma_le_bytes_len(v: nat, n: nat)
    ensures
        le_bytes_of(v, n).len() == n,
    decreases n,
{
    if n > 0 {
        lemma_le_bytes_len(v / 256, (n - 1) as nat);
    }
}

pub proof fn lemma_le_round_trip(v: nat, n: nat)
    requires
        v < p256(n),
    ensures
        le_val(le_bytes_of(v, n)) == v,
    decreases n,
{
    if n > 0 {
        assert(v / 256 < p256((n - 1) as nat)) by (nonlinear_arith)
            requires
                v < 256 * p256((n - 1) as nat),
        ;
        lemma_le_round_trip(v / 256, (n - 1) as nat);
        lemma_le_bytes_len(v / 256, (n - 1) as nat);
        let bs = le_bytes_of(v, n);
        assert(bs.drop_first() =~= le_bytes_of(v / 256, (n - 1) as nat));
        assert(v == (v % 256) + 256 * (v / 256));
    }
}

pub proof fn lemma_le_val_bound(bs: Seq<u8>)
    ensures
        le_val(bs) < p256(bs.len()),
    decreases bs.len(),
{
    if bs.len() > 0 {
        lemma_le_val_bound(bs.drop_first());
    }
}

pub proof fn lemma_p256_mono(a: nat, b: nat)
    requires
        a <= b,
    ensures
        p256(a) <= p256(b),
    decreases b,
{
    if a < b && b > 0 {
        lemma_p256_mono(a, (b - 1) as nat);
        assert(p256((b - 1) as nat) <= 256 * p256((b - 1) as nat)) by (nonlinear_arith)
            requires
                p256((b - 1) as nat) >= 0,
        ;
    }
}

pub proof fn lemma_p256_pos(n: nat)
    ensures
        p256(n) >= 1,
    decreases n,
{
    if n > 0 {
        lemma_p256_pos((n - 1) as nat);
    }
}

pub proof fn lemma_scalar_bytes_len(e: Endian, v: nat, n: nat)
    ensures
        scalar_bytes(e, v, n).len() == n,
{
    lemma_le_bytes_len(v, n);
}

pub proof fn lemma_scalar_round_trip(e: Endian, v: nat, n: nat)
    requires
        v < p256(n),
    ensures
        scalar_val(e, scalar_bytes(e, v, n)) == v,
{
    lemma_le_bytes_len(v, n);
    lemma_le_round_trip(v, n);
    if e is Big {
        let bs = le_bytes_of(v, n);
        assert(bs.reverse().reverse() =~= bs);
    }
}

/// A byte string is reproduced by re-encoding its stored value.
pub proof fn lemma_scalar_bytes_of_val(e: Endian, bs: Seq<u8>)
    ensures
        scalar_bytes(e, scalar_val(e, bs), bs.len()) == bs,
{
    match e {
        Endian::Little => {
            lemma_le_bytes_of_val(bs);
        },
        Endian::Big => {
            lemma_le_bytes_of_val(bs.reverse());
            assert(le_bytes_of(le_val(bs.reverse()), bs.len()).reverse() =~= bs);
        },
    }
}

proof fn lemma_le_bytes_of_val(bs: Seq<u8>)
    ensures
        le_bytes_of(le_val(bs), bs.len()) == bs,
    decreases bs.len(),
{
    if bs.len() > 0 {
        lemma_le_bytes_of_val(bs.drop_first());
        lemma_le_bytes_len(le_val(bs.drop_first()), (bs.len() - 1) as nat);
        let v = le_val(bs);
        assert(v % 256 == bs[0] && v / 256 == le_val(bs.drop_first())) by (nonlinear_arith)
            requires
                v == bs[0] + 256 * le_val(bs.drop_first()),
                0 <= bs[0] < 256,
                le_val(bs.drop_first()) >= 0,
        ;
        assert(le_bytes_of(le_val(bs), bs.len()) =~= bs);
    } else {
        assert(le_bytes_of(le_val(bs), 0) =~= bs);
    }
}

pub proof fn lemma_scalar_val_bound(e: Endian, bs: Seq<u8>)
    ensures
        scalar_val(e, bs) < p256(bs.len()),
{
    match e {
        Endian::Little => lemma_le_val_bound(bs),
        Endian::Big => {
            lemma_le_val_bound(bs.reverse());
        },
    }
}

pub proof fn lemma_scalar_bytes_zero(e: Endian, n: nat)
    ensures
        scalar_bytes(e, 0, n) == zero_bytes(n),
    decreases n,
{
    lemma_le_bytes_zero(n);
    lemma_le_bytes_len(0, n);
    if e is Big {
        assert(zero_bytes(n).reverse() =~= zero_bytes(n));
    }
}

proof fn lemma_le_bytes_zero(n: nat)
    ensures
        le_bytes_of(0, n) == zero_bytes(n),
    decreases n,
{
    if n == 0 {
        assert(le_bytes_of(0, n) =~= zero_bytes(n));
    } else {
        lemma_le_bytes_zero((n - 1) as nat);
        assert(le_bytes_of(0, n) =~= zero_bytes(n));
    }
}

/// An in-memory byte buffer: the single seekable stream one read or write
/// call tree works against.
pub struct Stream {
    pub data: Vec<u8>,
}

impl View for Stream {
    type V = Seq<u8>;

    open spec fn view(&self) -> Seq<u8> {
        self.data@
    }
}

impl Stream {
    pub fn new() -> (s: Stream)
        ensures
            s@ == Seq::<u8>::empty(),
    {
        let s = Stream { data: Vec::new() };
        proof {
            assert(s@ =~= Seq::<u8>::empty());
        }
        s
    }

    pub fn len(&self) -> (n: usize)
        ensures
            n == self@.len(),
    {
        self.data.len()
    }

    pub fn get_byte(&self, pos: usize) -> (b: u8)
        requires
            pos < self@.len(),
        ensures
            b == self@[pos as int],
    {
        self.data[pos]
    }

    /// Append every byte of `bytes` at the end of the stream.
    pub fn append_vec(&mut self, bytes: &Vec<u8>)
        ensures
            final(self)@ == old(self)@ + bytes@,
    {
        let mut i: usize = 0;
        while i < bytes.len()
            invariant
                i <= bytes@.len(),
                self@ == old(self)@ + bytes@.subrange(0, i as int),
            decreases bytes@.len() - i,
        {
            self.data.push(bytes[i]);
            proof {
                assert(bytes@.subrange(0, i + 1) =~= bytes@.subrange(0, i as int).push(
                    bytes@[i as int],
                ));
                assert(self@ =~= old(self)@ + bytes@.subrange(0, i + 1));
            }
            i = i + 1;
        }
        proof {
            assert(bytes@.subrange(0, bytes@.len() as int) =~= bytes@);
        }
    }

    /// Append one byte at the end of the stream.
    pub fn append_byte(&mut self, b: u8)
        ensures
            final(self)@ == old(self)@.push(b),
    {
        self.data.push(b);
    }

    /// Append `n` copies of the byte `b`: zero fill or alignment padding.
    pub fn append_repeat(&mut self, b: u8, n: usize)
        ensures
            final(self)@ == old(self)@ + repeat_byte(b, n as nat),
    {
        let mut i: usize = 0;
        while i < n
            invariant
                i <= n,
                self@ == old(self)@ + repeat_byte(b, i as nat),
            decreases n - i,
        {
            self.data.push(b);
            proof {
                assert(repeat_byte(b, (i + 1) as nat) =~= repeat_byte(b, i as nat).push(b));
                assert(self@ =~= old(self)@ + repeat_byte(b, (i + 1) as nat));
            }
            i = i + 1;
        }
    }

    /// Append the `w`-byte representation of `v` at endianness `e`.
    pub fn append_scalar(&mut self, e: Endian, w: Width, v: u64)
        requires
            v < w.max_val(),
        ensures
            final(self)@ == old(self)@ + scalar_bytes(e, v as nat, w.spec_nbytes()),
            final(self)@.len() == old(self)@.len() + w.spec_nbytes(),
    {
        let bytes = scalar_to_bytes(e, w, v);
        self.append_vec(&bytes);
        proof {
            lemma_scalar_bytes_len(e, v as nat, w.spec_nbytes());
        }
    }

    /// Overwrite the `w` bytes at `pos` with the representation of `v`:
    /// this is how a placeholder offset is patched.
    pub fn patch_scalar(&mut self, pos: usize, e: Endian, w: Width, v: u64)
        requires
            v < w.max_val(),
            pos + w.spec_nbytes() <= old(self)@.len(),
        ensures
            final(self)@.len() == old(self)@.len(),
            final(self)@ == old(self)@.subrange(0, pos as int) + scalar_bytes(
                e,
                v as nat,
                w.spec_nbytes(),
            ) + old(self)@.subrange(pos + w.spec_nbytes(), old(self)@.len() as int),
    {
        let bytes = scalar_to_bytes(e, w, v);
        proof {
            lemma_scalar_bytes_len(e, v as nat, w.spec_nbytes());
        }
        let n = bytes.len();
        proof {
            vstd::std_specs::vec::axiom_spec_len(&self.data);
        }
        let mut i: usize = 0;
        while i < n
            invariant
                i <= n,
                self@.len() <= usize::MAX,
                n == bytes@.len(),
                bytes@ == scalar_bytes(e, v as nat, w.spec_nbytes()),
                n == w.spec_nbytes(),
                pos + n <= self@.len(),
                self@.len() == old(self)@.len(),
                forall|j: int| 0 <= j < self@.len() && !(pos <= j < pos + i) ==> self@[j] == old(
                    self,
                )@[j],
                forall|j: int| 0 <= j < i ==> self@[pos + j] == bytes@[j],
            decreases n - i,
        {
            self.data.set(pos + i, bytes[i]);
            i = i + 1;
        }
        proof {
            assert(self@ =~= old(self)@.subrange(0, pos as int) + scalar_bytes(
                e,
                v as nat,
                w.spec_nbytes(),
            ) + old(self)@.subrange(pos + w.spec_nbytes(), old(self)@.len() as int));
        }
    }

    /// Copy the `len` bytes stored at `pos` out of the stream.
    pub fn get_bytes(&self, pos: usize, len: usize) -> (out: Vec<u8>)
        requires
            pos + len <= self@.len(),
        ensures
            out@ == self@.subrange(pos as int, pos + len),
    {
        proof {
            vstd::std_specs::vec::axiom_spec_len(&self.data);
        }
        let mut out: Vec<u8> = Vec::new();
        let mut q: usize = 0;
        while q < len
            invariant
                q <= len,
                pos + len <= self@.len(),
                self@.len() <= usize::MAX,
                out@.len() == q,
                forall|j: int| 0 <= j < q ==> out@[j] == self@[pos + j],
            decreases len - q,
        {
            out.push(self.data[pos + q]);
            q = q + 1;
        }
        proof {
            assert(out@ =~= self@.subrange(pos as int, pos + len));
        }
        out
    }

    /// Read the `w`-byte scalar stored at `pos` at endianness `e`.
    pub fn get_scalar(&self, pos: usize, e: Endian, w: Width) -> (v: u64)
        requires
            pos + w.spec_nbytes() <= self@.len(),
        ensures
            v == scalar_val(e, self@.subrange(pos as int, pos + w.spec_nbytes())),
            v < w.max_val(),
    {
        let n = w.nbytes();
        let ghost full = self@.subrange(pos as int, pos + w.spec_nbytes());
        proof {
            w.lemma_max_val_fits();
            lemma_scalar_val_bound(e, full);
            vstd::std_specs::vec::axiom_spec_len(&self.data);
        }
        let mut acc: u64 = 0;
        match e {
            Endian::Little => {
                let mut i: usize = n;
                while i > 0
                    invariant
                        i <= n,
                        n == w.spec_nbytes(),
                        pos + n <= self@.len(),
                        self@.len() <= usize::MAX,
                        full == self@.subrange(pos as int, pos + n),
                        acc == le_val(self@.subrange(pos + i, pos + n)),
                        w.max_val() == p256(n as nat),
                        w.max_val() <= 0x1_0000_0000_0000_0000,
                    decreases i,
                {
                    let ghost prev = self@.subrange(pos + i, pos + n as int);
                    proof {
                        lemma_le_val_bound(prev);
                        assert(p256((n - i + 1) as nat) == 256 * p256((n - i) as nat));
                        lemma_p256_mono((n - i + 1) as nat, n as nat);
                        assert(256 * (acc as nat) + 256 <= 256 * p256((n - i) as nat));
                        let cur = self@.subrange(pos + i - 1, pos + n);
                        assert(cur.drop_first() =~= prev);
                        assert(le_val(cur) == cur[0] + 256 * le_val(prev));
                    }
                    i = i - 1;
                    acc = acc * 256 + (self.data[pos + i] as u64);
                }
                proof {
                    assert(self@.subrange(pos as int, pos + n) == full);
                }
            },
            Endian::Big => {
                let mut i: usize = 0;
                while i < n
                    invariant
                        i <= n,
                        n == w.spec_nbytes(),
                        pos + n <= self@.len(),
                        self@.len() <= usize::MAX,
                        full == self@.subrange(pos as int, pos + n),
                        acc == le_val(self@.subrange(pos as int, pos + i).reverse()),
                        w.max_val() == p256(n as nat),
                        w.max_val() <= 0x1_0000_0000_0000_0000,
                    decreases n - i,
                {
                    let ghost prev = self@.subrange(pos as int, pos + i);
                    proof {
                        lemma_le_val_bound(prev.reverse());
                        assert(prev.reverse().len() == i);
                        assert(p256((i + 1) as nat) == 256 * p256(i as nat));
                        lemma_p256_mono((i + 1) as nat, n as nat);
                        assert(256 * (acc as nat) + 256 <= 256 * p256(i as nat));
                        let cur = self@.subrange(pos as int, pos + i + 1);
                        assert(cur =~= prev.push(self@[pos + i]));
                        assert(cur.reverse().drop_first() =~= prev.reverse());
                        assert(cur.reverse()[0] == self@[pos + i]);
                        assert(le_val(cur.reverse()) == self@[pos + i] + 256 * le_val(
                            prev.reverse(),
                        ));
                    }
                    acc = acc * 256 + (self.data[pos + i] as u64);
                    i = i + 1;
                }
            },
        }
        acc
    }
}

/// The `w`-byte representation of `v` at endianness `e`, as a vector.
fn scalar_to_bytes(e: Endian, w: Width, v: u64) -> (out: Vec<u8>)
    requires
        v < w.max_val(),
    ensures
        out@ == scalar_bytes(e, v as nat, w.spec_nbytes()),
{
    proof {
        reveal_with_fuel(p256, 9);
    }
    let mut le: Vec<u8> = Vec::new();
    match w {
        Width::W8 => {
            le.push(v as u8);
        },
        Width::W16 => {
            let x1 = v / 256;
            le.push((v % 256) as u8);
            le.push((x1 % 256) as u8);
        },
        Width::W32 => {
            let x1 = v / 256;
            let x2 = x1 / 256;
            let x3 = x2 / 256;
            le.push((v % 256) as u8);
            le.push((x1 % 256) as u8);
            le.push((x2 % 256) as u8);
            le.push((x3 % 256) as u8);
        },
        Width::W64 => {
            let x1 = v / 256;
            let x2 = x1 / 256;
            let x3 = x2 / 256;
            let x4 = x3 / 256;
            let x5 = x4 / 256;
            let x6 = x5 / 256;
            let x7 = x6 / 256;
            le.push((v % 256) as u8);
            le.push((x1 % 256) as u8);
            le.push((x2 % 256) as u8);
            le.push((x3 % 256) as u8);
            le.push((x4 % 256) as u8);
            le.push((x5 % 256) as u8);
            le.push((x6 % 256) as u8);
            le.push((x7 % 256) as u8);
        },
    }
    proof {
        reveal_with_fuel(le_bytes_of, 9);
        lemma_le_bytes_len(v as nat, w.spec_nbytes());
        assert(le@ =~= le_bytes_of(v as nat, w.spec_nbytes()));
    }
    match e {
        Endian::Little => le,
        Endian::Big => {
            let n = le.len();
            let mut out: Vec<u8> = Vec::new();
            let mut k: usize = n;
            while k > 0
                invariant
                    k <= n,
                    n == le@.len(),
                    out@.len() == n - k,
                    forall|j: int| 0 <= j < n - k ==> out@[j] == le@[n - 1 - j],
                decreases k,
            {
                k = k - 1;
                out.push(le[k]);
            }
            proof {
                lemma_le_bytes_len(v as nat, w.spec_nbytes());
                assert(out@ =~= le@.reverse());
            }
            out
        },
    }
}

} // verus!
