//! Big-endian scalars in byte buffers: bounds-checked reads at absolute
//! offsets, and a writer that appends, pads and patches.

use vstd::prelude::*;

use crate::error::Error;

verus! {

/// Whether the `width` bytes that start at `at` lie inside `s`.
pub open spec fn in_bounds(s: Seq<u8>, at: int, width: int) -> bool {
    0 <= at && at + width <= s.len()
}

/// The value of the two bytes of `s` at `at`, most significant first.
pub open spec fn be_u16(s: Seq<u8>, at: int) -> int {
    s[at] as int * 0x100 + s[at + 1] as int
}

/// The value of the four bytes of `s` at `at`, most significant first.
pub open spec fn be_u32(s: Seq<u8>, at: int) -> int {
    s[at] as int * 0x100_0000 + s[at + 1] as int * 0x1_0000 + s[at + 2] as int * 0x100 + s[at
        + 3] as int
}

/// The two bytes that encode `v`, most significant first.
pub open spec fn u16_bytes(v: u16) -> Seq<u8> {
    seq![(v / 0x100) as u8, (v % 0x100) as u8]
}

/// The four bytes that encode `v`, most significant first.
pub open spec fn u32_bytes(v: u32) -> Seq<u8> {
    seq![
        (v / 0x100_0000) as u8,
        (v / 0x1_0000 % 0x100) as u8,
        (v / 0x100 % 0x100) as u8,
        (v % 0x100) as u8,
    ]
}

/// `n` zero bytes.
pub open spec fn zeros(n: int) -> Seq<u8> {
    Seq::new(n as nat, |i: int| 0u8)
}

/// How many bytes bring a buffer of `len` bytes to a multiple of four.
pub open spec fn padding_to_four(len: int) -> int {
    (4 - len % 4) % 4
}

/// Reading back what `u16_bytes` wrote gives the value again.
pub proof fn lemma_u16_round_trip(v: u16)
    ensures
        u16_bytes(v).len() == 2,
        be_u16(u16_bytes(v), 0) == v,
{
}

/// Reading back what `u32_bytes` wrote gives the value again.
pub proof fn lemma_u32_round_trip(v: u32)
    ensures
        u32_bytes(v).len() == 4,
        be_u32(u32_bytes(v), 0) == v,
{
}

/// The big-endian `u16` at `at`, which the caller knows to be in bounds.
pub fn u16_at(data: &[u8], at: usize) -> (v: u16)
    requires
        in_bounds(data@, at as int, 2),
    ensures
        v == be_u16(data@, at as int),
{
    let hi: u16 = data[at] as u16;
    let lo: u16 = data[at + 1] as u16;
    hi * 0x100 + lo
}

/// The big-endian `u32` at `at`, which the caller knows to be in bounds.
pub fn u32_at(data: &[u8], at: usize) -> (v: u32)
    requires
        in_bounds(data@, at as int, 4),
    ensures
        v == be_u32(data@, at as int),
{
    let b0: u32 = data[at] as u32;
    let b1: u32 = data[at + 1] as u32;
    let b2: u32 = data[at + 2] as u32;
    let b3: u32 = data[at + 3] as u32;
    b0 * 0x100_0000 + b1 * 0x1_0000 + b2 * 0x100 + b3
}

/// Reads a big-endian `u16` at the absolute offset `at`.
pub fn read_u16_at(data: &[u8], at: usize) -> (r: Result<u16, Error>)
    ensures
        match r {
            Ok(v) => in_bounds(data@, at as int, 2) && v == be_u16(data@, at as int),
            Err(e) => e == Error::OutOfBounds && !in_bounds(data@, at as int, 2),
        },
{
    let len: usize = data.len();
    if at > len || len - at < 2 {
        return Err(Error::OutOfBounds);
    }
    Ok(u16_at(data, at))
}

/// Reads a big-endian `u32` at the absolute offset `at`.
pub fn read_u32_at(data: &[u8], at: usize) -> (r: Result<u32, Error>)
    ensures
        match r {
            Ok(v) => in_bounds(data@, at as int, 4) && v == be_u32(data@, at as int),
            Err(e) => e == Error::OutOfBounds && !in_bounds(data@, at as int, 4),
        },
{
    let len: usize = data.len();
    if at > len || len - at < 4 {
        return Err(Error::OutOfBounds);
    }
    Ok(u32_at(data, at))
}

/// An append-only byte buffer with big-endian scalar writes.
pub struct Writer {
    buf: Vec<u8>,
}

impl View for Writer {
    type V = Seq<u8>;

    closed spec fn view(&self) -> Seq<u8> {
        self.buf@
    }
}

impl Writer {
    /// An empty writer.
    pub fn new() -> (w: Writer)
        ensures
            w@ == Seq::<u8>::empty(),
    {
        Writer { buf: Vec::new() }
    }

    /// The number of bytes written so far.
    pub fn len(&self) -> (n: usize)
        ensures
            n == self@.len(),
    {
        self.buf.len()
    }

    /// Appends `v`, most significant byte first.
    pub fn write_u16(&mut self, v: u16)
        ensures
            final(self)@ == old(self)@ + u16_bytes(v),
    {
        self.buf.push((v / 0x100) as u8);
        self.buf.push((v % 0x100) as u8);
        assert(self.buf@ =~= old(self).buf@ + u16_bytes(v));
    }

    /// Appends `v`, most significant byte first.
    pub fn write_u32(&mut self, v: u32)
        ensures
            final(self)@ == old(self)@ + u32_bytes(v),
    {
        self.buf.push((v / 0x100_0000) as u8);
        self.buf.push((v / 0x1_0000 % 0x100) as u8);
        self.buf.push((v / 0x100 % 0x100) as u8);
        self.buf.push((v % 0x100) as u8);
        assert(self.buf@ =~= old(self).buf@ + u32_bytes(v));
    }

    /// Appends `bytes` as they are.
    pub fn give(&mut self, bytes: &[u8])
        ensures
            final(self)@ == old(self)@ + bytes@,
    {
        let n: usize = bytes.len();
        let mut i: usize = 0;
        while i < n
            invariant
                n == bytes@.len(),
                i <= n,
                self.buf@ == old(self).buf@ + bytes@.subrange(0, i as int),
            decreases n - i,
        {
            self.buf.push(bytes[i]);
            i += 1;
        }
        assert(bytes@.subrange(0, n as int) =~= bytes@);
    }

    /// Appends zero bytes until the length is a multiple of four.
    pub fn align4(&mut self)
        ensures
            final(self)@ == old(self)@ + zeros(padding_to_four(old(self)@.len() as int)),
    {
        let ghost before: Seq<u8> = self.buf@;
        let mut added: usize = 0;
        while self.buf.len() % 4 != 0
            invariant
                added <= padding_to_four(before.len() as int),
                self.buf@ == before + zeros(added as int),
            decreases padding_to_four(before.len() as int) - added,
        {
            self.buf.push(0u8);
            added += 1;
            assert(self.buf@ =~= before + zeros(added as int));
        }
    }

    /// Overwrites the four bytes at `at`, which were written before, with `v`.
    pub fn patch_u32(&mut self, at: usize, v: u32)
        requires
            at + 4 <= old(self)@.len(),
        ensures
            final(self)@ == old(self)@.subrange(0, at as int) + u32_bytes(v) + old(self)@.subrange(
                at + 4,
                old(self)@.len() as int,
            ),
    {
        let n: usize = self.buf.len();
        assert(at + 4 <= n);
        self.buf.set(at, (v / 0x100_0000) as u8);
        self.buf.set(at + 1, (v / 0x1_0000 % 0x100) as u8);
        self.buf.set(at + 2, (v / 0x100 % 0x100) as u8);
        self.buf.set(at + 3, (v % 0x100) as u8);
        assert(self.buf@ =~= old(self).buf@.subrange(0, at as int) + u32_bytes(v) + old(
            self,
        ).buf@.subrange(at + 4, old(self).buf@.len() as int));
    }

    /// The bytes written, as a vector.
    pub fn finish(self) -> (v: Vec<u8>)
        ensures
            v@ == self@,
    {
        self.buf
    }
}

} // verus!
