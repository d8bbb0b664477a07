//! The tile binary format: a 64-byte header of eight little-endian 64-bit
//! fields (side, zoom, offsets, the derived Mercator origin pair and pixel
//! scale denominator, and the channel count), followed by each channel's
//! values, one offset 64-bit word per pixel.  Encoding and decoding are
//! exact inverses, proved in `lemma_codec_round_trip`.

use vstd::prelude::*;
use vstd::arithmetic::div_mod::lemma_fundamental_div_mod;
use crate::geoimage::{GeoImage, Channel, MAX_TILE_SIZE, CHANNEL_VALUE_LIMIT};

verus! {

/// Why a byte buffer was rejected as a tile record.
#[derive(Clone, Copy, Debug, PartialEq, Eq, Structural)]
pub enum CodecError {
    Truncated,
    BadHeader,
    BadValue,
}

/// Channel values are stored shifted by this offset so that the stored
/// word is never negative.
pub const VALUE_OFFSET: u64 = 0x4000000000000000;

/// The little-endian number read from `n` bytes at `off`.
pub open spec fn spec_read_le(b: Seq<u8>, off: int, n: int) -> int
    decreases n,
{
    if n <= 0 {
        0
    } else {
        b[off] + 256 * spec_read_le(b, off + 1, n - 1)
    }
}

/// The `n` little-endian bytes of a nonnegative number.
pub open spec fn spec_le_bytes(v: int, n: int) -> Seq<u8>
    decreases n,
{
    if n <= 0 {
        Seq::empty()
    } else {
        seq![(v % 256) as u8] + spec_le_bytes(v / 256, n - 1)
    }
}

/// The number with its `n` low bytes stripped.
pub open spec fn spec_le_div(v: int, n: int) -> int
    decreases n,
{
    if n <= 0 {
        v
    } else {
        spec_le_div(v / 256, n - 1)
    }
}

/// 256 to the `n`: the first value not representable in `n` bytes.
pub open spec fn spec_bytes_cap(n: int) -> int
    decreases n,
{
    if n <= 0 {
        1
    } else {
        256 * spec_bytes_cap(n - 1)
    }
}

/// The byte capacities up to eight bytes.
proof fn lemma_bytes_cap_values()
    ensures
        spec_bytes_cap(0) == 1,
        spec_bytes_cap(1) == 0x100,
        spec_bytes_cap(2) == 0x10000,
        spec_bytes_cap(3) == 0x1000000,
        spec_bytes_cap(4) == 0x100000000,
        spec_bytes_cap(5) == 0x10000000000,
        spec_bytes_cap(6) == 0x1000000000000,
        spec_bytes_cap(7) == 0x100000000000000,
        spec_bytes_cap(8) == 0x10000000000000000,
{
    reveal_with_fuel(spec_bytes_cap, 9);
}

/// A read of `n` bytes is nonnegative and below the `n`-byte capacity.
proof fn lemma_read_le_bound(b: Seq<u8>, off: int, n: int)
    requires
        0 <= off,
        0 <= n,
        off + n <= b.len(),
    ensures
        0 <= spec_read_le(b, off, n) < spec_bytes_cap(n),
    decreases n,
{
    if n > 0 {
        lemma_read_le_bound(b, off + 1, n - 1);
    }
}

/// A number that fits `n` bytes has no high part left.
proof fn lemma_le_div_zero(v: int, n: int)
    requires
        0 <= v < spec_bytes_cap(n),
        0 <= n,
    ensures
        spec_le_div(v, n) == 0,
    decreases n,
{
    if n > 0 {
        lemma_le_div_zero(v / 256, n - 1);
    }
}

/// Reading back the little-endian bytes of a number recovers the number.
proof fn lemma_le_roundtrip(s: Seq<u8>, off: int, v: int, n: int)
    requires
        0 <= v,
        0 <= n,
        spec_le_div(v, n) == 0,
        0 <= off,
        off + n <= s.len(),
        s.subrange(off, off + n) == spec_le_bytes(v, n),
    ensures
        spec_read_le(s, off, n) == v,
    decreases n,
{
    if n == 0 {
    } else {
        let bs = spec_le_bytes(v, n);
        lemma_le_bytes_len(v, n);
        lemma_le_bytes_len(v / 256, n - 1);
        assert(s.subrange(off, off + n)[0] == s[off]);
        assert(bs[0] == (v % 256) as u8);
        assert(s.subrange(off + 1, off + n) =~= spec_le_bytes(v / 256, n - 1)) by {
            assert forall|k: int| 0 <= k < n - 1
                implies #[trigger] s.subrange(off + 1, off + n)[k] == spec_le_bytes(v / 256, n - 1)[k] by {
                assert(s.subrange(off + 1, off + n)[k] == s[off + 1 + k]);
                assert(s[off + 1 + k] == s.subrange(off, off + n)[k + 1]);
                assert(bs == seq![(v % 256) as u8] + spec_le_bytes(v / 256, n - 1));
                assert(bs[k + 1] == spec_le_bytes(v / 256, n - 1)[k]);
            }
        }
        lemma_le_roundtrip(s, off + 1, v / 256, n - 1);
        lemma_fundamental_div_mod(v, 256);
        assert(0 <= v % 256 < 256);
        assert(s[off] == (v % 256) as u8);
        assert(spec_read_le(s, off, n) == v % 256 + 256 * (v / 256));
    }
}

/// Appends the eight little-endian bytes of a word to a buffer.
fn push_u64(out: &mut Vec<u8>, v: u64)
    ensures
        final(out)@ == old(out)@ + spec_le_bytes(v as int, 8),
{
    let mut w: u64 = v;
    let mut k: usize = 0;
    while k < 8
        invariant
            k <= 8,
            w == spec_le_div(v as int, k as int),
            out@ == old(out)@ + spec_le_bytes(v as int, 8).take(k as int),
            out@.len() == old(out)@.len() + k,
        decreases 8 - k,
    {
        proof {
            lemma_le_bytes_step(v as int, k as int);
        }
        out.push((w % 256) as u8);
        w = w / 256;
        k = k + 1;
    }
    proof {
        assert(spec_le_bytes(v as int, 8).take(8) =~= spec_le_bytes(v as int, 8)) by {
            lemma_le_bytes_len(v as int, 8);
        }
    }
}

/// Length of a little-endian byte spelling.
proof fn lemma_le_bytes_len(v: int, n: int)
    requires
        0 <= n,
    ensures
        spec_le_bytes(v, n).len() == n,
    decreases n,
{
    if n > 0 {
        lemma_le_bytes_len(v / 256, n - 1);
    }
}

/// Byte `k` of the spelling is the low byte of the number with `k` bytes
/// stripped.
proof fn lemma_le_bytes_step(v: int, k: int)
    requires
        0 <= k < 8,
    ensures
        spec_le_bytes(v, 8).len() == 8,
        spec_le_bytes(v, 8)[k] == (spec_le_div(v, k) % 256) as u8,
        spec_le_div(v, k) / 256 == spec_le_div(v, k + 1),
        spec_le_bytes(v, 8).take(k + 1)
            =~= spec_le_bytes(v, 8).take(k).push((spec_le_div(v, k) % 256) as u8),
{
    lemma_le_bytes_len(v, 8);
    lemma_le_bytes_index(v, 8, k);
    lemma_le_div_step(v, k);
}

/// Unfolds the byte spelling at one index.
proof fn lemma_le_bytes_index(v: int, n: int, k: int)
    requires
        0 <= k < n,
    ensures
        spec_le_bytes(v, n).len() == n,
        spec_le_bytes(v, n)[k] == (spec_le_div(v, k) % 256) as u8,
    decreases k,
{
    lemma_le_bytes_len(v, n);
    lemma_le_bytes_len(v / 256, n - 1);
    if k == 0 {
    } else {
        lemma_le_bytes_index(v / 256, n - 1, k - 1);
        lemma_le_div_shift(v, k);
    }
}

/// Stripping one more byte divides once more.
proof fn lemma_le_div_step(v: int, k: int)
    requires
        0 <= k,
    ensures
        spec_le_div(v, k) / 256 == spec_le_div(v, k + 1),
    decreases k,
{
    if k > 0 {
        lemma_le_div_step(v / 256, k - 1);
        assert(spec_le_div(v, k) == spec_le_div(v / 256, k - 1));
        assert(spec_le_div(v, k + 1) == spec_le_div(v / 256, k));
    } else {
        assert(spec_le_div(v, 0) == v);
        assert(spec_le_div(v, 1) == spec_le_div(v / 256, 0));
    }
}

/// Stripping after one division is stripping one more byte.
proof fn lemma_le_div_shift(v: int, k: int)
    requires
        1 <= k,
    ensures
        spec_le_div(v / 256, k - 1) == spec_le_div(v, k),
{
}

/// Byte capacity never shrinks with more bytes.
proof fn lemma_bytes_cap_mono(m1: int, m2: int)
    requires
        0 <= m1 <= m2,
    ensures
        1 <= spec_bytes_cap(m1) <= spec_bytes_cap(m2),
    decreases m2,
{
    if m2 > 0 {
        if m1 == m2 {
            lemma_bytes_cap_mono(m1 - 1, m2 - 1);
        } else {
            lemma_bytes_cap_mono(m1, m2 - 1);
        }
    }
}

/// Reads the little-endian word of eight bytes at `off`.
fn read_u64(bytes: &Vec<u8>, off: usize) -> (r: u64)
    requires
        off + 8 <= bytes@.len(),
    ensures
        r == spec_read_le(bytes@, off as int, 8),
{
    proof {
        lemma_bytes_cap_values();
        lemma_read_le_bound(bytes@, off as int, 8);
    }
    let l = bytes.len();
    let mut acc: u64 = 0;
    let mut k: usize = 8;
    while k > 0
        invariant
            k <= 8,
            l == bytes@.len(),
            off + 8 <= bytes@.len(),
            acc == spec_read_le(bytes@, off + k, (8 - k) as int),
            acc < spec_bytes_cap((8 - k) as int),
        decreases k,
    {
        proof {
            lemma_bytes_cap_values();
            lemma_bytes_cap_mono((8 - k) as int, 7);
            lemma_read_le_bound(bytes@, off + k - 1, (8 - k + 1) as int);
            assert(spec_bytes_cap((8 - k) as int) <= 0x100000000000000);
            assert(acc < 0x100000000000000);
        }
        k = k - 1;
        acc = acc * 256 + (bytes[off + k] as u64);
    }
    acc
}

} // verus!

verus! {

/// The stored Mercator-origin numerator: the tile offset scaled into a
/// 32-bit binary fraction of the world span.
pub open spec fn spec_origin_q32(offset: int, zoom: int) -> int {
    offset * vstd::arithmetic::power2::pow2((32 - zoom) as nat)
}

/// The stored pixel-scale denominator: pixels per world span.
pub open spec fn spec_ps_den(size: int, zoom: int) -> int {
    size * vstd::arithmetic::power2::pow2(zoom as nat)
}

/// The 64-byte header of a tile record.
pub open spec fn spec_header_bytes(img: GeoImage) -> Seq<u8> {
    spec_le_bytes(img.size as int, 8) + spec_le_bytes(img.zoom as int, 8)
        + spec_le_bytes(img.x_offset as int, 8) + spec_le_bytes(img.y_offset as int, 8)
        + spec_le_bytes(spec_origin_q32(img.x_offset as int, img.zoom as int), 8)
        + spec_le_bytes(spec_origin_q32(img.y_offset as int, img.zoom as int), 8)
        + spec_le_bytes(spec_ps_den(img.size as int, img.zoom as int), 8)
        + spec_le_bytes(2, 8)
}

/// The byte spelling of the channel values from position `i` on, each
/// shifted by `VALUE_OFFSET`.
pub open spec fn spec_values_bytes(data: Seq<i64>, i: int) -> Seq<u8>
    decreases data.len() - i,
{
    if i < 0 || i >= data.len() {
        Seq::empty()
    } else {
        spec_le_bytes(data[i] + VALUE_OFFSET, 8) + spec_values_bytes(data, i + 1)
    }
}

/// The full tile record: header, then both channels.
pub open spec fn spec_encode_bytes(img: GeoImage) -> Seq<u8> {
    spec_header_bytes(img) + spec_values_bytes(img.channels@[0]@, 0)
        + spec_values_bytes(img.channels@[1]@, 0)
}

/// The channel bytes from `i` on take eight bytes per value.
proof fn lemma_values_bytes_len(data: Seq<i64>, i: int)
    requires
        0 <= i <= data.len(),
    ensures
        spec_values_bytes(data, i).len() == 8 * (data.len() - i),
    decreases data.len() - i,
{
    if i < data.len() {
        lemma_values_bytes_len(data, i + 1);
        lemma_le_bytes_len(data[i] + VALUE_OFFSET, 8);
    }
}

/// Within the channel bytes from `j` on, value `i` sits at byte offset
/// `8 * (i - j)`.
proof fn lemma_values_bytes_at(data: Seq<i64>, j: int, i: int)
    requires
        0 <= j <= i < data.len(),
    ensures
        spec_values_bytes(data, j).subrange(8 * (i - j), 8 * (i - j) + 8)
            =~= spec_le_bytes(data[i] + VALUE_OFFSET, 8),
    decreases i - j,
{
    lemma_values_bytes_len(data, j);
    lemma_values_bytes_len(data, j + 1);
    lemma_le_bytes_len(data[j] + VALUE_OFFSET, 8);
    if j == i {
    } else {
        lemma_values_bytes_at(data, j + 1, i);
    }
}

/// Reads back one recorded word.
proof fn lemma_header_field(b: Seq<u8>, off: int, v: int)
    requires
        0 <= v < 0x10000000000000000,
        0 <= off,
        off + 8 <= b.len(),
        b.subrange(off, off + 8) == spec_le_bytes(v, 8),
    ensures
        spec_read_le(b, off, 8) == v,
{
    lemma_bytes_cap_values();
    lemma_le_div_zero(v, 8);
    lemma_le_roundtrip(b, off, v, 8);
}

/// The decoded form of a tile record: the four stored fields and the two
/// channel value sequences, or the reason the record was refused.
pub open spec fn spec_decode(b: Seq<u8>) -> Result<(u32, u32, u32, u32, Seq<i64>, Seq<i64>), CodecError> {
    if b.len() < 64 {
        Result::Err(CodecError::Truncated)
    } else {
        let size = spec_read_le(b, 0, 8);
        let zoom = spec_read_le(b, 8, 8);
        let xo = spec_read_le(b, 16, 8);
        let yo = spec_read_le(b, 24, 8);
        let x0 = spec_read_le(b, 32, 8);
        let y0 = spec_read_le(b, 40, 8);
        let ps = spec_read_le(b, 48, 8);
        let cnt = spec_read_le(b, 56, 8);
        if !(1 <= size <= MAX_TILE_SIZE) || !(zoom <= 31)
            || !(xo < vstd::arithmetic::power2::pow2(zoom as nat))
            || !(yo < vstd::arithmetic::power2::pow2(zoom as nat))
            || x0 != spec_origin_q32(xo, zoom) || y0 != spec_origin_q32(yo, zoom)
            || ps != spec_ps_den(size, zoom) || cnt != 2 {
            Result::Err(CodecError::BadHeader)
        } else if b.len() < 64 + 2 * size * size * 8 {
            Result::Err(CodecError::Truncated)
        } else if b.len() > 64 + 2 * size * size * 8 {
            Result::Err(CodecError::BadHeader)
        } else if exists|i: int| 0 <= i < 2 * size * size
            && #[trigger] spec_read_le(b, 64 + 8 * i, 8) > 2 * (VALUE_OFFSET as int) {
            Result::Err(CodecError::BadValue)
        } else {
            Result::Ok((
                size as u32,
                zoom as u32,
                xo as u32,
                yo as u32,
                Seq::new((size * size) as nat, |i: int| (spec_read_le(b, 64 + 8 * i, 8) - VALUE_OFFSET) as i64),
                Seq::new((size * size) as nat, |i: int| (spec_read_le(b, 64 + 8 * (size * size + i), 8) - VALUE_OFFSET) as i64),
            ))
        }
    }
}

impl GeoImage {
    /// Serializes the tile into its binary record.
    pub fn encode(&self) -> (r: Vec<u8>)
        requires
            self.wf(),
        ensures
            r@ == spec_encode_bytes(*self),
    {
        let mut out: Vec<u8> = Vec::new();
        proof {
            vstd::arithmetic::power2::lemma2_to64();
            vstd::arithmetic::power2::lemma2_to64_rest();
            vstd::arithmetic::power2::lemma_pow2_adds((self.zoom) as nat, (32 - self.zoom) as nat);
            if (self.zoom as nat) < 31 {
                vstd::arithmetic::power2::lemma_pow2_strictly_increases(self.zoom as nat, 31);
            }
        }
        let p32z = crate::fixed::pow2_u64(32 - self.zoom);
        let pz = crate::fixed::pow2_u64(self.zoom);
        proof {
            assert((self.x_offset as int) * (p32z as int) < 0x100000000
                && (self.y_offset as int) * (p32z as int) < 0x100000000) by (nonlinear_arith)
                requires
                    (self.x_offset as nat) < vstd::arithmetic::power2::pow2(self.zoom as nat),
                    (self.y_offset as nat) < vstd::arithmetic::power2::pow2(self.zoom as nat),
                    p32z == vstd::arithmetic::power2::pow2((32 - self.zoom) as nat),
                    vstd::arithmetic::power2::pow2(self.zoom as nat) * vstd::arithmetic::power2::pow2((32 - self.zoom) as nat)
                        == vstd::arithmetic::power2::pow2(32),
                    vstd::arithmetic::power2::pow2(32) == 0x100000000,
                    0 <= p32z;
            assert((self.size as int) * (pz as int) <= 0x8000 * 0x80000000) by (nonlinear_arith)
                requires
                    1 <= self.size <= 0x8000,
                    0 <= pz <= 0x80000000;
        }
        let x0q: u64 = (self.x_offset as u64) * p32z;
        let y0q: u64 = (self.y_offset as u64) * p32z;
        let psd: u64 = (self.size as u64) * pz;
        push_u64(&mut out, self.size as u64);
        push_u64(&mut out, self.zoom as u64);
        push_u64(&mut out, self.x_offset as u64);
        push_u64(&mut out, self.y_offset as u64);
        push_u64(&mut out, x0q);
        push_u64(&mut out, y0q);
        push_u64(&mut out, psd);
        push_u64(&mut out, 2u64);
        proof {
            assert(out@ =~= spec_header_bytes(*self));
        }
        let ghost header = out@;
        let mut ci: usize = 0;
        while ci < 2
            invariant
                ci <= 2,
                self.wf(),
                ci == 0 ==> out@ =~= spec_header_bytes(*self),
                ci == 1 ==> out@ =~= spec_header_bytes(*self)
                    + spec_values_bytes(self.channels@[0]@, 0),
                ci == 2 ==> out@ =~= spec_header_bytes(*self)
                    + spec_values_bytes(self.channels@[0]@, 0)
                    + spec_values_bytes(self.channels@[1]@, 0),
            decreases 2 - ci,
        {
            let ghost base = out@;
            let ghost dview = self.channels@[ci as int]@;
            let data: &Vec<i64> = &self.channels[ci].data;
            let n = data.len();
            let mut i: usize = 0;
            while i < n
                invariant
                    i <= n,
                    self.wf(),
                    ci < 2,
                    n == data@.len(),
                    data == &self.channels@[ci as int].data,
                    dview == data@,
                    out@ + spec_values_bytes(dview, i as int) =~= base + spec_values_bytes(dview, 0),
                decreases n - i,
            {
                let v: i64 = data[i];
                proof {
                    assert(-CHANNEL_VALUE_LIMIT <= v <= CHANNEL_VALUE_LIMIT);
                }
                let w: u64 = ((v as i128) + 0x4000000000000000) as u64;
                push_u64(&mut out, w);
                proof {
                    assert(w as int == dview[i as int] + VALUE_OFFSET);
                    assert(spec_values_bytes(dview, i as int)
                        == spec_le_bytes(dview[i as int] + VALUE_OFFSET, 8) + spec_values_bytes(dview, i + 1));
                    assert(out@ + spec_values_bytes(dview, i + 1) =~= base + spec_values_bytes(dview, 0));
                }
                i = i + 1;
            }
            proof {
                assert(spec_values_bytes(dview, n as int) =~= Seq::<u8>::empty());
                assert(out@ =~= base + spec_values_bytes(dview, 0));
            }
            ci = ci + 1;
        }
        out
    }
}

} // verus!

verus! {

/// A decoded channel buffer, before its dimensions are attached.
struct ChannelBuffer(Vec<i64>);

impl GeoImage {
    /// Parses a tile record.  Succeeds exactly on byte buffers whose
    /// decoded form `spec_decode` accepts, and returns the tile it names.
    #[verifier::loop_isolation(false)]
    pub fn decode(bytes: &Vec<u8>) -> (r: Result<GeoImage, CodecError>)
        ensures
            match r {
                Result::Ok(img) => {
                    &&& img.wf()
                    &&& match spec_decode(bytes@) {
                        Result::Ok(a) => img.size == a.0 && img.zoom == a.1
                            && img.x_offset == a.2 && img.y_offset == a.3
                            && img.channels@[0]@ == a.4 && img.channels@[1]@ == a.5,
                        Result::Err(_) => false,
                    }
                },
                Result::Err(e) => spec_decode(bytes@)
                    == Result::<(u32, u32, u32, u32, Seq<i64>, Seq<i64>), CodecError>::Err(e),
            },
    {
        let l = bytes.len();
        if l < 64 {
            return Result::Err(CodecError::Truncated);
        }
        let size64 = read_u64(bytes, 0);
        let zoom64 = read_u64(bytes, 8);
        let xo64 = read_u64(bytes, 16);
        let yo64 = read_u64(bytes, 24);
        let x064 = read_u64(bytes, 32);
        let y064 = read_u64(bytes, 40);
        let ps64 = read_u64(bytes, 48);
        let cnt64 = read_u64(bytes, 56);
        if size64 < 1 || size64 > (MAX_TILE_SIZE as u64) {
            return Result::Err(CodecError::BadHeader);
        }
        if zoom64 > 31 {
            return Result::Err(CodecError::BadHeader);
        }
        let pz = crate::fixed::pow2_u64(zoom64 as u32);
        proof {
            vstd::arithmetic::power2::lemma2_to64();
            vstd::arithmetic::power2::lemma2_to64_rest();
            if (zoom64 as nat) < 31 {
                vstd::arithmetic::power2::lemma_pow2_strictly_increases(zoom64 as nat, 31);
            }
            assert(pz <= 0x80000000);
        }
        if xo64 >= pz || yo64 >= pz {
            return Result::Err(CodecError::BadHeader);
        }
        let p32z = crate::fixed::pow2_u64(32 - (zoom64 as u32));
        proof {
            vstd::arithmetic::power2::lemma_pow2_adds(zoom64 as nat, (32 - zoom64) as nat);
            assert((xo64 as int) * (p32z as int) < 0x100000000
                && (yo64 as int) * (p32z as int) < 0x100000000) by (nonlinear_arith)
                requires
                    (xo64 as int) < pz as int,
                    (yo64 as int) < pz as int,
                    p32z == vstd::arithmetic::power2::pow2((32 - zoom64) as nat),
                    (pz as int) * (p32z as int) == vstd::arithmetic::power2::pow2(32),
                    vstd::arithmetic::power2::pow2(32) == 0x100000000,
                    0 <= p32z,
                    0 <= xo64,
                    0 <= yo64;
            assert((size64 as int) * (pz as int) <= 0x8000 * 0x80000000) by (nonlinear_arith)
                requires
                    1 <= size64 <= 0x8000,
                    0 <= pz <= 0x80000000;
        }
        if x064 != xo64 * p32z || y064 != yo64 * p32z {
            return Result::Err(CodecError::BadHeader);
        }
        if ps64 != size64 * pz {
            return Result::Err(CodecError::BadHeader);
        }
        if cnt64 != 2 {
            return Result::Err(CodecError::BadHeader);
        }
        let size: u32 = size64 as u32;
        proof {
            assert((size64 as int) * (size64 as int) <= 0x40000000
                && 2 * (size64 as int) * (size64 as int) * 8 <= 0x4000000000) by (nonlinear_arith)
                requires 1 <= size64 <= 0x8000;
        }
        let need: u64 = 64 + 2 * size64 * size64 * 8;
        if (l as u64) < need {
            return Result::Err(CodecError::Truncated);
        }
        if (l as u64) > need {
            return Result::Err(CodecError::BadHeader);
        }
        let n: usize = (size as usize) * (size as usize);
        proof {
            assert(n == (size64 as int) * (size64 as int));
            assert(l == 64 + 2 * n * 8) by (nonlinear_arith)
                requires
                    l == 64 + 2 * (size64 as int) * (size64 as int) * 8,
                    n == (size64 as int) * (size64 as int);
        }
        let mut channels: Vec<ChannelBuffer> = Vec::new();
        let mut ci: usize = 0;
        while ci < 2
            invariant
                ci <= 2,
                l == bytes@.len(),
                1 <= size <= MAX_TILE_SIZE,
                size == size64,
                n == (size as int) * (size as int),
                l == 64 + 2 * n * 8,
                channels@.len() == ci,
                forall|j: int| 0 <= j < ci * n
                    ==> #[trigger] spec_read_le(bytes@, 64 + 8 * j, 8) <= 2 * (VALUE_OFFSET as int),
                forall|c: int| 0 <= c < ci ==> (#[trigger] channels@[c]).0@.len() == n
                    && forall|k: int| 0 <= k < n
                        ==> #[trigger] channels@[c].0@[k]
                            == (spec_read_le(bytes@, 64 + 8 * (c * n + k), 8) - VALUE_OFFSET) as i64
                            && -CHANNEL_VALUE_LIMIT <= channels@[c].0@[k] <= CHANNEL_VALUE_LIMIT,
            decreases 2 - ci,
        {
            let mut data: Vec<i64> = Vec::new();
            let mut i: usize = 0;
            while i < n
                invariant
                    i <= n,
                    ci < 2,
                    l == bytes@.len(),
                    1 <= size <= MAX_TILE_SIZE,
                    size == size64,
                    n == (size as int) * (size as int),
                    l == 64 + 2 * n * 8,
                    data@.len() == i,
                    forall|j: int| 0 <= j < ci * n + i
                        ==> #[trigger] spec_read_le(bytes@, 64 + 8 * j, 8) <= 2 * (VALUE_OFFSET as int),
                    forall|k: int| 0 <= k < i
                        ==> #[trigger] data@[k]
                            == (spec_read_le(bytes@, 64 + 8 * (ci * n + k), 8) - VALUE_OFFSET) as i64
                            && -CHANNEL_VALUE_LIMIT <= data@[k] <= CHANNEL_VALUE_LIMIT,
                decreases n - i,
            {
                proof {
                    assert(64 + 8 * (ci * n + i) + 8 <= l) by (nonlinear_arith)
                        requires
                            ci < 2,
                            i < n,
                            l == 64 + 2 * n * 8,
                            0 <= n,
                            0 <= i,
                            0 <= ci;
                }
                let w = read_u64(bytes, 64 + 8 * (ci * n + i));
                if w > 2 * VALUE_OFFSET {
                    proof {
                        assert(0 <= ci * n + i < 2 * ((size64 as int) * (size64 as int)))
                            by (nonlinear_arith)
                            requires ci < 2, 0 <= i < n, n == (size64 as int) * (size64 as int), 0 <= ci;
                        assert(spec_read_le(bytes@, 64 + 8 * (ci * n + i), 8)
                            > 2 * (VALUE_OFFSET as int));
                    }
                    return Result::Err(CodecError::BadValue);
                }
                let v: i64 = ((w as i128) - 0x4000000000000000) as i64;
                data.push(v);
                proof {
                    assert forall|j: int| 0 <= j < ci * n + i + 1
                        implies #[trigger] spec_read_le(bytes@, 64 + 8 * j, 8)
                            <= 2 * (VALUE_OFFSET as int) by {
                        if j == ci * n + i {
                            assert(spec_read_le(bytes@, 64 + 8 * j, 8) == w);
                        }
                    }
                }
                i = i + 1;
            }
            channels.push(ChannelBuffer(data));
            proof {
                assert((ci + 1) * n == ci * n + n) by (nonlinear_arith);
            }
            ci = ci + 1;
        }
        let d1 = match channels.pop() {
            Option::Some(ChannelBuffer(d)) => d,
            Option::None => {
                proof { assert(false); }
                Vec::new()
            },
        };
        let d0 = match channels.pop() {
            Option::Some(ChannelBuffer(d)) => d,
            Option::None => {
                proof { assert(false); }
                Vec::new()
            },
        };
        let c0 = Channel { width: size, height: size, data: d0 };
        let c1 = Channel { width: size, height: size, data: d1 };
        let mut chv: Vec<Channel> = Vec::new();
        chv.push(c0);
        chv.push(c1);
        let img = GeoImage {
            size,
            zoom: zoom64 as u32,
            x_offset: xo64 as u32,
            y_offset: yo64 as u32,
            channels: chv,
        };
        proof {
            assert(!(exists|i: int| 0 <= i < 2 * (size64 as int) * (size64 as int)
                && #[trigger] spec_read_le(bytes@, 64 + 8 * i, 8) > 2 * (VALUE_OFFSET as int))) by {
                assert forall|i: int| 0 <= i < 2 * (size64 as int) * (size64 as int)
                    implies !(#[trigger] spec_read_le(bytes@, 64 + 8 * i, 8)
                        > 2 * (VALUE_OFFSET as int)) by {
                    assert(2 * ((size64 as int) * (size64 as int)) == 2 * n);
                    assert(spec_read_le(bytes@, 64 + 8 * i, 8) <= 2 * (VALUE_OFFSET as int));
                }
            }
            let a = match spec_decode(bytes@) {
                Result::Ok(a) => a,
                Result::Err(_) => arbitrary(),
            };
            assert(img.channels@[0]@ =~= a.4);
            assert(img.channels@[1]@ =~= a.5);
            assert(img.channels@[0].wf());
            assert(img.channels@[1].wf());
        }
        Result::Ok(img)
    }
}

} // verus!

verus! {

/// Binary save and load are exact inverses: decoding a tile's record gives
/// back every stored field and every channel value bit for bit.
pub proof fn lemma_codec_round_trip(img: GeoImage)
    requires
        img.wf(),
    ensures
        spec_decode(spec_encode_bytes(img))
            == Result::<(u32, u32, u32, u32, Seq<i64>, Seq<i64>), CodecError>::Ok((
                img.size,
                img.zoom,
                img.x_offset,
                img.y_offset,
                img.channels@[0]@,
                img.channels@[1]@,
            )),
{
    let b = spec_encode_bytes(img);
    let h = spec_header_bytes(img);
    let d0 = img.channels@[0]@;
    let d1 = img.channels@[1]@;
    let v0 = spec_values_bytes(d0, 0);
    let v1 = spec_values_bytes(d1, 0);
    let size = img.size as int;
    let n = size * size;
    let x0q = spec_origin_q32(img.x_offset as int, img.zoom as int);
    let y0q = spec_origin_q32(img.y_offset as int, img.zoom as int);
    let psd = spec_ps_den(img.size as int, img.zoom as int);
    vstd::arithmetic::power2::lemma2_to64();
    vstd::arithmetic::power2::lemma2_to64_rest();
    vstd::arithmetic::power2::lemma_pow2_adds(img.zoom as nat, (32 - img.zoom) as nat);
    if (img.zoom as nat) < 31 {
        vstd::arithmetic::power2::lemma_pow2_strictly_increases(img.zoom as nat, 31);
    }
    assert(0 <= x0q < 0x100000000 && 0 <= y0q < 0x100000000) by (nonlinear_arith)
        requires
            (img.x_offset as nat) < vstd::arithmetic::power2::pow2(img.zoom as nat),
            (img.y_offset as nat) < vstd::arithmetic::power2::pow2(img.zoom as nat),
            x0q == (img.x_offset as int) * (vstd::arithmetic::power2::pow2((32 - img.zoom) as nat) as int),
            y0q == (img.y_offset as int) * (vstd::arithmetic::power2::pow2((32 - img.zoom) as nat) as int),
            (vstd::arithmetic::power2::pow2(img.zoom as nat) as int)
                * (vstd::arithmetic::power2::pow2((32 - img.zoom) as nat) as int)
                == vstd::arithmetic::power2::pow2(32),
            vstd::arithmetic::power2::pow2(32) == 0x100000000,
            0 <= vstd::arithmetic::power2::pow2((32 - img.zoom) as nat);
    assert(0 <= psd <= 0x8000 * 0x80000000) by (nonlinear_arith)
        requires
            1 <= img.size <= 0x8000,
            psd == (img.size as int) * (vstd::arithmetic::power2::pow2(img.zoom as nat) as int),
            0 <= vstd::arithmetic::power2::pow2(img.zoom as nat) <= 0x80000000;
    // Lengths.
    lemma_le_bytes_len(img.size as int, 8);
    lemma_le_bytes_len(img.zoom as int, 8);
    lemma_le_bytes_len(img.x_offset as int, 8);
    lemma_le_bytes_len(img.y_offset as int, 8);
    lemma_le_bytes_len(x0q, 8);
    lemma_le_bytes_len(y0q, 8);
    lemma_le_bytes_len(psd, 8);
    lemma_le_bytes_len(2, 8);
    assert(h.len() == 64);
    assert(img.channels@[0].wf());
    assert(img.channels@[1].wf());
    assert(d0.len() == n) by (nonlinear_arith)
        requires
            d0.len() == (img.size as int) * (img.size as int),
            n == (img.size as int) * (img.size as int);
    assert(d1.len() == n) by (nonlinear_arith)
        requires
            d1.len() == (img.size as int) * (img.size as int),
            n == (img.size as int) * (img.size as int);
    lemma_values_bytes_len(d0, 0);
    lemma_values_bytes_len(d1, 0);
    assert(b.len() == 64 + 2 * n * 8);
    // Header fields read back.
    assert(b.subrange(0, 8) =~= spec_le_bytes(img.size as int, 8));
    lemma_header_field(b, 0, img.size as int);
    assert(b.subrange(8, 16) =~= spec_le_bytes(img.zoom as int, 8));
    lemma_header_field(b, 8, img.zoom as int);
    assert(b.subrange(16, 24) =~= spec_le_bytes(img.x_offset as int, 8));
    lemma_header_field(b, 16, img.x_offset as int);
    assert(b.subrange(24, 32) =~= spec_le_bytes(img.y_offset as int, 8));
    lemma_header_field(b, 24, img.y_offset as int);
    assert(b.subrange(32, 40) =~= spec_le_bytes(x0q, 8));
    lemma_header_field(b, 32, x0q);
    assert(b.subrange(40, 48) =~= spec_le_bytes(y0q, 8));
    lemma_header_field(b, 40, y0q);
    assert(b.subrange(48, 56) =~= spec_le_bytes(psd, 8));
    lemma_header_field(b, 48, psd);
    assert(b.subrange(56, 64) =~= spec_le_bytes(2, 8));
    lemma_header_field(b, 56, 2);
    // Channel values read back.
    assert forall|i: int| 0 <= i < 2 * n
        implies #[trigger] spec_read_le(b, 64 + 8 * i, 8)
            == (if i < n { d0[i] } else { d1[i - n] }) + VALUE_OFFSET by {
        if i < n {
            lemma_values_bytes_at(d0, 0, i);
            assert(b.subrange(64 + 8 * i, 64 + 8 * i + 8) =~= spec_le_bytes(d0[i] + VALUE_OFFSET, 8)) by {
                assert forall|t: int| 0 <= t < 8
                    implies #[trigger] b.subrange(64 + 8 * i, 64 + 8 * i + 8)[t]
                        == spec_le_bytes(d0[i] + VALUE_OFFSET, 8)[t] by {
                    assert(b[64 + 8 * i + t] == v0[8 * i + t]);
                    assert(v0.subrange(8 * i, 8 * i + 8)[t] == v0[8 * i + t]);
                }
            }
            lemma_bytes_cap_values();
            lemma_le_div_zero(d0[i] + VALUE_OFFSET, 8);
            lemma_le_roundtrip(b, 64 + 8 * i, d0[i] + VALUE_OFFSET, 8);
        } else {
            let j = i - n;
            lemma_values_bytes_at(d1, 0, j);
            assert(b.subrange(64 + 8 * i, 64 + 8 * i + 8) =~= spec_le_bytes(d1[j] + VALUE_OFFSET, 8)) by {
                assert forall|t: int| 0 <= t < 8
                    implies #[trigger] b.subrange(64 + 8 * i, 64 + 8 * i + 8)[t]
                        == spec_le_bytes(d1[j] + VALUE_OFFSET, 8)[t] by {
                    assert(b[64 + 8 * i + t] == v1[8 * j + t]);
                    assert(v1.subrange(8 * j, 8 * j + 8)[t] == v1[8 * j + t]);
                }
            }
            lemma_bytes_cap_values();
            lemma_le_div_zero(d1[j] + VALUE_OFFSET, 8);
            lemma_le_roundtrip(b, 64 + 8 * i, d1[j] + VALUE_OFFSET, 8);
        }
    }
    // No stored word exceeds the admissible range.
    assert(!(exists|i: int| 0 <= i < 2 * n
        && #[trigger] spec_read_le(b, 64 + 8 * i, 8) > 2 * (VALUE_OFFSET as int))) by {
        assert forall|i: int| 0 <= i < 2 * n
            implies !(#[trigger] spec_read_le(b, 64 + 8 * i, 8) > 2 * (VALUE_OFFSET as int)) by {
            if i < n {
                assert(-CHANNEL_VALUE_LIMIT <= d0[i] <= CHANNEL_VALUE_LIMIT);
            } else {
                assert(-CHANNEL_VALUE_LIMIT <= d1[i - n] <= CHANNEL_VALUE_LIMIT);
            }
        }
    }
    assert(2 * size * size * 8 == 2 * n * 8) by (nonlinear_arith)
        requires n == size * size;
    // The decoded channels are the original ones.
    match spec_decode(b) {
        Result::Ok(a) => {
            assert(a.4 =~= d0);
            assert(a.5 =~= d1) by {
                assert forall|i: int| 0 <= i < n implies a.5[i] == d1[i] by {
                    assert(spec_read_le(b, 64 + 8 * (n + i), 8) == d1[i] + VALUE_OFFSET);
                }
            }
        },
        Result::Err(_) => {
            assert(false);
        },
    }
}

} // verus!
