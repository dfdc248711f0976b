//! The IDSP container: a multi-channel header layout and the fixed-size
//! block interleaving of the compressed payload.

use vstd::arithmetic::div_mod::{
    lemma_div_denominator, lemma_div_is_ordered, lemma_div_pos_is_pos, lemma_fundamental_div_mod,
    lemma_fundamental_div_mod_converse, lemma_mod_division_less_than_divisor,
};
use vstd::arithmetic::mul::lemma_mul_inequality;
use vstd::math::min;
use vstd::prelude::*;

use crate::math::{spec_div_round_up, DivideByRoundUp};

verus! {

/// Why a container cannot be read from a byte buffer.
#[derive(Debug, Clone, Copy, PartialEq, Eq, Structural)]
pub enum DecodeError {
    /// The buffer does not begin with the container magic.
    InvalidHeader,
    /// A declared length does not divide among the channels or exceeds the
    /// bytes that are actually there.
    InvalidAudioLength,
}

/// A parsed IDSP container: the stream-level fields and, per channel, its
/// metadata and its deinterleaved compressed audio.
#[derive(Debug, Clone, PartialEq)]
pub struct IdspContainer {
    pub looping: bool,
    pub channel_count: usize,
    pub sample_rate: usize,
    pub loop_start: usize,
    pub loop_end: usize,
    pub sample_count: usize,
    pub audio_data_offset: usize,
    pub interleave_size: usize,
    pub header_size: usize,
    pub channel_info_size: usize,
    pub audio_data_length: usize,
    pub channels: Vec<ChannelMetadata>,
    pub audio_data: Vec<Vec<u8>>,
}

/// The per-channel header of an IDSP stream, including the channel's
/// predictor table and its two seek contexts.
#[derive(Debug, Clone, PartialEq)]
pub struct ChannelMetadata {
    pub sample_count: usize,
    pub nibble_count: usize,
    pub sample_rate: usize,
    pub looping: bool,
    pub start_address: usize,
    pub end_address: usize,
    pub current_address: usize,
    pub coefficients: [i16; 16],
    pub gain: i16,
    pub start_context: GcAdpcmContext,
    pub loop_context: GcAdpcmContext,
}

/// An ADPCM seek context: the frame header byte pair and the two history
/// samples with which decoding resumes at that point.
#[derive(Debug, Clone, Copy, PartialEq, Eq, Structural)]
pub struct GcAdpcmContext {
    pub predictor_scale: i16,
    pub hist_1: i16,
    pub hist_2: i16,
}

impl GcAdpcmContext {
    /// Reads a context from three consecutive big-endian 16-bit fields.
    pub fn read_from_buf(bytes: &[u8], pos: usize) -> (r: Self)
        requires
            pos + 6 <= bytes@.len(),
            pos + 6 <= usize::MAX,
        ensures
            r.predictor_scale as int == spec_i16_of(spec_be16(bytes@, pos as int)),
            r.hist_1 as int == spec_i16_of(spec_be16(bytes@, pos as int + 2)),
            r.hist_2 as int == spec_i16_of(spec_be16(bytes@, pos as int + 4)),
    {
        let predictor_scale = read_i16_be(bytes, pos);
        let hist_1 = read_i16_be(bytes, pos + 2);
        let hist_2 = read_i16_be(bytes, pos + 4);
        GcAdpcmContext { predictor_scale, hist_1, hist_2 }
    }

    /// Appends the context as three big-endian 16-bit fields.
    pub fn write_to_buf(&self, buf: &mut Vec<u8>)
        ensures
            final(buf)@.len() == old(buf)@.len() + 6,
            forall|i: int| 0 <= i < old(buf)@.len() ==> final(buf)@[i] == old(buf)@[i],
            spec_i16_of(spec_be16(final(buf)@, old(buf)@.len() as int)) == self.predictor_scale,
            spec_i16_of(spec_be16(final(buf)@, old(buf)@.len() as int + 2)) == self.hist_1,
            spec_i16_of(spec_be16(final(buf)@, old(buf)@.len() as int + 4)) == self.hist_2,
    {
        push_i16_be(buf, self.predictor_scale);
        push_i16_be(buf, self.hist_1);
        push_i16_be(buf, self.hist_2);
    }
}

impl IdspContainer {
    /// Bytes one channel's payload occupies on disk: the encoded byte count
    /// rounded up to a whole number of interleave blocks.
    pub fn audio_data_len(&self) -> (r: usize)
        requires
            crate::math::spec_sample_count_to_nibble_count(self.sample_count as int) <= usize::MAX,
            crate::math::spec_get_next_multiple(
                crate::math::spec_sample_count_to_byte_count(self.sample_count as int),
                self.interleave_size as int,
            ) <= usize::MAX,
        ensures
            r == crate::math::spec_get_next_multiple(
                crate::math::spec_sample_count_to_byte_count(self.sample_count as int),
                self.interleave_size as int,
            ),
    {
        crate::math::get_next_multiple(
            crate::math::sample_count_to_byte_count(self.sample_count),
            self.interleave_size,
        )
    }
}

/// Turns a vector of byte vectors into the sequence of byte sequences the
/// specs speak about.
pub open spec fn views_of(inputs: Seq<Vec<u8>>) -> Seq<Seq<u8>> {
    inputs.map_values(|v: Vec<u8>| v@)
}

/// Number of interleave blocks a channel of `total` bytes occupies.
pub open spec fn spec_block_count(total: int, il: int) -> int
    recommends
        il >= 1,
        total >= 0,
{
    spec_div_round_up(total, il)
}

/// Length of block `b` of a channel of `total` bytes: a full `il`, except the
/// final block, which holds what remains.
pub open spec fn spec_block_len(total: int, il: int, b: int) -> int
    recommends
        il >= 1,
        0 <= b < spec_block_count(total, il),
{
    if b == spec_block_count(total, il) - 1 {
        total - il * (spec_block_count(total, il) - 1)
    } else {
        il
    }
}

/// The byte at position `k` of the interleaved stream: block `b` of every
/// channel in turn, each block `il` bytes except the final one. A channel
/// position beyond the input (the output is longer, or past the copied
/// blocks) reads zero.
pub open spec fn spec_interleave_byte(
    inputs: Seq<Seq<u8>>,
    il: int,
    output_size: int,
    k: int,
) -> u8
    recommends
        il >= 1,
        inputs.len() >= 1,
        0 <= k < output_size * inputs.len(),
{
    let count = inputs.len() as int;
    let input_size = inputs[0].len() as int;
    let b = k / (il * count);
    let k2 = k % (il * count);
    let cur_out = spec_block_len(output_size, il, b);
    let i = k2 / cur_out;
    let r = k2 % cur_out;
    let blocks = min(spec_block_count(input_size, il), spec_block_count(output_size, il));
    let btc = min(spec_block_len(input_size, il, b), cur_out);
    if b < blocks && r < btc {
        inputs[i][il * b + r]
    } else {
        0
    }
}

/// The whole interleaved stream of equal-length channels, padded or cut to
/// `output_size` bytes per channel.
#[verifier::opaque]
pub open spec fn spec_interleave(inputs: Seq<Seq<u8>>, il: int, output_size: int) -> Seq<u8>
    recommends
        il >= 1,
        inputs.len() >= 1,
        output_size >= 0,
{
    Seq::new(
        (output_size * inputs.len()) as nat,
        |k: int| spec_interleave_byte(inputs, il, output_size, k),
    )
}

/// Byte `j` of deinterleaved channel `o`: read from the channel's block `b`
/// inside the interleaved region of `src` that starts at `start`, or zero
/// where the source has no data for it.
pub open spec fn spec_deinterleave_byte(
    src: Seq<u8>,
    start: int,
    il: int,
    count: int,
    input_size: int,
    output_size: int,
    o: int,
    j: int,
) -> u8
    recommends
        il >= 1,
        count >= 1,
        0 <= o < count,
        0 <= j < output_size,
{
    let b = j / il;
    let r = j % il;
    let blocks = min(spec_block_count(input_size, il), spec_block_count(output_size, il));
    let cur_in = spec_block_len(input_size, il, b);
    let cur_out = spec_block_len(output_size, il, b);
    let btc = min(cur_in, cur_out);
    if b < blocks && r < btc {
        src[start + il * count * b + cur_in * o + r]
    } else {
        0
    }
}

/// The deinterleaved channels: `count` sequences of `output_size` bytes each.
#[verifier::opaque]
pub open spec fn spec_deinterleave(
    src: Seq<u8>,
    start: int,
    il: int,
    count: int,
    input_size: int,
    output_size: int,
) -> Seq<Seq<u8>>
    recommends
        il >= 1,
        count >= 1,
{
    Seq::new(
        count as nat,
        |o: int|
            Seq::new(
                output_size as nat,
                |j: int| spec_deinterleave_byte(src, start, il, count, input_size, output_size, o, j),
            ),
    )
}

/// Block bookkeeping: every block is between 1 and `il` bytes, blocks cover
/// the channel exactly, and each block ends inside the channel.
proof fn lemma_block_geometry(total: int, il: int)
    requires
        il >= 1,
        total >= 0,
    ensures
        spec_block_count(total, il) >= 0,
        total == 0 ==> spec_block_count(total, il) == 0,
        total > 0 ==> spec_block_count(total, il) >= 1,
        total > 0 ==> il * (spec_block_count(total, il) - 1) < total,
        il * spec_block_count(total, il) >= total,
        forall|b: int|
            0 <= b < spec_block_count(total, il) ==> 1 <= #[trigger] spec_block_len(total, il, b)
                <= il,
        forall|b: int|
            0 <= b < spec_block_count(total, il) ==> il * b + #[trigger] spec_block_len(
                total,
                il,
                b,
            ) <= total,
{
    let bc = spec_block_count(total, il);
    lemma_fundamental_div_mod(total + il - 1, il);
    lemma_mod_division_less_than_divisor(total + il - 1, il);
    assert(il * bc == total + il - 1 - ((total + il - 1) % il));
    assert(total <= il * bc <= total + il - 1);
    assert(bc >= 0) by (nonlinear_arith)
        requires
            il >= 1,
            il * bc >= 0,
    ;
    if total == 0 {
        lemma_fundamental_div_mod_converse(il - 1, il, 0, il - 1);
    }
    if total > 0 {
        assert(bc >= 1) by (nonlinear_arith)
            requires
                il >= 1,
                il * bc >= 1,
        ;
        assert(il * (bc - 1) == il * bc - il) by (nonlinear_arith);
        assert(il * (bc - 1) < total);
    }
    assert forall|b: int| 0 <= b < bc implies 1 <= #[trigger] spec_block_len(total, il, b) <= il
        && il * b + spec_block_len(total, il, b) <= total by {
        assert(il * (bc - 1) == il * bc - il) by (nonlinear_arith);
        if b == bc - 1 {
            assert(spec_block_len(total, il, b) == total - il * (bc - 1));
        } else {
            lemma_mul_inequality(b + 1, bc - 1, il);
            assert(il * (b + 1) == il * b + il) by (nonlinear_arith);
            assert((b + 1) * il == il * (b + 1)) by (nonlinear_arith);
            assert((bc - 1) * il == il * (bc - 1)) by (nonlinear_arith);
        }
    }
}

/// Magic the container begins with: the four bytes of `IDSP`.
pub open spec fn spec_has_magic(b: Seq<u8>) -> bool {
    b.len() >= 4 && b[0] == 0x49u8 && b[1] == 0x44u8 && b[2] == 0x53u8 && b[3] == 0x50u8
}

/// Where channel header `i` starts: the stream's header-size field plus `i`
/// times its channel-info-size field.
pub open spec fn spec_channel_base(b: Seq<u8>, i: int) -> int
    recommends
        b.len() >= 48,
{
    spec_be32(b, 32) + i * spec_be32(b, 36)
}

/// Whether the stream-level and per-channel headers, and the audio region
/// they declare, all lie inside the buffer, and the declared sample count is
/// representable on this machine.
pub open spec fn spec_stream_readable(b: Seq<u8>) -> bool {
    &&& b.len() >= 48
    &&& forall|i: int|
        0 <= i < spec_be32(b, 8) ==> #[trigger] spec_channel_base(b, i) + 74 <= b.len()
    &&& spec_be32(b, 40) <= b.len()
    &&& spec_be32(b, 8) * spec_be32(b, 44) <= b.len() - spec_be32(b, 40)
    &&& crate::math::spec_sample_count_to_byte_count(spec_be32(b, 16)) <= usize::MAX
}

/// The effective interleave block size of a stream: a stored zero means one
/// block spanning the whole per-channel payload.
pub open spec fn spec_effective_interleave(interleave_size: int, audio_data_length: int) -> int {
    if interleave_size != 0 {
        interleave_size
    } else if audio_data_length != 0 {
        audio_data_length
    } else {
        1
    }
}

/// How a parsed channel header relates to the 74 bytes at `base` it was read
/// from.
pub open spec fn spec_channel_header_parsed(b: Seq<u8>, base: int, ch: ChannelMetadata) -> bool
    recommends
        0 <= base,
        base + 74 <= b.len(),
{
    &&& ch.sample_count == spec_be32(b, base)
    &&& ch.nibble_count == spec_be32(b, base + 4)
    &&& ch.sample_rate == spec_be32(b, base + 8)
    &&& ch.looping == (spec_i16_of(spec_be16(b, base + 12)) == 1)
    &&& ch.start_address == spec_be32(b, base + 16)
    &&& ch.end_address == spec_be32(b, base + 20)
    &&& ch.current_address == spec_be32(b, base + 24)
    &&& forall|k: int|
        0 <= k < 16 ==> ch.coefficients@[k] as int == spec_i16_of(
            spec_be16(b, base + 28 + 2 * k),
        )
    &&& ch.gain as int == spec_i16_of(spec_be16(b, base + 60))
    &&& ch.start_context.predictor_scale as int == spec_i16_of(spec_be16(b, base + 62))
    &&& ch.start_context.hist_1 as int == spec_i16_of(spec_be16(b, base + 64))
    &&& ch.start_context.hist_2 as int == spec_i16_of(spec_be16(b, base + 66))
    &&& ch.loop_context.predictor_scale as int == spec_i16_of(spec_be16(b, base + 68))
    &&& ch.loop_context.hist_1 as int == spec_i16_of(spec_be16(b, base + 70))
    &&& ch.loop_context.hist_2 as int == spec_i16_of(spec_be16(b, base + 72))
}

/// How a serialized channel header block of 96 bytes at `base` encodes a
/// channel's metadata; counts wider than 32 bits are stored truncated.
pub open spec fn spec_channel_header_encoded(b: Seq<u8>, base: int, ch: ChannelMetadata) -> bool
    recommends
        0 <= base,
        base + 96 <= b.len(),
{
    &&& spec_be32(b, base) == ch.sample_count as u32
    &&& spec_be32(b, base + 4) == ch.nibble_count as u32
    &&& spec_be32(b, base + 8) == ch.sample_rate as u32
    &&& spec_i16_of(spec_be16(b, base + 12)) == if ch.looping {
        1int
    } else {
        0int
    }
    &&& spec_be16(b, base + 14) == 0
    &&& spec_be32(b, base + 16) == ch.start_address as u32
    &&& spec_be32(b, base + 20) == ch.end_address as u32
    &&& spec_be32(b, base + 24) == ch.current_address as u32
    &&& forall|k: int|
        0 <= k < 16 ==> spec_i16_of(spec_be16(b, base + 28 + 2 * k)) == ch.coefficients@[k] as int
    &&& spec_i16_of(spec_be16(b, base + 60)) == ch.gain as int
    &&& spec_i16_of(spec_be16(b, base + 62)) == ch.start_context.predictor_scale as int
    &&& spec_i16_of(spec_be16(b, base + 64)) == ch.start_context.hist_1 as int
    &&& spec_i16_of(spec_be16(b, base + 66)) == ch.start_context.hist_2 as int
    &&& spec_i16_of(spec_be16(b, base + 68)) == ch.loop_context.predictor_scale as int
    &&& spec_i16_of(spec_be16(b, base + 70)) == ch.loop_context.hist_1 as int
    &&& spec_i16_of(spec_be16(b, base + 72)) == ch.loop_context.hist_2 as int
    &&& forall|k: int| base + 74 <= k < base + 96 ==> b[k] == 0u8
}

/// The big-endian 16-bit value stored at byte offset `i`.
pub open spec fn spec_be16(b: Seq<u8>, i: int) -> int
    recommends
        0 <= i,
        i + 2 <= b.len(),
{
    b[i] as int * 256 + b[i + 1] as int
}

/// The big-endian 32-bit value stored at byte offset `i`.
pub open spec fn spec_be32(b: Seq<u8>, i: int) -> int
    recommends
        0 <= i,
        i + 4 <= b.len(),
{
    b[i] as int * 16777216 + b[i + 1] as int * 65536 + b[i + 2] as int * 256 + b[i + 3] as int
}

/// The signed 16-bit reading of an unsigned 16-bit value.
pub open spec fn spec_i16_of(v: int) -> int
    recommends
        0 <= v < 65536,
{
    if v < 32768 {
        v
    } else {
        v - 65536
    }
}

/// A 32-bit value splits into four bytes that recombine to the value.
proof fn lemma_be32_split(v: int)
    requires
        0 <= v < 4294967296,
    ensures
        0 <= v / 16777216 < 256,
        0 <= (v / 65536) % 256 < 256,
        0 <= (v / 256) % 256 < 256,
        0 <= v % 256 < 256,
        (v / 16777216) * 16777216 + ((v / 65536) % 256) * 65536 + ((v / 256) % 256) * 256 + v % 256
            == v,
{
    lemma_fundamental_div_mod(v, 256);
    lemma_mod_division_less_than_divisor(v, 256);
    lemma_fundamental_div_mod(v / 256, 256);
    lemma_mod_division_less_than_divisor(v / 256, 256);
    lemma_div_denominator(v, 256, 256);
    lemma_fundamental_div_mod(v / 65536, 256);
    lemma_mod_division_less_than_divisor(v / 65536, 256);
    lemma_div_denominator(v, 65536, 256);
    lemma_div_is_ordered(v, 4294967295, 16777216);
    lemma_div_pos_is_pos(v, 16777216);
    lemma_div_pos_is_pos(v, 65536);
    lemma_div_pos_is_pos(v, 256);
}

/// Reads the big-endian 32-bit field at `pos`.
fn read_u32_be(bytes: &[u8], pos: usize) -> (r: u32)
    requires
        pos + 4 <= bytes@.len(),
    ensures
        r == spec_be32(bytes@, pos as int),
{
    bytes[pos] as u32 * 16777216 + bytes[pos + 1] as u32 * 65536 + bytes[pos + 2] as u32 * 256
        + bytes[pos + 3] as u32
}

/// Reads the big-endian signed 16-bit field at `pos`.
fn read_i16_be(bytes: &[u8], pos: usize) -> (r: i16)
    requires
        pos + 2 <= bytes@.len(),
    ensures
        r as int == spec_i16_of(spec_be16(bytes@, pos as int)),
{
    let v: u32 = bytes[pos] as u32 * 256 + bytes[pos + 1] as u32;
    if v < 32768 {
        v as i16
    } else {
        (v as i32 - 65536) as i16
    }
}

/// Appends a 32-bit value in big-endian order.
fn push_u32_be(buf: &mut Vec<u8>, v: u32)
    ensures
        final(buf)@.len() == old(buf)@.len() + 4,
        forall|i: int| 0 <= i < old(buf)@.len() ==> final(buf)@[i] == old(buf)@[i],
        spec_be32(final(buf)@, old(buf)@.len() as int) == v,
{
    proof {
        lemma_be32_split(v as int);
    }
    buf.push((v / 16777216) as u8);
    buf.push(((v / 65536) % 256) as u8);
    buf.push(((v / 256) % 256) as u8);
    buf.push((v % 256) as u8);
}

/// Appends a signed 16-bit value in big-endian order.
fn push_i16_be(buf: &mut Vec<u8>, v: i16)
    ensures
        final(buf)@.len() == old(buf)@.len() + 2,
        forall|i: int| 0 <= i < old(buf)@.len() ==> final(buf)@[i] == old(buf)@[i],
        spec_i16_of(spec_be16(final(buf)@, old(buf)@.len() as int)) == v,
{
    let u: u32 = if v >= 0 {
        v as u32
    } else {
        (v as i32 + 65536) as u32
    };
    proof {
        lemma_fundamental_div_mod(u as int, 256);
        lemma_mod_division_less_than_divisor(u as int, 256);
        lemma_div_is_ordered(u as int, 65535, 256);
        lemma_div_pos_is_pos(u as int, 256);
    }
    buf.push((u / 256) as u8);
    buf.push((u % 256) as u8);
}

/// The per-channel size an `Option` argument selects: the given size, or the
/// input size where none is given.
pub open spec fn spec_resolved_size(os: Option<usize>, input_size: int) -> int {
    match os {
        Some(v) => v as int,
        None => input_size,
    }
}

/// A stream position built from block, channel and offset decomposes back
/// into exactly those parts.
proof fn lemma_position_decompose(il: int, count: int, b: int, cur: int, i: int, r: int)
    requires
        il >= 1,
        count >= 1,
        0 <= b,
        0 <= i < count,
        0 <= r < cur,
        1 <= cur <= il,
    ensures
        (il * count * b + cur * i + r) / (il * count) == b,
        (il * count * b + cur * i + r) % (il * count) == cur * i + r,
        (cur * i + r) / cur == i,
        (cur * i + r) % cur == r,
{
    assert(0 <= cur * i + r < il * count) by (nonlinear_arith)
        requires
            0 <= i < count,
            0 <= r < cur,
            1 <= cur <= il,
            count >= 1,
    ;
    let k2 = cur * i + r;
    assert(il * count * b + k2 == b * (il * count) + k2) by (nonlinear_arith);
    lemma_fundamental_div_mod_converse(il * count * b + k2, il * count, b, k2);
    assert(cur * i + r == i * cur + r) by (nonlinear_arith);
    lemma_fundamental_div_mod_converse(cur * i + r, cur, i, r);
}

/// Merges equal-length per-channel byte streams into fixed-size interleave
/// blocks: block 0 of every channel, then block 1 of every channel, and so
/// on, the final block per channel possibly short. Each channel is padded
/// with zeros or cut to `output_size` bytes (`None` keeps the input length).
pub fn interleave(inputs: &Vec<Vec<u8>>, interleave_size: usize, output_size: Option<usize>) -> (out:
    Vec<u8>)
    requires
        inputs@.len() >= 1,
        interleave_size >= 1,
        forall|i: int|
            0 <= i < inputs@.len() ==> (#[trigger] inputs@[i])@.len() == inputs@[0]@.len(),
    ensures
        out@ == spec_interleave(
            views_of(inputs@),
            interleave_size as int,
            spec_resolved_size(output_size, inputs@[0]@.len() as int),
        ),
{
    let count = inputs.len();
    let input_size = inputs[0].len();
    let os = match output_size {
        Some(v) => v,
        None => input_size,
    };
    let il = interleave_size;
    proof {
        lemma_block_geometry(input_size as int, il as int);
        lemma_block_geometry(os as int, il as int);
    }
    let in_block_count = input_size.divide_by_round_up(il);
    let out_block_count = os.divide_by_round_up(il);
    let blocks_to_copy = if in_block_count < out_block_count {
        in_block_count
    } else {
        out_block_count
    };

    let ghost gviews = views_of(inputs@);
    let mut out: Vec<u8> = Vec::new();
    let mut b: usize = 0;
    while b < out_block_count
        invariant
            0 <= b <= out_block_count,
            if b < out_block_count {
                out@.len() == il as int * count as int * b as int
            } else {
                out@.len() == os as int * count as int
            },
            forall|k: int|
                0 <= k < out@.len() ==> out@[k] == spec_interleave_byte(
                    gviews,
                    il as int,
                    os as int,
                    k,
                ),
        decreases out_block_count - b,
    {
        proof {
            assert((out_block_count - 1) * il as int == il as int * (out_block_count - 1))
                by (nonlinear_arith);
        }
        let cur_out: usize = if b == out_block_count - 1 {
            os - (out_block_count - 1) * il
        } else {
            il
        };
        assert(cur_out as int == spec_block_len(os as int, il as int, b as int));
        let copying = b < blocks_to_copy;
        let cur_in: usize = if copying {
            proof {
                assert((in_block_count - 1) * il as int == il as int * (in_block_count - 1))
                    by (nonlinear_arith);
            }
            if b == in_block_count - 1 {
                input_size - (in_block_count - 1) * il
            } else {
                il
            }
        } else {
            0
        };
        proof {
            if copying {
                assert(cur_in as int == spec_block_len(input_size as int, il as int, b as int));
            }
        }
        let bytes_to_copy: usize = if copying {
            if cur_in < cur_out {
                cur_in
            } else {
                cur_out
            }
        } else {
            0
        };

        let mut i: usize = 0;
        while i < count
            invariant
                0 <= i <= count,
                out@.len() == il as int * count as int * b as int + cur_out as int * i as int,
                forall|k: int|
                    0 <= k < out@.len() ==> out@[k] == spec_interleave_byte(
                        gviews,
                        il as int,
                        os as int,
                        k,
                    ),
            decreases count - i,
        {
            let mut r: usize = 0;
            while r < cur_out
                invariant
                    0 <= r <= cur_out,
                    out@.len() == il as int * count as int * b as int + cur_out as int * i as int
                        + r as int,
                    forall|k: int|
                        0 <= k < out@.len() ==> out@[k] == spec_interleave_byte(
                            gviews,
                            il as int,
                            os as int,
                            k,
                        ),
                decreases cur_out - r,
            {
                let value: u8 = if copying && r < bytes_to_copy {
                    proof {
                        assert(il as int * b as int + cur_in <= input_size);
                        assert(b as int * il as int == il as int * b as int) by (nonlinear_arith);
                    }
                    inputs[i][b * il + r]
                } else {
                    0
                };
                proof {
                    let k = out@.len() as int;
                    lemma_position_decompose(
                        il as int,
                        count as int,
                        b as int,
                        cur_out as int,
                        i as int,
                        r as int,
                    );
                    assert(gviews[i as int] == inputs@[i as int]@);
                    assert(value == spec_interleave_byte(gviews, il as int, os as int, k));
                }
                out.push(value);
                r = r + 1;
            }
            i = i + 1;
            proof {
                assert(cur_out as int * (i - 1) + cur_out as int == cur_out as int * i as int)
                    by (nonlinear_arith);
            }
        }
        b = b + 1;
        proof {
            if b < out_block_count {
                assert(il as int * count as int * (b - 1) + il as int * count as int == il as int
                    * count as int * b as int) by (nonlinear_arith);
            } else {
                assert(il as int * count as int * (b - 1) + cur_out as int * count as int
                    == count as int * (il as int * (b - 1) + cur_out as int)) by (nonlinear_arith);
                assert(il as int * (b - 1) + cur_out as int == os as int);
                assert(count as int * os as int == os as int * count as int) by (nonlinear_arith);
            }
        }
    }
    proof {
        reveal(spec_interleave);
        assert(out@ =~= spec_interleave(
            gviews,
            il as int,
            spec_resolved_size(output_size, inputs@[0]@.len() as int),
        ));
    }
    out
}

/// Splits the interleaved region of `bytes` beginning at `start` into
/// `output_count` channels of `len / output_count` bytes each, reading the
/// alternating fixed-size blocks back apart; each channel is padded with
/// zeros or cut to `output_size` bytes (`None` keeps the stored size). Fails
/// when fewer than `len` bytes remain or `len` does not divide among the
/// channels.
pub fn deinterleave(
    bytes: &[u8],
    start: usize,
    len: usize,
    interleave_size: usize,
    output_count: usize,
    output_size: Option<usize>,
) -> (r: Result<Vec<Vec<u8>>, DecodeError>)
    requires
        start <= bytes@.len(),
        interleave_size >= 1,
        output_count >= 1,
    ensures
        match r {
            Ok(v) => bytes@.len() - start >= len && len as int % (output_count as int) == 0
                && views_of(v@) == spec_deinterleave(
                bytes@,
                start as int,
                interleave_size as int,
                output_count as int,
                (len / output_count) as int,
                spec_resolved_size(output_size, (len / output_count) as int),
            ),
            Err(e) => (bytes@.len() - start < len || len as int % (output_count as int) != 0) && e
                == DecodeError::InvalidAudioLength,
        },
{
    let remaining = bytes.len() - start;
    if remaining < len {
        return Err(DecodeError::InvalidAudioLength);
    }
    if len % output_count != 0 {
        return Err(DecodeError::InvalidAudioLength);
    }

    let count = output_count;
    let input_size = len / output_count;
    let os = match output_size {
        Some(v) => v,
        None => input_size,
    };
    let il = interleave_size;
    proof {
        lemma_fundamental_div_mod(len as int, count as int);
        assert(len as int == count as int * input_size as int);
        lemma_block_geometry(input_size as int, il as int);
        lemma_block_geometry(os as int, il as int);
    }
    let in_block_count = input_size.divide_by_round_up(il);
    let out_block_count = os.divide_by_round_up(il);
    let blocks_to_copy = if in_block_count < out_block_count {
        in_block_count
    } else {
        out_block_count
    };

    let mut outputs: Vec<Vec<u8>> = Vec::new();
    let mut o: usize = 0;
    while o < count
        invariant
            0 <= o <= count,
            outputs@.len() == o,
            forall|o2: int|
                0 <= o2 < o ==> (#[trigger] outputs@[o2])@ == Seq::new(
                    os as nat,
                    |j: int|
                        spec_deinterleave_byte(
                            bytes@,
                            start as int,
                            il as int,
                            count as int,
                            input_size as int,
                            os as int,
                            o2,
                            j,
                        ),
                ),
        decreases count - o,
    {
        let mut channel: Vec<u8> = Vec::new();
        let mut b: usize = 0;
        while b < out_block_count
            invariant
                0 <= b <= out_block_count,
                if b < out_block_count {
                    channel@.len() == il as int * b as int
                } else {
                    channel@.len() == os as int
                },
                forall|j: int|
                    0 <= j < channel@.len() ==> channel@[j] == spec_deinterleave_byte(
                        bytes@,
                        start as int,
                        il as int,
                        count as int,
                        input_size as int,
                        os as int,
                        o as int,
                        j,
                    ),
            decreases out_block_count - b,
        {
            proof {
                assert((out_block_count - 1) * il as int == il as int * (out_block_count - 1))
                    by (nonlinear_arith);
            }
            let cur_out: usize = if b == out_block_count - 1 {
                os - (out_block_count - 1) * il
            } else {
                il
            };
            assert(cur_out as int == spec_block_len(os as int, il as int, b as int));
            let copying = b < blocks_to_copy;
            let cur_in: usize = if copying {
                proof {
                    assert((in_block_count - 1) * il as int == il as int * (in_block_count - 1))
                        by (nonlinear_arith);
                }
                if b == in_block_count - 1 {
                    input_size - (in_block_count - 1) * il
                } else {
                    il
                }
            } else {
                0
            };
            proof {
                if copying {
                    assert(cur_in as int == spec_block_len(input_size as int, il as int, b as int));
                }
            }
            let bytes_to_copy: usize = if copying {
                if cur_in < cur_out {
                    cur_in
                } else {
                    cur_out
                }
            } else {
                0
            };

            let base: usize = if copying {
                proof {
                    assert(il as int * b as int + cur_in <= input_size);
                    assert(b as int * il as int == il as int * b as int) by (nonlinear_arith);
                    assert((il as int * b as int) * count as int + cur_in as int * o as int
                        + cur_in as int <= count as int * input_size as int) by (nonlinear_arith)
                        requires
                            il as int * b as int + cur_in as int <= input_size,
                            0 <= il as int * b as int,
                            1 <= cur_in,
                            0 <= o < count,
                    ;
                    assert((b as int * il as int) * count as int == il as int * count as int
                        * b as int) by (nonlinear_arith);
                }
                start + (b * il) * count + cur_in * o
            } else {
                0
            };

            let mut r: usize = 0;
            while r < cur_out
                invariant
                    0 <= r <= cur_out,
                    channel@.len() == il as int * b as int + r as int,
                    forall|j: int|
                        0 <= j < channel@.len() ==> channel@[j] == spec_deinterleave_byte(
                            bytes@,
                            start as int,
                            il as int,
                            count as int,
                            input_size as int,
                            os as int,
                            o as int,
                            j,
                        ),
                decreases cur_out - r,
            {
                let value: u8 = if copying && r < bytes_to_copy {
                    bytes[base + r]
                } else {
                    0
                };
                proof {
                    let j = channel@.len() as int;
                    assert(j == il as int * b as int + r as int);
                    assert(j == b as int * il as int + r as int) by (nonlinear_arith)
                        requires
                            j == il as int * b as int + r as int,
                    ;
                    lemma_fundamental_div_mod_converse(j, il as int, b as int, r as int);
                }
                channel.push(value);
                r = r + 1;
            }
            b = b + 1;
            proof {
                if b < out_block_count {
                    assert(il as int * (b - 1) + il as int == il as int * b as int)
                        by (nonlinear_arith);
                } else {
                    assert(il as int * (b - 1) + cur_out as int == os as int);
                }
            }
        }
        proof {
            assert(channel@ =~= Seq::new(
                os as nat,
                |j: int|
                    spec_deinterleave_byte(
                        bytes@,
                        start as int,
                        il as int,
                        count as int,
                        input_size as int,
                        os as int,
                        o as int,
                        j,
                    ),
            ));
        }
        outputs.push(channel);
        o = o + 1;
    }
    proof {
        reveal(spec_deinterleave);
        assert(views_of(outputs@) =~~= spec_deinterleave(
            bytes@,
            start as int,
            il as int,
            count as int,
            input_size as int,
            os as int,
        ));
    }
    Ok(outputs)
}

/// Serializes one channel header into its fixed 96-byte block.
fn write_channel(channel: &ChannelMetadata) -> (out: Vec<u8>)
    ensures
        out@.len() == 96,
        spec_channel_header_encoded(out@, 0, *channel),
{
    let mut out: Vec<u8> = Vec::new();
    push_u32_be(&mut out, #[verifier::truncate] (channel.sample_count as u32));
    push_u32_be(&mut out, #[verifier::truncate] (channel.nibble_count as u32));
    push_u32_be(&mut out, #[verifier::truncate] (channel.sample_rate as u32));
    push_i16_be(&mut out, if channel.looping { 1 } else { 0 });
    push_i16_be(&mut out, 0);
    push_u32_be(&mut out, #[verifier::truncate] (channel.start_address as u32));
    push_u32_be(&mut out, #[verifier::truncate] (channel.end_address as u32));
    push_u32_be(&mut out, #[verifier::truncate] (channel.current_address as u32));
    let mut k: usize = 0;
    while k < 16
        invariant
            0 <= k <= 16,
            out@.len() == 28 + 2 * k,
            spec_be32(out@, 0) == channel.sample_count as u32,
            spec_be32(out@, 4) == channel.nibble_count as u32,
            spec_be32(out@, 8) == channel.sample_rate as u32,
            spec_i16_of(spec_be16(out@, 12)) == if channel.looping {
                1int
            } else {
                0int
            },
            spec_be16(out@, 14) == 0,
            spec_be32(out@, 16) == channel.start_address as u32,
            spec_be32(out@, 20) == channel.end_address as u32,
            spec_be32(out@, 24) == channel.current_address as u32,
            forall|k2: int|
                0 <= k2 < k ==> spec_i16_of(spec_be16(out@, 28 + 2 * k2))
                    == channel.coefficients@[k2] as int,
        decreases 16 - k,
    {
        push_i16_be(&mut out, channel.coefficients[k]);
        k = k + 1;
    }
    push_i16_be(&mut out, channel.gain);
    channel.start_context.write_to_buf(&mut out);
    channel.loop_context.write_to_buf(&mut out);
    let mut p: usize = 0;
    while p < 22
        invariant
            0 <= p <= 22,
            out@.len() == 74 + p,
            spec_be32(out@, 0) == channel.sample_count as u32,
            spec_be32(out@, 4) == channel.nibble_count as u32,
            spec_be32(out@, 8) == channel.sample_rate as u32,
            spec_i16_of(spec_be16(out@, 12)) == if channel.looping {
                1int
            } else {
                0int
            },
            spec_be16(out@, 14) == 0,
            spec_be32(out@, 16) == channel.start_address as u32,
            spec_be32(out@, 20) == channel.end_address as u32,
            spec_be32(out@, 24) == channel.current_address as u32,
            forall|k2: int|
                0 <= k2 < 16 ==> spec_i16_of(spec_be16(out@, 28 + 2 * k2))
                    == channel.coefficients@[k2] as int,
            spec_i16_of(spec_be16(out@, 60)) == channel.gain as int,
            spec_i16_of(spec_be16(out@, 62)) == channel.start_context.predictor_scale as int,
            spec_i16_of(spec_be16(out@, 64)) == channel.start_context.hist_1 as int,
            spec_i16_of(spec_be16(out@, 66)) == channel.start_context.hist_2 as int,
            spec_i16_of(spec_be16(out@, 68)) == channel.loop_context.predictor_scale as int,
            spec_i16_of(spec_be16(out@, 70)) == channel.loop_context.hist_1 as int,
            spec_i16_of(spec_be16(out@, 72)) == channel.loop_context.hist_2 as int,
            forall|k2: int| 74 <= k2 < out@.len() ==> out@[k2] == 0u8,
        decreases 22 - p,
    {
        out.push(0u8);
        p = p + 1;
    }
    out
}

/// Serializes the 64-byte stream-information header.
fn write_stream_info(container: &IdspContainer, header_size: usize, audio_len: usize) -> (out: Vec<
    u8,
>)
    ensures
        out@.len() == 64,
        spec_has_magic(out@),
        spec_be32(out@, 4) == 0,
        spec_be32(out@, 8) == container.channel_count as u32,
        spec_be32(out@, 12) == container.sample_rate as u32,
        spec_be32(out@, 16) == container.sample_count as u32,
        spec_be32(out@, 20) == container.loop_start as u32,
        spec_be32(out@, 24) == container.loop_end as u32,
        spec_be32(out@, 28) == container.interleave_size as u32,
        spec_be32(out@, 32) == 64,
        spec_be32(out@, 36) == 96,
        spec_be32(out@, 40) == header_size as u32,
        spec_be32(out@, 44) == audio_len as u32,
        forall|k: int| 48 <= k < 64 ==> out@[k] == 0u8,
{
    let mut out: Vec<u8> = Vec::new();
    out.push(0x49);
    out.push(0x44);
    out.push(0x53);
    out.push(0x50);
    push_u32_be(&mut out, 0);
    push_u32_be(&mut out, #[verifier::truncate] (container.channel_count as u32));
    push_u32_be(&mut out, #[verifier::truncate] (container.sample_rate as u32));
    push_u32_be(&mut out, #[verifier::truncate] (container.sample_count as u32));
    push_u32_be(&mut out, #[verifier::truncate] (container.loop_start as u32));
    push_u32_be(&mut out, #[verifier::truncate] (container.loop_end as u32));
    push_u32_be(&mut out, #[verifier::truncate] (container.interleave_size as u32));
    push_u32_be(&mut out, 64);
    push_u32_be(&mut out, 96);
    push_u32_be(&mut out, #[verifier::truncate] (header_size as u32));
    push_u32_be(&mut out, #[verifier::truncate] (audio_len as u32));
    let mut p: usize = 0;
    while p < 16
        invariant
            0 <= p <= 16,
            out@.len() == 48 + p,
            spec_has_magic(out@),
            spec_be32(out@, 4) == 0,
            spec_be32(out@, 8) == container.channel_count as u32,
            spec_be32(out@, 12) == container.sample_rate as u32,
            spec_be32(out@, 16) == container.sample_count as u32,
            spec_be32(out@, 20) == container.loop_start as u32,
            spec_be32(out@, 24) == container.loop_end as u32,
            spec_be32(out@, 28) == container.interleave_size as u32,
            spec_be32(out@, 32) == 64,
            spec_be32(out@, 36) == 96,
            spec_be32(out@, 40) == header_size as u32,
            spec_be32(out@, 44) == audio_len as u32,
            forall|k: int| 48 <= k < out@.len() ==> out@[k] == 0u8,
        decreases 16 - p,
    {
        out.push(0u8);
        p = p + 1;
    }
    out
}

/// How a serialized container relates to the bytes written for it: the magic
/// and stream fields at their fixed offsets, one encoded 96-byte header per
/// channel, and the interleaved payload filling the rest.
pub open spec fn spec_container_encoded(b: Seq<u8>, c: IdspContainer) -> bool
    recommends
        c.channels.len() == c.channel_count,
        c.audio_data.len() == c.channel_count,
        c.channel_count >= 1,
{
    let cc = c.channel_count as int;
    let payload = spec_interleave(
        views_of(c.audio_data@),
        spec_effective_interleave(c.interleave_size as int, c.audio_data_length as int),
        c.audio_data_length as int,
    );
    &&& b.len() == 64 + 96 * cc + payload.len()
    &&& spec_has_magic(b)
    &&& spec_be32(b, 8) == c.channel_count as u32
    &&& spec_be32(b, 12) == c.sample_rate as u32
    &&& spec_be32(b, 16) == c.sample_count as u32
    &&& spec_be32(b, 20) == c.loop_start as u32
    &&& spec_be32(b, 24) == c.loop_end as u32
    &&& spec_be32(b, 28) == c.interleave_size as u32
    &&& spec_be32(b, 32) == 64
    &&& spec_be32(b, 36) == 96
    &&& spec_be32(b, 40) == (96 * c.channel_count + 64) as u32
    &&& spec_be32(b, 44) == (crate::math::spec_get_next_multiple(
        crate::math::spec_sample_count_to_byte_count(c.sample_count as int),
        c.interleave_size as int,
    )) as usize as u32
    &&& forall|i: int|
        0 <= i < cc ==> spec_channel_header_encoded(b, 64 + 96 * i, #[trigger] c.channels@[i])
    &&& b.subrange(64 + 96 * cc, b.len() as int) == payload
}

/// Serializes a container: the 64-byte stream information, one 96-byte
/// header per channel, then the channels' audio interleaved in blocks of the
/// container's interleave size (a zero size storing each channel as one
/// block). Counts wider than 32 bits are stored truncated, as the format's
/// fields are 32-bit.
pub fn write_idsp_bytes(container: &IdspContainer) -> (r: Result<Vec<u8>, ()>)
    requires
        container.channels@.len() == container.channel_count,
        container.audio_data@.len() == container.channel_count,
        container.channel_count >= 1,
        96 * container.channel_count + 64 <= usize::MAX,
        forall|i: int|
            0 <= i < container.audio_data@.len() ==> (#[trigger] container.audio_data@[i])@.len()
                == container.audio_data@[0]@.len(),
        crate::math::spec_sample_count_to_nibble_count(container.sample_count as int)
            <= usize::MAX,
        crate::math::spec_get_next_multiple(
            crate::math::spec_sample_count_to_byte_count(container.sample_count as int),
            container.interleave_size as int,
        ) <= usize::MAX,
    ensures
        match r {
            Ok(out) => spec_container_encoded(out@, *container),
            Err(_) => false,
        },
{
    let header_size = 64 + 96 * container.channel_count;
    let audio_len = container.audio_data_len();
    let mut out = write_stream_info(container, header_size, audio_len);

    let mut i: usize = 0;
    while i < container.channel_count
        invariant
            0 <= i <= container.channel_count,
            out@.len() == 64 + 96 * i,
            spec_has_magic(out@),
            spec_be32(out@, 8) == container.channel_count as u32,
            spec_be32(out@, 12) == container.sample_rate as u32,
            spec_be32(out@, 16) == container.sample_count as u32,
            spec_be32(out@, 20) == container.loop_start as u32,
            spec_be32(out@, 24) == container.loop_end as u32,
            spec_be32(out@, 28) == container.interleave_size as u32,
            spec_be32(out@, 32) == 64,
            spec_be32(out@, 36) == 96,
            spec_be32(out@, 40) == header_size as u32,
            spec_be32(out@, 44) == audio_len as u32,
            forall|i2: int|
                0 <= i2 < i ==> spec_channel_header_encoded(
                    out@,
                    64 + 96 * i2,
                    #[trigger] container.channels@[i2],
                ),
        decreases container.channel_count - i,
    {
        let block = write_channel(&container.channels[i]);
        let ghost prev = out@;
        let mut k: usize = 0;
        while k < 96
            invariant
                0 <= k <= 96,
                block@.len() == 96,
                out@.len() == prev.len() + k,
                forall|j: int| 0 <= j < prev.len() ==> #[trigger] out@[j] == prev[j],
                forall|j: int|
                    prev.len() <= j < out@.len() ==> #[trigger] out@[j] == block@[j - prev.len()],
            decreases 96 - k,
        {
            out.push(block[k]);
            k = k + 1;
        }
        proof {
            assert(spec_channel_header_encoded(out@, 64 + 96 * i as int, container.channels@[i as int])) by {
                assert forall|j: int| prev.len() <= j < prev.len() + 96 implies #[trigger] out@[j]
                    == block@[j - prev.len()] by {}
            }
            assert forall|i2: int| 0 <= i2 < i + 1 implies spec_channel_header_encoded(
                out@,
                64 + 96 * i2,
                #[trigger] container.channels@[i2],
            ) by {
                if i2 < i {
                    assert(96 * i2 + 96 <= 96 * i as int);
                    assert forall|j: int| 64 + 96 * i2 <= j < 64 + 96 * i2 + 96 implies #[trigger] out@[j]
                        == prev[j] by {}
                }
            }
        }
        i = i + 1;
    }

    let eff: usize = if container.interleave_size != 0 {
        container.interleave_size
    } else if container.audio_data_length != 0 {
        container.audio_data_length
    } else {
        1
    };
    let payload = interleave(&container.audio_data, eff, Some(container.audio_data_length));
    let ghost prev = out@;
    let ghost hdr_len = prev.len() as int;
    let mut k: usize = 0;
    while k < payload.len()
        invariant
            0 <= k <= payload@.len(),
            out@.len() == prev.len() + k,
            forall|j: int| 0 <= j < prev.len() ==> #[trigger] out@[j] == prev[j],
            forall|j: int|
                prev.len() <= j < out@.len() ==> #[trigger] out@[j] == payload@[j - prev.len()],
        decreases payload@.len() - k,
    {
        out.push(payload[k]);
        k = k + 1;
    }
    proof {
        let cc = container.channel_count as int;
        assert(out@.subrange(64 + 96 * cc, out@.len() as int) =~= payload@);
        assert forall|i2: int| 0 <= i2 < cc implies spec_channel_header_encoded(
            out@,
            64 + 96 * i2,
            #[trigger] container.channels@[i2],
        ) by {
            assert(96 * i2 + 96 <= 96 * cc);
            assert forall|j: int| 64 + 96 * i2 <= j < 64 + 96 * i2 + 96 implies #[trigger] out@[j]
                == prev[j] by {}
        }
        assert(spec_container_encoded(out@, *container)) by {
            assert(spec_has_magic(out@));
            assert(spec_be32(out@, 8) == container.channel_count as u32);
            assert(spec_be32(out@, 44) == audio_len as u32);
            assert(out@.len() == 64 + 96 * cc + payload@.len());
        }
    }
    Ok(out)
}

/// Bytes needed to encode `sample_count` samples, on the wide integer the
/// parser uses so that a 32-bit count from a header never overflows.
fn sample_count_to_byte_count_u64(sample_count: u64) -> (r: u64)
    requires
        crate::math::spec_sample_count_to_nibble_count(sample_count as int) <= u64::MAX,
    ensures
        r == crate::math::spec_sample_count_to_byte_count(sample_count as int),
{
    let frames = sample_count / 14;
    let extra_samples = sample_count % 14;
    let nibbles: u64 = if extra_samples == 0 {
        16 * frames
    } else {
        16 * frames + (extra_samples + 2)
    };
    proof {
        crate::math::lemma_div_round_up_parts(nibbles as int, 2);
    }
    (nibbles / 2) + (nibbles % 2)
}

/// Parses every channel header, and whether any channel loops. Fails when a
/// channel header would lie outside the buffer.
#[verifier::rlimit(100)]
fn parse_channels(bytes: &[u8], channel_count: usize, header_size: usize, channel_info_size: usize) -> (r:
    Result<(Vec<ChannelMetadata>, bool), DecodeError>)
    requires
        bytes@.len() >= 48,
        channel_count as int == spec_be32(bytes@, 8),
        header_size as int == spec_be32(bytes@, 32),
        channel_info_size as int == spec_be32(bytes@, 36),
    ensures
        r is Ok <==> forall|i: int|
            0 <= i < spec_be32(bytes@, 8) ==> #[trigger] spec_channel_base(bytes@, i) + 74
                <= bytes@.len(),
        match r {
            Ok(p) => {
                &&& p.0@.len() == channel_count
                &&& forall|i: int|
                    0 <= i < p.0@.len() ==> spec_channel_header_parsed(
                        bytes@,
                        spec_channel_base(bytes@, i),
                        #[trigger] p.0@[i],
                    )
                &&& p.1 == exists|i: int| 0 <= i < p.0@.len() && (#[trigger] p.0@[i]).looping
            },
            Err(e) => e == DecodeError::InvalidAudioLength,
        },
{
    let n = bytes.len();
    let mut channels: Vec<ChannelMetadata> = Vec::new();
    let mut looping = false;
    let ghost mut looping_witness: int = 0;
    let mut i: usize = 0;
    while i < channel_count
        invariant
            0 <= i <= channel_count,
            channels@.len() == i,
            forall|i2: int|
                0 <= i2 < i ==> #[trigger] spec_channel_base(bytes@, i2) + 74 <= bytes@.len(),
            forall|i2: int|
                0 <= i2 < i ==> spec_channel_header_parsed(
                    bytes@,
                    spec_channel_base(bytes@, i2),
                    #[trigger] channels@[i2],
                ),
            looping ==> 0 <= looping_witness < channels@.len()
                && channels@[looping_witness].looping,
            !looping ==> forall|i2: int|
                0 <= i2 < channels@.len() ==> !(#[trigger] channels@[i2]).looping,
        decreases channel_count - i,
    {
        proof {
            assert((i as u64) * (channel_info_size as u64) <= 0xFFFFFFFE00000001u64)
                by (nonlinear_arith)
                requires
                    i as u64 <= 0xFFFFFFFFu64,
                    channel_info_size as u64 <= 0xFFFFFFFFu64,
            ;
        }
        let base64: u64 = header_size as u64 + (i as u64) * (channel_info_size as u64);
        assert(base64 as int == spec_channel_base(bytes@, i as int));
        if base64 + 74 > n as u64 {
            return Err(DecodeError::InvalidAudioLength);
        }
        let base = base64 as usize;

        let ch_sample_count = read_u32_be(bytes, base) as usize;
        let ch_nibble_count = read_u32_be(bytes, base + 4) as usize;
        let ch_sample_rate = read_u32_be(bytes, base + 8) as usize;
        let ch_looping = read_i16_be(bytes, base + 12) == 1;
        let start_address = read_u32_be(bytes, base + 16) as usize;
        let end_address = read_u32_be(bytes, base + 20) as usize;
        let current_address = read_u32_be(bytes, base + 24) as usize;
        let coefficients: [i16; 16] = [
            read_i16_be(bytes, base + 28),
            read_i16_be(bytes, base + 30),
            read_i16_be(bytes, base + 32),
            read_i16_be(bytes, base + 34),
            read_i16_be(bytes, base + 36),
            read_i16_be(bytes, base + 38),
            read_i16_be(bytes, base + 40),
            read_i16_be(bytes, base + 42),
            read_i16_be(bytes, base + 44),
            read_i16_be(bytes, base + 46),
            read_i16_be(bytes, base + 48),
            read_i16_be(bytes, base + 50),
            read_i16_be(bytes, base + 52),
            read_i16_be(bytes, base + 54),
            read_i16_be(bytes, base + 56),
            read_i16_be(bytes, base + 58),
        ];
        let gain = read_i16_be(bytes, base + 60);
        let start_context = GcAdpcmContext::read_from_buf(bytes, base + 62);
        let loop_context = GcAdpcmContext::read_from_buf(bytes, base + 68);

        let channel = ChannelMetadata {
            sample_count: ch_sample_count,
            nibble_count: ch_nibble_count,
            sample_rate: ch_sample_rate,
            looping: ch_looping,
            start_address,
            end_address,
            current_address,
            coefficients,
            gain,
            start_context,
            loop_context,
        };
        assert(spec_channel_header_parsed(bytes@, spec_channel_base(bytes@, i as int), channel));
        if channel.looping {
            looping = true;
            proof {
                looping_witness = channels@.len() as int;
            }
        }
        channels.push(channel);
        i = i + 1;
    }
    proof {
        if looping {
            assert(0 <= looping_witness < channels@.len() && channels@[looping_witness].looping);
        }
        assert(looping == exists|i2: int|
            0 <= i2 < channels@.len() && (#[trigger] channels@[i2]).looping);
    }
    Ok((channels, looping))
}

/// How a parsed container relates to the bytes it was read from: every
/// stream-level field is the 32-bit value at its offset, every channel header
/// matches its block, the looping flag is set exactly when some channel
/// loops, and the audio is the deinterleaved payload region.
pub open spec fn spec_container_parsed(b: Seq<u8>, c: IdspContainer) -> bool
    recommends
        b.len() >= 48,
{
    &&& c.channel_count == spec_be32(b, 8)
    &&& c.sample_rate == spec_be32(b, 12)
    &&& c.sample_count == spec_be32(b, 16)
    &&& c.loop_start == spec_be32(b, 20)
    &&& c.loop_end == spec_be32(b, 24)
    &&& c.interleave_size == spec_be32(b, 28)
    &&& c.header_size == spec_be32(b, 32)
    &&& c.channel_info_size == spec_be32(b, 36)
    &&& c.audio_data_offset == spec_be32(b, 40)
    &&& c.audio_data_length == spec_be32(b, 44)
    &&& c.channels@.len() == c.channel_count
    &&& forall|i: int|
        0 <= i < c.channels@.len() ==> spec_channel_header_parsed(
            b,
            spec_channel_base(b, i),
            #[trigger] c.channels@[i],
        )
    &&& c.looping == exists|i: int|
        0 <= i < c.channels@.len() && (#[trigger] c.channels@[i]).looping
    &&& c.audio_data@.len() == c.channel_count
    &&& views_of(c.audio_data@) == spec_deinterleave(
        b,
        spec_be32(b, 40),
        spec_effective_interleave(spec_be32(b, 28), spec_be32(b, 44)),
        spec_be32(b, 8),
        spec_be32(b, 44),
        crate::math::spec_sample_count_to_byte_count(spec_be32(b, 16)),
    )
}

/// Parses an IDSP container from a byte buffer. Succeeds exactly when the
/// buffer begins with the container magic and every region the header
/// declares lies inside the buffer (`spec_stream_readable`); the parsed
/// fields, channel headers and deinterleaved audio then match the bytes, as
/// `spec_container_parsed` states.
#[verifier::rlimit(100)]
pub fn read_idsp_bytes(original_bytes: &[u8]) -> (r: Result<IdspContainer, DecodeError>)
    ensures
        r is Ok <==> spec_has_magic(original_bytes@) && spec_stream_readable(original_bytes@),
        match r {
            Ok(c) => spec_container_parsed(original_bytes@, c),
            Err(e) => if e == DecodeError::InvalidHeader {
                !spec_has_magic(original_bytes@)
            } else {
                spec_has_magic(original_bytes@) && !spec_stream_readable(original_bytes@)
            },
        },
{
    let n = original_bytes.len();
    if n < 4 || original_bytes[0] != 0x49 || original_bytes[1] != 0x44 || original_bytes[2] != 0x53
        || original_bytes[3] != 0x50 {
        return Err(DecodeError::InvalidHeader);
    }
    if n < 48 {
        return Err(DecodeError::InvalidAudioLength);
    }

    let channel_count = read_u32_be(original_bytes, 8) as usize;
    let sample_rate = read_u32_be(original_bytes, 12) as usize;
    let sample_count = read_u32_be(original_bytes, 16) as usize;
    let loop_start = read_u32_be(original_bytes, 20) as usize;
    let loop_end = read_u32_be(original_bytes, 24) as usize;
    let interleave_size = read_u32_be(original_bytes, 28) as usize;
    let header_size = read_u32_be(original_bytes, 32) as usize;
    let channel_info_size = read_u32_be(original_bytes, 36) as usize;
    let audio_data_offset = read_u32_be(original_bytes, 40) as usize;
    let audio_data_length = read_u32_be(original_bytes, 44) as usize;

    let parsed = match parse_channels(original_bytes, channel_count, header_size, channel_info_size) {
        Ok(p) => p,
        Err(e) => {
            return Err(e);
        },
    };
    let channels = parsed.0;
    let looping = parsed.1;

    if audio_data_offset > n {
        return Err(DecodeError::InvalidAudioLength);
    }
    let remaining = n - audio_data_offset;
    proof {
        assert((channel_count as u64) * (audio_data_length as u64) <= 0xFFFFFFFE00000001u64)
            by (nonlinear_arith)
            requires
                channel_count as u64 <= 0xFFFFFFFFu64,
                audio_data_length as u64 <= 0xFFFFFFFFu64,
        ;
    }
    if (channel_count as u64) * (audio_data_length as u64) > remaining as u64 {
        return Err(DecodeError::InvalidAudioLength);
    }
    let total = ((channel_count as u64) * (audio_data_length as u64)) as usize;

    proof {
        vstd::arithmetic::div_mod::lemma_div_nonincreasing(sample_count as int, 14);
    }
    let output_size_64 = sample_count_to_byte_count_u64(sample_count as u64);
    if output_size_64 > usize::MAX as u64 {
        return Err(DecodeError::InvalidAudioLength);
    }
    let output_size = output_size_64 as usize;

    let ghost gb = original_bytes@;
    let audio_data: Vec<Vec<u8>> = if channel_count == 0 {
        let empty: Vec<Vec<u8>> = Vec::new();
        proof {
            reveal(spec_deinterleave);
            assert(views_of(empty@) =~~= spec_deinterleave(
                gb,
                audio_data_offset as int,
                spec_effective_interleave(interleave_size as int, audio_data_length as int),
                0,
                audio_data_length as int,
                output_size as int,
            ));
        }
        empty
    } else {
        let eff: usize = if interleave_size != 0 {
            interleave_size
        } else if audio_data_length != 0 {
            audio_data_length
        } else {
            1
        };
        proof {
            assert((audio_data_length as int) * (channel_count as int) % (channel_count as int)
                == 0) by (nonlinear_arith)
                requires
                    channel_count as int >= 1,
            ;
            assert(total as int == channel_count as int * audio_data_length as int);
            assert(total as int % (channel_count as int) == 0) by (nonlinear_arith)
                requires
                    total as int == channel_count as int * audio_data_length as int,
                    (audio_data_length as int) * (channel_count as int) % (channel_count as int)
                        == 0,
            ;
            assert(total as int / (channel_count as int) == audio_data_length as int) by {
                lemma_fundamental_div_mod_converse(
                    total as int,
                    channel_count as int,
                    audio_data_length as int,
                    0,
                );
            }
        }
        match deinterleave(
            original_bytes,
            audio_data_offset,
            total,
            eff,
            channel_count,
            Some(output_size),
        ) {
            Ok(v) => v,
            Err(_) => {
                proof {
                    assert(false);
                }
                return Err(DecodeError::InvalidAudioLength);
            },
        }
    };

    proof {
        let b = original_bytes@;
        assert(spec_stream_readable(b)) by {
            assert(b.len() >= 48);
            assert(spec_be32(b, 40) <= b.len());
            assert(spec_be32(b, 8) * spec_be32(b, 44) == (channel_count as u64) * (
            audio_data_length as u64));
            assert(spec_be32(b, 8) * spec_be32(b, 44) <= b.len() - spec_be32(b, 40));
            assert(crate::math::spec_sample_count_to_byte_count(spec_be32(b, 16)) <= usize::MAX);
        }
        assert(views_of(audio_data@) == spec_deinterleave(
            b,
            spec_be32(b, 40),
            spec_effective_interleave(spec_be32(b, 28), spec_be32(b, 44)),
            spec_be32(b, 8),
            spec_be32(b, 44),
            crate::math::spec_sample_count_to_byte_count(spec_be32(b, 16)),
        ));
        assert(audio_data@.len() == channel_count) by {
            reveal(spec_deinterleave);
            assert(views_of(audio_data@).len() == audio_data@.len());
        }
        assert(spec_has_magic(b));
        assert(channels@.len() == channel_count);
        assert(forall|i: int|
            0 <= i < channels@.len() ==> spec_channel_header_parsed(
                b,
                spec_channel_base(b, i),
                #[trigger] channels@[i],
            ));
        assert(looping == exists|i: int|
            0 <= i < channels@.len() && (#[trigger] channels@[i]).looping);
    }
    let container = IdspContainer {
        looping,
        channel_count,
        sample_rate,
        sample_count,
        loop_start,
        loop_end,
        interleave_size,
        header_size,
        channel_info_size,
        audio_data_offset,
        audio_data_length,
        channels,
        audio_data,
    };
    proof {
        assert(spec_container_parsed(original_bytes@, container)) by {
            let b = original_bytes@;
            assert(container.channels@ == channels@);
            assert(container.audio_data@ == audio_data@);
            assert(views_of(container.audio_data@) == spec_deinterleave(
                b,
                spec_be32(b, 40),
                spec_effective_interleave(spec_be32(b, 28), spec_be32(b, 44)),
                spec_be32(b, 8),
                spec_be32(b, 44),
                crate::math::spec_sample_count_to_byte_count(spec_be32(b, 16)),
            ));
            assert(container.audio_data@.len() == container.channel_count);
            assert(container.channels@.len() == container.channel_count);
            assert(forall|i: int|
                0 <= i < container.channels@.len() ==> spec_channel_header_parsed(
                    b,
                    spec_channel_base(b, i),
                    #[trigger] container.channels@[i],
                ));
            assert(container.looping == exists|i: int|
                0 <= i < container.channels@.len() && (#[trigger] container.channels@[i]).looping);
        }
    }
    Ok(container)
}

/// Deinterleaving a region that holds the interleaved form of equal-length
/// channels, with the same block size and channel count, gives back exactly
/// those channels.
proof fn lemma_deinterleave_of_interleaved(src: Seq<u8>, start: int, channels: Seq<Seq<u8>>, il: int)
    requires
        il >= 1,
        channels.len() >= 1,
        forall|i: int|
            0 <= i < channels.len() ==> (#[trigger] channels[i]).len() == channels[0].len(),
        0 <= start,
        start + channels[0].len() * channels.len() <= src.len(),
        src.subrange(start, start + channels[0].len() * channels.len()) == spec_interleave(
            channels,
            il,
            channels[0].len() as int,
        ),
    ensures
        spec_deinterleave(
            src,
            start,
            il,
            channels.len() as int,
            channels[0].len() as int,
            channels[0].len() as int,
        ) =~~= channels,
{
    reveal(spec_interleave);
    reveal(spec_deinterleave);
    let count = channels.len() as int;
    let len = channels[0].len() as int;
    let region = src.subrange(start, start + len * count);
    let out = spec_deinterleave(src, start, il, count, len, len);
    lemma_block_geometry(len, il);
    let bc = spec_block_count(len, il);
    assert forall|o: int, j: int| 0 <= o < count && 0 <= j < len implies out[o][j]
        == channels[o][j] by {
        let b = j / il;
        let r = j % il;
        lemma_fundamental_div_mod(j, il);
        lemma_mod_division_less_than_divisor(j, il);
        lemma_div_pos_is_pos(j, il);
        // j lies in a valid block: b < bc and r < that block's length.
        assert(b < bc) by {
            if b >= bc {
                lemma_mul_inequality(bc, b, il);
                assert(bc * il == il * bc) by (nonlinear_arith);
                assert(b * il == il * b) by (nonlinear_arith);
                assert(false);
            }
        }
        let cl = spec_block_len(len, il, b);
        assert(r < cl) by {
            if b < bc - 1 {
            } else {
                assert(j == il * b + r);
            }
        }
        // The deinterleaved byte reads the interleaved stream at k.
        let k = il * count * b + cl * o + r;
        assert(out[o][j] == src[start + k]);
        // Decompose k back into (block, channel, offset).
        assert(0 <= cl * o + r < il * count) by (nonlinear_arith)
            requires
                0 <= o < count,
                0 <= r < cl,
                1 <= cl <= il,
        ;
        assert(k == b * (il * count) + (cl * o + r)) by (nonlinear_arith)
            requires
                k == il * count * b + cl * o + r,
        ;
        lemma_fundamental_div_mod_converse(k, il * count, b, cl * o + r);
        assert(cl * o + r == o * cl + r) by (nonlinear_arith);
        lemma_fundamental_div_mod_converse(cl * o + r, cl, o, r);
        assert(il * b + cl <= len);
        assert(0 <= k < len * count) by (nonlinear_arith)
            requires
                0 <= b,
                il * b + cl <= len,
                k == il * count * b + cl * o + r,
                0 <= o < count,
                0 <= r < cl,
                1 <= cl <= il,
                1 <= count,
        ;
        assert(src[start + k] == region[k]);
        assert(region[k] == spec_interleave_byte(channels, il, len, k));
        assert(spec_interleave_byte(channels, il, len, k) == channels[o][il * b + r]);
        assert(il * b + r == j);
    }
}

/// Deinterleaving an interleaved stream of equal-length channels, with the
/// same block size and channel count, gives back exactly the original
/// channels, also when the channel length is not a multiple of the block
/// size.
pub proof fn lemma_interleave_deinterleave_inverse(channels: Seq<Seq<u8>>, il: int)
    requires
        il >= 1,
        channels.len() >= 1,
        forall|i: int|
            0 <= i < channels.len() ==> (#[trigger] channels[i]).len() == channels[0].len(),
    ensures
        spec_deinterleave(
            spec_interleave(channels, il, channels[0].len() as int),
            0,
            il,
            channels.len() as int,
            channels[0].len() as int,
            channels[0].len() as int,
        ) =~~= channels,
{
    reveal(spec_interleave);
    let src = spec_interleave(channels, il, channels[0].len() as int);
    assert(src.subrange(0, channels[0].len() * channels.len() as int) =~= src);
    lemma_deinterleave_of_interleaved(src, 0, channels, il);
}

/// A channel header parsed from the block it was encoded into is the encoded
/// channel, provided its counts fit the 32-bit fields.
proof fn lemma_channel_header_round_trip(b: Seq<u8>, base: int, c: ChannelMetadata, p: ChannelMetadata)
    requires
        spec_channel_header_parsed(b, base, p),
        spec_channel_header_encoded(b, base, c),
        c.sample_count <= u32::MAX,
        c.nibble_count <= u32::MAX,
        c.sample_rate <= u32::MAX,
        c.start_address <= u32::MAX,
        c.end_address <= u32::MAX,
        c.current_address <= u32::MAX,
    ensures
        p == c,
{
    assert(p.coefficients =~= c.coefficients) by {
        assert forall|k: int| 0 <= k < 16 implies p.coefficients@[k] == c.coefficients@[k] by {}
    }
}

/// Container round-trip: a container whose bookkeeping fields agree with the
/// fixed layout, whose counts fit the format's 32-bit fields, and whose audio
/// fills whole interleave blocks, parses back from its own serialization with
/// the same fields, the same channel headers and the same audio.
#[verifier::rlimit(100)]
pub proof fn lemma_container_round_trip(b: Seq<u8>, c: IdspContainer, p: IdspContainer)
    requires
        spec_container_encoded(b, c),
        spec_container_parsed(b, p),
        c.channels@.len() == c.channel_count,
        c.audio_data@.len() == c.channel_count,
        1 <= c.channel_count,
        96 * c.channel_count + 64 <= u32::MAX,
        c.sample_rate <= u32::MAX,
        c.sample_count <= u32::MAX,
        c.loop_start <= u32::MAX,
        c.loop_end <= u32::MAX,
        c.interleave_size <= u32::MAX,
        c.audio_data_length <= u32::MAX,
        forall|i: int|
            0 <= i < c.channels@.len() ==> {
                let ch = #[trigger] c.channels@[i];
                &&& ch.sample_count <= u32::MAX
                &&& ch.nibble_count <= u32::MAX
                &&& ch.sample_rate <= u32::MAX
                &&& ch.start_address <= u32::MAX
                &&& ch.end_address <= u32::MAX
                &&& ch.current_address <= u32::MAX
            },
        c.header_size == 64,
        c.channel_info_size == 96,
        c.audio_data_offset == 64 + 96 * c.channel_count,
        c.audio_data_length == crate::math::spec_sample_count_to_byte_count(c.sample_count as int),
        crate::math::spec_get_next_multiple(
            crate::math::spec_sample_count_to_byte_count(c.sample_count as int),
            c.interleave_size as int,
        ) == crate::math::spec_sample_count_to_byte_count(c.sample_count as int),
        forall|i: int|
            0 <= i < c.audio_data@.len() ==> (#[trigger] c.audio_data@[i])@.len()
                == c.audio_data_length,
        c.looping == exists|i: int|
            0 <= i < c.channels@.len() && (#[trigger] c.channels@[i]).looping,
    ensures
        p.channel_count == c.channel_count,
        p.sample_rate == c.sample_rate,
        p.sample_count == c.sample_count,
        p.loop_start == c.loop_start,
        p.loop_end == c.loop_end,
        p.interleave_size == c.interleave_size,
        p.header_size == c.header_size,
        p.channel_info_size == c.channel_info_size,
        p.audio_data_offset == c.audio_data_offset,
        p.audio_data_length == c.audio_data_length,
        p.looping == c.looping,
        p.channels@ == c.channels@,
        views_of(p.audio_data@) == views_of(c.audio_data@),
{
    lemma_container_round_trip_scalars(b, c, p);
    lemma_container_round_trip_headers(b, c, p);
    lemma_container_round_trip_audio(b, c, p);
}

/// The stream-level fields of the container round trip.
#[verifier::rlimit(100)]
proof fn lemma_container_round_trip_scalars(b: Seq<u8>, c: IdspContainer, p: IdspContainer)
    requires
        spec_container_encoded(b, c),
        spec_container_parsed(b, p),
        c.channels@.len() == c.channel_count,
        1 <= c.channel_count,
        96 * c.channel_count + 64 <= u32::MAX,
        c.sample_rate <= u32::MAX,
        c.sample_count <= u32::MAX,
        c.loop_start <= u32::MAX,
        c.loop_end <= u32::MAX,
        c.interleave_size <= u32::MAX,
        c.audio_data_length <= u32::MAX,
        c.header_size == 64,
        c.channel_info_size == 96,
        c.audio_data_offset == 64 + 96 * c.channel_count,
        c.audio_data_length == crate::math::spec_sample_count_to_byte_count(c.sample_count as int),
        crate::math::spec_get_next_multiple(
            crate::math::spec_sample_count_to_byte_count(c.sample_count as int),
            c.interleave_size as int,
        ) == crate::math::spec_sample_count_to_byte_count(c.sample_count as int),
    ensures
        p.channel_count == c.channel_count,
        p.sample_rate == c.sample_rate,
        p.sample_count == c.sample_count,
        p.loop_start == c.loop_start,
        p.loop_end == c.loop_end,
        p.interleave_size == c.interleave_size,
        p.header_size == c.header_size,
        p.channel_info_size == c.channel_info_size,
        p.audio_data_offset == c.audio_data_offset,
        p.audio_data_length == c.audio_data_length,
{
}

/// The channel half of the container round trip: channel headers and the
/// looping flag read back as written.
#[verifier::rlimit(100)]
proof fn lemma_container_round_trip_headers(b: Seq<u8>, c: IdspContainer, p: IdspContainer)
    requires
        spec_container_encoded(b, c),
        spec_container_parsed(b, p),
        c.channels@.len() == c.channel_count,
        1 <= c.channel_count,
        96 * c.channel_count + 64 <= u32::MAX,
        forall|i: int|
            0 <= i < c.channels@.len() ==> {
                let ch = #[trigger] c.channels@[i];
                &&& ch.sample_count <= u32::MAX
                &&& ch.nibble_count <= u32::MAX
                &&& ch.sample_rate <= u32::MAX
                &&& ch.start_address <= u32::MAX
                &&& ch.end_address <= u32::MAX
                &&& ch.current_address <= u32::MAX
            },
        c.looping == exists|i: int|
            0 <= i < c.channels@.len() && (#[trigger] c.channels@[i]).looping,
    ensures
        p.looping == c.looping,
        p.channels@ == c.channels@,
{
    let cc = c.channel_count as int;
    assert forall|i: int| 0 <= i < cc implies p.channels@[i] == c.channels@[i] by {
        assert(spec_channel_base(b, i) == 64 + 96 * i);
        lemma_channel_header_round_trip(b, 64 + 96 * i, c.channels@[i], p.channels@[i]);
    }
    assert(p.channels@ =~= c.channels@);
    assert(p.looping == c.looping);
}

/// The audio half of the container round trip: the deinterleaved payload is
/// the original channel audio.
#[verifier::rlimit(100)]
proof fn lemma_container_round_trip_audio(b: Seq<u8>, c: IdspContainer, p: IdspContainer)
    requires
        spec_container_encoded(b, c),
        spec_container_parsed(b, p),
        c.channels@.len() == c.channel_count,
        c.audio_data@.len() == c.channel_count,
        1 <= c.channel_count,
        96 * c.channel_count + 64 <= u32::MAX,
        c.sample_count <= u32::MAX,
        c.interleave_size <= u32::MAX,
        c.audio_data_length <= u32::MAX,
        c.audio_data_length == crate::math::spec_sample_count_to_byte_count(c.sample_count as int),
        crate::math::spec_get_next_multiple(
            crate::math::spec_sample_count_to_byte_count(c.sample_count as int),
            c.interleave_size as int,
        ) == crate::math::spec_sample_count_to_byte_count(c.sample_count as int),
        forall|i: int|
            0 <= i < c.audio_data@.len() ==> (#[trigger] c.audio_data@[i])@.len()
                == c.audio_data_length,
    ensures
        views_of(p.audio_data@) == views_of(c.audio_data@),
{
    let cc = c.channel_count as int;
    let adl = c.audio_data_length as int;
    let eff = spec_effective_interleave(c.interleave_size as int, adl);
    let views = views_of(c.audio_data@);

    reveal(spec_interleave);
    reveal(spec_deinterleave);
    let start = 64 + 96 * cc;
    let payload = spec_interleave(views, eff, adl);
    assert(payload.len() == adl * cc);
    assert(views.len() == cc && cc >= 1);
    assert(views[0].len() == adl);
    assert(b.subrange(start, start + views[0].len() * views.len() as int) == payload);
    assert(eff >= 1);
    lemma_deinterleave_of_interleaved(b, start, views, eff);
    assert(views_of(p.audio_data@) == spec_deinterleave(b, start, eff, cc, adl, adl)) by {
        assert(spec_be32(b, 40) == start);
        assert(spec_be32(b, 44) == adl);
        assert(spec_be32(b, 8) == cc);
        assert(spec_be32(b, 16) == c.sample_count);
        assert(crate::math::spec_sample_count_to_byte_count(spec_be32(b, 16)) == adl);
        assert(spec_effective_interleave(spec_be32(b, 28), spec_be32(b, 44)) == eff);
    }
    assert(views_of(p.audio_data@) =~~= views);
}

} // verus!
