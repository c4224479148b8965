//! The binary payload of an image file and the range of its samples.
//!
//! The payload is one record per pixel, row by row: four bytes for each
//! channel, most significant byte first, with nothing between the records.
//! Each group of four bytes is the bit pattern of one single-precision sample.
use crate::binary32::{is_equal, is_less, is_less_or_equal, is_nan, less, ONE, ZERO};
use vstd::prelude::*;

verus! {

/// The 32-bit word whose bytes are `b0` to `b3`, the most significant first.
pub open spec fn be_word(b0: u8, b1: u8, b2: u8, b3: u8) -> u32 {
    (b0 as u32 * 0x100_0000 + b1 as u32 * 0x1_0000 + b2 as u32 * 0x100 + b3 as u32) as u32
}

/// The `k`-th word of the payload: the bytes from `4 * k` up to `4 * k + 4`.
pub open spec fn word_at(payload: Seq<u8>, k: int) -> u32 {
    be_word(payload[4 * k], payload[4 * k + 1], payload[4 * k + 2], payload[4 * k + 3])
}

/// The channel counts that a file may declare.
pub open spec fn supported_channels(channels: u8) -> bool {
    channels == 1 || channels == 3
}

/// How many samples an image holds.
pub open spec fn sample_count(width: u32, height: u32, channels: u8) -> nat {
    (width * height * channels) as nat
}

/// How many bytes of payload an image takes.
pub open spec fn payload_len(width: u32, height: u32, channels: u8) -> nat {
    4 * sample_count(width, height, channels)
}

/// The first `count` words of the payload.
pub open spec fn words(payload: Seq<u8>, count: nat) -> Seq<u32> {
    Seq::new(count, |k: int| word_at(payload, k))
}

/// The samples of an image, in file order: for each row, for each pixel of
/// it, the channels of that pixel. There are none where the channel count is
/// not supported or the payload ends before the last record.
pub open spec fn decoded(payload: Seq<u8>, width: u32, height: u32, channels: u8) -> Option<
    Seq<u32>,
> {
    if supported_channels(channels) && payload.len() >= payload_len(width, height, channels) {
        Some(words(payload, sample_count(width, height, channels)))
    } else {
        None
    }
}

/// Calls `byteorder::BigEndian::read_u32`, which reads the first four bytes
/// of the buffer as one unsigned number, most significant byte first, and
/// panics on a buffer of fewer than four bytes.
#[verifier::external_body]
fn read_be_word(buf: &[u8]) -> (r: u32)
    requires
        buf@.len() >= 4,
    ensures
        r == be_word(buf@[0], buf@[1], buf@[2], buf@[3]),
{
    <byteorder::BigEndian as byteorder::ByteOrder>::read_u32(buf)
}

/// Decodes the payload of an image of the given size.
///
/// Reads `width * height` records of `4 * channels` bytes and nothing after
/// them. Fails where the channel count is neither 1 nor 3, and where the
/// payload is too short for the last record.
pub fn decode_samples(payload: &[u8], width: u32, height: u32, channels: u8) -> (r: Option<
    Vec<u32>,
>)
    ensures
        match r {
            Some(samples) => decoded(payload@, width, height, channels) == Some(samples@),
            None => decoded(payload@, width, height, channels) is None,
        },
{
    if channels != 1 && channels != 3 {
        return None;
    }
    proof {
        assert(width * height <= 0xffff_ffff * 0xffff_ffff) by (nonlinear_arith)
            requires
                width <= 0xffff_ffff,
                height <= 0xffff_ffff,
        ;
    }
    let pixels: u64 = width as u64 * height as u64;
    let record: usize = 4 * channels as usize;
    let need: u128 = pixels as u128 * record as u128;
    let len = payload.len();
    proof {
        assert(pixels == width * height) by (nonlinear_arith)
            requires
                pixels == width as u64 * height as u64,
                width as u64 * height as u64 == width * height,
        ;
        assert(need == payload_len(width, height, channels)) by (nonlinear_arith)
            requires
                need == pixels * record,
                pixels == width * height,
                record == 4 * channels,
                payload_len(width, height, channels) == 4 * (width * height * channels),
        ;
    }
    if (len as u128) < need {
        return None;
    }
    let mut samples: Vec<u32> = Vec::new();
    let mut offset: usize = 0;
    let mut pixel: u64 = 0;
    let ghost count = sample_count(width, height, channels);
    while pixel < pixels
        invariant
            pixel <= pixels,
            supported_channels(channels),
            record == 4 * channels,
            samples@.len() == pixel * channels,
            offset == 4 * samples@.len(),
            count == pixels * channels,
            4 * count <= payload@.len() == len,
            forall|k: int| 0 <= k < samples@.len() ==> samples@[k] == word_at(payload@, k),
        decreases pixels - pixel,
    {
        proof {
            assert((pixel + 1) * channels <= pixels * channels) by (nonlinear_arith)
                requires
                    pixel + 1 <= pixels,
            ;
            assert((pixel + 1) * channels == pixel * channels + channels) by (nonlinear_arith);
        }
        let bytes = &payload[offset..offset + record];
        let mut channel: usize = 0;
        while channel < channels as usize
            invariant
                channel <= channels,
                record == 4 * channels,
                bytes@ == payload@.subrange(offset as int, offset + record),
                offset + record <= payload@.len(),
                samples@.len() == pixel * channels + channel,
                offset == 4 * (pixel * channels),
                forall|k: int| 0 <= k < samples@.len() ==> samples@[k] == word_at(payload@, k),
            decreases channels - channel,
        {
            let group = &bytes[4 * channel..4 * channel + 4];
            let word = read_be_word(group);
            proof {
                let k = samples@.len() as int;
                assert(4 * k == offset + 4 * channel);
                assert(group@[0] == payload@[4 * k]);
                assert(group@[1] == payload@[4 * k + 1]);
                assert(group@[2] == payload@[4 * k + 2]);
                assert(group@[3] == payload@[4 * k + 3]);
            }
            samples.push(word);
            channel = channel + 1;
        }
        offset = offset + record;
        pixel = pixel + 1;
    }
    proof {
        assert(samples@ =~= words(payload@, count));
    }
    Some(samples)
}

/// Decoding looks at the records alone: two payloads that agree on them give
/// the same samples, whatever follows.
pub proof fn lemma_decoding_reads_the_records(
    p: Seq<u8>,
    q: Seq<u8>,
    width: u32,
    height: u32,
    channels: u8,
)
    requires
        p.len() >= payload_len(width, height, channels),
        q.len() >= payload_len(width, height, channels),
        p.take(payload_len(width, height, channels) as int) == q.take(
            payload_len(width, height, channels) as int,
        ),
    ensures
        decoded(p, width, height, channels) == decoded(q, width, height, channels),
{
    let n = payload_len(width, height, channels) as int;
    let count = sample_count(width, height, channels);
    assert forall|k: int| 0 <= k < count implies word_at(p, k) == word_at(q, k) by {
        assert(p.take(n)[4 * k] == q.take(n)[4 * k]);
        assert(p.take(n)[4 * k + 1] == q.take(n)[4 * k + 1]);
        assert(p.take(n)[4 * k + 2] == q.take(n)[4 * k + 2]);
        assert(p.take(n)[4 * k + 3] == q.take(n)[4 * k + 3]);
    }
    assert(words(p, count) =~= words(q, count));
}

/// The channels of one pixel come from groups of bytes that do not overlap:
/// channel `c` of pixel `i` is made of the four bytes that begin at
/// `4 * (i * channels + c)`.
pub proof fn lemma_channels_do_not_overlap(
    payload: Seq<u8>,
    width: u32,
    height: u32,
    channels: u8,
    pixel: int,
    channel: int,
)
    requires
        decoded(payload, width, height, channels) is Some,
        0 <= pixel < width * height,
        0 <= channel < channels,
    ensures
        ({
            let k = pixel * channels + channel;
            let samples = decoded(payload, width, height, channels)->0;
            &&& 0 <= k < samples.len()
            &&& samples[k] == be_word(
                payload[4 * k],
                payload[4 * k + 1],
                payload[4 * k + 2],
                payload[4 * k + 3],
            )
        }),
{
    let k = pixel * channels + channel;
    assert(0 <= k < width * height * channels) by (nonlinear_arith)
        requires
            k == pixel * channels + channel,
            0 <= pixel < width * height,
            0 <= channel < channels,
    ;
}

/// The least and the greatest sample seen so far, beginning with 1 as the
/// least and 0 as the greatest.
///
/// For samples between 0 and 1 these are the true bounds. A sample above 1
/// cannot become the least one and a sample below 0 cannot become the
/// greatest, and a NaN changes neither: that is how the range of these images
/// is defined.
pub open spec fn running_min_max(samples: Seq<u32>) -> (u32, u32)
    decreases samples.len(),
{
    if samples.len() == 0 {
        (ONE, ZERO)
    } else {
        let before = running_min_max(samples.drop_last());
        let v = samples.last();
        (
            if is_less(v, before.0) {
                v
            } else {
                before.0
            },
            if is_less(before.1, v) {
                v
            } else {
                before.1
            },
        )
    }
}

/// Computes the range of the samples.
pub fn calculate_min_max(samples: &[u32]) -> (r: (u32, u32))
    ensures
        r == running_min_max(samples@),
{
    let mut min = ONE;
    let mut max = ZERO;
    let mut i: usize = 0;
    let n = samples.len();
    proof {
        assert(samples@.take(0) =~= Seq::<u32>::empty());
    }
    while i < n
        invariant
            i <= n == samples@.len(),
            (min, max) == running_min_max(samples@.take(i as int)),
        decreases n - i,
    {
        let v = samples[i];
        proof {
            let next = samples@.take(i + 1);
            assert(next.drop_last() =~= samples@.take(i as int));
            assert(next.last() == v);
        }
        if less(v, min) {
            min = v;
        }
        if less(max, v) {
            max = v;
        }
        i = i + 1;
    }
    proof {
        assert(samples@.take(n as int) =~= samples@);
    }
    (min, max)
}

/// The range bounds every sample that is a number, never leaves 1 above its
/// lower end or 0 below its upper end, and each end is a sample or the value
/// it began with.
pub proof fn lemma_range_bounds(samples: Seq<u32>)
    ensures
        ({
            let (lo, hi) = running_min_max(samples);
            &&& !is_nan(lo) && !is_nan(hi)
            &&& is_less_or_equal(lo, ONE)
            &&& is_less_or_equal(ZERO, hi)
            &&& forall|i: int|
                0 <= i < samples.len() && !is_nan(#[trigger] samples[i]) ==> is_less_or_equal(
                    lo,
                    samples[i],
                ) && is_less_or_equal(samples[i], hi)
            &&& lo == ONE || samples.contains(lo)
            &&& hi == ZERO || samples.contains(hi)
        }),
    decreases samples.len(),
{
    if samples.len() > 0 {
        let init = samples.drop_last();
        let v = samples.last();
        lemma_range_bounds(init);
        let before = running_min_max(init);
        let (lo, hi) = running_min_max(samples);
        assert forall|i: int| 0 <= i < samples.len() && !is_nan(#[trigger] samples[i]) implies
            is_less_or_equal(lo, samples[i]) && is_less_or_equal(samples[i], hi) by {
            if i < init.len() {
                assert(init[i] == samples[i]);
            }
        }
        if before.0 != ONE && lo == before.0 {
            let j = choose|j: int| 0 <= j < init.len() && init[j] == before.0;
            assert(samples[j] == lo);
        }
        if before.1 != ZERO && hi == before.1 {
            let j = choose|j: int| 0 <= j < init.len() && init[j] == before.1;
            assert(samples[j] == hi);
        }
        assert(samples[samples.len() - 1] == v);
    }
}

/// For samples that all lie between 0 and 1 the range is the true one: both
/// of its ends are samples, as numbers, and every sample lies between them.
pub proof fn lemma_range_of_unit_samples(samples: Seq<u32>)
    requires
        samples.len() > 0,
        forall|i: int|
            0 <= i < samples.len() ==> is_less_or_equal(ZERO, #[trigger] samples[i])
                && is_less_or_equal(samples[i], ONE),
    ensures
        ({
            let (lo, hi) = running_min_max(samples);
            &&& exists|i: int| 0 <= i < samples.len() && is_equal(#[trigger] samples[i], lo)
            &&& exists|i: int| 0 <= i < samples.len() && is_equal(#[trigger] samples[i], hi)
            &&& forall|i: int|
                0 <= i < samples.len() ==> is_less_or_equal(lo, #[trigger] samples[i])
                    && is_less_or_equal(samples[i], hi)
        }),
{
    lemma_range_bounds(samples);
    let (lo, hi) = running_min_max(samples);
    assert(is_less_or_equal(lo, samples[0]) && is_less_or_equal(samples[0], hi));
    if lo == ONE {
        assert(is_equal(samples[0], lo));
    } else {
        let j = choose|j: int| 0 <= j < samples.len() && samples[j] == lo;
        assert(is_equal(samples[j], lo));
    }
    if hi == ZERO {
        assert(is_equal(samples[0], hi));
    } else {
        let j = choose|j: int| 0 <= j < samples.len() && samples[j] == hi;
        assert(is_equal(samples[j], hi));
    }
}

} // verus!
