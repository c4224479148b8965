//! A raw image in memory: its header, its samples, the range of the samples
//! and the window of that range that is shown.
//!
//! Samples, range and window are single-precision numbers, held as their bit
//! patterns (see [`crate::binary32`]).
use crate::arithmetic::{
    difference, divided, lemma_plus_zero, lemma_times_one, lemma_times_zero, lemma_zero_plus,
    minus, plus, product, quotient, sum, times,
};
use crate::binary32::{
    equal, is_equal, is_finite, is_less_or_equal, less_or_equal, negate, to_byte,
    to_byte_spec, FULL_SCALE, ONE, ZERO,
};
use crate::header::{
    buffer_type_key, channels_key, dim_key, end_token, field_line, file_id_token, file_name_key,
    interpret, lemma_header_round_trip, lemma_tokens_stand_on_one_line, literal_line,
    magic_token, newline, parse_header, parse_header_spec, primtype_key, size_key, space,
    writable_fields, written_header, Header, HeaderFields, RawFields,
};
use crate::pixels::{
    calculate_min_max, decode_samples, decoded, running_min_max, sample_count,
    supported_channels,
};
use vstd::prelude::*;

verus! {

/// Why a file could not be read as an image.
#[derive(Debug, Clone, Copy, PartialEq, Eq)]
pub enum ImageReadError {
    /// The payload could not be read: it is shorter than the header declares,
    /// or the header declares a channel count other than 1 and 3.
    ImageParseError,
    /// The file does not begin with a well-formed header.
    HeaderParseError,
}

/// Why a pair of percentages was refused.
#[derive(Debug, Clone, Copy, PartialEq, Eq)]
pub enum ValidationError {
    /// The lower percentage is not a number between 0 and 1.
    MinOutOfRange,
    /// The upper percentage is not a number between 0 and 1.
    MaxOutOfRange,
    /// The lower percentage is greater than the upper one.
    Inverted,
}

/// Why an image could not be encoded.
#[derive(Debug, Clone, Copy, PartialEq, Eq)]
pub enum EncodeError {
    /// The encoder refused the image or could not write it.
    Rejected,
}

/// `std::io::Error`, which a failed read hands over.
#[verifier::external_type_specification]
#[verifier::external_body]
pub struct ExIoError(std::io::Error);

/// `image::ImageError`, which the PNG encoder hands over where it fails.
#[verifier::external_type_specification]
#[verifier::external_body]
pub struct ExImageError(image::ImageError);

impl From<std::io::Error> for ImageReadError {
    /// A failed read is a payload that could not be read.
    fn from(e: std::io::Error) -> (r: ImageReadError) {
        ImageReadError::ImageParseError
    }
}

impl vstd::std_specs::convert::FromSpecImpl<std::io::Error> for ImageReadError {
    open spec fn obeys_from_spec() -> bool {
        true
    }

    open spec fn from_spec(e: std::io::Error) -> ImageReadError {
        ImageReadError::ImageParseError
    }
}

/// A decoded image.
#[derive(Debug)]
pub struct Image {
    header: Header,
    samples: Vec<u32>,
    min_max: (u32, u32),
    visible_min_max: (u32, u32),
}

/// The mathematical content of an [`Image`].
pub struct ImageModel {
    pub header: HeaderFields,
    /// The samples in file order: row by row, pixel by pixel, channel by channel.
    pub samples: Seq<u32>,
    /// The range of the samples.
    pub min_max: (u32, u32),
    /// The part of the range that is shown.
    pub visible_min_max: (u32, u32),
}

/// What holds of every image: it has one or three channels, as many samples
/// as its header declares, and the range of those samples.
pub open spec fn consistent(m: ImageModel) -> bool {
    &&& supported_channels(m.header.buffer_channels)
    &&& m.samples.len() == sample_count(m.header.size.0, m.header.size.1, m.header.buffer_channels)
    &&& m.min_max == running_min_max(m.samples)
}

/// Where the first `count` lines of `s` end: behind the `count`-th line feed,
/// or at the end of `s` where it has fewer.
pub open spec fn lines_end(s: Seq<u8>, count: nat) -> int
    decreases s.len(),
{
    if count == 0 || s.len() == 0 {
        0
    } else if s[0] == 10 {
        1 + lines_end(s.skip(1), (count - 1) as nat)
    } else {
        1 + lines_end(s.skip(1), count)
    }
}

/// The image that a file holds: the header in its first nine lines, the
/// payload behind them, the window open to the whole range.
pub open spec fn read_img_spec(file: Seq<u8>) -> Result<ImageModel, ImageReadError> {
    let cut = lines_end(file, 9);
    match parse_header_spec(file.take(cut)) {
        None => Err(ImageReadError::HeaderParseError),
        Some(header) => match decoded(
            file.skip(cut),
            header.size.0,
            header.size.1,
            header.buffer_channels,
        ) {
            None => Err(ImageReadError::ImageParseError),
            Some(samples) => Ok(
                ImageModel {
                    header,
                    samples,
                    min_max: running_min_max(samples),
                    visible_min_max: running_min_max(samples),
                },
            ),
        },
    }
}

/// Whether `p` is a number between 0 and 1.
pub open spec fn in_unit_range(p: u32) -> bool {
    is_less_or_equal(ZERO, p) && is_less_or_equal(p, ONE)
}

/// What is wrong with a pair of percentages, if anything is.
pub open spec fn validation(min_perc: u32, max_perc: u32) -> Option<ValidationError> {
    if !in_unit_range(min_perc) {
        Some(ValidationError::MinOutOfRange)
    } else if !in_unit_range(max_perc) {
        Some(ValidationError::MaxOutOfRange)
    } else if !is_less_or_equal(min_perc, max_perc) {
        Some(ValidationError::Inverted)
    } else {
        None
    }
}

/// The part of the range `min_max` between the two percentages of its width.
pub open spec fn window(min_max: (u32, u32), min_perc: u32, max_perc: u32) -> (u32, u32) {
    let range = difference(min_max.1, min_max.0);
    (sum(product(range, min_perc), min_max.0), sum(product(range, max_perc), min_max.0))
}

/// The image after a request to show the part of its range between the two
/// percentages: with that window where the percentages are valid, unchanged
/// where they are not.
pub open spec fn clamped(before: ImageModel, min_perc: u32, max_perc: u32) -> ImageModel {
    if validation(min_perc, max_perc) is None {
        ImageModel {
            visible_min_max: window(before.min_max, min_perc, max_perc),
            ..before
        }
    } else {
        before
    }
}

/// The window that valid percentages set does not depend on the window that
/// was shown before: setting it again gives it again, whatever was set in
/// between.
pub proof fn lemma_clamp_is_idempotent(
    image: ImageModel,
    min_perc: u32,
    max_perc: u32,
    other_min: u32,
    other_max: u32,
)
    requires
        validation(min_perc, max_perc) is None,
    ensures
        clamped(clamped(image, min_perc, max_perc), min_perc, max_perc) == clamped(
            image,
            min_perc,
            max_perc,
        ),
        clamped(
            clamped(clamped(image, min_perc, max_perc), other_min, other_max),
            min_perc,
            max_perc,
        ) == clamped(image, min_perc, max_perc),
{
}

/// The percentages 0 and 1 show the whole range, where the range is finite
/// and the width of it, added to its lower end, gives its upper end again.
/// The ends of the window are then equal to the ends of the range as numbers.
pub proof fn lemma_full_window(min_max: (u32, u32))
    requires
        is_finite(min_max.0),
        is_finite(min_max.1),
        is_finite(difference(min_max.1, min_max.0)),
        is_equal(sum(difference(min_max.1, min_max.0), min_max.0), min_max.1),
    ensures
        validation(ZERO, ONE) is None,
        is_equal(window(min_max, ZERO, ONE).0, min_max.0),
        is_equal(window(min_max, ZERO, ONE).1, min_max.1),
{
    let range = difference(min_max.1, min_max.0);
    lemma_times_zero(range);
    lemma_zero_plus(product(range, ZERO), min_max.0);
    lemma_times_one(range);
}

/// For a range that begins at 0, the percentages 0 and 1 show the whole
/// range, whatever its finite upper end is.
pub proof fn lemma_full_window_from_zero(hi: u32)
    requires
        is_finite(hi),
    ensures
        is_equal(window((ZERO, hi), ZERO, ONE).0, ZERO),
        is_equal(window((ZERO, hi), ZERO, ONE).1, hi),
{
    let range = difference(hi, ZERO);
    lemma_plus_zero(hi, negate(ZERO));
    lemma_plus_zero(range, ZERO);
    lemma_full_window((ZERO, hi));
}

/// A window of no width shows every sample as 0.
pub proof fn lemma_flat_window_is_black(samples: Seq<u32>, visible: (u32, u32))
    requires
        is_equal(visible.0, visible.1),
    ensures
        rendered(samples, visible).len() == samples.len(),
        forall|i: int| 0 <= i < samples.len() ==> rendered(samples, visible)[i] == 0,
{
}

/// The 8-bit intensity of the sample `v` in the window from `lo` to `hi`:
/// the place of `v` in the window, scaled to 255, cut to a whole number and
/// kept within 0 and 255. A window of no width shows everything as 0.
pub open spec fn tone(v: u32, lo: u32, hi: u32) -> u8 {
    if is_equal(lo, hi) {
        0
    } else {
        to_byte_spec(product(quotient(difference(v, lo), difference(hi, lo)), FULL_SCALE))
    }
}

/// The intensities of all samples, in the order of the samples.
pub open spec fn rendered(samples: Seq<u32>, visible: (u32, u32)) -> Seq<u8> {
    Seq::new(samples.len(), |i: int| tone(samples[i], visible.0, visible.1))
}

/// What `write_image` of `image::codecs::png::PngEncoder` gives for 8-bit
/// samples of the given size, RGB where `rgb` holds and grayscale otherwise,
/// when it writes to memory: the PNG file, or nothing where it refuses the
/// image.
pub uninterp spec fn png_encoding(samples: Seq<u8>, width: u32, height: u32, rgb: bool) -> Option<
    Seq<u8>,
>;

/// Calls `write_image` of `image::codecs::png::PngEncoder` on a buffer in
/// memory. The encoder panics unless the samples are as many as the size and
/// the colour type ask for. Writing to memory cannot fail, so whether it
/// succeeds and what it writes depend on the samples, the size and the
/// colour type alone: that is the encoding named above. The encoder refuses
/// an image of no width or no height before it writes anything.
#[verifier::external_body]
fn encode_png(samples: &[u8], width: u32, height: u32, rgb: bool) -> (r: Result<
    Vec<u8>,
    image::ImageError,
>)
    requires
        samples@.len() == width * height * (if rgb {
            3int
        } else {
            1int
        }),
    ensures
        match r {
            Ok(stream) => png_encoding(samples@, width, height, rgb) == Some(stream@),
            Err(_) => png_encoding(samples@, width, height, rgb) is None,
        },
        width == 0 || height == 0 ==> r is Err,
{
    let mut stream = Vec::new();
    let color = if rgb {
        image::ExtendedColorType::Rgb8
    } else {
        image::ExtendedColorType::L8
    };
    let encoder = image::codecs::png::PngEncoder::new(&mut stream);
    match image::ImageEncoder::write_image(encoder, samples, width, height, color) {
        Ok(()) => Ok(stream),
        Err(e) => Err(e),
    }
}

/// Appends what the encoder wrote to `out`, or reports that it failed.
pub fn store_encoding(encoded: Result<Vec<u8>, image::ImageError>, out: &mut Vec<u8>) -> (r:
    Result<(), EncodeError>)
    ensures
        match encoded {
            Ok(stream) => r is Ok && final(out)@ == old(out)@ + stream@,
            Err(_) => r == Err::<(), EncodeError>(EncodeError::Rejected) && final(out)@ == old(
                out,
            )@,
        },
{
    match encoded {
        Ok(mut stream) => {
            out.append(&mut stream);
            Ok(())
        },
        Err(_) => Err(EncodeError::Rejected),
    }
}

/// Where the first nine lines of the file end.
fn header_end(file: &[u8]) -> (cut: usize)
    ensures
        cut == lines_end(file@, 9),
        cut <= file@.len(),
{
    let mut i: usize = 0;
    let mut left: u8 = 9;
    let n = file.len();
    proof {
        assert(file@.skip(0) =~= file@);
    }
    while i < n && left > 0
        invariant
            i <= n == file@.len(),
            left <= 9,
            lines_end(file@, 9) == i + lines_end(file@.skip(i as int), left as nat),
        decreases n - i,
    {
        proof {
            assert(file@.skip(i as int).skip(1) =~= file@.skip(i + 1));
            assert(file@.skip(i as int)[0] == file@[i as int]);
        }
        if file[i] == 10 {
            left = left - 1;
        }
        i = i + 1;
    }
    i
}

/// The intensity of one sample, where `span` is the width of the window.
fn tone_of(v: u32, lo: u32, hi: u32, span: u32) -> (r: u8)
    requires
        span == difference(hi, lo),
    ensures
        r == tone(v, lo, hi),
{
    if equal(lo, hi) {
        0
    } else {
        to_byte(times(divided(minus(v, lo), span), FULL_SCALE))
    }
}

impl View for Image {
    type V = ImageModel;

    closed spec fn view(&self) -> ImageModel {
        ImageModel {
            header: self.header@,
            samples: self.samples@,
            min_max: self.min_max,
            visible_min_max: self.visible_min_max,
        }
    }
}

impl Image {
    #[verifier::type_invariant]
    spec fn well_formed(&self) -> bool {
        consistent(self@)
    }

    /// Reads an image from the bytes of its file.
    ///
    /// The header is looked for in the first nine lines, the payload begins
    /// behind them. Either the whole image is read or nothing is.
    pub fn read_img(file: &[u8]) -> (r: Result<Image, ImageReadError>)
        ensures
            match r {
                Ok(image) => read_img_spec(file@) == Ok::<ImageModel, ImageReadError>(image@)
                    && consistent(image@),
                Err(e) => read_img_spec(file@) == Err::<ImageModel, ImageReadError>(e),
            },
    {
        let cut = header_end(file);
        let n = file.len();
        proof {
            assert(file@.subrange(0, cut as int) =~= file@.take(cut as int));
            assert(file@.subrange(cut as int, n as int) =~= file@.skip(cut as int));
        }
        let header = match parse_header(&file[0..cut]) {
            Some(h) => h,
            None => {
                return Err(ImageReadError::HeaderParseError);
            },
        };
        let samples = match decode_samples(
            &file[cut..n],
            header.size.0,
            header.size.1,
            header.buffer_channels,
        ) {
            Some(s) => s,
            None => {
                return Err(ImageReadError::ImageParseError);
            },
        };
        let min_max = calculate_min_max(samples.as_slice());
        Ok(Image { header, samples, min_max, visible_min_max: min_max })
    }

    /// Shows the part of the range between the two percentages of its width,
    /// each given as the bit pattern of a number between 0 and 1.
    ///
    /// Refuses percentages that are not such numbers or stand in the wrong
    /// order, and then leaves the window as it was. The samples and their
    /// range are never changed.
    pub fn set_clamp_percentage(&mut self, min_perc: u32, max_perc: u32) -> (r: Result<
        (),
        ValidationError,
    >)
        ensures
            final(self)@ == clamped(old(self)@, min_perc, max_perc),
            final(self)@.header == old(self)@.header,
            final(self)@.samples == old(self)@.samples,
            final(self)@.min_max == old(self)@.min_max,
            match validation(min_perc, max_perc) {
                Some(e) => r == Err::<(), ValidationError>(e) && final(self)@.visible_min_max
                    == old(self)@.visible_min_max,
                None => r is Ok && final(self)@.visible_min_max == window(
                    old(self)@.min_max,
                    min_perc,
                    max_perc,
                ),
            },
    {
        if !(less_or_equal(ZERO, min_perc) && less_or_equal(min_perc, ONE)) {
            return Err(ValidationError::MinOutOfRange);
        }
        if !(less_or_equal(ZERO, max_perc) && less_or_equal(max_perc, ONE)) {
            return Err(ValidationError::MaxOutOfRange);
        }
        if !less_or_equal(min_perc, max_perc) {
            return Err(ValidationError::Inverted);
        }
        proof {
            use_type_invariant(&*self);
        }
        let range = minus(self.min_max.1, self.min_max.0);
        let lo = plus(times(range, min_perc), self.min_max.0);
        let hi = plus(times(range, max_perc), self.min_max.0);
        self.visible_min_max = (lo, hi);
        Ok(())
    }

    /// The 8-bit intensities of all samples in the window that is shown, in
    /// the order of the samples. Where the window has no width, all are 0.
    pub fn render(&self) -> (r: Vec<u8>)
        ensures
            r@ == rendered(self@.samples, self@.visible_min_max),
            is_equal(self@.visible_min_max.0, self@.visible_min_max.1) ==> forall|i: int|
                0 <= i < r@.len() ==> r@[i] == 0,
    {
        let lo = self.visible_min_max.0;
        let hi = self.visible_min_max.1;
        let span = minus(hi, lo);
        let n = self.samples.len();
        let mut out: Vec<u8> = Vec::with_capacity(n);
        let mut i: usize = 0;
        while i < n
            invariant
                i <= n == self.samples@.len(),
                span == difference(hi, lo),
                out@.len() == i,
                forall|k: int| 0 <= k < i ==> out@[k] == tone(self.samples@[k], lo, hi),
            decreases n - i,
        {
            out.push(tone_of(self.samples[i], lo, hi, span));
            i = i + 1;
        }
        proof {
            assert(out@ =~= rendered(self@.samples, self@.visible_min_max));
        }
        out
    }

    /// Appends the image to `out` as a PNG file of 8 bits per channel: RGB
    /// for three channels, grayscale for one.
    ///
    /// What is encoded are the intensities of [`Image::render`] in the size
    /// that the header declares. The call succeeds exactly where the encoder
    /// gives a file for them; where it gives none, as for an image of no
    /// width or no height, `out` is left as it was.
    pub fn save_as_png(&self, out: &mut Vec<u8>) -> (r: Result<(), EncodeError>)
        ensures
            match png_encoding(
                rendered(self@.samples, self@.visible_min_max),
                self@.header.size.0,
                self@.header.size.1,
                self@.header.buffer_channels == 3,
            ) {
                Some(stream) => r is Ok && final(out)@ == old(out)@ + stream,
                None => r == Err::<(), EncodeError>(EncodeError::Rejected) && final(out)@ == old(
                    out,
                )@,
            },
            self@.header.size.0 == 0 || self@.header.size.1 == 0 ==> r is Err,
    {
        proof {
            use_type_invariant(self);
        }
        let samples = self.render();
        let encoded = encode_png(
            samples.as_slice(),
            self.header.size.0,
            self.header.size.1,
            self.header.buffer_channels == 3,
        );
        store_encoding(encoded, out)
    }

    /// The range of the samples: the least and the greatest one, as far as
    /// they lie between 0 and 1.
    pub fn get_min_max(&self) -> (r: (u32, u32))
        ensures
            r == self@.min_max,
            r == running_min_max(self@.samples),
    {
        proof {
            use_type_invariant(self);
        }
        self.min_max
    }

    /// The part of the range that is shown.
    pub fn get_visible_min_max(&self) -> (r: (u32, u32))
        ensures
            r == self@.visible_min_max,
    {
        self.visible_min_max
    }

    /// What the header of the file declared.
    pub fn header(&self) -> (r: &Header)
        ensures
            r@ == self@.header,
    {
        &self.header
    }

    /// The samples in file order.
    pub fn samples(&self) -> (r: &[u32])
        ensures
            r@ == self@.samples,
    {
        self.samples.as_slice()
    }
}

/// The first line of `line`, a line feed and `rest` ends behind that line
/// feed, where `line` holds no line feed itself.
proof fn lemma_first_line(line: Seq<u8>, rest: Seq<u8>, count: nat)
    requires
        count > 0,
        !line.contains(newline()),
    ensures
        lines_end(line + (seq![10u8] + rest), count) == line.len() + 1 + lines_end(
            rest,
            (count - 1) as nat,
        ),
    decreases line.len(),
{
    let s = line + (seq![10u8] + rest);
    if line.len() == 0 {
        assert(s[0] == 10);
        assert(s.skip(1) =~= rest);
    } else {
        assert(s[0] == line[0]);
        assert(line.contains(line[0]));
        let tail = line.skip(1);
        assert forall|i: int| 0 <= i < tail.len() implies tail[i] != newline() by {
            assert(line.contains(line[i + 1]));
        }
        assert(s.skip(1) =~= tail + (seq![10u8] + rest));
        lemma_first_line(tail, rest, count);
    }
}

proof fn lemma_joined_line(a: Seq<u8>, b: Seq<u8>)
    requires
        !a.contains(newline()),
        !b.contains(newline()),
    ensures
        !(a + b).contains(newline()),
{
    let s = a + b;
    assert forall|i: int| 0 <= i < s.len() implies s[i] != newline() by {
        if i < a.len() {
            assert(a.contains(a[i]));
        } else {
            assert(b.contains(b[i - a.len()]));
        }
    }
}

proof fn lemma_literal_line_end(token: Seq<u8>, rest: Seq<u8>, tail: Seq<u8>, count: nat)
    requires
        count > 0,
        !token.contains(newline()),
    ensures
        lines_end(literal_line(token, rest), count) == token.len() + 1 + lines_end(
            rest,
            (count - 1) as nat,
        ),
        literal_line(token, rest).len() == token.len() + 1 + rest.len(),
        literal_line(token, rest + tail) == literal_line(token, rest) + tail,
{
    lemma_first_line(token, rest, count);
    assert(literal_line(token, rest + tail) =~= literal_line(token, rest) + tail);
}

proof fn lemma_field_line_end(
    key: Seq<u8>,
    field: Seq<u8>,
    rest: Seq<u8>,
    tail: Seq<u8>,
    count: nat,
)
    requires
        count > 0,
        !key.contains(newline()),
        !field.contains(newline()),
    ensures
        lines_end(field_line(key, field, newline(), rest), count) == key.len() + field.len() + 1
            + lines_end(rest, (count - 1) as nat),
        field_line(key, field, newline(), rest).len() == key.len() + field.len() + 1 + rest.len(),
        field_line(key, field, newline(), rest + tail) == field_line(key, field, newline(), rest)
            + tail,
{
    lemma_joined_line(key, field);
    assert(field_line(key, field, newline(), rest) =~= (key + field) + (seq![10u8] + rest));
    lemma_first_line(key + field, rest, count);
    assert(field_line(key, field, newline(), rest + tail) =~= field_line(
        key,
        field,
        newline(),
        rest,
    ) + tail);
}

proof fn lemma_size_line_end(
    width: Seq<u8>,
    height: Seq<u8>,
    rest: Seq<u8>,
    tail: Seq<u8>,
    count: nat,
)
    requires
        count > 0,
        !width.contains(newline()),
        !height.contains(newline()),
    ensures
        ({
            let line = field_line(
                size_key(),
                width,
                space(),
                field_line(Seq::empty(), height, newline(), rest),
            );
            let longer = field_line(
                size_key(),
                width,
                space(),
                field_line(Seq::empty(), height, newline(), rest + tail),
            );
            &&& lines_end(line, count) == size_key().len() + width.len() + 1 + height.len() + 1
                + lines_end(rest, (count - 1) as nat)
            &&& line.len() == size_key().len() + width.len() + 1 + height.len() + 1 + rest.len()
            &&& longer == line + tail
        }),
{
    lemma_tokens_stand_on_one_line();
    let line = field_line(
        size_key(),
        width,
        space(),
        field_line(Seq::empty(), height, newline(), rest),
    );
    let longer = field_line(
        size_key(),
        width,
        space(),
        field_line(Seq::empty(), height, newline(), rest + tail),
    );
    let content = (size_key() + width) + (seq![32u8] + height);
    lemma_joined_line(size_key(), width);
    assert(!seq![32u8].contains(newline()));
    lemma_joined_line(seq![32u8], height);
    lemma_joined_line(size_key() + width, seq![32u8] + height);
    assert(line =~= content + (seq![10u8] + rest));
    lemma_first_line(content, rest, count);
    assert(longer =~= line + tail);
}

/// The length of a header that is written from the given fields.
pub open spec fn written_len(raw: RawFields) -> nat {
    magic_token().len() + 1 + file_name_key().len() + raw.file_name.len() + 1
        + file_id_token().len() + 1 + dim_key().len() + raw.dim.len() + 1 + size_key().len()
        + raw.width.len() + 1 + raw.height.len() + 1 + channels_key().len() + raw.channels.len()
        + 1 + primtype_key().len() + raw.primtype.len() + 1 + buffer_type_key().len()
        + raw.buffer_type.len() + 1 + end_token().len() + 1
}

/// A header that is written with every field on its line takes nine lines,
/// and what follows it begins behind them.
proof fn lemma_written_header_takes_nine_lines(raw: RawFields, rest: Seq<u8>)
    requires
        writable_fields(raw),
        !raw.width.contains(newline()),
    ensures
        written_header(raw, rest) == written_header(raw, Seq::empty()) + rest,
        written_header(raw, Seq::empty()).len() == written_len(raw),
        lines_end(written_header(raw, rest), 9) == written_len(raw),
{
    lemma_tokens_stand_on_one_line();
    let none = Seq::<u8>::empty();
    let e9 = literal_line(end_token(), none);
    let e8 = field_line(buffer_type_key(), raw.buffer_type, newline(), e9);
    let e7 = field_line(primtype_key(), raw.primtype, newline(), e8);
    let e6 = field_line(channels_key(), raw.channels, newline(), e7);
    let e5 = field_line(
        size_key(),
        raw.width,
        space(),
        field_line(Seq::empty(), raw.height, newline(), e6),
    );
    let e4 = field_line(dim_key(), raw.dim, newline(), e5);
    let e3 = literal_line(file_id_token(), e4);
    let e2 = field_line(file_name_key(), raw.file_name, newline(), e3);
    assert(none + rest =~= rest);
    lemma_literal_line_end(end_token(), none, rest, 1);
    lemma_field_line_end(buffer_type_key(), raw.buffer_type, e9, rest, 2);
    lemma_field_line_end(primtype_key(), raw.primtype, e8, rest, 3);
    lemma_field_line_end(channels_key(), raw.channels, e7, rest, 4);
    lemma_size_line_end(raw.width, raw.height, e6, rest, 5);
    lemma_field_line_end(dim_key(), raw.dim, e5, rest, 6);
    lemma_literal_line_end(file_id_token(), e4, rest, 7);
    lemma_field_line_end(file_name_key(), raw.file_name, e3, rest, 8);
    lemma_literal_line_end(magic_token(), e2, rest, 9);
    lemma_literal_line_end(end_token(), rest, none, 1);
    lemma_field_line_end(buffer_type_key(), raw.buffer_type, e9 + rest, none, 2);
    lemma_field_line_end(primtype_key(), raw.primtype, e8 + rest, none, 3);
    lemma_field_line_end(channels_key(), raw.channels, e7 + rest, none, 4);
    lemma_size_line_end(raw.width, raw.height, e6 + rest, none, 5);
    lemma_field_line_end(dim_key(), raw.dim, e5 + rest, none, 6);
    lemma_literal_line_end(file_id_token(), e4 + rest, none, 7);
    lemma_field_line_end(file_name_key(), raw.file_name, e3 + rest, none, 8);
    lemma_literal_line_end(magic_token(), e2 + rest, none, 9);
}

/// A file that is written after the grammar, every field on its line and the
/// payload behind the header, is read as the image of that header and that
/// payload; it is refused only for its payload.
pub proof fn lemma_written_file_is_read(raw: RawFields, payload: Seq<u8>)
    requires
        writable_fields(raw),
        !raw.width.contains(newline()),
        interpret(raw) is Some,
    ensures
        ({
            let header = interpret(raw)->0;
            let samples = decoded(
                payload,
                header.size.0,
                header.size.1,
                header.buffer_channels,
            );
            read_img_spec(written_header(raw, payload)) == match samples {
                Some(s) => Ok::<ImageModel, ImageReadError>(
                    ImageModel {
                        header,
                        samples: s,
                        min_max: running_min_max(s),
                        visible_min_max: running_min_max(s),
                    },
                ),
                None => Err::<ImageModel, ImageReadError>(ImageReadError::ImageParseError),
            }
        }),
{
    let file = written_header(raw, payload);
    let head = written_header(raw, Seq::empty());
    lemma_written_header_takes_nine_lines(raw, payload);
    lemma_header_round_trip(raw, Seq::empty());
    assert(file.take(head.len() as int) =~= head);
    assert(file.skip(head.len() as int) =~= payload);
    assert(lines_end(file, 9) == head.len());
}

} // verus!
