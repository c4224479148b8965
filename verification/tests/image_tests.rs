use tue_raw::tue_raw_img::{
    store_encoding, EncodeError, Image, ImageReadError, ValidationError,
};

fn file_of(width: u32, height: u32, channels: u8, values: &[f32]) -> Vec<u8> {
    let mut bytes = format!(
        "IBRraw.xdr\n@@FileBaseName = test\n@@FileID = IBRraw\n@@ImageDim = 2\n\
         @@ImageSize = {} {}\n@@buffer-channels-0 = {}\n@@buffer-primtype-0 = float\n\
         @@buffer-type-0 = image\n---end-of-header---\n",
        width, height, channels
    )
    .into_bytes();
    for v in values {
        bytes.extend_from_slice(&v.to_be_bytes());
    }
    bytes
}

fn bits(pair: (f32, f32)) -> (u32, u32) {
    (pair.0.to_bits(), pair.1.to_bits())
}

fn decode_png(png: &[u8]) -> image::DynamicImage {
    image::load_from_memory_with_format(png, image::ImageFormat::Png).unwrap()
}

#[test]
fn reads_a_one_channel_image() {
    let image = Image::read_img(&file_of(2, 2, 1, &[0.0, 0.25, 0.5, 1.0])).unwrap();
    assert_eq!(image.get_min_max(), bits((0.0, 1.0)));
    assert_eq!(image.get_visible_min_max(), bits((0.0, 1.0)));
    assert_eq!(image.header().size, (2, 2));
    assert_eq!(image.header().buffer_channels, 1);
    assert_eq!(image.header().file_name, "test");
    assert_eq!(image.header().primtype, "float");
    assert_eq!(image.header().buffer_type, "image");
    assert_eq!(image.header().dim, 2);
    let expected: Vec<u32> = [0.0f32, 0.25, 0.5, 1.0].iter().map(|v| v.to_bits()).collect();
    assert_eq!(image.samples(), &expected[..]);
}

#[test]
fn reads_a_three_channel_record_without_overlap() {
    let mut file = file_of(1, 1, 3, &[]);
    file.extend_from_slice(&[0x00, 0x00, 0x00, 0x00, 0x3F, 0x00, 0x00, 0x00, 0x3F, 0x80, 0x00, 0x00]);
    let image = Image::read_img(&file).unwrap();
    let samples = image.samples();
    assert_eq!(samples.len(), 3);
    assert_eq!(f32::from_bits(samples[0]), 0.0);
    assert_eq!(f32::from_bits(samples[1]), 0.5);
    assert_eq!(f32::from_bits(samples[2]), 1.0);
    assert_ne!(samples[0], samples[1]);
    assert_eq!(image.get_min_max(), bits((0.0, 1.0)));
}

#[test]
fn short_payload_fails_the_whole_load() {
    let mut file = file_of(2, 2, 3, &[]);
    file.extend_from_slice(&[0u8; 10]);
    assert_eq!(Image::read_img(&file).unwrap_err(), ImageReadError::ImageParseError);
    let mut file = file_of(2, 2, 3, &[]);
    file.extend_from_slice(&[0u8; 47]);
    assert_eq!(Image::read_img(&file).unwrap_err(), ImageReadError::ImageParseError);
    file.push(0);
    assert!(Image::read_img(&file).is_ok());
}

#[test]
fn unsupported_channel_count_is_a_payload_error() {
    let file = file_of(1, 1, 2, &[0.5, 0.5]);
    assert_eq!(Image::read_img(&file).unwrap_err(), ImageReadError::ImageParseError);
    let file = file_of(1, 1, 4, &[0.5, 0.5, 0.5, 0.5]);
    assert_eq!(Image::read_img(&file).unwrap_err(), ImageReadError::ImageParseError);
}

#[test]
fn bad_header_is_a_header_error() {
    assert_eq!(Image::read_img(&[]).unwrap_err(), ImageReadError::HeaderParseError);
    assert_eq!(Image::read_img(b"IBRraw.xdr\n").unwrap_err(), ImageReadError::HeaderParseError);
    let mut file = file_of(1, 1, 1, &[0.5]);
    file[3] = b'X';
    assert_eq!(Image::read_img(&file).unwrap_err(), ImageReadError::HeaderParseError);
    let text = "IBRraw.xdr\n@@FileBaseName = test\n@@FileID = IBRraw\n@@ImageDim = 2\n\
                @@ImageSize = 1 -1\n@@buffer-channels-0 = 1\n@@buffer-primtype-0 = float\n\
                @@buffer-type-0 = image\n---end-of-header---\n";
    assert_eq!(Image::read_img(text.as_bytes()).unwrap_err(), ImageReadError::HeaderParseError);
}

#[test]
fn header_must_lie_in_the_first_nine_lines() {
    let text = "IBRraw.xdr\n\n@@FileBaseName = test\n@@FileID = IBRraw\n@@ImageDim = 2\n\
                @@ImageSize = 0 0\n@@buffer-channels-0 = 1\n@@buffer-primtype-0 = float\n\
                @@buffer-type-0 = image\n---end-of-header---\n";
    assert_eq!(Image::read_img(text.as_bytes()).unwrap_err(), ImageReadError::HeaderParseError);
}

#[test]
fn payload_begins_right_behind_the_ninth_line() {
    let mut file = file_of(1, 1, 1, &[]);
    file.extend_from_slice(&[0x0a, 0x20, 0x0a, 0x09]);
    let image = Image::read_img(&file).unwrap();
    assert_eq!(image.samples(), &[0x0a20_0a09u32][..]);
}

#[test]
fn failed_read_becomes_a_payload_error() {
    let e = std::io::Error::new(std::io::ErrorKind::UnexpectedEof, "eof");
    assert_eq!(ImageReadError::from(e), ImageReadError::ImageParseError);
}

#[test]
fn window_is_the_requested_part_of_the_range() {
    let mut image = Image::read_img(&file_of(2, 2, 1, &[0.25, 0.5, 0.75, 0.5])).unwrap();
    assert_eq!(image.get_min_max(), bits((0.25, 0.75)));
    assert_eq!(image.set_clamp_percentage(0.25f32.to_bits(), 0.75f32.to_bits()), Ok(()));
    assert_eq!(image.get_visible_min_max(), bits((0.375, 0.625)));
    assert_eq!(image.get_min_max(), bits((0.25, 0.75)));
    assert_eq!(image.set_clamp_percentage(0.5f32.to_bits(), 0.5f32.to_bits()), Ok(()));
    assert_eq!(image.get_visible_min_max(), bits((0.5, 0.5)));
}

#[test]
fn window_agrees_with_machine_arithmetic() {
    let mut image = Image::read_img(&file_of(3, 1, 1, &[0.19652167, 0.4, 0.7557364])).unwrap();
    let (lo, hi) = image.get_min_max();
    let (min, max) = (f32::from_bits(lo), f32::from_bits(hi));
    for (a, b) in [(0.0f32, 1.0f32), (0.1, 0.9), (0.33, 0.34), (0.7, 0.7), (0.0, 0.0), (1.0, 1.0)] {
        assert_eq!(image.set_clamp_percentage(a.to_bits(), b.to_bits()), Ok(()));
        let range = max - min;
        let expected = (range * a + min, range * b + min);
        assert_eq!(image.get_visible_min_max(), bits(expected));
    }
}

#[test]
fn setting_the_window_twice_gives_it_twice() {
    let mut image = Image::read_img(&file_of(2, 2, 1, &[0.1, 0.3, 0.8, 0.5])).unwrap();
    let a = 0.2f32.to_bits();
    let b = 0.6f32.to_bits();
    image.set_clamp_percentage(a, b).unwrap();
    let first = image.get_visible_min_max();
    image.set_clamp_percentage(a, b).unwrap();
    assert_eq!(image.get_visible_min_max(), first);
    image.set_clamp_percentage(0.9f32.to_bits(), 1.0f32.to_bits()).unwrap();
    assert_ne!(image.get_visible_min_max(), first);
    image.set_clamp_percentage(a, b).unwrap();
    assert_eq!(image.get_visible_min_max(), first);
}

#[test]
fn full_percentages_show_the_whole_range() {
    let mut image = Image::read_img(&file_of(2, 2, 1, &[0.0, 0.25, 0.5, 1.0])).unwrap();
    image.set_clamp_percentage(0.3f32.to_bits(), 0.4f32.to_bits()).unwrap();
    image.set_clamp_percentage(0.0f32.to_bits(), 1.0f32.to_bits()).unwrap();
    assert_eq!(image.get_visible_min_max(), image.get_min_max());
    let mut image = Image::read_img(&file_of(2, 1, 3, &[0.0, 0.7, 0.2, 0.9, 0.3, 0.6])).unwrap();
    image.set_clamp_percentage(0.0f32.to_bits(), 1.0f32.to_bits()).unwrap();
    assert_eq!(image.get_visible_min_max(), bits((0.0, 0.9)));
}

#[test]
fn full_percentages_may_miss_the_upper_end_by_rounding() {
    let min = f32::from_bits(0x3e49_3cfa);
    let max = f32::from_bits(0x3f41_77f1);
    let mut image = Image::read_img(&file_of(2, 1, 1, &[min, max])).unwrap();
    assert_eq!(image.get_min_max(), (0x3e49_3cfa, 0x3f41_77f1));
    image.set_clamp_percentage(0.0f32.to_bits(), 1.0f32.to_bits()).unwrap();
    assert_eq!(image.get_visible_min_max(), (0x3e49_3cfa, 0x3f41_77f0));
}

#[test]
fn invalid_percentages_leave_the_window_unchanged() {
    let mut image = Image::read_img(&file_of(2, 2, 1, &[0.0, 0.25, 0.5, 1.0])).unwrap();
    image.set_clamp_percentage(0.25f32.to_bits(), 0.5f32.to_bits()).unwrap();
    let before = image.get_visible_min_max();
    assert_eq!(before, bits((0.25, 0.5)));
    assert_eq!(
        image.set_clamp_percentage(1.1f32.to_bits(), 1.0f32.to_bits()),
        Err(ValidationError::MinOutOfRange)
    );
    assert_eq!(image.get_visible_min_max(), before);
    assert_eq!(
        image.set_clamp_percentage(0.0f32.to_bits(), (-0.1f32).to_bits()),
        Err(ValidationError::MaxOutOfRange)
    );
    assert_eq!(image.get_visible_min_max(), before);
    assert_eq!(
        image.set_clamp_percentage(0.6f32.to_bits(), 0.4f32.to_bits()),
        Err(ValidationError::Inverted)
    );
    assert_eq!(image.get_visible_min_max(), before);
    assert_eq!(image.get_min_max(), bits((0.0, 1.0)));
}

#[test]
fn each_percentage_is_bounded_on_both_sides() {
    let mut image = Image::read_img(&file_of(1, 1, 1, &[0.5])).unwrap();
    let before = image.get_visible_min_max();
    let cases = [
        (-0.1f32, 0.5f32, ValidationError::MinOutOfRange),
        (1.5, 2.0, ValidationError::MinOutOfRange),
        (f32::NAN, 0.5, ValidationError::MinOutOfRange),
        (f32::NEG_INFINITY, 0.5, ValidationError::MinOutOfRange),
        (0.5, 1.5, ValidationError::MaxOutOfRange),
        (0.5, 1.0000001, ValidationError::MaxOutOfRange),
        (0.5, f32::NAN, ValidationError::MaxOutOfRange),
        (0.5, f32::INFINITY, ValidationError::MaxOutOfRange),
        (1.0, 0.0, ValidationError::Inverted),
        (0.5, 0.49999997, ValidationError::Inverted),
    ];
    for (a, b, e) in cases {
        assert_eq!(image.set_clamp_percentage(a.to_bits(), b.to_bits()), Err(e), "{} {}", a, b);
        assert_eq!(image.get_visible_min_max(), before);
    }
    assert_eq!(image.set_clamp_percentage((-0.0f32).to_bits(), 0.0f32.to_bits()), Ok(()));
    assert_eq!(image.set_clamp_percentage(0.0f32.to_bits(), (-0.0f32).to_bits()), Ok(()));
    assert_eq!(image.set_clamp_percentage(1.0f32.to_bits(), 1.0f32.to_bits()), Ok(()));
}

#[test]
fn intensities_on_the_whole_range() {
    let values = [0.0f32, 0.25, 0.5, 1.0, 0.1, 0.9];
    let image = Image::read_img(&file_of(3, 2, 1, &values)).unwrap();
    assert_eq!(image.render(), vec![0, 63, 127, 255, 25, 229]);
}

#[test]
fn intensities_outside_the_window_are_kept_within_bounds() {
    let values = [0.25f32, 0.375, 0.5, 0.6, 0.625, 0.75];
    let mut image = Image::read_img(&file_of(6, 1, 1, &values)).unwrap();
    image.set_clamp_percentage(0.25f32.to_bits(), 0.75f32.to_bits()).unwrap();
    assert_eq!(image.get_visible_min_max(), bits((0.375, 0.625)));
    assert_eq!(image.render(), vec![0, 0, 127, 229, 255, 255]);
}

#[test]
fn intensities_agree_with_machine_arithmetic() {
    let mut state: u32 = 77;
    let mut values = Vec::new();
    for _ in 0..300 {
        state = state.wrapping_mul(1664525).wrapping_add(1013904223);
        values.push((state >> 8) as f32 / 16777216.0);
    }
    let mut image = Image::read_img(&file_of(10, 10, 3, &values)).unwrap();
    for (a, b) in [(0.0f32, 1.0f32), (0.2, 0.7), (0.5, 0.51)] {
        image.set_clamp_percentage(a.to_bits(), b.to_bits()).unwrap();
        let (lo, hi) = image.get_visible_min_max();
        let (lo, hi) = (f32::from_bits(lo), f32::from_bits(hi));
        let expected: Vec<u8> = values
            .iter()
            .map(|v| ((v - lo) / (hi - lo) * 255f32).max(0.0).min(255.0) as u8)
            .collect();
        assert_eq!(image.render(), expected);
    }
}

#[test]
fn samples_that_are_no_number_are_shown_as_zero() {
    let image = Image::read_img(&file_of(3, 1, 1, &[0.0, f32::NAN, 1.0])).unwrap();
    assert_eq!(image.get_min_max(), bits((0.0, 1.0)));
    assert_eq!(image.render(), vec![0, 0, 255]);
}

#[test]
fn window_of_no_width_shows_everything_as_zero() {
    let image = Image::read_img(&file_of(2, 2, 1, &[0.0, 0.0, 0.0, 0.0])).unwrap();
    assert_eq!(image.get_min_max(), bits((0.0, 0.0)));
    assert_eq!(image.render(), vec![0, 0, 0, 0]);
    let mut image = Image::read_img(&file_of(2, 2, 1, &[0.0, 0.25, 0.5, 1.0])).unwrap();
    image.set_clamp_percentage(0.5f32.to_bits(), 0.5f32.to_bits()).unwrap();
    assert_eq!(image.render(), vec![0, 0, 0, 0]);
    let mut out = Vec::new();
    assert_eq!(image.save_as_png(&mut out), Ok(()));
    let gray = decode_png(&out).into_luma8();
    assert_eq!(gray.into_raw(), vec![0, 0, 0, 0]);
}

#[test]
fn single_pixel_file_of_one_half_becomes_a_gray_png() {
    let mut file = file_of(1, 1, 1, &[]);
    file.extend_from_slice(&[0x3F, 0x00, 0x00, 0x00]);
    let image = Image::read_img(&file).unwrap();
    assert_eq!(image.get_min_max(), bits((0.5, 0.5)));
    assert_eq!(image.get_visible_min_max(), bits((0.5, 0.5)));
    let mut out = Vec::new();
    assert_eq!(image.save_as_png(&mut out), Ok(()));
    assert_eq!(&out[..8], &[0x89, b'P', b'N', b'G', 0x0d, 0x0a, 0x1a, 0x0a]);
    let decoded = decode_png(&out);
    assert_eq!(decoded.color(), image::ColorType::L8);
    assert_eq!((decoded.width(), decoded.height()), (1, 1));
    assert_eq!(decoded.into_luma8().into_raw(), vec![0]);
}

#[test]
fn gray_png_holds_the_intensities() {
    let values = [0.0f32, 0.25, 0.5, 1.0, 0.1, 0.9];
    let image = Image::read_img(&file_of(3, 2, 1, &values)).unwrap();
    let mut out = Vec::new();
    assert_eq!(image.save_as_png(&mut out), Ok(()));
    let decoded = decode_png(&out);
    assert_eq!(decoded.color(), image::ColorType::L8);
    assert_eq!((decoded.width(), decoded.height()), (3, 2));
    assert_eq!(decoded.into_luma8().into_raw(), vec![0, 63, 127, 255, 25, 229]);
}

#[test]
fn colour_png_holds_the_channels_in_order() {
    let values = [0.0f32, 0.5, 1.0, 1.0, 0.25, 0.0];
    let image = Image::read_img(&file_of(2, 1, 3, &values)).unwrap();
    let mut out = Vec::new();
    assert_eq!(image.save_as_png(&mut out), Ok(()));
    let decoded = decode_png(&out);
    assert_eq!(decoded.color(), image::ColorType::Rgb8);
    assert_eq!((decoded.width(), decoded.height()), (2, 1));
    let rgb = decoded.into_rgb8();
    assert_eq!(rgb.get_pixel(0, 0).0, [0, 127, 255]);
    assert_eq!(rgb.get_pixel(1, 0).0, [255, 63, 0]);
    assert_eq!(rgb.into_raw(), image.render());
}

#[test]
fn png_is_appended_to_what_the_buffer_holds() {
    let image = Image::read_img(&file_of(1, 1, 1, &[0.5])).unwrap();
    let mut alone = Vec::new();
    image.save_as_png(&mut alone).unwrap();
    let mut out = vec![1, 2, 3];
    image.save_as_png(&mut out).unwrap();
    assert_eq!(&out[..3], &[1, 2, 3]);
    assert_eq!(&out[3..], &alone[..]);
}

#[test]
fn image_without_pixels_cannot_be_encoded() {
    let image = Image::read_img(&file_of(0, 0, 1, &[])).unwrap();
    assert_eq!(image.get_min_max(), bits((1.0, 0.0)));
    assert_eq!(image.render(), Vec::<u8>::new());
    let mut out = vec![9, 9];
    assert_eq!(image.save_as_png(&mut out), Err(EncodeError::Rejected));
    assert_eq!(out, vec![9, 9]);
}

#[test]
fn encoder_failure_is_reported_and_stores_nothing() {
    let failure = image::ImageError::IoError(std::io::Error::new(
        std::io::ErrorKind::Other,
        "disk full",
    ));
    let mut out = vec![7];
    assert_eq!(store_encoding(Err(failure), &mut out), Err(EncodeError::Rejected));
    assert_eq!(out, vec![7]);
    assert_eq!(store_encoding(Ok(vec![1, 2]), &mut out), Ok(()));
    assert_eq!(out, vec![7, 1, 2]);
}
