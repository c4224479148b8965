use tue_raw::pixels::{calculate_min_max, decode_samples};

fn payload_of(values: &[f32]) -> Vec<u8> {
    let mut bytes = Vec::new();
    for v in values {
        bytes.extend_from_slice(&v.to_be_bytes());
    }
    bytes
}

fn bits_of(values: &[f32]) -> Vec<u32> {
    values.iter().map(|v| v.to_bits()).collect()
}

#[test]
fn one_channel_samples_come_in_file_order() {
    let payload = payload_of(&[0.0, 0.25, 0.5, 1.0]);
    let samples = decode_samples(&payload, 2, 2, 1).unwrap();
    assert_eq!(samples, bits_of(&[0.0, 0.25, 0.5, 1.0]));
}

#[test]
fn three_channel_record_is_read_without_overlap() {
    let record = [0x00, 0x00, 0x00, 0x00, 0x3F, 0x00, 0x00, 0x00, 0x3F, 0x80, 0x00, 0x00];
    let samples = decode_samples(&record, 1, 1, 3).unwrap();
    assert_eq!(samples, bits_of(&[0.0, 0.5, 1.0]));
    assert_ne!(samples[0], samples[1]);
}

#[test]
fn words_are_big_endian() {
    let samples = decode_samples(&[0x3F, 0x80, 0x00, 0x00], 1, 1, 1).unwrap();
    assert_eq!(samples, vec![0x3F80_0000]);
    assert_eq!(f32::from_bits(samples[0]), 1.0);
    let samples = decode_samples(&[0x01, 0x02, 0x03, 0x04], 1, 1, 1).unwrap();
    assert_eq!(samples, vec![0x0102_0304]);
}

#[test]
fn three_channel_image_takes_twelve_bytes_per_pixel() {
    let values: Vec<f32> = (0..18).map(|i| i as f32 / 32.0).collect();
    let payload = payload_of(&values);
    assert_eq!(payload.len(), 3 * 2 * 12);
    let samples = decode_samples(&payload, 3, 2, 3).unwrap();
    assert_eq!(samples, bits_of(&values));
    assert!(decode_samples(&payload[..payload.len() - 1], 3, 2, 3).is_none());
    let mut longer = payload.clone();
    longer.extend_from_slice(&[0xAA; 7]);
    assert_eq!(decode_samples(&longer, 3, 2, 3).unwrap(), bits_of(&values));
}

#[test]
fn short_payload_is_refused() {
    let payload = [0u8; 10];
    assert!(decode_samples(&payload, 2, 2, 3).is_none());
    assert!(decode_samples(&[0u8; 47], 2, 2, 3).is_none());
    assert!(decode_samples(&[0u8; 48], 2, 2, 3).is_some());
    assert!(decode_samples(&[0u8; 3], 1, 1, 1).is_none());
}

#[test]
fn other_channel_counts_are_refused() {
    let payload = [0u8; 64];
    for channels in [0u8, 2, 4, 5, 255] {
        assert!(decode_samples(&payload, 2, 2, channels).is_none());
        assert!(decode_samples(&payload, 0, 0, channels).is_none());
    }
}

#[test]
fn image_without_pixels_has_no_samples() {
    assert_eq!(decode_samples(&[], 0, 0, 1).unwrap(), Vec::<u32>::new());
    assert_eq!(decode_samples(&[1, 2, 3], 0, 7, 3).unwrap(), Vec::<u32>::new());
    assert_eq!(decode_samples(&[1, 2, 3], 7, 0, 3).unwrap(), Vec::<u32>::new());
}

#[test]
fn huge_declared_size_is_refused_without_reading() {
    assert!(decode_samples(&[0u8; 16], u32::MAX, u32::MAX, 3).is_none());
    assert!(decode_samples(&[0u8; 16], u32::MAX, 1, 1).is_none());
}

#[test]
fn range_of_samples_between_zero_and_one() {
    let samples = bits_of(&[0.0, 0.25, 0.5, 1.0]);
    let (lo, hi) = calculate_min_max(&samples);
    assert_eq!(f32::from_bits(lo), 0.0);
    assert_eq!(f32::from_bits(hi), 1.0);
    let samples = bits_of(&[0.5, 0.375, 0.75, 0.4]);
    assert_eq!(calculate_min_max(&samples), (0.375f32.to_bits(), 0.75f32.to_bits()));
}

#[test]
fn range_begins_with_one_and_zero() {
    assert_eq!(calculate_min_max(&[]), (1.0f32.to_bits(), 0.0f32.to_bits()));
    let samples = bits_of(&[2.0, 3.0]);
    assert_eq!(calculate_min_max(&samples), (1.0f32.to_bits(), 3.0f32.to_bits()));
    let samples = bits_of(&[-2.0, -3.0]);
    assert_eq!(calculate_min_max(&samples), ((-3.0f32).to_bits(), 0.0f32.to_bits()));
}

#[test]
fn range_skips_what_is_no_number() {
    let samples = vec![f32::NAN.to_bits(), 0.5f32.to_bits(), 0xFFC0_0001, 0.7f32.to_bits()];
    assert_eq!(calculate_min_max(&samples), (0.5f32.to_bits(), 0.7f32.to_bits()));
}

#[test]
fn range_keeps_the_first_of_equal_zeros() {
    let samples = bits_of(&[-0.0, 0.0]);
    let (lo, hi) = calculate_min_max(&samples);
    assert_eq!(lo, (-0.0f32).to_bits());
    assert_eq!(hi, 0.0f32.to_bits());
}

#[test]
fn range_agrees_with_a_scan_in_machine_arithmetic() {
    let mut state: u32 = 0x1234_5678;
    let mut samples = Vec::new();
    for _ in 0..2000 {
        state = state.wrapping_mul(1664525).wrapping_add(1013904223);
        samples.push(state);
    }
    let mut min = 1f32;
    let mut max = 0f32;
    for s in &samples {
        let v = f32::from_bits(*s);
        if min > v {
            min = v;
        }
        if max < v {
            max = v;
        }
    }
    assert_eq!(calculate_min_max(&samples), (min.to_bits(), max.to_bits()));
}
