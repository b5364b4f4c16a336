use sqsh::processors::{TelemetryRleDecoder, TelemetryRleEncoder};
use sqsh::streaming::Process;

fn test_process<P: Process + Default>(source: &[u8], expected: &[u8]) {
    let mut d: P = Default::default();
    let mut result: Vec<u8> = Vec::new();
    d.process(source, &mut result).expect("Error");
    let mut fin = Vec::<u8>::new();
    d.finish(&mut fin).expect("Error");
    result.append(&mut fin);
    assert_eq!(result, expected)
}

fn roundtrip<E: Process + Default, D: From<E> + Process>(source: &[u8]) {
    let mut enc: E = Default::default();
    let mut encoded: Vec<u8> = Vec::new();
    enc.process(source, &mut encoded).expect("Error");
    let mut fin = Vec::<u8>::new();
    enc.finish(&mut fin).expect("Error");
    encoded.append(&mut fin);

    let mut dec: D = D::from(enc);
    let mut decoded: Vec<u8> = Vec::new();
    dec.process(&encoded[..], &mut decoded).expect("Error");
    let mut fin = Vec::<u8>::new();
    dec.finish(&mut fin).expect("Error");
    decoded.append(&mut fin);

    assert_eq!(source, decoded)
}

fn roundtrip_with(threshold: u8, source: &[u8]) {
    let mut enc = TelemetryRleEncoder::with_threshold(threshold);
    let mut encoded: Vec<u8> = Vec::new();
    enc.process(source, &mut encoded).unwrap();
    enc.finish(&mut encoded).unwrap();
    let mut dec = TelemetryRleDecoder::new();
    let mut decoded: Vec<u8> = Vec::new();
    dec.process(&encoded, &mut decoded).unwrap();
    dec.finish(&mut decoded).unwrap();
    assert_eq!(source, decoded);
}

#[test]
fn test_telemetry_compression() {
    let input: Vec<u8> = vec![1, 2, 3, 4, 5, 6, 7, 8];
    let expect: Vec<u8> = vec![129, 129, 129, 129, 129, 129, 129, 129, 0];
    test_process::<TelemetryRleEncoder>(&input, &expect);

    let input: Vec<u8> = vec![1, 2, 3, 4, 5, 6, 7, 8, 9];
    let expect: Vec<u8> = vec![129, 129, 129, 129, 129, 129, 129, 129, 0, 129, 0];
    test_process::<TelemetryRleEncoder>(&input, &expect);

    let input: Vec<u8> = vec![1, 2, 3, 4, 5, 6, 7, 18];
    let expect: Vec<u8> = vec![129, 129, 129, 129, 129, 129, 129, 18, 0b0000_0001];
    test_process::<TelemetryRleEncoder>(&input, &expect);

    let input: Vec<u8> = vec![1, 2, 29, 4, 5, 6, 7, 18];
    let expect: Vec<u8> = vec![129, 129, 29, 4, 129, 129, 129, 18, 0b0011_0001];
    test_process::<TelemetryRleEncoder>(&input, &expect);

    let input: Vec<u8> = vec![14, 5, 29, 4, 5, 6, 7, 18];
    let expect: Vec<u8> = vec![14, 119, 29, 4, 129, 129, 129, 18, 0b1011_0001];
    test_process::<TelemetryRleEncoder>(&input, &expect);
}

#[test]
fn test_telemetry_decompression() {
    let expect: Vec<u8> = vec![1, 2, 3, 4, 5, 6, 7, 8];
    let input: Vec<u8> = vec![129, 129, 129, 129, 129, 129, 129, 129, 0];
    test_process::<TelemetryRleDecoder>(&input, &expect);

    let expect: Vec<u8> = vec![1, 2, 3, 4, 5, 6, 7, 8, 9];
    let input: Vec<u8> = vec![129, 129, 129, 129, 129, 129, 129, 129, 0, 129, 0];
    test_process::<TelemetryRleDecoder>(&input, &expect);

    let expect: Vec<u8> = vec![1, 2, 3, 4, 5, 6, 7, 18];
    let input: Vec<u8> = vec![129, 129, 129, 129, 129, 129, 129, 18, 0b0000_0001];
    test_process::<TelemetryRleDecoder>(&input, &expect);

    let expect: Vec<u8> = vec![1, 2, 29, 4, 5, 6, 7, 18];
    let input: Vec<u8> = vec![129, 129, 29, 4, 129, 129, 129, 18, 0b0011_0001];
    test_process::<TelemetryRleDecoder>(&input, &expect);

    let expect: Vec<u8> = vec![14, 5, 29, 4, 5, 6, 7, 18];
    let input: Vec<u8> = vec![14, 119, 29, 4, 129, 129, 129, 18, 0b1011_0001];
    test_process::<TelemetryRleDecoder>(&input, &expect);
}

#[test]
fn telemetry_test_roundtrip() {
    roundtrip::<TelemetryRleEncoder, TelemetryRleDecoder>(&vec![1, 2, 3, 4, 5, 6, 7, 8]);
    roundtrip::<TelemetryRleEncoder, TelemetryRleDecoder>(&vec![1, 2, 3, 4, 5, 6, 7, 9]);
    roundtrip::<TelemetryRleEncoder, TelemetryRleDecoder>(&vec![1, 2, 3, 4, 5, 6, 7, 18]);
    roundtrip::<TelemetryRleEncoder, TelemetryRleDecoder>(&vec![1, 2, 29, 4, 5, 6, 7, 18]);
    roundtrip::<TelemetryRleEncoder, TelemetryRleDecoder>(&vec![14, 5, 29, 4, 5, 6, 7, 18]);
}

#[test]
fn telemetry_empty_input_gives_empty_output() {
    test_process::<TelemetryRleEncoder>(&[], &[]);
    test_process::<TelemetryRleDecoder>(&[], &[]);
}

#[test]
fn telemetry_roundtrip_of_any_length() {
    let mut source: Vec<u8> = Vec::new();
    let mut value: u8 = 3;
    for i in 0..40usize {
        roundtrip::<TelemetryRleEncoder, TelemetryRleDecoder>(&source);
        value = value.wrapping_mul(37).wrapping_add((i as u8).wrapping_mul(11));
        source.push(value);
    }
}

#[test]
fn telemetry_short_block_with_symbols_as_they_are() {
    // Three symbols behind the full block, the first and the last far
    // from the one before: their digits are in the low bits.
    let input: Vec<u8> = vec![1, 2, 3, 4, 5, 6, 7, 8, 200, 201, 100];
    let expect: Vec<u8> = vec![129, 129, 129, 129, 129, 129, 129, 129, 0, 200, 129, 100, 0b101];
    test_process::<TelemetryRleEncoder>(&input, &expect);
    test_process::<TelemetryRleDecoder>(&expect, &input);
}

#[test]
fn telemetry_differences_at_the_threshold() {
    let mut enc = TelemetryRleEncoder::with_threshold(10);
    let mut encoded: Vec<u8> = Vec::new();
    enc.process(&[10, 0, 11, 21, 10, 10, 21, 32], &mut encoded).unwrap();
    assert_eq!(encoded, vec![138u8, 118, 11, 138, 10, 128, 21, 32, 0b0010_1011]);
}

#[test]
fn telemetry_largest_threshold_wraps_around() {
    // A step of 128 up is written as 0, like a step of 128 down.
    let mut enc = TelemetryRleEncoder::with_threshold(128);
    let mut encoded: Vec<u8> = Vec::new();
    enc.process(&[128, 0, 127, 255, 127, 0, 128, 1], &mut encoded).unwrap();
    assert_eq!(encoded, vec![0u8, 0, 255, 0, 0, 1, 0, 1, 0]);
    for start in [0u8, 1, 100, 127, 128, 200, 255] {
        roundtrip_with(128, &[start, start.wrapping_add(128), start, 3, 250, 122, 250, 5, 133]);
    }
    roundtrip_with(0, &[1, 1, 2, 2, 3, 3, 4, 4, 5, 5]);
}

#[test]
fn telemetry_process_reports_the_full_blocks() {
    let mut enc = TelemetryRleEncoder::new();
    let mut encoded: Vec<u8> = Vec::new();
    assert_eq!(enc.process(&[1, 2, 3, 4, 5, 6, 7, 8, 9, 10], &mut encoded).unwrap(), 8);
    assert_eq!(encoded.len(), 9);
    assert_eq!(enc.finish(&mut encoded).unwrap(), 2);
    assert_eq!(encoded.len(), 12);
    let mut dec = TelemetryRleDecoder::new();
    let mut decoded: Vec<u8> = Vec::new();
    assert_eq!(dec.process(&encoded, &mut decoded).unwrap(), 9);
    assert_eq!(dec.finish(&mut decoded).unwrap(), 3);
    assert_eq!(decoded, vec![1u8, 2, 3, 4, 5, 6, 7, 8, 9, 10]);
}

#[test]
fn telemetry_format() {
    let enc = TelemetryRleEncoder::new();
    assert_eq!(
        enc.to_string(),
        "TelemetryRleEncoder(max-threshold: 10, remainder: None), last_byte: 0"
    );
    let mut dec = TelemetryRleDecoder::new();
    let mut decoded: Vec<u8> = Vec::new();
    dec.process(&[129, 129, 129, 129, 129, 129, 129, 129, 0, 129, 0], &mut decoded).unwrap();
    assert_eq!(dec.to_string(), "TelemetryRleDecoder(remainder: Some([129, 0])), last_byte: 8");
}

#[test]
fn telemetry_chunks_make_no_difference() {
    let source: Vec<u8> = vec![14, 5, 29, 4, 5, 6, 7, 18, 200, 201, 100, 3, 3, 250, 9, 9, 9, 10, 77];
    let mut whole: Vec<u8> = Vec::new();
    let mut enc = TelemetryRleEncoder::new();
    enc.process(&source, &mut whole).unwrap();
    enc.finish(&mut whole).unwrap();

    for cut in 0..source.len() {
        let mut pieces: Vec<u8> = Vec::new();
        let mut enc = TelemetryRleEncoder::new();
        enc.process(&source[..cut], &mut pieces).unwrap();
        enc.process(&[], &mut pieces).unwrap();
        enc.process(&source[cut..], &mut pieces).unwrap();
        enc.finish(&mut pieces).unwrap();
        assert_eq!(pieces, whole);
    }
    for cut in 0..whole.len() {
        let mut decoded: Vec<u8> = Vec::new();
        let mut dec = TelemetryRleDecoder::new();
        dec.process(&whole[..cut], &mut decoded).unwrap();
        dec.process(&whole[cut..], &mut decoded).unwrap();
        dec.finish(&mut decoded).unwrap();
        assert_eq!(decoded, source);
    }
}

#[test]
fn telemetry_kept_symbols_fill_the_next_block() {
    let mut enc = TelemetryRleEncoder::new();
    let mut encoded: Vec<u8> = Vec::new();
    assert_eq!(enc.process(&[1, 2, 3], &mut encoded).unwrap(), 0);
    assert!(encoded.is_empty());
    assert_eq!(
        enc.to_string(),
        "TelemetryRleEncoder(max-threshold: 10, remainder: Some([1, 2, 3])), last_byte: 0"
    );
    // Three symbols are kept; five more fill the block.
    assert_eq!(enc.process(&[4, 5, 6, 7, 8], &mut encoded).unwrap(), 8);
    assert_eq!(encoded, vec![129u8, 129, 129, 129, 129, 129, 129, 129, 0]);
    assert_eq!(enc.finish(&mut encoded).unwrap(), 0);
    assert_eq!(encoded.len(), 9);
}
