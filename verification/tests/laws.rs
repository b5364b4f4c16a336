use sqsh::processors::{
    Adler32, ConditionalRleDecoder, ConditionalRleEncoder, LossyRleDecoder, LossyRleEncoder,
    RleClassicDecoder, RleClassicEncoder, TelemetryRleDecoder, TelemetryRleEncoder,
};
use sqsh::streaming::{Checksum, Process, Stream};

/// Bytes with runs of different lengths, made without chance.
fn sample(length: usize, seed: u32) -> Vec<u8> {
    let mut state: u32 = seed;
    let mut bytes: Vec<u8> = Vec::new();
    while bytes.len() < length {
        state = state.wrapping_mul(1_103_515_245).wrapping_add(12_345);
        let symbol: u8 = ((state >> 16) % 7) as u8;
        let run: usize = ((state >> 8) % 5) as usize + 1;
        for _ in 0..run {
            if bytes.len() < length {
                bytes.push(symbol);
            }
        }
    }
    bytes
}

fn through<P: Process>(processor: P, source: &[u8]) -> Vec<u8> {
    let mut stream = Stream::new(processor);
    let mut sink: Vec<u8> = Vec::new();
    assert_eq!(stream.consume(source, &mut sink).unwrap(), source.len());
    sink
}

#[test]
fn classic_roundtrip_of_samples() {
    for seed in 0..20u32 {
        let source = sample(300 + seed as usize, seed);
        for threshold in [2usize, 3, 5, 9] {
            let encoded = through(RleClassicEncoder::with_threshold(threshold), &source);
            let decoded = through(RleClassicDecoder::with_threshold(threshold), &encoded);
            assert_eq!(decoded, source);
        }
    }
}

#[test]
fn classic_chunks_make_no_difference() {
    let source = sample(200, 7);
    let whole = through(RleClassicEncoder::new(), &source);
    for cut in 0..source.len() {
        let mut enc = RleClassicEncoder::new();
        let mut pieces: Vec<u8> = Vec::new();
        enc.process(&source[..cut], &mut pieces).unwrap();
        enc.process(&source[cut..], &mut pieces).unwrap();
        enc.finish(&mut pieces).unwrap();
        assert_eq!(pieces, whole);
    }
}

#[test]
fn telemetry_roundtrip_of_samples() {
    for seed in 0..20u32 {
        let mut source = sample(100 + seed as usize, seed);
        for (i, byte) in source.iter_mut().enumerate() {
            *byte = byte.wrapping_mul(37).wrapping_add((i % 11) as u8);
        }
        for threshold in [0u8, 1, 10, 127, 128] {
            let encoded = through(TelemetryRleEncoder::with_threshold(threshold), &source);
            let decoded = through(TelemetryRleDecoder::new(), &encoded);
            assert_eq!(decoded, source);
        }
    }
}

#[test]
fn lossy_keeps_the_number_of_symbols() {
    for seed in 0..20u32 {
        let source = sample(700 + seed as usize, seed);
        for threshold in [2usize, 3, 4, 6] {
            let encoded = through(LossyRleEncoder::with_threshold(threshold), &source);
            assert_eq!(encoded.len() % 2, 0);
            let decoded = through(LossyRleDecoder::new(), &encoded);
            assert_eq!(decoded.len(), source.len());
        }
    }
}

#[test]
fn conditional_roundtrip_over_many_chunks() {
    let source = sample(1500, 3);
    for order in 0..4usize {
        let mut enc = ConditionalRleEncoder::with_order(order);
        let mut dec = ConditionalRleDecoder::with_order(order);
        let mut decoded: Vec<u8> = Vec::new();
        let mut at: usize = 0;
        let mut size: usize = 1;
        while at < source.len() {
            let end: usize = usize::min(at + size, source.len());
            let mut encoded: Vec<u8> = Vec::new();
            enc.process(&source[at..end], &mut encoded).unwrap();
            assert_eq!(encoded.len(), end - at);
            dec.process(&encoded, &mut decoded).unwrap();
            at = end;
            size = size * 2 % 97 + 1;
        }
        assert_eq!(decoded, source);
    }
}

#[test]
fn conditional_first_chunk_is_written_as_it_is() {
    let source = sample(400, 11);
    for order in 0..5usize {
        for bits in 1..9usize {
            let mut enc = ConditionalRleEncoder::with_order_with_bitlength(order, bits);
            let mut encoded: Vec<u8> = Vec::new();
            enc.process(&source, &mut encoded).unwrap();
            assert_eq!(encoded, source);
        }
    }
}

#[test]
fn adler_chunks_make_no_difference() {
    let source = sample(900, 5);
    let mut whole = Adler32::new();
    let mut sink: Vec<u8> = Vec::new();
    whole.process(&source, &mut sink).unwrap();
    for cut in [0usize, 1, 450, 899, 900] {
        let mut pieces = Adler32::new();
        pieces.process(&source[..cut], &mut sink).unwrap();
        pieces.process(&source[cut..], &mut sink).unwrap();
        assert_eq!(pieces.checksum(), whole.checksum());
    }
    assert!(sink.is_empty());
}
