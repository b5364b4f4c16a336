use sqsh::processors::{RleClassicDecoder, RleClassicEncoder};
use sqsh::streaming::Process;

const CLASSIC_RLE_THRESHOLD: usize = 2;

fn as_rle_bytes(word: &str) -> Vec<u8> {
    let mut result: Vec<u8> = Vec::new();
    let mut tmp = 0u8;
    let mut tmp_filled = false;

    for val in word.as_bytes() {
        if *val < 48 || *val > 57 {
            // val is not a number
            if tmp_filled {
                result.push(tmp);
                tmp = 0;
                tmp_filled = false;
            }
            result.push(*val);
        } else {
            // val is a number
            if tmp_filled {
                tmp *= 10;
                tmp += val - 48;
            } else {
                tmp_filled = true;
                tmp += val - 48;
            }
        }
    }
    if tmp_filled {
        result.push(tmp)
    }
    result
}

fn test_process<P: Process + Default>(source: &[u8], expected: &[u8]) {
    let mut d: P = Default::default();
    let mut result: Vec<u8> = Vec::new();
    d.process(source, &mut result).expect("Error");
    let mut fin = Vec::<u8>::new();
    d.finish(&mut fin).expect("Error");
    result.append(&mut fin);
    assert_eq!(result, expected)
}

fn roundtrip<E: Process + Default, D: From<E> + Process>(source: &[u8]) {
    let mut enc: E = Default::default();
    let mut encoded: Vec<u8> = Vec::new();
    enc.process(source, &mut encoded).expect("Error");
    let mut fin = Vec::<u8>::new();
    enc.finish(&mut fin).expect("Error");
    encoded.append(&mut fin);

    let mut dec: D = D::from(enc);
    let mut decoded: Vec<u8> = Vec::new();
    dec.process(&encoded[..], &mut decoded).expect("Error");
    let mut fin = Vec::<u8>::new();
    dec.finish(&mut fin).expect("Error");
    decoded.append(&mut fin);

    assert_eq!(source, decoded)
}

fn encode_with(threshold: usize, source: &[u8]) -> Vec<u8> {
    let mut enc = RleClassicEncoder::with_threshold(threshold);
    let mut encoded: Vec<u8> = Vec::new();
    enc.process(source, &mut encoded).unwrap();
    enc.finish(&mut encoded).unwrap();
    encoded
}

fn decode_with(threshold: usize, source: &[u8]) -> Vec<u8> {
    let mut dec = RleClassicDecoder::with_threshold(threshold);
    let mut decoded: Vec<u8> = Vec::new();
    dec.process(source, &mut decoded).unwrap();
    dec.finish(&mut decoded).unwrap();
    decoded
}

#[test]
fn test_init_new() {
    let rle = RleClassicEncoder::new();

    assert_eq!(rle.max_threshold(), CLASSIC_RLE_THRESHOLD);
    assert_eq!(rle.repetition(), 0);
    assert_eq!(rle.last_symbol(), None);
}

#[test]
fn test_init_custom_threshold() {
    let max_threshold: usize = CLASSIC_RLE_THRESHOLD + 2;
    let rle = RleClassicEncoder::with_threshold(max_threshold);

    assert_eq!(rle.max_threshold(), CLASSIC_RLE_THRESHOLD + 2);
    assert_eq!(rle.repetition(), 0);
    assert_eq!(rle.last_symbol(), None);
}

#[test]
fn test_reset() {
    let mut rle = RleClassicEncoder::new();
    let source = "Wikipedia".as_bytes();
    let mut v = Vec::new();

    rle.process(source, &mut v).unwrap();
    assert_eq!(rle.repetition(), 1);
    assert_eq!(rle.last_symbol(), Some(97));

    rle.reset();
    assert_eq!(rle.repetition(), 0);
    assert_eq!(rle.last_symbol(), None);
}

#[test]
fn test_format() {
    let rle = RleClassicEncoder::new();
    let expected: String = format!("ClassicRLE< reps:0 max:2 sym:None >");

    assert_eq!(rle.to_string(), expected);
}

#[test]
fn test_classic_rle() {
    test_process::<RleClassicEncoder>("Awesome".as_bytes(), "Awesome".as_bytes());
    test_process::<RleClassicEncoder>("Aweeeeee".as_bytes(), &as_rle_bytes("Awee4"));
    test_process::<RleClassicEncoder>("eeeeeeeeeee".as_bytes(), &as_rle_bytes("ee9"));
    test_process::<RleClassicEncoder>("eeeeeeeeeeee".as_bytes(), &as_rle_bytes("ee10"));
    test_process::<RleClassicEncoder>("eeeeeeeeeeeez".as_bytes(), &as_rle_bytes("ee10z"));
    test_process::<RleClassicEncoder>(
        "eeezzzzzzzopsaa".as_bytes(),
        &as_rle_bytes("ee1zz5opsaa0"),
    );
}

#[test]
fn classic_test_roundtrip() {
    roundtrip::<RleClassicEncoder, RleClassicDecoder>("Wikipedia".as_bytes());
    roundtrip::<RleClassicEncoder, RleClassicDecoder>("eeeeeeeee".as_bytes());
    roundtrip::<RleClassicEncoder, RleClassicDecoder>("Awesome".as_bytes());
    roundtrip::<RleClassicEncoder, RleClassicDecoder>("Aweeeeee".as_bytes());
    roundtrip::<RleClassicEncoder, RleClassicDecoder>("eeeeeeeeeee".as_bytes());
    roundtrip::<RleClassicEncoder, RleClassicDecoder>("eeeeeeeeeeee".as_bytes());
    roundtrip::<RleClassicEncoder, RleClassicDecoder>("eeeeeeeeeeeez".as_bytes());
    roundtrip::<RleClassicEncoder, RleClassicDecoder>("eeezzzzzzzopsaa".as_bytes());
}

#[test]
fn test_enc_to_dec() {}

#[test]
fn test_dec_to_enc() {
    let dec = RleClassicDecoder::new();
    let v = dec.max_threshold();
    let enc: RleClassicEncoder = RleClassicDecoder::into(dec);

    assert_eq!(v, enc.max_threshold())
}

#[test]
fn classic_encodes_the_named_example() {
    assert_eq!(encode_with(2, "Aweeeeee".as_bytes()), vec![65u8, 119, 101, 101, 4]);
}

#[test]
fn classic_empty_input_gives_empty_output() {
    let mut enc = RleClassicEncoder::new();
    let mut sink: Vec<u8> = Vec::new();
    assert_eq!(enc.process(&[], &mut sink).unwrap(), 0);
    assert_eq!(enc.finish(&mut sink).unwrap(), 0);
    assert!(sink.is_empty());
    let mut dec = RleClassicDecoder::new();
    assert_eq!(dec.process(&[], &mut sink).unwrap(), 0);
    assert_eq!(dec.finish(&mut sink).unwrap(), 0);
    assert!(sink.is_empty());
}

#[test]
fn classic_threshold_is_carried_over() {
    let enc = RleClassicEncoder::with_threshold(5);
    let dec: RleClassicDecoder = RleClassicDecoder::from(enc);
    assert_eq!(dec.max_threshold(), 5);
    assert_eq!(dec.repetition(), 0);
    assert_eq!(dec.last_symbol(), None);
}

#[test]
fn classic_run_across_chunks_is_one_run() {
    let mut enc = RleClassicEncoder::new();
    let mut sink: Vec<u8> = Vec::new();
    enc.process("Awee".as_bytes(), &mut sink).unwrap();
    enc.process("eeee".as_bytes(), &mut sink).unwrap();
    enc.finish(&mut sink).unwrap();
    assert_eq!(sink, vec![65u8, 119, 101, 101, 4]);
}

#[test]
fn classic_count_that_equals_the_symbol_is_a_count() {
    // 2 + 101 times the byte 101: the count byte is the symbol itself.
    let source: Vec<u8> = vec![101u8; 103];
    let encoded = encode_with(2, &source);
    assert_eq!(encoded, vec![101u8, 101, 101]);
    assert_eq!(decode_with(2, &encoded), source);
}

#[test]
fn classic_long_run_is_written_as_several_runs() {
    // The longest run with one count byte has 2 + 255 symbols.
    let source: Vec<u8> = vec![7u8; 257];
    assert_eq!(encode_with(2, &source), vec![7u8, 7, 255]);
    let source: Vec<u8> = vec![7u8; 258];
    assert_eq!(encode_with(2, &source), vec![7u8, 7, 255, 7]);
    let source: Vec<u8> = vec![7u8; 600];
    let encoded = encode_with(2, &source);
    assert_eq!(encoded, vec![7u8, 7, 255, 7, 7, 255, 7, 7, 84]);
    assert_eq!(decode_with(2, &encoded), source);
}

#[test]
fn classic_roundtrip_with_other_thresholds() {
    let source: Vec<u8> = vec![1u8, 1, 1, 2, 2, 2, 2, 2, 3, 3, 3, 3, 3, 3, 9, 9, 1];
    for threshold in 2..7usize {
        let encoded = encode_with(threshold, &source);
        assert_eq!(decode_with(threshold, &encoded), source);
    }
    assert_eq!(encode_with(4, &source), vec![1u8, 1, 1, 2, 2, 2, 2, 1, 3, 3, 3, 3, 2, 9, 9, 1]);
}

#[test]
fn classic_decoder_format() {
    let rle = RleClassicDecoder::new();
    assert_eq!(rle.to_string(), "RLE Classic Decoder < reps:0 max:2 sym:None >");
    let mut enc = RleClassicEncoder::with_threshold(12);
    let mut sink: Vec<u8> = Vec::new();
    enc.process("aaa".as_bytes(), &mut sink).unwrap();
    assert_eq!(enc.to_string(), format!("ClassicRLE< reps:{} max:{} sym:{:#?} >", 3, 12, Some(97u8)));
}
