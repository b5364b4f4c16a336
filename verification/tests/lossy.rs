use sqsh::processors::{LossyRleDecoder, LossyRleEncoder};
use sqsh::streaming::Process;

fn as_rle_bytes(word: &str) -> Vec<u8> {
    let mut result: Vec<u8> = Vec::new();
    let mut tmp = 0u8;
    let mut tmp_filled = false;

    for val in word.as_bytes() {
        if *val < 48 || *val > 57 {
            // val is not a number
            if tmp_filled {
                result.push(tmp);
                tmp = 0;
                tmp_filled = false;
            }
            result.push(*val);
        } else {
            // val is a number
            if tmp_filled {
                tmp *= 10;
                tmp += val - 48;
            } else {
                tmp_filled = true;
                tmp += val - 48;
            }
        }
    }
    if tmp_filled {
        result.push(tmp)
    }
    result
}

fn test_process<P: Process + Default>(source: &[u8], expected: &[u8]) {
    let mut d: P = Default::default();
    let mut result: Vec<u8> = Vec::new();
    d.process(source, &mut result).expect("Error");
    let mut fin = Vec::<u8>::new();
    d.finish(&mut fin).expect("Error");
    result.append(&mut fin);
    assert_eq!(result, expected)
}

fn roundtrip_lossy<E: Process + Default, D: From<E> + Process>(source: &[u8], expected: &[u8]) {
    let mut enc: E = Default::default();
    let mut encoded: Vec<u8> = Vec::new();
    enc.process(source, &mut encoded).expect("Error");
    let mut fin = Vec::<u8>::new();
    enc.finish(&mut fin).expect("Error");
    encoded.append(&mut fin);

    let mut dec: D = D::from(enc);
    let mut decoded: Vec<u8> = Vec::new();
    dec.process(&encoded[..], &mut decoded).expect("Error");
    let mut fin = Vec::<u8>::new();
    dec.finish(&mut fin).expect("Error");
    decoded.append(&mut fin);

    assert_eq!(decoded, expected)
}

#[test]
fn test_lossy_rle() {
    test_process::<LossyRleEncoder>("aaaabbvvvvv".as_bytes(), &as_rle_bytes("a3b1v4"));
    test_process::<LossyRleEncoder>("aaa".as_bytes(), &as_rle_bytes("a2"));
    test_process::<LossyRleEncoder>("aaabb".as_bytes(), &as_rle_bytes("a2b1"));
    test_process::<LossyRleEncoder>("aaabcde".as_bytes(), &as_rle_bytes("a2e3"));
    test_process::<LossyRleEncoder>("aaabcddde".as_bytes(), &as_rle_bytes("a2d4e0"));
    test_process::<LossyRleEncoder>("aabbccdd".as_bytes(), &as_rle_bytes("a1b1c1d1"));
    test_process::<LossyRleEncoder>("aabbcdd".as_bytes(), &as_rle_bytes("a1b1d2"));
}

#[test]
fn test_lossy_roundtrip() {
    roundtrip_lossy::<LossyRleEncoder, LossyRleDecoder>(
        "aaaabbvvvvv".as_bytes(),
        "aaaabbvvvvv".as_bytes(),
    );
    roundtrip_lossy::<LossyRleEncoder, LossyRleDecoder>("aaa".as_bytes(), "aaa".as_bytes());
    roundtrip_lossy::<LossyRleEncoder, LossyRleDecoder>("aaabb".as_bytes(), "aaabb".as_bytes());
    roundtrip_lossy::<LossyRleEncoder, LossyRleDecoder>(
        "aaabcde".as_bytes(),
        "aaaeeee".as_bytes(),
    );
    roundtrip_lossy::<LossyRleEncoder, LossyRleDecoder>(
        "aaabcddde".as_bytes(),
        "aaaddddde".as_bytes(),
    );
    roundtrip_lossy::<LossyRleEncoder, LossyRleDecoder>(
        "aabbccdd".as_bytes(),
        "aabbccdd".as_bytes(),
    );
    roundtrip_lossy::<LossyRleEncoder, LossyRleDecoder>(
        "aabbcdd".as_bytes(),
        "aabbddd".as_bytes(),
    );
}

#[test]
fn lossy_empty_input_gives_empty_output() {
    let mut enc = LossyRleEncoder::new();
    let mut sink: Vec<u8> = Vec::new();
    assert_eq!(enc.process(&[], &mut sink).unwrap(), 0);
    assert_eq!(enc.finish(&mut sink).unwrap(), 0);
    assert!(sink.is_empty());
    let mut dec = LossyRleDecoder::new();
    assert_eq!(dec.process(&[], &mut sink).unwrap(), 0);
    assert_eq!(dec.finish(&mut sink).unwrap(), 0);
    assert!(sink.is_empty());
}

#[test]
fn lossy_threshold_decides_what_is_merged() {
    let mut enc = LossyRleEncoder::with_threshold(4);
    let mut sink: Vec<u8> = Vec::new();
    assert_eq!(enc.threshold(), 4);
    enc.process("aaabbbbc".as_bytes(), &mut sink).unwrap();
    // "aaa" is below the threshold and goes into the run of "b".
    assert_eq!(sink, vec![98u8, 6]);
    assert_eq!(enc.last_symbol(), Some(99));
    assert_eq!(enc.repetition(), 1);
    assert_eq!(enc.loss_count(), 0);
    enc.finish(&mut sink).unwrap();
    assert_eq!(sink, vec![98u8, 6, 99, 0]);
    assert_eq!(enc.last_symbol(), None);
}

#[test]
fn lossy_pair_stands_for_at_most_256_symbols() {
    let source: Vec<u8> = vec![5u8; 300];
    let mut enc = LossyRleEncoder::new();
    let mut encoded: Vec<u8> = Vec::new();
    enc.process(&source, &mut encoded).unwrap();
    enc.finish(&mut encoded).unwrap();
    assert_eq!(encoded, vec![5u8, 255, 5, 43]);
    let mut dec = LossyRleDecoder::from(enc);
    let mut decoded: Vec<u8> = Vec::new();
    dec.process(&encoded, &mut decoded).unwrap();
    dec.finish(&mut decoded).unwrap();
    assert_eq!(decoded, source);
}

#[test]
fn lossy_merged_runs_fill_a_pair() {
    // 255 symbols in runs of one, then a run of three: the pair of the
    // merged runs is written when it stands for 256 symbols.
    let mut source: Vec<u8> = Vec::new();
    for i in 0..255usize {
        source.push((i % 2) as u8);
    }
    source.extend_from_slice(&[9u8, 9, 9]);
    let mut enc = LossyRleEncoder::new();
    let mut encoded: Vec<u8> = Vec::new();
    enc.process(&source, &mut encoded).unwrap();
    enc.finish(&mut encoded).unwrap();
    assert_eq!(encoded, vec![9u8, 255, 9, 1]);
}

#[test]
fn lossy_decoder_writes_a_symbol_without_count_once() {
    let mut dec = LossyRleDecoder::new();
    let mut decoded: Vec<u8> = Vec::new();
    assert_eq!(dec.process(&[97u8, 2, 98], &mut decoded).unwrap(), 3);
    assert_eq!(decoded, "aaa".as_bytes());
    assert_eq!(dec.last_symbol(), Some(98));
    assert_eq!(dec.finish(&mut decoded).unwrap(), 1);
    assert_eq!(decoded, "aaab".as_bytes());
}

#[test]
fn lossy_format() {
    let enc = LossyRleEncoder::new();
    assert_eq!(enc.to_string(), "LossyRLE<rep:0, min:2, sym:None, lcount:0>");
    let mut enc = LossyRleEncoder::with_threshold(3);
    let mut sink: Vec<u8> = Vec::new();
    enc.process("abb".as_bytes(), &mut sink).unwrap();
    assert_eq!(enc.to_string(), "LossyRLE<rep:2, min:3, sym:Some(98), lcount:1>");
    let dec = LossyRleDecoder::new();
    assert_eq!(dec.to_string(), "LossyRLEDecoder<last_sym:None>");
}
