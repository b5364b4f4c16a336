use sqsh::processors::{ConditionalRleDecoder, ConditionalRleEncoder};
use sqsh::streaming::Process;

#[test]
fn new() {
    let enc = ConditionalRleEncoder::new();
    assert_eq!(enc.order(), 1);
    assert!(enc.is_empty());
}

#[test]
fn new_with_high_order() {
    let order: usize = 0;
    let enc = ConditionalRleEncoder::with_order(order);
    assert_eq!(enc.order(), order);
    assert!(enc.is_empty());
}

#[test]
fn encoding_easy_process() {
    let order: usize = 4;
    let mut enc = ConditionalRleEncoder::with_order(order);
    let data = vec![2u8, 2, 2, 2, 2, 2, 2, 2];

    // Encode once
    let mut encoded = Vec::<u8>::new();
    enc.process(&data, &mut encoded).unwrap();
    let mut expected = vec![2u8, 2, 2, 2, 2, 2, 2, 2];
    assert_eq!(expected, encoded);

    // Encode twice
    enc.process(&data, &mut encoded).unwrap();
    expected.append(&mut vec![0u8, 0, 0, 0, 0, 0, 0, 0]);
    assert_eq!(expected, encoded);
}

#[test]
fn encoder() {
    let order: usize = 0;
    let mut enc = ConditionalRleEncoder::with_order(order);
    let source: Vec<u8> = vec![3, 4, 3, 3, 4, 5, 5, 5, 7, 7, 7, 7, 7, 7, 7, 2, 1];
    let mut sink: Vec<u8> = Vec::new();
    enc.process(&source, &mut sink).unwrap();

    assert_eq!(source, sink);
}

#[test]
fn roundtrip_single_encode() {
    // Roundtrip with a single encoding process
    for order in 0..5usize {
        let source: Vec<u8> = vec![3, 4, 3, 3, 4, 5, 5, 5, 7, 7, 7, 7, 7, 7, 7, 2, 1];
        let mut enc = ConditionalRleEncoder::with_order(order);
        let mut encoded: Vec<u8> = Vec::new();
        enc.process(&source, &mut encoded).unwrap();

        let mut decoded: Vec<u8> = Vec::new();
        let mut dec = ConditionalRleDecoder::with_order(order);
        dec.process(&encoded, &mut decoded).unwrap();

        println!("{:?}", order);
        assert_eq!(source, decoded);
    }
}

#[test]
fn roundtrip_multi_encode() {
    // Roundtrip with a multiple encoding process
    for order in 0..5usize {
        let source: Vec<u8> = vec![3, 4, 3, 3, 4, 5, 5, 5, 7, 7, 7, 7, 7, 7, 7, 2, 1];
        let split = 10usize;

        let mut encoded: Vec<u8> = Vec::new();
        let mut enc = ConditionalRleEncoder::with_order(order);
        enc.process(&source[..split], &mut encoded).unwrap();
        println!("Encoding 1: {:?}", encoded);
        enc.process(&source[split..], &mut encoded).unwrap();
        println!("Encoding 2: {:?}", encoded);

        let mut decoded: Vec<u8> = Vec::new();
        let mut dec = ConditionalRleDecoder::with_order(order);
        dec.process(&encoded[..split], &mut decoded).unwrap();
        println!("Decoding 1: {:?}", decoded);
        dec.process(&encoded[split..], &mut decoded).unwrap();
        println!("Decoding 2: {:?}", decoded);

        println!("Error w/ order: {:?}", order);
        assert_eq!(source, decoded);
    }
}

#[test]
fn conditional_constructors() {
    let rle = ConditionalRleEncoder::with_bitlength(3);
    assert_eq!(rle.bitlength(), 3);
    assert_eq!(rle.order(), 1);
    let rle = ConditionalRleEncoder::with_order_with_bitlength(2, 7);
    assert_eq!(rle.order(), 2);
    assert_eq!(rle.bitlength(), 7);
    let rle = ConditionalRleEncoder::new();
    assert_eq!(rle.bitlength(), 8);
    assert_eq!(rle.capacity(), 0);
    let dec = ConditionalRleDecoder::with_order_with_bitlength(3, 1);
    assert_eq!(dec.order(), 3);
    assert_eq!(dec.bitlength(), 1);
    assert!(dec.is_empty());
    let dec = ConditionalRleDecoder::new();
    assert_eq!(dec.order(), 1);
    assert_eq!(dec.bitlength(), 8);
    let dec = ConditionalRleDecoder::with_bitlength(5);
    assert_eq!(dec.bitlength(), 5);
    let dec = ConditionalRleDecoder::with_order(9);
    assert_eq!(dec.order(), 9);
}

#[test]
fn conditional_empty_input_gives_empty_output() {
    let mut enc = ConditionalRleEncoder::new();
    let mut sink: Vec<u8> = Vec::new();
    assert_eq!(enc.process(&[], &mut sink).unwrap(), 0);
    assert_eq!(enc.finish(&mut sink).unwrap(), 0);
    assert!(sink.is_empty());
    assert!(enc.is_empty());
    let mut dec = ConditionalRleDecoder::new();
    assert_eq!(dec.process(&[], &mut sink).unwrap(), 0);
    assert_eq!(dec.finish(&mut sink).unwrap(), 0);
    assert!(sink.is_empty());
}

#[test]
fn conditional_codes_follow_the_ranks() {
    // Order 0: one table for the empty context. After the first chunk the
    // table holds 7 three times, 5 twice, and every other byte once, in
    // the order of the byte values.
    let mut enc = ConditionalRleEncoder::with_order(0);
    let mut sink: Vec<u8> = Vec::new();
    assert_eq!(enc.process(&[7, 7, 5], &mut sink).unwrap(), 3);
    assert_eq!(sink, vec![7u8, 7, 5]);
    assert!(!enc.is_empty());
    sink.clear();
    // 7 has rank 0 and 5 has rank 1. The byte 0 was moved to the place
    // of 7 and now has rank 7; the byte 1 went to the place of 5.
    enc.process(&[7, 5, 0, 1, 2, 6], &mut sink).unwrap();
    assert_eq!(sink, vec![0u8, 1, 7, 5, 2, 6]);

    let mut dec = ConditionalRleDecoder::with_order(0);
    let mut back: Vec<u8> = Vec::new();
    dec.process(&[7, 7, 5], &mut back).unwrap();
    dec.process(&[0, 1, 7, 5, 2, 6], &mut back).unwrap();
    assert_eq!(back, vec![7u8, 7, 5, 7, 5, 0, 1, 2, 6]);
}

#[test]
fn conditional_narrow_codes_leave_high_ranks_as_they_are() {
    // With one bit there are two codes, for the ranks 0 and 1.
    let mut enc = ConditionalRleEncoder::with_order_with_bitlength(0, 1);
    let mut sink: Vec<u8> = Vec::new();
    enc.process(&[9, 9, 8], &mut sink).unwrap();
    sink.clear();
    // 9 has rank 0, 8 has rank 1, 3 has rank 3 and no code.
    enc.process(&[9, 8, 3], &mut sink).unwrap();
    assert_eq!(sink, vec![0u8, 1, 3]);

    let mut dec = ConditionalRleDecoder::with_order_with_bitlength(0, 1);
    let mut back: Vec<u8> = Vec::new();
    dec.process(&[9, 9, 8], &mut back).unwrap();
    back.clear();
    // 0 and 1 are codes; 3 is no code and is taken as the symbol.
    dec.process(&[0, 1, 3], &mut back).unwrap();
    assert_eq!(back, vec![9u8, 8, 3]);
}

#[test]
fn conditional_contexts_have_their_own_tables() {
    let mut enc = ConditionalRleEncoder::with_order(1);
    let mut sink: Vec<u8> = Vec::new();
    // Contexts: [] -> 1, [1] -> 2, [2] -> 1, [1] -> 2.
    enc.process(&[1, 2, 1, 2], &mut sink).unwrap();
    sink.clear();
    // [] -> 1 is rank 0; [1] -> 2 is rank 0; [2] -> 1 is rank 0;
    // [1] -> 3: 3 was not seen after 1 and keeps its place among the
    // bytes, rank 3, since 2 went to the front and 0 took its place.
    enc.process(&[1, 2, 1, 3], &mut sink).unwrap();
    assert_eq!(sink, vec![0u8, 0, 0, 3]);
    assert!(enc.capacity() >= 3);
}
