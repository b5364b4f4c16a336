use sqsh::processors::rle::classic::push_run;
use sqsh::processors::rle::conditional::codetable::CodeTable;
use sqsh::processors::rle::conditional::contexts::{same_bytes, ContextTables};
use sqsh::streaming::checksum::write_formatted;

#[test]
fn code_table_of_the_full_width() {
    let table = CodeTable::new();
    assert_eq!(table.bitlength(), 8);
    assert_eq!(table.encode(0), Some(0));
    assert_eq!(table.encode(255), Some(255));
    assert_eq!(table.encode(256), None);
    assert_eq!(table.decode(0), Some(0));
    assert_eq!(table.decode(255), Some(255));
}

#[test]
fn code_table_of_a_narrow_width() {
    let table = CodeTable::with_bitlength(3);
    assert_eq!(table.bitlength(), 3);
    assert_eq!(table.encode(7), Some(7));
    assert_eq!(table.encode(8), None);
    assert_eq!(table.encode(usize::MAX), None);
    assert_eq!(table.decode(7), Some(7));
    assert_eq!(table.decode(8), None);
    assert_eq!(table.decode(255), None);
    let table = CodeTable::with_bitlength(1);
    assert_eq!(table.encode(1), Some(1));
    assert_eq!(table.encode(2), None);
    assert_eq!(table.decode(1), Some(1));
    assert_eq!(table.decode(2), None);
}

#[test]
fn code_table_is_a_bijection() {
    for bits in 1..9usize {
        let table = CodeTable::with_bitlength(bits);
        let limit: usize = 1 << bits;
        for rank in 0..300usize {
            match table.encode(rank) {
                Some(code) => {
                    assert!(rank < limit);
                    assert!((code as usize) < limit);
                    assert_eq!(table.decode(code), Some(rank));
                }
                None => assert!(rank >= limit),
            }
        }
        for code in 0..=255u8 {
            match table.decode(code) {
                Some(rank) => assert_eq!(table.encode(rank), Some(code)),
                None => assert!((code as usize) >= limit),
            }
        }
    }
}

#[test]
fn context_tables_start_with_every_byte() {
    let mut tables = ContextTables::new();
    assert!(tables.is_empty());
    assert_eq!(tables.len(), 0);
    assert!(tables.get(&[1, 2]).is_none());
    tables.single_update(&[1, 2], 200);
    assert!(!tables.is_empty());
    assert_eq!(tables.len(), 1);
    assert!(tables.capacity() >= 1);
    assert!(tables.get(&[2, 1]).is_none());
    assert!(tables.get(&[1]).is_none());
    let table = tables.get(&[1, 2]).unwrap();
    assert_eq!(table.members(), 256);
    // 200 was counted twice and changed places with the byte 0.
    assert_eq!(table.position(0), Some(200));
    assert_eq!(table.position(200), Some(0));
    assert_eq!(table.position(1), Some(1));
    assert_eq!(table.position(255), Some(255));
    assert_eq!(table.count(&200), Some(2));
    assert_eq!(table.count(&0), Some(1));
    assert!(table.is_coherent());
}

#[test]
fn context_tables_full_update_walks_the_contexts() {
    let mut tables = ContextTables::new();
    tables.full_update(&[5, 6, 7, 6, 7], 2);
    // Contexts: [], [5], [5, 6], [6, 7], [7, 6].
    assert_eq!(tables.len(), 5);
    assert_eq!(tables.get(&[]).unwrap().position(0), Some(5));
    assert_eq!(tables.get(&[5]).unwrap().position(0), Some(6));
    assert_eq!(tables.get(&[5, 6]).unwrap().position(0), Some(7));
    assert_eq!(tables.get(&[6, 7]).unwrap().position(0), Some(6));
    assert_eq!(tables.get(&[7, 6]).unwrap().position(0), Some(7));
    assert!(tables.get(&[6]).is_none());
    tables.full_update(&[5, 6, 7], 0);
    assert_eq!(tables.len(), 5);
    assert_eq!(tables.get(&[]).unwrap().count(&5), Some(3));
    assert_eq!(tables.get(&[]).unwrap().count(&6), Some(2));
    assert_eq!(tables.get(&[]).unwrap().count(&7), Some(2));
    assert_eq!(tables.get(&[]).unwrap().rank(&5), Some(0));
}

#[test]
fn same_bytes_compares_the_bytes() {
    assert!(same_bytes(&[], &[]));
    assert!(same_bytes(&[1, 2, 3], &[1, 2, 3]));
    assert!(!same_bytes(&[1, 2, 3], &[1, 2]));
    assert!(!same_bytes(&[1, 2, 3], &[1, 2, 4]));
    assert!(!same_bytes(&[], &[0]));
}

#[test]
fn push_run_repeats_the_symbol() {
    let mut sink: Vec<u8> = vec![1u8];
    push_run(&mut sink, 9, 3);
    push_run(&mut sink, 8, 0);
    assert_eq!(sink, vec![1u8, 9, 9, 9]);
}

#[test]
fn write_formatted_writes_eight_digits() {
    let mut sink: Vec<u8> = vec![b'>'];
    write_formatted("Sum".as_bytes(), 0x00AB_09F0, &mut sink);
    assert_eq!(sink, ">Sum<0x00AB09F0>".as_bytes());
    sink.clear();
    write_formatted(&[], u32::MAX, &mut sink);
    assert_eq!(sink, "<0xFFFFFFFF>".as_bytes());
}
