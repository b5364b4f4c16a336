use sqsh::processors::Duplicate;
use sqsh::streaming::Process;

fn test_process<P: Process + Default>(source: &[u8], expected: &[u8]) {
    let mut d: P = Default::default();
    let mut result: Vec<u8> = Vec::new();
    d.process(source, &mut result).expect("Error");
    let mut fin = Vec::<u8>::new();
    d.finish(&mut fin).expect("Error");
    result.append(&mut fin);
    assert_eq!(result, expected)
}

#[test]
fn test_duplication() {
    test_process::<Duplicate>("Wikipedia".as_bytes(), "Wikipedia".as_bytes());
    test_process::<Duplicate>(
        "Awesome-string-baby".as_bytes(),
        "Awesome-string-baby".as_bytes(),
    );
    test_process::<Duplicate>("This is great".as_bytes(), "This is great".as_bytes());
}

#[test]
fn duplicate_of_nothing_is_nothing() {
    test_process::<Duplicate>(&[], &[]);
    let mut d = Duplicate::new();
    let mut sink = Vec::<u8>::new();
    assert_eq!(d.process(&[1, 2, 3], &mut sink).unwrap(), 3);
    assert_eq!(d.finish(&mut sink).unwrap(), 0);
    assert_eq!(sink, vec![1u8, 2, 3]);
}
