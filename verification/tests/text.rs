use sqsh::text::{append_decimal, append_list, append_symbol, append_symbol_spread};

#[test]
fn decimal_numbers() {
    let mut text = String::from("n=");
    append_decimal(&mut text, 0);
    text.push(' ');
    append_decimal(&mut text, 9);
    text.push(' ');
    append_decimal(&mut text, 10);
    text.push(' ');
    append_decimal(&mut text, 4096);
    text.push(' ');
    append_decimal(&mut text, usize::MAX);
    assert_eq!(text, format!("n=0 9 10 4096 {}", usize::MAX));
}

#[test]
fn symbols_that_may_be_missing() {
    let mut text = String::new();
    append_symbol(&mut text, None);
    text.push(' ');
    append_symbol(&mut text, Some(0));
    text.push(' ');
    append_symbol(&mut text, Some(255));
    assert_eq!(text, format!("{:?} {:?} {:?}", None::<u8>, Some(0u8), Some(255u8)));
    let mut text = String::new();
    append_symbol_spread(&mut text, None);
    text.push(' ');
    append_symbol_spread(&mut text, Some(97));
    assert_eq!(text, format!("{:#?} {:#?}", None::<u8>, Some(97u8)));
    assert_eq!(text, "None Some(\n    97,\n)");
}

#[test]
fn lists_of_bytes() {
    let mut text = String::from("[");
    append_list(&mut text, &[]);
    text.push_str("] [");
    append_list(&mut text, &[7]);
    text.push_str("] [");
    append_list(&mut text, &[1, 20, 255]);
    text.push(']');
    assert_eq!(text, "[] [7] [1, 20, 255]");
}
