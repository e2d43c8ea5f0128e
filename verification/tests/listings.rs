use assembler::listing::{push_entry, push_hex};
use assembler::memfile::render;

fn hex(n: usize) -> String {
    let mut out = Vec::new();
    push_hex(&mut out, n);
    String::from_utf8(out).unwrap()
}

#[test]
fn hex_has_no_leading_zeros() {
    assert_eq!(hex(0), "0");
    assert_eq!(hex(9), "9");
    assert_eq!(hex(10), "a");
    assert_eq!(hex(15), "f");
    assert_eq!(hex(16), "10");
    assert_eq!(hex(0xFFFF), "ffff");
    assert_eq!(hex(0x10000), "10000");
    assert_eq!(hex(0xdead_beef), "deadbeef");
    assert_eq!(hex(usize::MAX), format!("{:x}", usize::MAX));
}

#[test]
fn hex_appends() {
    let mut out = b"0x".to_vec();
    push_hex(&mut out, 0x2A);
    push_hex(&mut out, 0);
    assert_eq!(out, b"0x2a0".to_vec());
}

#[test]
fn entry_is_a_line() {
    let mut out = Vec::new();
    push_entry(&mut out, b"main", 0x1F);
    push_entry(&mut out, b"", 0);
    push_entry(&mut out, b"a.b_c", 65535);
    assert_eq!(String::from_utf8(out).unwrap(), "main = 0x1f\n = 0x0\na.b_c = 0xffff\n");
}

#[test]
fn entry_lists_bytes_outside_ascii_as_question_marks() {
    let mut out = Vec::new();
    push_entry(&mut out, &[b'a', 0xC3, 0xA9, 0x7F, 0x80], 1);
    assert_eq!(out, b"a??\x7f? = 0x1\n".to_vec());
}

const HEAD: &str = "\n\nADDRESS_RADIX=HEX;\nDATA_RADIX=BIN;\n\nCONTENT BEGIN\n";

#[test]
fn file_of_no_words() {
    assert_eq!(render(&vec![]), format!("WIDTH=16;\nDEPTH=0;{HEAD}END;\n"));
}

#[test]
fn file_of_single_words() {
    let text = render(&vec![1, 2, 0xFFFF]);
    let lines = "\t0  :   0000000000000001;\n\
                 \t1  :   0000000000000010;\n\
                 \t2  :   1111111111111111;\n";
    assert_eq!(text, format!("WIDTH=16;\nDEPTH=3;{HEAD}{lines}END;\n"));
}

#[test]
fn file_with_runs() {
    let mut words = vec![7u16; 3];
    words.extend(vec![0u16; 14]);
    words.push(7);
    words.push(7);
    let text = render(&words);
    let lines = "\t[00..02]  :   0000000000000111;\n\
                 \t[03..10]  :   0000000000000000;\n\
                 \t[11..12]  :   0000000000000111;\n";
    assert_eq!(text, format!("WIDTH=16;\nDEPTH=19;{HEAD}{lines}END;\n"));
}

#[test]
fn file_addresses_have_the_digits_of_the_last_address() {
    let text = render(&vec![0xABCD; 16]);
    assert!(text.contains("\t[0..F]  :   1010101111001101;\n"));
    let text = render(&vec![0xABCD; 17]);
    assert!(text.contains("DEPTH=17;"));
    assert!(text.contains("\t[00..10]  :   1010101111001101;\n"));
    let text = render(&vec![5; 1]);
    assert!(text.contains("DEPTH=1;"));
    assert!(text.contains("\t0  :   0000000000000101;\n"));
}
