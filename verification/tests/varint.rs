use schem::encode::push_varint;

fn varint(value: usize) -> Vec<u8> {
    let mut out = Vec::new();
    push_varint(&mut out, value);
    out
}

#[test]
fn varint_130_takes_two_bytes() {
    assert_eq!(varint(130), vec![0x82, 0x01]);
}

#[test]
fn varint_5_takes_one_byte() {
    assert_eq!(varint(5), vec![0x05]);
}

#[test]
fn varint_boundaries() {
    assert_eq!(varint(0), vec![0x00]);
    assert_eq!(varint(127), vec![0x7F]);
    assert_eq!(varint(128), vec![0x80, 0x01]);
    assert_eq!(varint(16384), vec![0x80, 0x80, 0x01]);
}

#[test]
fn varint_concatenates() {
    let mut out = Vec::new();
    push_varint(&mut out, 5);
    push_varint(&mut out, 130);
    assert_eq!(out, vec![0x05, 0x82, 0x01]);
}
