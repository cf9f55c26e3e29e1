use dolomedes::node_id::NodeId;

fn id_with(first: u8, last: u8) -> NodeId {
    let mut b = [0u8; 32];
    b[0] = first;
    b[31] = last;
    NodeId::from_be_bytes(b)
}

#[test]
fn big_endian_bytes_round_trip() {
    let mut b = [0u8; 32];
    for (i, x) in b.iter_mut().enumerate() {
        *x = i as u8;
    }
    let id = NodeId::from_be_bytes(b);
    assert_eq!(id.to_be_bytes(), b);
    assert_eq!(NodeId::from_be_slice(&b), id);
}

#[test]
fn little_endian_bytes_are_reversed() {
    let id = id_with(0xAB, 0x01);
    let le = id.to_le_bytes();
    assert_eq!(le[0], 0x01);
    assert_eq!(le[31], 0xAB);
}

#[test]
fn xor_of_equal_ids_is_zero() {
    let a = id_with(0x12, 0x34);
    let z = a.xor(&a);
    assert_eq!(z.to_be_bytes(), [0u8; 32]);
    assert_eq!(z.leading_zeros(), 256);
}

#[test]
fn xor_is_bytewise() {
    let a = id_with(0xF0, 0x0F);
    let b = id_with(0x0F, 0x0F);
    let x = a.xor(&b);
    assert_eq!(x, id_with(0xFF, 0x00));
    assert_eq!(a.xor(&b), b.xor(&a));
}

#[test]
fn leading_zeros_counts_bits() {
    assert_eq!(id_with(0x80, 0).leading_zeros(), 0);
    assert_eq!(id_with(0x01, 0).leading_zeros(), 7);
    assert_eq!(id_with(0, 1).leading_zeros(), 255);
    let mut b = [0u8; 32];
    b[2] = 0x10;
    assert_eq!(NodeId::from_be_bytes(b).leading_zeros(), 19);
}

#[test]
fn less_than_is_numeric_order() {
    assert!(id_with(0, 5).less_than(&id_with(0, 6)));
    assert!(id_with(0, 0xFF).less_than(&id_with(1, 0)));
    assert!(!id_with(1, 0).less_than(&id_with(0, 0xFF)));
    assert!(!id_with(3, 3).less_than(&id_with(3, 3)));
}

#[test]
fn words_are_big_endian_quarters() {
    let mut b = [0u8; 32];
    b[7] = 1;
    b[8] = 2;
    b[31] = 3;
    let (w0, w1, w2, w3) = NodeId::from_be_bytes(b).to_words();
    assert_eq!(w0, 1);
    assert_eq!(w1, 2u64 << 56);
    assert_eq!(w2, 0);
    assert_eq!(w3, 3);
}
