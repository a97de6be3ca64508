use error_bitmap::bitmap::{parse_signal, Bitmap};

fn signal_bytes(counter_hi: u8, counter_lo: u8, bitmap: [u8; 32]) -> Vec<u8> {
    let mut data = vec![0u8; 30];
    data.push(counter_hi);
    data.push(counter_lo);
    data.extend_from_slice(&bitmap);
    data
}

#[test]
fn parse_reads_counter_and_bitmap() {
    let mut bm = [0u8; 32];
    bm[0] = 0x40;
    bm[31] = 0x01;
    let s = parse_signal(&signal_bytes(0, 3, bm)).unwrap();
    assert_eq!(s.counter, 3);
    assert_eq!(s.bitmap, Bitmap::new(bm));
}

#[test]
fn parse_counter_is_big_endian() {
    let s = parse_signal(&signal_bytes(1, 2, [0u8; 32])).unwrap();
    assert_eq!(s.counter, 258);
}

#[test]
fn parse_ignores_trailing_bytes() {
    let mut data = signal_bytes(0, 1, [0xff; 32]);
    data.extend_from_slice(&[5u8; 32]);
    let s = parse_signal(&data).unwrap();
    assert_eq!(s.counter, 1);
    assert_eq!(s.bitmap.bytes, [0xff; 32]);
}

#[test]
fn parse_rejects_short_data() {
    let data = signal_bytes(0, 1, [0u8; 32]);
    assert!(parse_signal(&data[..63].to_vec()).is_none());
    assert!(parse_signal(&vec![]).is_none());
}

#[test]
fn parse_rejects_counter_wider_than_16_bits() {
    let mut data = signal_bytes(0, 1, [0u8; 32]);
    data[29] = 1;
    assert!(parse_signal(&data).is_none());
}

#[test]
fn bitmap_bits_count_from_least_significant() {
    let mut bytes = [0u8; 32];
    bytes[0] = 0x80;
    bytes[31] = 0x02;
    let bm = Bitmap::new(bytes);
    assert!(bm.bit(255));
    assert!(!bm.bit(254));
    assert!(bm.bit(1));
    assert!(!bm.bit(0));
}
