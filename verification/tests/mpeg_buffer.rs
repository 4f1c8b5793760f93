use native32emu::mpeg::buffer::Buffer;

#[test]
fn test_read_bits_msb_first() {
    // 0b1011_0010, 0b1100_0000
    let mut b = Buffer::new(vec![0b1011_0010, 0b1100_0000]);
    assert_eq!(b.read(1), 1);
    assert_eq!(b.read(3), 0b011);
    assert_eq!(b.read(4), 0b0010);
    assert_eq!(b.read(2), 0b11);
}

#[test]
fn test_has_and_ended() {
    let mut b = Buffer::new(vec![0xff, 0xff]);
    assert!(b.has(16));
    assert!(!b.has(17));
    b.read(16);
    assert!(b.has_ended());
}

#[test]
fn test_read_past_end_returns_zero() {
    let mut b = Buffer::new(vec![0xab]);
    assert_eq!(b.read(16), 0); // not enough bits
    assert_eq!(b.read(8), 0xab);
}

#[test]
fn test_align() {
    let mut b = Buffer::new(vec![0xff, 0x0f]);
    b.read(3);
    b.align();
    assert_eq!(b.tell(), 1);
    b.align(); // already aligned, no-op
    assert_eq!(b.tell(), 1);
}

#[test]
fn test_skip_bytes() {
    let mut b = Buffer::new(vec![0xff, 0xff, 0xff, 0x01]);
    let skipped = b.skip_bytes(0xff);
    assert_eq!(skipped, 3);
    assert_eq!(b.read(8), 0x01);
}

#[test]
fn test_next_start_code() {
    // padding, then 00 00 01 B3, then a byte
    let mut b = Buffer::new(vec![0x12, 0x34, 0x00, 0x00, 0x01, 0xb3, 0x99]);
    assert_eq!(b.next_start_code(), 0xb3);
    assert_eq!(b.read(8), 0x99);
}

#[test]
fn test_find_start_code_skips_others() {
    // 00 00 01 BA ... 00 00 01 E0
    let mut b = Buffer::new(vec![
        0x00, 0x00, 0x01, 0xba, 0x55, 0x00, 0x00, 0x01, 0xe0, 0x42,
    ]);
    assert_eq!(b.find_start_code(0xe0), 0xe0);
    assert_eq!(b.read(8), 0x42);
}

#[test]
fn test_has_start_code_does_not_consume() {
    let mut b = Buffer::new(vec![0x00, 0x00, 0x01, 0xe0, 0x42]);
    assert_eq!(b.has_start_code(0xe0), 0xe0);
    // position unchanged: still at the start
    assert_eq!(b.tell(), 0);
}


#[test]
fn read_vlc_walks_the_table() {
    let table: [(i16, i16); 4] = [(2, 0), (0, 7), (0, 3), (0, 5)];
    let mut b = Buffer::new(vec![0b0110_0000]);
    assert_eq!(b.read_vlc(&table), 5);
    assert_eq!(b.read_vlc(&table), 7);
    assert_eq!(b.tell(), 0);
    assert_eq!(b.read(5), 0);
}

#[test]
fn read_vlc_uint_past_end_reads_zero_bits() {
    let table: [(i16, u16); 4] = [(2, 9), (0, 7), (0, 3), (0, 5)];
    let mut b = Buffer::new(vec![]);
    assert_eq!(b.read_vlc_uint(&table), 3);
}

#[test]
fn peek_bytes_and_seek() {
    let mut b = Buffer::new(vec![1, 2, 3, 4]);
    b.seek(1);
    assert_eq!(b.tell(), 1);
    assert_eq!(b.peek_bytes(2), Some(&[2u8, 3u8][..]));
    assert_eq!(b.peek_bytes(4), None);
    assert_eq!(b.tell(), 1);
    b.seek(10);
    assert!(b.has_ended());
    assert!(!b.has(1));
    assert!(b.has(0));
}

#[test]
fn peek_non_zero_keeps_position() {
    let mut b = Buffer::new(vec![0b0000_0001, 0xff]);
    assert!(!b.peek_non_zero(7));
    assert!(b.peek_non_zero(8));
    assert_eq!(b.tell(), 0);
    assert!(!b.peek_non_zero(17));
    assert_eq!(b.read(16), 0x01ff);
}

#[test]
fn skip_moves_only_when_bits_remain() {
    let mut b = Buffer::new(vec![0xf0]);
    b.skip(9);
    assert_eq!(b.read(4), 0xf);
    b.skip(4);
    assert!(b.has_ended());
}

#[test]
fn next_start_code_finds_a_code_in_the_last_bytes() {
    let mut b = Buffer::new(vec![0x00, 0x00, 0x01, 0xb3]);
    assert_eq!(b.next_start_code(), 0xb3);
    assert_eq!(b.tell(), 4);
    let mut short = Buffer::new(vec![0x00, 0x00, 0x01]);
    assert_eq!(short.next_start_code(), -1);
    let mut c = Buffer::new(vec![0x00, 0x00, 0x01, 0xb3, 0x00]);
    assert_eq!(c.next_start_code(), 0xb3);
    assert_eq!(c.tell(), 4);
}

#[test]
fn read_splits_like_one_read() {
    let mut a = Buffer::new(vec![0xa5, 0x3c, 0x0f]);
    let mut b = Buffer::new(vec![0xa5, 0x3c, 0x0f]);
    let hi = a.read(5);
    let lo = a.read(13);
    assert_eq!((hi << 13) | lo, b.read(18));
    b.discard_read_bytes();
    assert_eq!(b.tell(), 2);
}
