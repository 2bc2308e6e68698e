use dns_resolver::buffer::BytePacketBuffer;
use dns_resolver::error::DnsError;

#[test]
fn new_buffer_is_512_zero_bytes_at_position_zero() {
    let buffer = BytePacketBuffer::new();
    assert_eq!(buffer.buf.len(), 512);
    assert!(buffer.buf.iter().all(|b| *b == 0));
    assert_eq!(buffer.pos(), 0);
}

#[test]
fn read_returns_bytes_in_order_and_moves_the_position() {
    let mut buffer = BytePacketBuffer::new();
    buffer.buf[0] = 0xAB;
    buffer.buf[1] = 0xCD;
    assert_eq!(buffer.read(), Ok(0xAB));
    assert_eq!(buffer.pos(), 1);
    assert_eq!(buffer.read(), Ok(0xCD));
    assert_eq!(buffer.pos(), 2);
}

#[test]
fn read_at_the_end_fails_with_buffer_bounds_and_stays() {
    let mut buffer = BytePacketBuffer::new();
    buffer.seek(512).unwrap();
    assert_eq!(buffer.buf.len(), 512);
    assert_eq!(buffer.read(), Err(DnsError::BufferBounds));
    assert_eq!(buffer.pos(), 512);
}

#[test]
fn read_u16_and_u32_are_big_endian() {
    let mut buffer = BytePacketBuffer::new();
    buffer.buf[0] = 0x12;
    buffer.buf[1] = 0x34;
    buffer.buf[2] = 0xDE;
    buffer.buf[3] = 0xAD;
    buffer.buf[4] = 0xBE;
    buffer.buf[5] = 0xEF;
    assert_eq!(buffer.read_u16(), Ok(0x1234));
    assert_eq!(buffer.read_u32(), Ok(0xDEADBEEF));
    assert_eq!(buffer.pos(), 6);
}

#[test]
fn read_u16_that_fails_on_its_second_byte_has_moved_one_byte() {
    let mut buffer = BytePacketBuffer::new();
    buffer.seek(511).unwrap();
    assert_eq!(buffer.read_u16(), Err(DnsError::BufferBounds));
    assert_eq!(buffer.pos(), 512);
}

#[test]
fn read_u32_that_fails_has_moved_past_what_it_read() {
    let mut buffer = BytePacketBuffer::new();
    buffer.seek(509).unwrap();
    assert_eq!(buffer.read_u32(), Err(DnsError::BufferBounds));
    assert_eq!(buffer.pos(), 512);
}

#[test]
fn get_and_get_range_check_bounds_and_do_not_move() {
    let mut buffer = BytePacketBuffer::new();
    buffer.buf[10] = 7;
    buffer.buf[11] = 8;
    assert_eq!(buffer.get(10), Ok(7));
    assert_eq!(buffer.get(511), Ok(0));
    assert_eq!(buffer.get(512), Err(DnsError::BufferBounds));
    assert_eq!(buffer.get_range(10, 2), Ok(&[7u8, 8u8][..]));
    assert_eq!(buffer.get_range(510, 2), Ok(&[0u8, 0u8][..]));
    assert_eq!(buffer.get_range(512, 0), Ok(&[][..]));
    assert_eq!(buffer.get_range(511, 2), Err(DnsError::BufferBounds));
    assert_eq!(buffer.get_range(usize::MAX, 2), Err(DnsError::BufferBounds));
    assert_eq!(buffer.pos(), 0);
}

#[test]
fn step_and_seek_within_the_store_do_not_grow_it() {
    let mut buffer = BytePacketBuffer::new();
    assert_eq!(buffer.step(100), Ok(()));
    assert_eq!(buffer.pos(), 100);
    assert_eq!(buffer.seek(512), Ok(()));
    assert_eq!(buffer.pos(), 512);
    assert_eq!(buffer.buf.len(), 512);
    assert_eq!(buffer.seek(3), Ok(()));
    assert_eq!(buffer.pos(), 3);
}

#[test]
fn seek_past_the_end_doubles_the_store() {
    let mut buffer = BytePacketBuffer::new();
    buffer.seek(513).unwrap();
    assert_eq!(buffer.buf.len(), 1024);
    assert_eq!(buffer.pos(), 513);
}

#[test]
fn seek_far_past_the_end_grows_to_fit_exactly() {
    let mut buffer = BytePacketBuffer::new();
    buffer.seek(5000).unwrap();
    assert_eq!(buffer.buf.len(), 5000);
    assert!(buffer.buf.iter().all(|b| *b == 0));
}

#[test]
fn step_past_the_end_grows_the_store() {
    let mut buffer = BytePacketBuffer::new();
    buffer.seek(500).unwrap();
    buffer.step(13).unwrap();
    assert_eq!(buffer.pos(), 513);
    assert_eq!(buffer.buf.len(), 1024);
}

#[test]
fn step_beyond_the_last_position_fails_and_changes_nothing() {
    let mut buffer = BytePacketBuffer::new();
    buffer.pos = usize::MAX - 1;
    assert_eq!(buffer.step(2), Err(DnsError::BufferBounds));
    assert_eq!(buffer.pos, usize::MAX - 1);
    assert_eq!(buffer.buf.len(), 512);
}

#[test]
fn write_at_the_last_position_fails_and_changes_nothing() {
    let mut buffer = BytePacketBuffer::new();
    buffer.pos = usize::MAX;
    assert_eq!(buffer.write(1), Err(DnsError::BufferBounds));
    assert_eq!(buffer.write_u16(1), Err(DnsError::BufferBounds));
    assert_eq!(buffer.write_u32(1), Err(DnsError::BufferBounds));
    assert_eq!(buffer.write_bytes(&[1, 2]), Err(DnsError::BufferBounds));
    assert_eq!(buffer.pos, usize::MAX);
    assert_eq!(buffer.buf.len(), 512);
}

#[test]
fn write_bytes_of_nothing_succeeds_anywhere() {
    let mut buffer = BytePacketBuffer::new();
    buffer.pos = usize::MAX;
    assert_eq!(buffer.write_bytes(&[]), Ok(()));
    assert_eq!(buffer.pos, usize::MAX);
}

#[test]
fn write_u16_and_u32_are_big_endian() {
    let mut buffer = BytePacketBuffer::new();
    buffer.write_u8(0x01).unwrap();
    buffer.write_u16(0x1234).unwrap();
    buffer.write_u32(0xDEADBEEF).unwrap();
    assert_eq!(&buffer.buf[0..7], &[0x01, 0x12, 0x34, 0xDE, 0xAD, 0xBE, 0xEF]);
    assert_eq!(buffer.pos(), 7);
    assert_eq!(buffer.buf.len(), 512);
}

#[test]
fn writing_beyond_the_capacity_keeps_what_was_written() {
    let mut buffer = BytePacketBuffer::new();
    let first: Vec<u8> = (0..512u32).map(|i| (i % 251) as u8 + 1).collect();
    let more: Vec<u8> = (0..700u32).map(|i| (i % 13) as u8 + 100).collect();
    for b in &first {
        buffer.write(*b).unwrap();
    }
    assert_eq!(buffer.buf.len(), 512);
    assert_eq!(&buffer.buf[0..512], &first[..]);
    buffer.write_bytes(&more).unwrap();
    assert_eq!(buffer.pos(), 1212);
    assert_eq!(buffer.buf.len(), 2048);
    assert_eq!(&buffer.buf[0..512], &first[..]);
    assert_eq!(&buffer.buf[512..1212], &more[..]);
    assert!(buffer.buf[1212..].iter().all(|b| *b == 0));
    buffer.seek(0).unwrap();
    for b in first.iter().chain(more.iter()) {
        assert_eq!(buffer.read(), Ok(*b));
    }
    assert_eq!(buffer.get_range(0, 512).unwrap(), &first[..]);
    assert_eq!(buffer.get_range(512, 700).unwrap(), &more[..]);
}

#[test]
fn the_first_write_beyond_the_capacity_doubles_it() {
    let mut buffer = BytePacketBuffer::new();
    buffer.seek(512).unwrap();
    buffer.write(9).unwrap();
    assert_eq!(buffer.buf.len(), 1024);
    assert_eq!(buffer.buf[512], 9);
    assert_eq!(buffer.pos(), 513);
}

#[test]
fn set_overwrites_in_place_and_never_grows() {
    let mut buffer = BytePacketBuffer::new();
    assert_eq!(buffer.set(5, 0x55), Ok(()));
    assert_eq!(buffer.buf[5], 0x55);
    assert_eq!(buffer.pos(), 0);
    assert_eq!(buffer.set(512, 1), Err(DnsError::BufferBounds));
    assert_eq!(buffer.buf.len(), 512);
}

#[test]
fn set_u16_overwrites_two_bytes_big_endian() {
    let mut buffer = BytePacketBuffer::new();
    assert_eq!(buffer.set_u16(8, 0xBEEF), Ok(()));
    assert_eq!(&buffer.buf[8..10], &[0xBE, 0xEF]);
    assert_eq!(buffer.set_u16(512, 1), Err(DnsError::BufferBounds));
    assert_eq!(buffer.buf.len(), 512);
}

#[test]
fn set_u16_across_the_end_writes_the_first_byte_and_fails() {
    let mut buffer = BytePacketBuffer::new();
    assert_eq!(buffer.set_u16(511, 0xBEEF), Err(DnsError::BufferBounds));
    assert_eq!(buffer.buf[511], 0xBE);
    assert_eq!(buffer.buf.len(), 512);
}

#[test]
fn clear_and_reset_give_a_fresh_store() {
    let mut buffer = BytePacketBuffer::new();
    buffer.seek(3000).unwrap();
    buffer.write(1).unwrap();
    buffer.clear();
    assert_eq!(buffer.buf.len(), 512);
    assert!(buffer.buf.iter().all(|b| *b == 0));
    assert_eq!(buffer.pos(), 0);
    buffer.write_u32(0xFFFF_FFFF).unwrap();
    assert_eq!(buffer.reset(), Ok(()));
    assert_eq!(buffer.buf.len(), 512);
    assert!(buffer.buf.iter().all(|b| *b == 0));
    assert_eq!(buffer.pos(), 0);
}

#[test]
fn an_empty_store_grows_to_what_is_asked() {
    let mut buffer = BytePacketBuffer { buf: Vec::new(), pos: 0 };
    assert_eq!(buffer.read(), Err(DnsError::BufferBounds));
    buffer.write(7).unwrap();
    assert_eq!(buffer.buf, vec![7]);
    buffer.write(8).unwrap();
    assert_eq!(buffer.buf, vec![7, 8]);
    buffer.write(9).unwrap();
    assert_eq!(buffer.buf, vec![7, 8, 9, 0]);
}
