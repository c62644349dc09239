use dnsrust::error::DnsError;
use dnsrust::packets::BytePacketBuffer;

#[test]
fn new_buffer_is_zeroed_and_at_start() {
    let b = BytePacketBuffer::new();
    assert_eq!(b.pos(), 0);
    assert!(b.buf.iter().all(|x| *x == 0));
}

#[test]
fn write_and_read_integers_big_endian() {
    let mut b = BytePacketBuffer::new();
    b.write_u8(0xAB).unwrap();
    b.write_u16(0x1A2B).unwrap();
    b.write_u32(0xDEADBEEF).unwrap();
    assert_eq!(b.pos(), 7);
    assert_eq!(&b.buf[0..7], &[0xAB, 0x1A, 0x2B, 0xDE, 0xAD, 0xBE, 0xEF]);
    b.seek(0).unwrap();
    assert_eq!(b.read(), Ok(0xAB));
    assert_eq!(b.read_u16(), Ok(0x1A2B));
    assert_eq!(b.read_u32(), Ok(0xDEADBEEF));
    assert_eq!(b.pos(), 7);
}

#[test]
fn read_at_capacity_fails() {
    let mut b = BytePacketBuffer::new();
    b.seek(512).unwrap();
    assert_eq!(b.read(), Err(DnsError::BufferBounds));
    assert_eq!(b.pos(), 512);
    b.seek(511).unwrap();
    assert_eq!(b.read_u16(), Err(DnsError::BufferBounds));
    assert_eq!(b.pos(), 512);
    b.seek(509).unwrap();
    assert_eq!(b.read_u32(), Err(DnsError::BufferBounds));
    b.seek(508).unwrap();
    assert_eq!(b.read_u32(), Ok(0));
    assert_eq!(b.pos(), 512);
}

#[test]
fn write_at_capacity_fails() {
    let mut b = BytePacketBuffer::new();
    b.seek(511).unwrap();
    assert_eq!(b.write_u16(0x0102), Err(DnsError::BufferBounds));
    assert_eq!(b.pos(), 512);
    assert_eq!(b.buf[511], 0x01);
    assert_eq!(b.write_u8(9), Err(DnsError::BufferBounds));
    assert_eq!(b.write(9), Err(DnsError::BufferBounds));
    b.seek(510).unwrap();
    assert_eq!(b.write_u32(1), Err(DnsError::BufferBounds));
    b.seek(508).unwrap();
    assert_eq!(b.write_u32(0x01020304), Ok(()));
    assert_eq!(&b.buf[508..512], &[1, 2, 3, 4]);
}

#[test]
fn seek_and_step_stay_within_capacity() {
    let mut b = BytePacketBuffer::new();
    assert_eq!(b.step(500), Ok(()));
    assert_eq!(b.pos(), 500);
    assert_eq!(b.step(13), Err(DnsError::BufferBounds));
    assert_eq!(b.pos(), 500);
    assert_eq!(b.step(12), Ok(()));
    assert_eq!(b.pos(), 512);
    assert_eq!(b.seek(513), Err(DnsError::BufferBounds));
    assert_eq!(b.pos(), 512);
    assert_eq!(b.seek(3), Ok(()));
    assert_eq!(b.pos(), 3);
    assert_eq!(b.step(usize::MAX), Err(DnsError::BufferBounds));
}

#[test]
fn get_reads_without_moving() {
    let mut b = BytePacketBuffer::new();
    b.buf[7] = 42;
    assert_eq!(b.get(7), Ok(42));
    assert_eq!(b.pos(), 0);
    assert_eq!(b.get(511), Ok(0));
    assert_eq!(b.get(512), Err(DnsError::BufferBounds));
    b.seek(512).unwrap();
    assert_eq!(b.get(7), Ok(42));
}

#[test]
fn get_range_boundary_is_exact() {
    let mut b = BytePacketBuffer::new();
    b.buf[510] = 1;
    b.buf[511] = 2;
    assert_eq!(b.get_range(510, 2).unwrap(), &[1u8, 2u8][..]);
    assert_eq!(b.get_range(0, 512).unwrap().len(), 512);
    assert_eq!(b.get_range(512, 0).unwrap().len(), 0);
    assert_eq!(b.get_range(510, 3), Err(DnsError::BufferBounds));
    assert_eq!(b.get_range(513, 0), Err(DnsError::BufferBounds));
    assert_eq!(b.get_range(1, usize::MAX), Err(DnsError::BufferBounds));
}

#[test]
fn set_patches_without_moving() {
    let mut b = BytePacketBuffer::new();
    b.seek(10).unwrap();
    assert_eq!(b.set(3, 0x7F), Ok(()));
    assert_eq!(b.set_u16(4, 0xBEEF), Ok(()));
    assert_eq!(&b.buf[3..6], &[0x7F, 0xBE, 0xEF]);
    assert_eq!(b.pos(), 10);
    assert_eq!(b.set(512, 1), Err(DnsError::BufferBounds));
    assert_eq!(b.set_u16(511, 0x0102), Err(DnsError::BufferBounds));
    assert_eq!(b.buf[511], 0x01);
    assert_eq!(b.set_u16(510, 0x0304), Ok(()));
    assert_eq!(&b.buf[510..512], &[3, 4]);
}

#[test]
fn write_bytes_and_zeros() {
    let mut b = BytePacketBuffer::new();
    assert_eq!(b.write_bytes(&[1, 2, 3]), Ok(()));
    assert_eq!(b.write_zeros(2), Ok(()));
    assert_eq!(b.write_bytes(&[4]), Ok(()));
    assert_eq!(&b.buf[0..6], &[1, 2, 3, 0, 0, 4]);
    assert_eq!(b.pos(), 6);
    assert_eq!(b.write_zeros(507), Err(DnsError::BufferBounds));
    assert_eq!(b.pos(), 512);
}

#[test]
fn error_messages() {
    assert_eq!(DnsError::BufferBounds.message(), "End of buffer");
    assert_eq!(DnsError::MalformedName.message(), "Limit of 5 jumps exceeded");
    assert_eq!(
        DnsError::LabelTooLong.message(),
        "Single label exceeds 63 characters of length."
    );
    assert_eq!(DnsError::TransportFailure.message(), "Transport failure");
    assert_eq!(DnsError::NoDelegationProgress.message(), "No delegation progress");
}
