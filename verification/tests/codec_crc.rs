use rocketmq_store::codec::bits_to_i64;
use rocketmq_store::codec::get_i64;
use rocketmq_store::codec::get_u32;
use rocketmq_store::codec::get_u64;
use rocketmq_store::codec::i64_to_bits;
use rocketmq_store::codec::put_bytes;
use rocketmq_store::codec::put_i64;
use rocketmq_store::codec::put_u32;
use rocketmq_store::codec::put_u64;
use rocketmq_store::crc::checksum;

#[test]
fn integers_are_written_big_endian() {
    let mut buf = vec![0xEE];
    put_u32(&mut buf, 0x0102_0304);
    put_u64(&mut buf, 0x1122_3344_5566_7788);
    put_i64(&mut buf, -2);
    put_bytes(&mut buf, &[9, 8]);
    assert_eq!(
        buf,
        vec![
            0xEE, 1, 2, 3, 4, 0x11, 0x22, 0x33, 0x44, 0x55, 0x66, 0x77, 0x88, 0xFF, 0xFF, 0xFF,
            0xFF, 0xFF, 0xFF, 0xFF, 0xFE, 9, 8
        ]
    );
    assert_eq!(get_u32(&buf, 1), 0x0102_0304);
    assert_eq!(get_u64(&buf, 5), 0x1122_3344_5566_7788);
    assert_eq!(get_i64(&buf, 13), -2);
}

#[test]
fn integers_round_trip_at_their_limits() {
    for x in [0u32, 1, 255, 256, 0xFFFF_FFFF] {
        let mut buf = Vec::new();
        put_u32(&mut buf, x);
        assert_eq!(buf, x.to_be_bytes().to_vec());
        assert_eq!(get_u32(&buf, 0), x);
    }
    for x in [0u64, 1, 0xFFFF_FFFF, 0x1_0000_0000, u64::MAX] {
        let mut buf = Vec::new();
        put_u64(&mut buf, x);
        assert_eq!(buf, x.to_be_bytes().to_vec());
        assert_eq!(get_u64(&buf, 0), x);
    }
    for x in [0i64, 1, -1, i64::MAX, i64::MIN, -626_843_481] {
        let mut buf = Vec::new();
        put_i64(&mut buf, x);
        assert_eq!(buf, x.to_be_bytes().to_vec());
        assert_eq!(get_i64(&buf, 0), x);
        assert_eq!(i64_to_bits(x), x as u64);
        assert_eq!(bits_to_i64(x as u64), x);
    }
}

#[test]
fn check_value_of_known_inputs() {
    assert_eq!(checksum(b""), 0);
    assert_eq!(checksum(b"123456789"), 0xCBF4_3926);
    assert_eq!(checksum(b"a"), 0xE8B7_BE43);
    assert_eq!(checksum(b"The quick brown fox jumps over the lazy dog"), 0x414F_A339);
    assert_ne!(checksum(&[0]), checksum(&[0, 0]));
}
