use avi_rs::bytes::{BigEndian, LittleEndian};
use avi_rs::fourcc::FourCC;
use avi_rs::{AviError, AviUtil};

#[test]
fn byteorder() {
    let mut buf = [0u8; 4];
    let u = 43608830 as u32;

    BigEndian::write_u32(u, &mut buf, 0);
    let r = BigEndian::read_u32(&buf, 0);

    println!("Write BigEndian: {:?}", buf);
    println!("Read BigEndian: {}", r);
    assert_eq!(buf, [0x02, 0x99, 0x6A, 0xFE]);

    LittleEndian::write_u32(u, &mut buf, 0);
    let r1 = LittleEndian::read_u32(&buf, 0);

    println!("Write LittleEndian: {:?}", buf);
    println!("Read LittleEndian: {}", r1);
    assert_eq!(buf, [0xFE, 0x6A, 0x99, 0x02]);

    assert_eq!(u, r);
    assert_eq!(u, r1);
}

#[test]
fn parse_stream_index() {
    let buf = b"19";
    let str = std::str::from_utf8(buf).expect("Failed to parse Utf8!");
    let n: u8 = str.parse().expect("Not a number!");

    println!("The number is: {}", n);

    assert_eq!(n, 19);
    assert_eq!(AviUtil::parse_stream_index(&FourCC::from_bytes(b"19wb")), Ok(19));
}

#[test]
fn signed() {
    let mut buf = [0u8; 4];
    let i = -43608830;

    BigEndian::write_i32(i, &mut buf, 0);
    let r = BigEndian::read_i32(&buf, 0);

    println!("Write BigEndian: {:?}", buf);
    println!("Read BigEndian: {}", r);

    LittleEndian::write_i32(i, &mut buf, 0);
    let r1 = LittleEndian::read_i32(&buf, 0);

    println!("Write LittleEndian: {:?}", buf);
    println!("Read LittleEndian: {}", r1);

    assert_eq!(i, r);
    assert_eq!(i, r1);
}

#[test]
fn unsigned_16_round_trip_both_orders() {
    let mut buf = [0u8; 6];
    BigEndian::write_u16(0xBEEF, &mut buf, 1);
    assert_eq!(buf, [0, 0xBE, 0xEF, 0, 0, 0]);
    assert_eq!(BigEndian::read_u16(&buf, 1), 0xBEEF);
    assert_eq!(LittleEndian::read_u16(&buf, 1), 0xEFBE);
    LittleEndian::write_u16(0x1234_BEEF, &mut buf, 3);
    assert_eq!(buf, [0, 0xBE, 0xEF, 0xEF, 0xBE, 0]);
    assert_eq!(LittleEndian::read_u16(&buf, 3), 0xBEEF);
}

#[test]
fn signed_16_reads_twos_complement() {
    let buf = [0xFF, 0xFE, 0x80, 0x00, 0x7F, 0xFF];
    assert_eq!(BigEndian::read_i16(&buf, 0), -2);
    assert_eq!(LittleEndian::read_i16(&buf, 0), -257);
    assert_eq!(BigEndian::read_i16(&buf, 2), i16::MIN);
    assert_eq!(LittleEndian::read_i16(&buf, 2), 128);
    assert_eq!(BigEndian::read_i16(&buf, 4), i16::MAX);
    assert_eq!(LittleEndian::read_i16(&buf, 4), -129);
}

#[test]
fn orders_write_reversed_bytes() {
    let mut be = [0u8; 4];
    let mut le = [0u8; 4];
    BigEndian::write_u32(0x0102_0304, &mut be, 0);
    LittleEndian::write_u32(0x0102_0304, &mut le, 0);
    assert_eq!(be, [1, 2, 3, 4]);
    assert_eq!(le, [4, 3, 2, 1]);
    BigEndian::write_i32(-2, &mut be, 0);
    LittleEndian::write_i32(-2, &mut le, 0);
    assert_eq!(be, [0xFF, 0xFF, 0xFF, 0xFE]);
    assert_eq!(le, [0xFE, 0xFF, 0xFF, 0xFF]);
}

#[test]
fn extreme_values_round_trip() {
    let mut buf = [0u8; 8];
    for n in [0u32, 1, 0x7FFF_FFFF, 0x8000_0000, u32::MAX] {
        BigEndian::write_u32(n, &mut buf, 2);
        assert_eq!(BigEndian::read_u32(&buf, 2), n);
        LittleEndian::write_u32(n, &mut buf, 4);
        assert_eq!(LittleEndian::read_u32(&buf, 4), n);
    }
    for i in [i32::MIN, -1, 0, 1, i32::MAX] {
        BigEndian::write_i32(i, &mut buf, 0);
        assert_eq!(BigEndian::read_i32(&buf, 0), i);
        LittleEndian::write_i32(i, &mut buf, 4);
        assert_eq!(LittleEndian::read_i32(&buf, 4), i);
    }
}

#[test]
fn writes_leave_the_rest_of_the_buffer() {
    let mut buf = [0xAAu8; 8];
    LittleEndian::write_u32(0, &mut buf, 2);
    assert_eq!(buf, [0xAA, 0xAA, 0, 0, 0, 0, 0xAA, 0xAA]);
}

#[test]
fn fourcc_spells_its_bytes() {
    let tag = FourCC::from_bytes(b"LIST");
    assert_eq!(tag, FourCC::from(0x4C49_5354));
    assert_eq!(tag.as_bytes(), *b"LIST");
    assert_eq!(FourCC::from(0x3030_6463).as_bytes(), *b"00dc");
    assert_ne!(FourCC::from_bytes(b"strd"), FourCC::from_bytes(b"strn"));
}

#[test]
fn stream_index_is_two_decimal_digits() {
    assert_eq!(AviUtil::parse_stream_index(&FourCC::from_bytes(b"00dc")), Ok(0));
    assert_eq!(AviUtil::parse_stream_index(&FourCC::from_bytes(b"99db")), Ok(99));
    assert_eq!(AviUtil::parse_stream_index(&FourCC::from_bytes(b"07wb")), Ok(7));
    assert_eq!(
        AviUtil::parse_stream_index(&FourCC::from_bytes(b"Xxwb")),
        Err(AviError::InvalidMoviList)
    );
    assert_eq!(
        AviUtil::parse_stream_index(&FourCC::from_bytes(b"1xwb")),
        Err(AviError::InvalidMoviList)
    );
    assert_eq!(
        AviUtil::parse_stream_index(&FourCC::from_bytes(b"+5wb")),
        Err(AviError::InvalidMoviList)
    );
    assert_eq!(
        AviUtil::parse_stream_index(&FourCC::from_bytes(b"/0wb")),
        Err(AviError::InvalidMoviList)
    );
    assert_eq!(
        AviUtil::parse_stream_index(&FourCC::from_bytes(b":0wb")),
        Err(AviError::InvalidMoviList)
    );
}

#[test]
fn fourcc_name_is_its_four_characters() {
    assert_eq!(FourCC::from_bytes(b"LIST").name(), "LIST");
    assert_eq!(FourCC::from_bytes(b"rec ").name(), "rec ");
    assert_eq!(FourCC::from(0x4100_E97E).name(), "A\0\u{e9}~");
}
