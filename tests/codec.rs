use sqlite_reader::error::DbError;
use sqlite_reader::header::{DatabaseHeader, SQLiteVersion, TextEncoding};
use sqlite_reader::record::{decode_text, serial_width, Record, RecordSerial};
use sqlite_reader::varint::Varint;

fn header_with(page_size: u16, encoding: u32) -> DatabaseHeader {
    let mut b = [0u8; 100];
    b[16] = (page_size >> 8) as u8;
    b[17] = (page_size & 0xff) as u8;
    b[56..60].copy_from_slice(&encoding.to_be_bytes());
    DatabaseHeader::from_bytes(&b)
}

fn encode(value: i64) -> Vec<u8> {
    let v = Varint { value, size: 0 };
    let bytes = v.to_bytes();
    let n = bytes.iter().take(8).take_while(|b| **b >= 0x80).count() + 1;
    bytes[..n].to_vec()
}

#[test]
fn varint_round_trip_every_length() {
    let cases: [(i64, usize); 14] = [
        (0, 1),
        (1, 1),
        (127, 1),
        (128, 2),
        (240, 2),
        (2287, 2),
        (16383, 2),
        (16384, 3),
        ((1 << 49) - 1, 7),
        ((1 << 56) - 1, 8),
        (1 << 56, 9),
        (i64::MAX, 9),
        (i64::MIN, 9),
        (-1, 9),
    ];
    for (value, len) in cases {
        let enc = encode(value);
        assert_eq!(enc.len(), len, "length of {}", value);
        let dec = Varint::from_bytes(&enc);
        assert_eq!(dec.value, value);
        assert_eq!(dec.size as usize, len);
        let mut padded = enc.clone();
        padded.extend_from_slice(&[0xff, 0x01, 0x02]);
        let dec2 = Varint::from_bytes(&padded);
        assert_eq!(dec2.value, value);
        assert_eq!(dec2.size as usize, len);
    }
}

#[test]
fn varint_known_encodings() {
    assert_eq!(Varint { value: 128, size: 0 }.to_bytes(), [0x81, 0x00, 0, 0, 0, 0, 0, 0, 0]);
    assert_eq!(Varint::from_bytes(&[0x81, 0x00]).value, 128);
    assert_eq!(Varint::from_bytes(&[0x7f]).value, 127);
    let nine = [0xffu8; 9];
    let v = Varint::from_bytes(&nine);
    assert_eq!(v.value, -1);
    assert_eq!(v.size, 9);
}

#[test]
fn varint_truncated_input() {
    let v = Varint::from_bytes(&[0x81]);
    assert_eq!(v.size, 1);
    assert_eq!(v.value, 1);
    let e = Varint::from_bytes(&[]);
    assert_eq!(e.size, 0);
    assert_eq!(e.value, 0);
}

#[test]
fn header_fields() {
    let mut b = [0u8; 100];
    b[16] = 0x10;
    b[17] = 0x00;
    b[20] = 4;
    b[28..32].copy_from_slice(&7u32.to_be_bytes());
    b[44..48].copy_from_slice(&4u32.to_be_bytes());
    b[56..60].copy_from_slice(&3u32.to_be_bytes());
    b[96..100].copy_from_slice(&3045001u32.to_be_bytes());
    let h = DatabaseHeader::from_bytes(&b);
    assert_eq!(h.page_size, 4096);
    assert_eq!(h.page_reserved_bytes, 4);
    assert_eq!(h.pages_count, 7);
    assert_eq!(h.schema_format_number, 4);
    assert_eq!(h.text_encoding, TextEncoding::UTF16BE);
    assert_eq!(h.sqlite_version, SQLiteVersion { x: 3, y: 45, z: 1 });
    assert_eq!(SQLiteVersion::parse(3045001u32.to_be_bytes()), SQLiteVersion { x: 3, y: 45, z: 1 });
}

#[test]
fn header_page_size_one_means_65536() {
    let h = header_with(1, 1);
    assert_eq!(h.page_size, 65536);
}

#[test]
fn header_unknown_encoding_falls_back_to_utf8() {
    assert_eq!(header_with(512, 9).text_encoding, TextEncoding::UTF8);
    assert_eq!(header_with(512, 2).text_encoding, TextEncoding::UTF16LE);
}

#[test]
fn zero_width_serial_types_consume_no_content() {
    let db = header_with(512, 1);
    let buf = [7u8, 0, 8, 9, 10, 11, 1, 0x2a];
    let r = Record::from_bytes(&buf, 0, &db).unwrap();
    assert_eq!(r.header_size.value, 7);
    assert_eq!(
        r.content,
        vec![
            RecordSerial::Null,
            RecordSerial::Zero,
            RecordSerial::One,
            RecordSerial::Reserved1,
            RecordSerial::Reserved2,
            RecordSerial::I8(42)
        ]
    );
    for t in [0i64, 8, 9, 10, 11] {
        assert_eq!(serial_width(t), 0);
    }
}

#[test]
fn minus_one_in_every_integer_width() {
    let db = header_with(512, 1);
    let mut buf = vec![7u8, 1, 2, 3, 4, 5, 6];
    buf.extend(std::iter::repeat(0xffu8).take(1 + 2 + 3 + 4 + 6 + 8));
    let r = Record::from_bytes(&buf, 0, &db).unwrap();
    assert_eq!(
        r.content,
        vec![
            RecordSerial::I8(-1),
            RecordSerial::I16(-1),
            RecordSerial::I24(-1),
            RecordSerial::I32(-1),
            RecordSerial::I48(-1),
            RecordSerial::I64(-1)
        ]
    );
}

#[test]
fn integer_widths_big_endian() {
    let db = header_with(512, 1);
    let buf = [
        4u8, 3, 5, 7, 0x01, 0x00, 0x00, 0x00, 0x00, 0x00, 0x00, 0x01, 0x00, 0x3f, 0xf0, 0, 0, 0, 0, 0, 0,
    ];
    let r = Record::from_bytes(&buf, 0, &db).unwrap();
    assert_eq!(r.content[0], RecordSerial::I24(65536));
    assert_eq!(r.content[1], RecordSerial::I48(256));
    match r.content[2] {
        RecordSerial::F64(bits) => assert_eq!(f64::from_bits(bits), 1.0),
        ref other => panic!("{:?}", other),
    }
}

#[test]
fn text_utf16le_and_be_differ() {
    let bytes = [0x48u8, 0x00, 0x69, 0x00];
    let le = header_with(512, 2);
    let be = header_with(512, 3);
    let mut buf = vec![2u8, 13 + 2 * 4];
    buf.extend_from_slice(&bytes);
    let r = Record::from_bytes(&buf, 0, &le).unwrap();
    assert_eq!(r.content, vec![RecordSerial::String("Hi".to_string())]);
    let r2 = Record::from_bytes(&buf, 0, &be).unwrap();
    assert_eq!(r2.content, vec![RecordSerial::String("\u{4800}\u{6900}".to_string())]);
    assert_ne!(r.content, r2.content);
}

#[test]
fn text_decoding_errors() {
    let le = header_with(512, 2);
    let odd = [2u8, 13 + 2 * 3, 0x48, 0x00, 0x69];
    assert_eq!(Record::from_bytes(&odd, 0, &le).unwrap_err(), DbError::Decode);
    let lone_surrogate = [2u8, 13 + 2 * 2, 0x00, 0xd8];
    assert_eq!(Record::from_bytes(&lone_surrogate, 0, &le).unwrap_err(), DbError::Decode);
    let utf8 = header_with(512, 1);
    let bad = [2u8, 13 + 2 * 2, 0xc3, 0x28];
    assert_eq!(Record::from_bytes(&bad, 0, &utf8).unwrap_err(), DbError::Decode);
    assert_eq!(decode_text(&[0x3d, 0xd8, 0x00, 0xde], TextEncoding::UTF16LE), Some("\u{1f600}".to_string()));
    assert_eq!(decode_text("héllo".as_bytes(), TextEncoding::UTF8), Some("héllo".to_string()));
}

#[test]
fn blob_and_text_values() {
    let db = header_with(512, 1);
    let buf = [3u8, 12 + 2 * 2, 13 + 2 * 3, 0xde, 0xad, b'a', b'b', b'c'];
    let r = Record::from_bytes(&buf, 0, &db).unwrap();
    assert_eq!(
        r.content,
        vec![RecordSerial::Blob(vec![0xde, 0xad]), RecordSerial::String("abc".to_string())]
    );
}

#[test]
fn record_format_errors() {
    let db = header_with(512, 1);
    // header longer than the buffer
    assert_eq!(Record::from_bytes(&[9u8, 1], 0, &db).unwrap_err(), DbError::Format);
    // content past the end
    assert_eq!(Record::from_bytes(&[2u8, 6, 1, 2], 0, &db).unwrap_err(), DbError::Format);
    // position past the end
    assert_eq!(Record::from_bytes(&[1u8], 3, &db).unwrap_err(), DbError::Format);
    // header length that does not cover itself
    assert_eq!(Record::from_bytes(&[0u8], 0, &db).unwrap_err(), DbError::Format);
}
