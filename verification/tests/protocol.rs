use means_to_an_end::codec::{encode_request, MalformedFrame, Request, Response};

fn frame(tag: u8, a: i32, b: i32) -> [u8; 9] {
    let mut data = [0u8; 9];
    data[0] = tag;
    data[1..5].copy_from_slice(&a.to_be_bytes());
    data[5..9].copy_from_slice(&b.to_be_bytes());
    data
}

#[test]
fn decode_insert_frame() {
    let data = frame(b'I', 12345, -1);
    assert_eq!(Request::from_bytes(&data), Ok(Request::Insert(12345, -1)));
}

#[test]
fn decode_query_frame() {
    let data = frame(b'Q', 1000, 100000);
    assert_eq!(Request::from_bytes(&data), Ok(Request::Query(1000, 100000)));
}

#[test]
fn decode_exact_bytes() {
    // 'I', 0x00003039 = 12345, 0x000101a8 = 65960
    let data = [0x49, 0x00, 0x00, 0x30, 0x39, 0x00, 0x01, 0x01, 0xa8];
    assert_eq!(Request::from_bytes(&data), Ok(Request::Insert(12345, 65960)));
}

#[test]
fn decode_negative_operands() {
    // 0xFFFFFFFF = -1, 0x80000000 = i32::MIN
    let data = [0x51, 0xff, 0xff, 0xff, 0xff, 0x80, 0x00, 0x00, 0x00];
    assert_eq!(Request::from_bytes(&data), Ok(Request::Query(-1, i32::MIN)));
}

#[test]
fn decode_malformed_tag() {
    let data = frame(b'X', 1, 2);
    assert_eq!(Request::from_bytes(&data), Err(MalformedFrame));
}

#[test]
fn round_trip_insert() {
    for &(t, p) in &[(0, 0), (1000, 100), (-5, -100), (i32::MIN, i32::MAX), (i32::MAX, i32::MIN)] {
        let req = Request::Insert(t, p);
        let bytes = encode_request(&req);
        assert_eq!(bytes.len(), 9);
        let mut data = [0u8; 9];
        data.copy_from_slice(&bytes);
        assert_eq!(Request::from_bytes(&data), Ok(req));
        assert_eq!(data, frame(b'I', t, p));
    }
}

#[test]
fn round_trip_query() {
    for &(lo, hi) in &[(0, 0), (-1000, 1000), (i32::MIN, i32::MAX), (7, -7)] {
        let req = Request::Query(lo, hi);
        let bytes = encode_request(&req);
        let mut data = [0u8; 9];
        data.copy_from_slice(&bytes);
        assert_eq!(Request::from_bytes(&data), Ok(req));
        assert_eq!(data, frame(b'Q', lo, hi));
    }
}

#[test]
fn response_encodes_big_endian() {
    assert_eq!(Response::new(1).to_bytes(), vec![0x00, 0x00, 0x00, 0x01]);
    assert_eq!(Response::new(0).to_bytes(), vec![0x00, 0x00, 0x00, 0x00]);
    assert_eq!(Response::new(-1).to_bytes(), vec![0xff, 0xff, 0xff, 0xff]);
    assert_eq!(Response::new(200).to_bytes(), vec![0x00, 0x00, 0x00, 0xc8]);
    assert_eq!(Response::new(i32::MIN).to_bytes(), vec![0x80, 0x00, 0x00, 0x00]);
    assert_eq!(Response::new(5151).to_bytes(), 5151i32.to_be_bytes().to_vec());
}

#[test]
fn response_new_and_default() {
    assert_eq!(Response::new(42).price, 42);
    assert_eq!(Response::default().price, 0);
}
