use sbd::Header;

#[test]
fn header_write() {
    let header = Header {
        client_msg_id: 9999,
        imei: [0, 1, 2, 3, 4, 5, 6, 7, 8, 9, 10, 11, 12, 13, 14],
        disposition_flags: 9999,
    };
    let mut msg = vec![];
    let n = header.write(&mut msg);
    // Total size is always 24
    assert_eq!(n, 24);
    assert_eq!(
        msg,
        [
            0x41, 0x00, 0x15, 0x00, 0x00, 0x27, 0x0f, 0x00, 0x01, 0x02, 0x03, 0x04, 0x05, 0x06,
            0x07, 0x08, 0x09, 0x0a, 0x0b, 0x0c, 0x0d, 0x0e, 0x27, 0x0f
        ]
    );
}

#[test]
fn header_to_vec() {
    let header = Header {
        client_msg_id: 9999,
        imei: [0, 1, 2, 3, 4, 5, 6, 7, 8, 9, 10, 11, 12, 13, 14],
        disposition_flags: 9999,
    };
    let output = header.to_vec();

    assert_eq!(
        output,
        [
            0x41, 0x00, 0x15, 0x00, 0x00, 0x27, 0x0f, 0x00, 0x01, 0x02, 0x03, 0x04, 0x05, 0x06,
            0x07, 0x08, 0x09, 0x0a, 0x0b, 0x0c, 0x0d, 0x0e, 0x27, 0x0f
        ]
    );
}

#[test]
fn header_body_len_is_fixed() {
    let header = Header { client_msg_id: 1, imei: [b'3'; 15], disposition_flags: 0 };
    assert_eq!(header.len(), 21);
}
