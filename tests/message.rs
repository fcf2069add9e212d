use sbd::{Header, InformationElement, Message, Payload, SbdError};

fn header() -> Header {
    Header { client_msg_id: 0x01020304, imei: *b"300034010123450", disposition_flags: 0x0001 }
}

fn sample() -> Message {
    let elements = vec![
        InformationElement::H(header()),
        InformationElement::P(Payload { payload: vec![0xde, 0xad, 0xbe, 0xef] }),
    ];
    Message::new(elements).unwrap()
}

fn sample_bytes() -> Vec<u8> {
    let mut v = vec![1, 0x00, 31, 0x41, 0x00, 0x15, 0x01, 0x02, 0x03, 0x04];
    v.extend_from_slice(b"300034010123450");
    v.extend_from_slice(&[0x00, 0x01, 0x42, 0x00, 0x04, 0xde, 0xad, 0xbe, 0xef]);
    v
}

#[test]
fn message_encodes_exact_frame() {
    assert_eq!(sample().to_vec(), sample_bytes());
}

#[test]
fn payload_write_and_len() {
    let p = Payload { payload: vec![7, 8, 9] };
    let mut out = vec![];
    assert_eq!(p.len(), 3);
    assert_eq!(p.write(&mut out), 6);
    assert_eq!(out, vec![0x42, 0x00, 0x03, 7, 8, 9]);
    let e = InformationElement::P(p);
    let mut out2 = vec![];
    assert_eq!(e.write(&mut out2), 6);
    assert_eq!(e.encoded_len(), 6);
    assert_eq!(out, out2);
}

#[test]
fn round_trip_decode_of_encode() {
    let m = sample();
    let bytes = m.to_vec();
    let d = Message::decode(&bytes).unwrap();
    assert_eq!(d, m);
}

#[test]
fn round_trip_keeps_order_of_elements() {
    let elements = vec![
        InformationElement::P(Payload { payload: vec![1] }),
        InformationElement::H(header()),
    ];
    let m = Message::new(elements.clone()).unwrap();
    assert_eq!(m.to_vec()[3], 0x42);
    let d = Message::decode(&m.to_vec()).unwrap();
    assert_eq!(d.elements(), &elements);
}

#[test]
fn decode_ignores_bytes_after_frame() {
    let mut bytes = sample_bytes();
    bytes.extend_from_slice(&[9, 9, 9]);
    assert_eq!(Message::decode(&bytes).unwrap(), sample());
}

#[test]
fn decode_rejects_protocol_revision() {
    let mut bytes = sample_bytes();
    bytes[0] = 2;
    assert_eq!(Message::decode(&bytes), Err(SbdError::InvalidProtocolRevisionNumber(2)));
    assert_eq!(Message::decode(&[7]), Err(SbdError::InvalidProtocolRevisionNumber(7)));
}

#[test]
fn decode_oversized() {
    assert_eq!(Message::decode(&[1, 0x07, 0x7e]), Err(SbdError::Oversized));
    assert_eq!(Message::decode(&[1, 0xff, 0xff, 0]), Err(SbdError::Oversized));
}

#[test]
fn decode_undersized() {
    assert_eq!(Message::decode(&[]), Err(SbdError::Undersized(0)));
    assert_eq!(Message::decode(&[1, 0]), Err(SbdError::Undersized(2)));
    let bytes = sample_bytes();
    assert_eq!(Message::decode(&bytes[..20]), Err(SbdError::Undersized(20)));
}

#[test]
fn decode_missing_payload() {
    let mut bytes = vec![1, 0x00, 24];
    bytes.extend_from_slice(&header().to_vec());
    assert_eq!(Message::decode(&bytes), Err(SbdError::MissingMobileTerminatedPayload));
}

#[test]
fn decode_missing_header() {
    let bytes = vec![1, 0x00, 4, 0x42, 0x00, 0x01, 0x55];
    assert_eq!(Message::decode(&bytes), Err(SbdError::MissingMobileTerminatedHeader));
}

#[test]
fn decode_invalid_information_element() {
    // unknown tag
    assert_eq!(Message::decode(&[1, 0, 4, 0x99, 0, 1, 0]), Err(SbdError::InvalidInformationElement));
    // payload running past the overall length
    assert_eq!(Message::decode(&[1, 0, 4, 0x42, 0, 2, 0, 0]), Err(SbdError::InvalidInformationElement));
    // empty payload
    assert_eq!(Message::decode(&[1, 0, 3, 0x42, 0, 0]), Err(SbdError::InvalidInformationElement));
}

#[test]
fn new_rejects_bad_elements() {
    let empty = vec![InformationElement::H(header()), InformationElement::P(Payload { payload: vec![] })];
    assert_eq!(Message::new(empty), Err(SbdError::InvalidInformationElement));
    let big = vec![
        InformationElement::H(header()),
        InformationElement::P(Payload { payload: vec![0; 1890] }),
        InformationElement::P(Payload { payload: vec![0; 1] }),
    ];
    assert_eq!(Message::new(big), Err(SbdError::Oversized));
    let no_payload = vec![InformationElement::H(header())];
    assert_eq!(Message::new(no_payload), Err(SbdError::MissingMobileTerminatedPayload));
    let no_header = vec![InformationElement::P(Payload { payload: vec![1] })];
    assert_eq!(Message::new(no_header), Err(SbdError::MissingMobileTerminatedHeader));
}

#[test]
fn largest_message_round_trips() {
    let elements = vec![
        InformationElement::H(header()),
        InformationElement::P(Payload { payload: vec![0x5a; 1890] }),
    ];
    let m = Message::new(elements).unwrap();
    let bytes = m.to_vec();
    assert_eq!(bytes.len(), 3 + 1917);
    assert_eq!(&bytes[..3], &[1, 0x07, 0x7d]);
    assert_eq!(Message::decode(&bytes).unwrap(), m);
}


#[test]
fn repeated_elements_are_refused() {
    let two_payloads = vec![
        InformationElement::P(Payload { payload: vec![1] }),
        InformationElement::H(header()),
        InformationElement::P(Payload { payload: vec![2, 3] }),
    ];
    assert_eq!(Message::new(two_payloads), Err(SbdError::InvalidInformationElement));
    let two_headers = vec![
        InformationElement::H(header()),
        InformationElement::H(header()),
        InformationElement::P(Payload { payload: vec![2, 3] }),
    ];
    assert_eq!(Message::new(two_headers), Err(SbdError::InvalidInformationElement));
    let mut bytes = vec![1, 0x00, 35];
    bytes.extend_from_slice(&sample_bytes()[3..]);
    bytes.extend_from_slice(&[0x42, 0x00, 0x01, 0x77]);
    assert_eq!(Message::decode(&bytes), Err(SbdError::InvalidInformationElement));
}
