use sbd::mo::{Confirmation, Header, InformationElement, Location, Message, Payload};
use sbd::session::{Action, Phase, Session};
use sbd::SbdError;

fn header() -> Header {
    Header {
        cdr_reference: 0x0a0b0c0d,
        imei: *b"300234063904190",
        session_status: 0,
        momsn: 75,
        mtmsn: 0,
        time_of_session: 1_436_965_049,
    }
}

fn sample() -> Message {
    let elements = vec![
        InformationElement::H(header()),
        InformationElement::P(Payload { payload: b"test message from pete".to_vec() }),
    ];
    Message::new(elements).unwrap()
}

fn sample_bytes() -> Vec<u8> {
    let mut v = vec![1, 0x00, 56, 0x01, 0x00, 0x1c, 0x0a, 0x0b, 0x0c, 0x0d];
    v.extend_from_slice(b"300234063904190");
    v.extend_from_slice(&[0x00, 0x00, 0x4b, 0x00, 0x00, 0x55, 0xa6, 0x58, 0xb9]);
    v.extend_from_slice(&[0x02, 0x00, 22]);
    v.extend_from_slice(b"test message from pete");
    v
}

#[test]
fn mo_header_bytes() {
    let h = header();
    assert_eq!(h.len(), 28);
    let out = h.to_vec();
    assert_eq!(out.len(), 31);
    assert_eq!(&out[..], &sample_bytes()[3..34]);
}

#[test]
fn mo_encodes_exact_frame() {
    assert_eq!(sample().to_vec(), sample_bytes());
}

#[test]
fn mo_round_trip() {
    let m = sample();
    assert_eq!(Message::decode(&m.to_vec()).unwrap(), m);
}

#[test]
fn mo_missing_payload() {
    let mut bytes = vec![1, 0x00, 31];
    bytes.extend_from_slice(&header().to_vec());
    assert_eq!(Message::decode(&bytes), Err(SbdError::MissingMobileOriginatedPayload));
}

#[test]
fn mo_missing_header() {
    let bytes = vec![1, 0x00, 4, 0x02, 0x00, 0x01, 0x55];
    assert_eq!(Message::decode(&bytes), Err(SbdError::MissingMobileOriginatedHeader));
}

#[test]
fn mo_oversized_and_undersized() {
    assert_eq!(Message::decode(&[1, 0x07, 0xdd]), Err(SbdError::Oversized));
    assert_eq!(Message::decode(&[1, 0x07, 0xdc]), Err(SbdError::Undersized(3)));
    assert_eq!(Message::decode(&[1]), Err(SbdError::Undersized(1)));
    assert_eq!(Message::decode(&sample_bytes()[..40]), Err(SbdError::Undersized(40)));
}

#[test]
fn mo_rejects_terminated_tags() {
    let mut bytes = sample_bytes();
    bytes[3] = 0x41;
    assert_eq!(Message::decode(&bytes), Err(SbdError::InvalidInformationElement));
}

#[test]
fn sessions_resolve_independently() {
    let bytes = sample_bytes();
    let mut good = Session::new();
    let mut cut = Session::new();
    assert!(matches!(good.receive(&bytes[..2]), Action::ReadMore));
    assert_eq!(good.phase(), Phase::AwaitingHeader);
    assert!(matches!(cut.receive(&bytes[..10]), Action::ReadMore));
    assert_eq!(cut.phase(), Phase::AccumulatingBody);
    assert!(matches!(good.receive(&bytes[2..20]), Action::ReadMore));
    match cut.close() {
        Action::Close(e) => assert_eq!(e, SbdError::Undersized(10)),
        _ => panic!("a truncated stream must fail"),
    }
    assert_eq!(cut.phase(), Phase::Failed);
    match good.receive(&bytes[20..]) {
        Action::Store(m) => assert_eq!(m, sample()),
        _ => panic!("a complete frame must be stored"),
    }
    assert_eq!(good.phase(), Phase::Complete);
    assert_eq!(good.received(), &bytes[..]);
}

#[test]
fn session_fails_early_on_revision_and_timeout() {
    let mut s = Session::new();
    match s.receive(&[5]) {
        Action::Close(e) => assert_eq!(e, SbdError::InvalidProtocolRevisionNumber(5)),
        _ => panic!("a bad revision fails at once"),
    }
    assert_eq!(s.phase(), Phase::Failed);
    let mut t = Session::new();
    assert!(matches!(t.receive(&[1, 0, 56, 0x01]), Action::ReadMore));
    match t.abort() {
        Action::Close(e) => assert_eq!(e, SbdError::Io),
        _ => panic!("a timeout fails the session"),
    }
    let mut o = Session::new();
    match o.receive(&[1, 0xff, 0xff]) {
        Action::Close(e) => assert_eq!(e, SbdError::Oversized),
        _ => panic!("an oversized length fails at once"),
    }
}

fn location() -> Location {
    Location { data: vec![0x00, 0x13, 0x39, 0x4b, 0x2d, 0x00, 0x7d, 0x47, 0x00, 0x00, 0x03] }
}

#[test]
fn mo_location_and_confirmation_bytes() {
    let mut out = vec![];
    assert_eq!(location().write(&mut out), 14);
    assert_eq!(&out[..3], &[0x03, 0x00, 0x0b]);
    assert_eq!(&out[3..], &location().data[..]);
    let mut c = vec![];
    assert_eq!(Confirmation { data: vec![1] }.write(&mut c), 4);
    assert_eq!(c, vec![0x05, 0x00, 0x01, 0x01]);
}

#[test]
fn mo_decodes_optional_elements() {
    let mut bytes = sample_bytes();
    bytes[2] = 56 + 14 + 4;
    let mut loc = vec![];
    location().write(&mut loc);
    bytes.extend_from_slice(&loc);
    bytes.extend_from_slice(&[0x05, 0x00, 0x01, 0x01]);
    let m = Message::decode(&bytes).unwrap();
    assert_eq!(m.elements().len(), 4);
    assert_eq!(m.elements()[2], InformationElement::L(location()));
    assert_eq!(m.elements()[3], InformationElement::C(Confirmation { data: vec![1] }));
    assert_eq!(m.to_vec(), bytes);
}

#[test]
fn mo_round_trip_with_all_elements_at_largest_size() {
    let elements = vec![
        InformationElement::C(Confirmation { data: vec![0] }),
        InformationElement::H(header()),
        InformationElement::L(location()),
        InformationElement::P(Payload { payload: vec![0xa5; 1960] }),
    ];
    let m = Message::new(elements).unwrap();
    let bytes = m.to_vec();
    assert_eq!(bytes.len(), 3 + 2012);
    assert_eq!(Message::decode(&bytes).unwrap(), m);
}

#[test]
fn mo_bad_optional_elements() {
    let short = vec![
        InformationElement::H(header()),
        InformationElement::P(Payload { payload: vec![1] }),
        InformationElement::L(Location { data: vec![0; 10] }),
    ];
    assert_eq!(Message::new(short), Err(SbdError::InvalidInformationElement));
    let mut bytes = sample_bytes();
    bytes[2] = 56 + 5;
    bytes.extend_from_slice(&[0x05, 0x00, 0x02, 0x01, 0x01]);
    assert_eq!(Message::decode(&bytes), Err(SbdError::InvalidInformationElement));
}

#[test]
fn session_stores_message_with_location() {
    let mut bytes = sample_bytes();
    bytes[2] = 56 + 14;
    let mut loc = vec![];
    location().write(&mut loc);
    bytes.extend_from_slice(&loc);
    let mut s = Session::new();
    assert!(matches!(s.receive(&bytes[..60]), Action::ReadMore));
    match s.receive(&bytes[60..]) {
        Action::Store(m) => assert_eq!(m.elements()[2], InformationElement::L(location())),
        _ => panic!("a frame with a location must be stored"),
    }
}
