//! Mobile originated messages: their information elements and the message frame.
//!
//! Frame: protocol revision `1`, overall length (big-endian `u16`, the bytes of
//! all elements), then the elements. A header element is tag `0x01`, length 28,
//! CDR reference (`u32`), IMEI (15 bytes), session status (`u8`), MOMSN and
//! MTMSN (`u16` each) and the time of session (`u32`, seconds since the Unix
//! epoch). A payload element is tag `0x02`, a `u16` length and 1 to 1960 bytes.
use vstd::prelude::*;
use crate::bytes::{
    be16, be32, copy_range, get_u16, get_u32, lemma_read16_be16, lemma_read32_be32, push_bytes,
    push_u16, push_u32, read16, read32,
};
use crate::error::SbdError;
use crate::mt::PROTOCOL_REVISION;

verus! {

/// Tag of the mobile originated header element.
pub const HEADER_IEI: u8 = 0x01;
/// Tag of the mobile originated payload element.
pub const PAYLOAD_IEI: u8 = 0x02;
/// Length of the header element's body.
pub const HEADER_BODY_LEN: u16 = 28;
/// Largest payload the protocol carries.
pub const MAX_PAYLOAD_LEN: usize = 1960;
/// Tag of the mobile originated location element.
pub const LOCATION_IEI: u8 = 0x03;
/// Tag of the mobile originated confirmation element.
pub const CONFIRMATION_IEI: u8 = 0x05;
/// Length of the location element's body.
pub const LOCATION_BODY_LEN: usize = 11;
/// Length of the confirmation element's body.
pub const CONFIRMATION_BODY_LEN: usize = 1;
/// Largest overall length: a header, a largest payload, a location and a
/// confirmation element (31 + 1963 + 14 + 4 bytes).
pub const MAX_OVERALL_LENGTH: u16 = 2012;

/// What an information element stands for.
pub enum ElementModel {
    Header {
        cdr_reference: u32,
        imei: Seq<u8>,
        session_status: u8,
        momsn: u16,
        mtmsn: u16,
        time_of_session: u32,
    },
    Payload { data: Seq<u8> },
    Location { data: Seq<u8> },
    Confirmation { data: Seq<u8> },
}

/// Mobile originated header.
///
/// The IMEI is carried as its 15 bytes and is not checked further: the codec
/// neither requires ASCII digits nor a valid check digit.
#[derive(Debug, Clone, Copy, PartialEq, Eq)]
pub struct Header {
    pub cdr_reference: u32,
    pub imei: [u8; 15],
    pub session_status: u8,
    pub momsn: u16,
    pub mtmsn: u16,
    /// Seconds since the Unix epoch.
    pub time_of_session: u32,
}

impl View for Header {
    type V = ElementModel;

    open spec fn view(&self) -> ElementModel {
        ElementModel::Header {
            cdr_reference: self.cdr_reference,
            imei: self.imei@,
            session_status: self.session_status,
            momsn: self.momsn,
            mtmsn: self.mtmsn,
            time_of_session: self.time_of_session,
        }
    }
}

impl Header {
    /// Length of the header's body, which follows its tag and length field.
    pub fn len(&self) -> (r: usize)
        ensures
            r == 28,
    {
        28
    }

    /// Appends the header element; returns the number of bytes written.
    pub fn write(&self, out: &mut Vec<u8>) -> (r: usize)
        ensures
            final(out)@ == old(out)@ + element_bytes(self@),
            r == 31,
    {
        out.push(HEADER_IEI);
        push_u16(out, HEADER_BODY_LEN);
        push_u32(out, self.cdr_reference);
        let ghost before = out@;
        let mut i: usize = 0;
        while i < 15
            invariant
                i <= 15,
                out@ == before + self.imei@.subrange(0, i as int),
            decreases 15 - i,
        {
            out.push(self.imei[i]);
            assert(self.imei@.subrange(0, i + 1) == self.imei@.subrange(0, i as int).push(
                self.imei@[i as int],
            ));
            i = i + 1;
        }
        assert(self.imei@.subrange(0, 15) == self.imei@);
        out.push(self.session_status);
        push_u16(out, self.momsn);
        push_u16(out, self.mtmsn);
        push_u32(out, self.time_of_session);
        assert(out@ == old(out)@ + element_bytes(self@));
        31
    }

    /// The header element as bytes.
    pub fn to_vec(&self) -> (r: Vec<u8>)
        ensures
            r@ == element_bytes(self@),
    {
        let mut buffer: Vec<u8> = Vec::new();
        self.write(&mut buffer);
        assert(buffer@ == Seq::<u8>::empty() + element_bytes(self@));
        buffer
    }
}

/// Mobile originated payload: 1 to 1960 bytes.
#[derive(Debug, Clone, PartialEq, Eq)]
pub struct Payload {
    pub payload: Vec<u8>,
}

impl View for Payload {
    type V = ElementModel;

    open spec fn view(&self) -> ElementModel {
        ElementModel::Payload { data: self.payload@ }
    }
}

impl Payload {
    pub fn len(&self) -> (r: usize)
        ensures
            r == self.payload@.len(),
    {
        self.payload.len()
    }

    /// Appends the payload element; returns the number of bytes written.
    pub fn write(&self, out: &mut Vec<u8>) -> (r: usize)
        requires
            1 <= self.payload@.len() <= MAX_PAYLOAD_LEN,
        ensures
            final(out)@ == old(out)@ + element_bytes(self@),
            r == 3 + self.payload@.len(),
    {
        write_tagged(out, PAYLOAD_IEI, self.payload.as_slice())
    }
}

/// The bytes of an element whose body is kept as bytes: tag, length, body.
pub open spec fn tagged(tag: u8, body: Seq<u8>) -> Seq<u8> {
    seq![tag] + be16(body.len() as u16) + body
}

fn write_tagged(out: &mut Vec<u8>, tag: u8, body: &[u8]) -> (r: usize)
    requires
        body@.len() <= MAX_PAYLOAD_LEN,
    ensures
        final(out)@ == old(out)@ + tagged(tag, body@),
        r == 3 + body@.len(),
{
    out.push(tag);
    push_u16(out, body.len() as u16);
    push_bytes(out, body);
    3 + body.len()
}

/// Mobile originated location: its 11 bytes of latitude and longitude, kept
/// as they arrived.
#[derive(Debug, Clone, PartialEq, Eq)]
pub struct Location {
    pub data: Vec<u8>,
}

impl View for Location {
    type V = ElementModel;

    open spec fn view(&self) -> ElementModel {
        ElementModel::Location { data: self.data@ }
    }
}

impl Location {
    /// Appends the location element; returns the number of bytes written.
    pub fn write(&self, out: &mut Vec<u8>) -> (r: usize)
        requires
            self.data@.len() == LOCATION_BODY_LEN,
        ensures
            final(out)@ == old(out)@ + element_bytes(self@),
            r == 14,
    {
        write_tagged(out, LOCATION_IEI, self.data.as_slice())
    }
}

/// Mobile originated confirmation: its one status byte.
#[derive(Debug, Clone, PartialEq, Eq)]
pub struct Confirmation {
    pub data: Vec<u8>,
}

impl View for Confirmation {
    type V = ElementModel;

    open spec fn view(&self) -> ElementModel {
        ElementModel::Confirmation { data: self.data@ }
    }
}

impl Confirmation {
    /// Appends the confirmation element; returns the number of bytes written.
    pub fn write(&self, out: &mut Vec<u8>) -> (r: usize)
        requires
            self.data@.len() == CONFIRMATION_BODY_LEN,
        ensures
            final(out)@ == old(out)@ + element_bytes(self@),
            r == 4,
    {
        write_tagged(out, CONFIRMATION_IEI, self.data.as_slice())
    }
}

/// An information element of a mobile originated message.
#[derive(Debug, Clone, PartialEq, Eq)]
pub enum InformationElement {
    H(Header),
    P(Payload),
    L(Location),
    C(Confirmation),
}

impl View for InformationElement {
    type V = ElementModel;

    open spec fn view(&self) -> ElementModel {
        match self {
            InformationElement::H(h) => h@,
            InformationElement::P(p) => p@,
            InformationElement::L(l) => l@,
            InformationElement::C(c) => c@,
        }
    }
}

/// An element that can be sent: an IMEI of 15 bytes, a payload of 1 to 1960
/// bytes, a location of 11 bytes, a confirmation of 1 byte.
pub open spec fn element_wf(e: ElementModel) -> bool {
    match e {
        ElementModel::Header { imei, .. } => imei.len() == 15,
        ElementModel::Payload { data } => 1 <= data.len() <= MAX_PAYLOAD_LEN,
        ElementModel::Location { data } => data.len() == LOCATION_BODY_LEN,
        ElementModel::Confirmation { data } => data.len() == CONFIRMATION_BODY_LEN,
    }
}

/// The bytes of one element: tag, length field, body.
pub open spec fn element_bytes(e: ElementModel) -> Seq<u8> {
    match e {
        ElementModel::Header {
            cdr_reference,
            imei,
            session_status,
            momsn,
            mtmsn,
            time_of_session,
        } => seq![HEADER_IEI] + be16(HEADER_BODY_LEN) + be32(cdr_reference) + imei + seq![
            session_status,
        ] + be16(momsn) + be16(mtmsn) + be32(time_of_session),
        ElementModel::Payload { data } => tagged(PAYLOAD_IEI, data),
        ElementModel::Location { data } => tagged(LOCATION_IEI, data),
        ElementModel::Confirmation { data } => tagged(CONFIRMATION_IEI, data),
    }
}

impl InformationElement {
    /// Appends the element; returns the number of bytes written.
    pub fn write(&self, out: &mut Vec<u8>) -> (r: usize)
        requires
            element_wf(self@),
        ensures
            final(out)@ == old(out)@ + element_bytes(self@),
            r == element_bytes(self@).len(),
    {
        match self {
            InformationElement::H(element) => element.write(out),
            InformationElement::P(element) => element.write(out),
            InformationElement::L(element) => element.write(out),
            InformationElement::C(element) => element.write(out),
        }
    }

    /// The number of bytes that `write` appends.
    pub fn encoded_len(&self) -> (r: usize)
        requires
            element_wf(self@),
        ensures
            r == element_bytes(self@).len(),
    {
        match self {
            InformationElement::H(_) => 31,
            InformationElement::P(p) => 3 + p.payload.len(),
            InformationElement::L(_) => 14,
            InformationElement::C(_) => 4,
        }
    }
}


/// The bytes of a sequence of elements, one after the other.
pub open spec fn elements_bytes(es: Seq<ElementModel>) -> Seq<u8>
    decreases es.len(),
{
    if es.len() == 0 {
        Seq::empty()
    } else {
        element_bytes(es[0]) + elements_bytes(es.drop_first())
    }
}

pub open spec fn has_header(es: Seq<ElementModel>) -> bool {
    exists|i: int| 0 <= i < es.len() && (#[trigger] es[i]) is Header
}

pub open spec fn has_payload(es: Seq<ElementModel>) -> bool {
    exists|i: int| 0 <= i < es.len() && (#[trigger] es[i]) is Payload
}

/// Both elements are headers, or both are payloads.
pub open spec fn same_kind(a: ElementModel, b: ElementModel) -> bool {
    (a is Header && b is Header) || (a is Payload && b is Payload)
}

/// Among the first `n` elements, two headers or two payloads.
pub open spec fn repeated_before(es: Seq<ElementModel>, n: int) -> bool {
    exists|a: int, b: int| 0 <= a < b < n && #[trigger] same_kind(es[a], es[b])
}

/// A message holds at most one header and at most one payload.
pub open spec fn repeated(es: Seq<ElementModel>) -> bool {
    repeated_before(es, es.len() as int)
}

/// Elements that make a message: each one sendable, all of them within the
/// largest overall length, exactly one header and exactly one payload among
/// them.
pub open spec fn message_wf(es: Seq<ElementModel>) -> bool {
    &&& forall|i: int| 0 <= i < es.len() ==> element_wf(#[trigger] es[i])
    &&& elements_bytes(es).len() <= MAX_OVERALL_LENGTH
    &&& !repeated(es)
    &&& has_header(es)
    &&& has_payload(es)
}

/// Which error, if any, `Message::new` gives for these elements.
pub open spec fn message_check(es: Seq<ElementModel>) -> Result<(), SbdError> {
    if !(forall|i: int| 0 <= i < es.len() ==> element_wf(#[trigger] es[i])) {
        Err(SbdError::InvalidInformationElement)
    } else if elements_bytes(es).len() > MAX_OVERALL_LENGTH {
        Err(SbdError::Oversized)
    } else if repeated(es) {
        Err(SbdError::InvalidInformationElement)
    } else if !has_header(es) {
        Err(SbdError::MissingMobileOriginatedHeader)
    } else if !has_payload(es) {
        Err(SbdError::MissingMobileOriginatedPayload)
    } else {
        Ok(())
    }
}

/// The frame of a message: revision, overall length, elements.
pub open spec fn message_bytes(es: Seq<ElementModel>) -> Seq<u8> {
    seq![PROTOCOL_REVISION] + be16(elements_bytes(es).len() as u16) + elements_bytes(es)
}

/// The element at the start of `s`, and how many bytes it takes.
pub open spec fn parse_element(s: Seq<u8>) -> Option<(ElementModel, int)> {
    if s.len() < 3 {
        None
    } else if s[0] == HEADER_IEI {
        if read16(s, 1) == HEADER_BODY_LEN && s.len() >= 31 {
            Some(
                (
                    ElementModel::Header {
                        cdr_reference: read32(s, 3),
                        imei: s.subrange(7, 22),
                        session_status: s[22],
                        momsn: read16(s, 23),
                        mtmsn: read16(s, 25),
                        time_of_session: read32(s, 27),
                    },
                    31,
                ),
            )
        } else {
            None
        }
    } else if s[0] == PAYLOAD_IEI {
        let n = read16(s, 1) as int;
        if 1 <= n <= MAX_PAYLOAD_LEN && s.len() >= 3 + n {
            Some((ElementModel::Payload { data: s.subrange(3, 3 + n) }, 3 + n))
        } else {
            None
        }
    } else if s[0] == LOCATION_IEI {
        let n = read16(s, 1) as int;
        if n == LOCATION_BODY_LEN && s.len() >= 3 + n {
            Some((ElementModel::Location { data: s.subrange(3, 3 + n) }, 3 + n))
        } else {
            None
        }
    } else if s[0] == CONFIRMATION_IEI {
        let n = read16(s, 1) as int;
        if n == CONFIRMATION_BODY_LEN && s.len() >= 3 + n {
            Some((ElementModel::Confirmation { data: s.subrange(3, 3 + n) }, 3 + n))
        } else {
            None
        }
    } else {
        None
    }
}

/// The elements that fill `s` exactly, if `s` is made of elements.
pub open spec fn parse_elements(s: Seq<u8>) -> Option<Seq<ElementModel>>
    decreases s.len(),
{
    if s.len() == 0 {
        Some(Seq::empty())
    } else {
        match parse_element(s) {
            Some((e, k)) => if 0 < k <= s.len() {
                match parse_elements(s.subrange(k, s.len() as int)) {
                    Some(rest) => Some(seq![e] + rest),
                    None => None,
                }
            } else {
                None
            },
            None => None,
        }
    }
}

/// What decoding a byte stream gives: the elements of the message, or the error.
///
/// A stream that ends before the frame it declares is `Undersized`, carrying
/// the number of bytes that did arrive, whether it ends inside the first three
/// bytes or later: that count tells an empty stream from one cut mid-frame.
/// `Io` is kept for a stream that fails or stalls, which only the driver of a
/// connection can see. Elements may come in any order; a second header or a
/// second payload is an `InvalidInformationElement`.
pub open spec fn decode_spec(s: Seq<u8>) -> Result<Seq<ElementModel>, SbdError> {
    if s.len() == 0 {
        Err(SbdError::Undersized(0))
    } else if s[0] != PROTOCOL_REVISION {
        Err(SbdError::InvalidProtocolRevisionNumber(s[0]))
    } else if s.len() < 3 {
        Err(SbdError::Undersized(s.len() as usize))
    } else if read16(s, 1) > MAX_OVERALL_LENGTH {
        Err(SbdError::Oversized)
    } else if s.len() < 3 + read16(s, 1) {
        Err(SbdError::Undersized(s.len() as usize))
    } else {
        match parse_elements(s.subrange(3, 3 + read16(s, 1))) {
            None => Err(SbdError::InvalidInformationElement),
            Some(es) => if repeated(es) {
                Err(SbdError::InvalidInformationElement)
            } else if !has_header(es) {
                Err(SbdError::MissingMobileOriginatedHeader)
            } else if !has_payload(es) {
                Err(SbdError::MissingMobileOriginatedPayload)
            } else {
                Ok(es)
            },
        }
    }
}

pub proof fn lemma_elements_bytes_append(a: Seq<ElementModel>, b: Seq<ElementModel>)
    ensures
        elements_bytes(a + b) == elements_bytes(a) + elements_bytes(b),
    decreases a.len(),
{
    if a.len() == 0 {
        assert(a + b == b);
    } else {
        assert((a + b).drop_first() == a.drop_first() + b);
        lemma_elements_bytes_append(a.drop_first(), b);
    }
}

pub proof fn lemma_elements_bytes_push(a: Seq<ElementModel>, e: ElementModel)
    ensures
        elements_bytes(a.push(e)) == elements_bytes(a) + element_bytes(e),
{
    lemma_elements_bytes_append(a, seq![e]);
    assert(a + seq![e] == a.push(e));
    assert(seq![e].drop_first() == Seq::<ElementModel>::empty());
    assert(elements_bytes(Seq::<ElementModel>::empty()) == Seq::<u8>::empty());
    assert(seq![e][0] == e);
    assert(elements_bytes(seq![e]) == element_bytes(e) + Seq::<u8>::empty());
    assert(element_bytes(e) + Seq::<u8>::empty() == element_bytes(e));
}

/// An element's bytes, followed by anything, parse back to that element.
pub proof fn lemma_parse_element_bytes(e: ElementModel, rest: Seq<u8>)
    requires
        element_wf(e),
    ensures
        parse_element(element_bytes(e) + rest) == Some((e, element_bytes(e).len() as int)),
{
    let s = element_bytes(e) + rest;
    match e {
        ElementModel::Header {
            cdr_reference,
            imei,
            session_status,
            momsn,
            mtmsn,
            time_of_session,
        } => {
            assert(s.subrange(1, 3) == be16(HEADER_BODY_LEN));
            lemma_read16_be16(HEADER_BODY_LEN, s, 1);
            assert(s.subrange(3, 7) == be32(cdr_reference));
            lemma_read32_be32(cdr_reference, s, 3);
            assert(s.subrange(7, 22) == imei);
            assert(s[22] == session_status);
            assert(s.subrange(23, 25) == be16(momsn));
            lemma_read16_be16(momsn, s, 23);
            assert(s.subrange(25, 27) == be16(mtmsn));
            lemma_read16_be16(mtmsn, s, 25);
            assert(s.subrange(27, 31) == be32(time_of_session));
            lemma_read32_be32(time_of_session, s, 27);
        },
        ElementModel::Payload { data } => {
            assert(s.subrange(1, 3) == be16(data.len() as u16));
            lemma_read16_be16(data.len() as u16, s, 1);
            assert(s.subrange(3, 3 + data.len() as int) == data);
        },
        ElementModel::Location { data } => {
            assert(s.subrange(1, 3) == be16(data.len() as u16));
            lemma_read16_be16(data.len() as u16, s, 1);
            assert(s.subrange(3, 3 + data.len() as int) == data);
        },
        ElementModel::Confirmation { data } => {
            assert(s.subrange(1, 3) == be16(data.len() as u16));
            lemma_read16_be16(data.len() as u16, s, 1);
            assert(s.subrange(3, 3 + data.len() as int) == data);
        },
    }
}

/// One step of `parse_elements`: the first element, then the rest.
proof fn lemma_parse_elements_cons(s: Seq<u8>, e: ElementModel, k: int)
    requires
        s.len() > 0,
        parse_element(s) == Some((e, k)),
        0 < k <= s.len(),
    ensures
        parse_elements(s) == prepend(seq![e], parse_elements(s.subrange(k, s.len() as int))),
{
}

/// The bytes of a non-empty sequence: its first element's, then the rest's.
proof fn lemma_elements_bytes_cons(es: Seq<ElementModel>)
    requires
        es.len() > 0,
    ensures
        elements_bytes(es) == element_bytes(es[0]) + elements_bytes(es.drop_first()),
{
}

proof fn lemma_skip_prefix(a: Seq<u8>, b: Seq<u8>)
    ensures
        (a + b).subrange(a.len() as int, (a + b).len() as int) == b,
{
    assert((a + b).subrange(a.len() as int, (a + b).len() as int) == b);
}

/// The bytes of sendable elements parse back to those elements.
pub proof fn lemma_parse_elements_bytes(es: Seq<ElementModel>)
    requires
        forall|i: int| 0 <= i < es.len() ==> element_wf(#[trigger] es[i]),
    ensures
        parse_elements(elements_bytes(es)) == Some(es),
    decreases es.len(),
{
    if es.len() == 0 {
        assert(elements_bytes(es) == Seq::<u8>::empty());
    } else {
        let head = es[0];
        let tail = es.drop_first();
        let h = element_bytes(head);
        let t = elements_bytes(tail);
        lemma_elements_bytes_cons(es);
        assert forall|i: int| 0 <= i < tail.len() implies element_wf(#[trigger] tail[i]) by {
            assert(tail[i] == es[i + 1]);
        }
        lemma_parse_element_bytes(head, t);
        lemma_parse_elements_bytes(tail);
        lemma_skip_prefix(h, t);
        lemma_parse_elements_cons(h + t, head, h.len() as int);
        assert(seq![head] + tail == es);
    }
}

/// A stream whose first byte is not the protocol revision is rejected with
/// that byte, whatever follows it: nothing after the first byte is read.
pub proof fn lemma_revision_rejected(s: Seq<u8>)
    requires
        s.len() > 0,
        s[0] != PROTOCOL_REVISION,
    ensures
        decode_spec(s) == Err::<Seq<ElementModel>, SbdError>(
            SbdError::InvalidProtocolRevisionNumber(s[0]),
        ),
        decode_spec(s) == decode_spec(s.subrange(0, 1)),
{
}

/// A declared overall length over the maximum is `Oversized`; a stream that
/// ends before its frame does is `Undersized` with the number of bytes seen.
pub proof fn lemma_size_bounds(s: Seq<u8>)
    requires
        s.len() > 0,
        s[0] == PROTOCOL_REVISION,
    ensures
        s.len() >= 3 && read16(s, 1) > MAX_OVERALL_LENGTH ==> decode_spec(s) == Err::<
            Seq<ElementModel>,
            SbdError,
        >(SbdError::Oversized),
        (s.len() < 3 || (read16(s, 1) <= MAX_OVERALL_LENGTH && s.len() < 3 + read16(s, 1)))
            ==> decode_spec(s) == Err::<Seq<ElementModel>, SbdError>(
            SbdError::Undersized(s.len() as usize),
        ),
{
}

/// A complete, well-framed stream of sendable elements that holds a header but
/// no payload fails for the missing payload, after all its elements are read.
pub proof fn lemma_missing_payload(es: Seq<ElementModel>)
    requires
        forall|i: int| 0 <= i < es.len() ==> element_wf(#[trigger] es[i]),
        elements_bytes(es).len() <= MAX_OVERALL_LENGTH,
        !repeated(es),
        has_header(es),
        !has_payload(es),
    ensures
        parse_elements(elements_bytes(es)) == Some(es),
        decode_spec(message_bytes(es)) == Err::<Seq<ElementModel>, SbdError>(
            SbdError::MissingMobileOriginatedPayload,
        ),
{
    let s = message_bytes(es);
    let n = elements_bytes(es).len() as u16;
    assert(s.subrange(1, 3) == be16(n));
    lemma_read16_be16(n, s, 1);
    assert(s.subrange(3, 3 + n as int) == elements_bytes(es));
    lemma_parse_elements_bytes(es);
}

/// Decoding the frame of a well-formed message gives back its elements,
/// field for field and in order.
pub proof fn lemma_round_trip(es: Seq<ElementModel>)
    requires
        message_wf(es),
    ensures
        decode_spec(message_bytes(es)) == Ok::<Seq<ElementModel>, SbdError>(es),
        message_bytes(es)[0] == PROTOCOL_REVISION,
        read16(message_bytes(es), 1) <= MAX_OVERALL_LENGTH,
        message_bytes(es).len() == 3 + read16(message_bytes(es), 1),
{
    let s = message_bytes(es);
    let n = elements_bytes(es).len() as u16;
    assert(s.subrange(1, 3) == be16(n));
    lemma_read16_be16(n, s, 1);
    assert(s.subrange(3, 3 + n as int) == elements_bytes(es));
    lemma_parse_elements_bytes(es);
}

/// A mobile originated message. Its elements are kept in order and always
/// make a well-formed message.
#[derive(Debug, Clone, PartialEq, Eq)]
pub struct Message {
    elements: Vec<InformationElement>,
}

impl View for Message {
    type V = Seq<ElementModel>;

    closed spec fn view(&self) -> Seq<ElementModel> {
        self.elements@.map_values(|e: InformationElement| e@)
    }
}

impl Message {
    pub open spec fn wf(&self) -> bool {
        message_wf(self@)
    }

    /// A message of these elements, in this order, if they make one.
    pub fn new(elements: Vec<InformationElement>) -> (r: Result<Message, SbdError>)
        ensures
            match r {
                Ok(m) => message_check(elements@.map_values(|e: InformationElement| e@)) is Ok
                    && m@ == elements@.map_values(|e: InformationElement| e@) && m.wf(),
                Err(e) => message_check(elements@.map_values(|e: InformationElement| e@)) == Err::<
                    (),
                    SbdError,
                >(e),
            },
    {
        let ghost es = elements@.map_values(|e: InformationElement| e@);
        let n = elements.len();
        let mut i: usize = 0;
        while i < n
            invariant
                n == elements@.len(),
                es == elements@.map_values(|e: InformationElement| e@),
                i <= n,
                forall|j: int| 0 <= j < i ==> element_wf(#[trigger] es[j]),
            decreases n - i,
        {
            match &elements[i] {
                InformationElement::P(p) => {
                    if p.payload.len() < 1 || p.payload.len() > MAX_PAYLOAD_LEN {
                        assert(!element_wf(es[i as int]));
                        return Err(SbdError::InvalidInformationElement);
                    }
                },
                InformationElement::L(l) => {
                    if l.data.len() != LOCATION_BODY_LEN {
                        assert(!element_wf(es[i as int]));
                        return Err(SbdError::InvalidInformationElement);
                    }
                },
                InformationElement::C(c) => {
                    if c.data.len() != CONFIRMATION_BODY_LEN {
                        assert(!element_wf(es[i as int]));
                        return Err(SbdError::InvalidInformationElement);
                    }
                },
                InformationElement::H(_) => {},
            }
            i = i + 1;
        }
        let mut total: usize = 0;
        let mut i: usize = 0;
        while i < n
            invariant
                n == elements@.len(),
                es == elements@.map_values(|e: InformationElement| e@),
                i <= n,
                forall|j: int| 0 <= j < n ==> element_wf(#[trigger] es[j]),
                total == elements_bytes(es.subrange(0, i as int)).len(),
                total <= MAX_OVERALL_LENGTH,
            decreases n - i,
        {
            let k = elements[i].encoded_len();
            proof {
                lemma_elements_bytes_push(es.subrange(0, i as int), es[i as int]);
                assert(es.subrange(0, i as int).push(es[i as int]) == es.subrange(0, i + 1));
            }
            if k > MAX_OVERALL_LENGTH as usize - total {
                proof {
                    lemma_elements_bytes_append(es.subrange(0, i + 1), es.subrange(i + 1, n as int));
                    assert(es.subrange(0, i + 1) + es.subrange(i + 1, n as int) == es);
                }
                return Err(SbdError::Oversized);
            }
            total = total + k;
            i = i + 1;
        }
        assert(es.subrange(0, n as int) == es);
        let (header, payload, twice) = kinds(&elements);
        if twice {
            return Err(SbdError::InvalidInformationElement);
        }
        if !header {
            return Err(SbdError::MissingMobileOriginatedHeader);
        }
        if !payload {
            return Err(SbdError::MissingMobileOriginatedPayload);
        }
        Ok(Message { elements })
    }

    pub fn elements(&self) -> (r: &Vec<InformationElement>)
        ensures
            r@.map_values(|e: InformationElement| e@) == self@,
    {
        &self.elements
    }

    /// The message's frame as bytes.
    pub fn to_vec(&self) -> (r: Vec<u8>)
        requires
            self.wf(),
        ensures
            r@ == message_bytes(self@),
    {
        let ghost es = self@;
        let n = self.elements.len();
        let mut total: usize = 0;
        let mut i: usize = 0;
        proof {
            lemma_elements_bytes_append(es.subrange(0, 0), es);
            assert(es.subrange(0, 0) + es == es);
        }
        while i < n
            invariant
                n == self.elements@.len(),
                es == self@,
                self.wf(),
                i <= n,
                total == elements_bytes(es.subrange(0, i as int)).len(),
            decreases n - i,
        {
            proof {
                lemma_elements_bytes_push(es.subrange(0, i as int), es[i as int]);
                assert(es.subrange(0, i as int).push(es[i as int]) == es.subrange(0, i + 1));
                lemma_elements_bytes_append(es.subrange(0, i + 1), es.subrange(i + 1, n as int));
                assert(es.subrange(0, i + 1) + es.subrange(i + 1, n as int) == es);
            }
            let k = self.elements[i].encoded_len();
            total = total + k;
            i = i + 1;
        }
        assert(es.subrange(0, n as int) == es);
        let mut out: Vec<u8> = Vec::new();
        out.push(PROTOCOL_REVISION);
        push_u16(&mut out, total as u16);
        let mut i: usize = 0;
        while i < n
            invariant
                n == self.elements@.len(),
                es == self@,
                self.wf(),
                i <= n,
                out@ == seq![PROTOCOL_REVISION] + be16(elements_bytes(es).len() as u16)
                    + elements_bytes(es.subrange(0, i as int)),
            decreases n - i,
        {
            proof {
                lemma_elements_bytes_push(es.subrange(0, i as int), es[i as int]);
                assert(es.subrange(0, i as int).push(es[i as int]) == es.subrange(0, i + 1));
            }
            self.elements[i].write(&mut out);
            i = i + 1;
        }
        out
    }
}


pub open spec fn prepend(
    acc: Seq<ElementModel>,
    o: Option<Seq<ElementModel>>,
) -> Option<Seq<ElementModel>> {
    match o {
        Some(rest) => Some(acc + rest),
        None => None,
    }
}

/// Parsed elements are sendable and take exactly the parsed bytes.
pub proof fn lemma_parse_elements_wf(s: Seq<u8>)
    requires
        parse_elements(s) is Some,
    ensures
        forall|i: int|
            0 <= i < parse_elements(s).unwrap().len() ==> element_wf(
                #[trigger] parse_elements(s).unwrap()[i],
            ),
        elements_bytes(parse_elements(s).unwrap()).len() == s.len(),
    decreases s.len(),
{
    if s.len() > 0 {
        let (e, k) = parse_element(s).unwrap();
        let t = s.subrange(k, s.len() as int);
        lemma_parse_elements_wf(t);
        let es = parse_elements(s).unwrap();
        let rest = parse_elements(t).unwrap();
        assert(es == seq![e] + rest);
        assert(es.drop_first() == rest);
        assert forall|i: int| 0 <= i < es.len() implies element_wf(#[trigger] es[i]) by {
            if i > 0 {
                assert(es[i] == rest[i - 1]);
            }
        }
    }
}

/// Whether the elements hold a header, whether they hold a payload, and
/// whether either of those comes twice.
fn kinds(elements: &Vec<InformationElement>) -> (r: (bool, bool, bool))
    ensures
        r.0 == has_header(elements@.map_values(|e: InformationElement| e@)),
        r.1 == has_payload(elements@.map_values(|e: InformationElement| e@)),
        r.2 == repeated(elements@.map_values(|e: InformationElement| e@)),
{
    let ghost es = elements@.map_values(|e: InformationElement| e@);
    let n = elements.len();
    let mut header = false;
    let mut payload = false;
    let mut twice = false;
    let mut i: usize = 0;
    while i < n
        invariant
            n == elements@.len(),
            es == elements@.map_values(|e: InformationElement| e@),
            i <= n,
            header <==> exists|j: int| 0 <= j < i && (#[trigger] es[j]) is Header,
            payload <==> exists|j: int| 0 <= j < i && (#[trigger] es[j]) is Payload,
            twice <==> repeated_before(es, i as int),
        decreases n - i,
    {
        let ghost old_header = header;
        let ghost old_payload = payload;
        let ghost old_twice = twice;
        assert(es[i as int] == elements@[i as int]@);
        match &elements[i] {
            InformationElement::H(_) => {
                twice = twice || header;
                header = true;
            },
            InformationElement::P(_) => {
                twice = twice || payload;
                payload = true;
            },
            _ => {},
        }
        proof {
            let x = es[i as int];
            if old_twice {
                let (a, b) = choose|a: int, b: int|
                    0 <= a < b < i && #[trigger] same_kind(es[a], es[b]);
                assert(same_kind(es[a], es[b]));
            }
            if x is Header && old_header {
                let j = choose|j: int| 0 <= j < i && (#[trigger] es[j]) is Header;
                assert(same_kind(es[j], es[i as int]));
            }
            if x is Payload && old_payload {
                let j = choose|j: int| 0 <= j < i && (#[trigger] es[j]) is Payload;
                assert(same_kind(es[j], es[i as int]));
            }
            if repeated_before(es, i + 1) {
                let (a, b) = choose|a: int, b: int|
                    0 <= a < b < i + 1 && #[trigger] same_kind(es[a], es[b]);
                if b < i {
                    assert(repeated_before(es, i as int));
                } else {
                    assert(es[a] is Header ==> old_header);
                    assert(es[a] is Payload ==> old_payload);
                }
            }
        }
        i = i + 1;
    }
    (header, payload, twice)
}

/// The element that starts at `bytes[pos]` and ends by `end`, with its length.
fn parse_element_at(bytes: &[u8], pos: usize, end: usize) -> (r: Option<(InformationElement, usize)>)
    requires
        pos < end <= bytes@.len(),
    ensures
        match r {
            None => parse_element(bytes@.subrange(pos as int, end as int)) is None,
            Some((e, k)) => parse_element(bytes@.subrange(pos as int, end as int)) == Some(
                (e@, k as int),
            ),
        },
{
    let ghost sub = bytes@.subrange(pos as int, end as int);
    if end - pos < 3 {
        return None;
    }
    let n = get_u16(bytes, pos + 1);
    assert(read16(sub, 1) == n) by {
        assert(sub[1] == bytes@[pos + 1]);
        assert(sub[2] == bytes@[pos + 2]);
    }
    assert(sub[0] == bytes@[pos as int]);
    if bytes[pos] == HEADER_IEI {
        if n != HEADER_BODY_LEN || end - pos < 31 {
            return None;
        }
        let cdr_reference = get_u32(bytes, pos + 3);
        assert(read32(sub, 3) == cdr_reference) by {
            assert(sub[3] == bytes@[pos + 3]);
            assert(sub[4] == bytes@[pos + 4]);
            assert(sub[5] == bytes@[pos + 5]);
            assert(sub[6] == bytes@[pos + 6]);
        }
        let session_status = bytes[pos + 22];
        assert(sub[22] == session_status);
        let momsn = get_u16(bytes, pos + 23);
        assert(read16(sub, 23) == momsn) by {
            assert(sub[23] == bytes@[pos + 23]);
            assert(sub[24] == bytes@[pos + 24]);
        }
        let mtmsn = get_u16(bytes, pos + 25);
        assert(read16(sub, 25) == mtmsn) by {
            assert(sub[25] == bytes@[pos + 25]);
            assert(sub[26] == bytes@[pos + 26]);
        }
        let time_of_session = get_u32(bytes, pos + 27);
        assert(read32(sub, 27) == time_of_session) by {
            assert(sub[27] == bytes@[pos + 27]);
            assert(sub[28] == bytes@[pos + 28]);
            assert(sub[29] == bytes@[pos + 29]);
            assert(sub[30] == bytes@[pos + 30]);
        }
        let mut imei: [u8; 15] = [0u8; 15];
        let mut j: usize = 0;
        while j < 15
            invariant
                j <= 15,
                pos + 31 <= end <= bytes@.len(),
                sub == bytes@.subrange(pos as int, end as int),
                forall|m: int| 0 <= m < j ==> imei@[m] == sub[7 + m],
            decreases 15 - j,
        {
            imei[j] = bytes[pos + 7 + j];
            j = j + 1;
        }
        assert(imei@ == sub.subrange(7, 22));
        let h = Header { cdr_reference, imei, session_status, momsn, mtmsn, time_of_session };
        Some((InformationElement::H(h), 31))
    } else if bytes[pos] == PAYLOAD_IEI {
        let len = n as usize;
        if len < 1 || len > MAX_PAYLOAD_LEN || end - pos < 3 + len {
            return None;
        }
        let payload = copy_range(bytes, pos + 3, pos + 3 + len);
        assert(payload@ == sub.subrange(3, 3 + len as int));
        Some((InformationElement::P(Payload { payload }), 3 + len))
    } else if bytes[pos] == LOCATION_IEI {
        let len = n as usize;
        if len != LOCATION_BODY_LEN || end - pos < 3 + len {
            return None;
        }
        let data = copy_range(bytes, pos + 3, pos + 3 + len);
        assert(data@ == sub.subrange(3, 3 + len as int));
        Some((InformationElement::L(Location { data }), 3 + len))
    } else if bytes[pos] == CONFIRMATION_IEI {
        let len = n as usize;
        if len != CONFIRMATION_BODY_LEN || end - pos < 3 + len {
            return None;
        }
        let data = copy_range(bytes, pos + 3, pos + 3 + len);
        assert(data@ == sub.subrange(3, 3 + len as int));
        Some((InformationElement::C(Confirmation { data }), 3 + len))
    } else {
        None
    }
}

impl Message {
    /// Decodes one message from the start of `bytes`; bytes after its frame are
    /// not read.
    pub fn decode(bytes: &[u8]) -> (r: Result<Message, SbdError>)
        ensures
            match r {
                Ok(m) => decode_spec(bytes@) == Ok::<Seq<ElementModel>, SbdError>(m@) && m.wf(),
                Err(e) => decode_spec(bytes@) == Err::<Seq<ElementModel>, SbdError>(e),
            },
    {
        if bytes.len() == 0 {
            return Err(SbdError::Undersized(0));
        }
        if bytes[0] != PROTOCOL_REVISION {
            return Err(SbdError::InvalidProtocolRevisionNumber(bytes[0]));
        }
        if bytes.len() < 3 {
            return Err(SbdError::Undersized(bytes.len()));
        }
        let overall = get_u16(bytes, 1);
        if overall > MAX_OVERALL_LENGTH {
            return Err(SbdError::Oversized);
        }
        let end = 3 + overall as usize;
        if bytes.len() < end {
            return Err(SbdError::Undersized(bytes.len()));
        }
        let ghost body = bytes@.subrange(3, end as int);
        let mut elements: Vec<InformationElement> = Vec::new();
        let mut pos: usize = 3;
        while pos < end
            invariant
                3 <= pos <= end <= bytes@.len(),
                bytes@[0] == PROTOCOL_REVISION,
                end == 3 + read16(bytes@, 1),
                read16(bytes@, 1) <= MAX_OVERALL_LENGTH,
                body == bytes@.subrange(3, end as int),
                parse_elements(body) == prepend(
                    elements@.map_values(|e: InformationElement| e@),
                    parse_elements(bytes@.subrange(pos as int, end as int)),
                ),
            decreases end - pos,
        {
            let ghost sub = bytes@.subrange(pos as int, end as int);
            let ghost acc = elements@.map_values(|e: InformationElement| e@);
            match parse_element_at(bytes, pos, end) {
                None => {
                    assert(parse_elements(sub) is None);
                    assert(parse_elements(body) is None);
                    return Err(SbdError::InvalidInformationElement);
                },
                Some((e, k)) => {
                    proof {
                        assert(sub.subrange(k as int, sub.len() as int) == bytes@.subrange(
                            pos + k,
                            end as int,
                        ));
                        let tail = parse_elements(bytes@.subrange(pos + k, end as int));
                        if let Some(rest) = tail {
                            assert(acc + (seq![e@] + rest) == acc.push(e@) + rest);
                        }
                    }
                    elements.push(e);
                    assert(elements@.map_values(|e: InformationElement| e@) == acc.push(e@));
                    pos = pos + k;
                }
            }
        }
        proof {
            assert(bytes@.subrange(pos as int, end as int) == Seq::<u8>::empty());
            assert(elements@.map_values(|e: InformationElement| e@) + Seq::<ElementModel>::empty()
                == elements@.map_values(|e: InformationElement| e@));
            lemma_parse_elements_wf(body);
        }
        let (header, payload, twice) = kinds(&elements);
        if twice {
            return Err(SbdError::InvalidInformationElement);
        }
        if !header {
            return Err(SbdError::MissingMobileOriginatedHeader);
        }
        if !payload {
            return Err(SbdError::MissingMobileOriginatedPayload);
        }
        Ok(Message { elements })
    }
}

} // verus!
