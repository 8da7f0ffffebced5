//! Wire encoding of questions, resource records and whole message bodies.
//!
//! A question is a name, a 2-byte record type and a 2-byte class. A resource
//! record adds a 4-byte TTL, a 2-byte rdata length and exactly that many
//! rdata bytes. A body is the header's count of questions followed by its
//! counts of answer, authority and additional records. All fields are
//! big-endian. Record types and classes are tagged variants: raw numeric
//! tags exist only here, at the codec boundary.

use vstd::prelude::*;
use crate::messages::{spec_read_u16, spec_u16_be, read_u16, DNSHeaders};
use crate::name::{
    decode_name, encode_name, labels_view, spec_decode_name, spec_encoded_name, valid_name,
    DNSBodyParseError,
};

verus! {

/// The type of a resource record, with its standard numeric tag.
#[derive(Clone, Copy, Debug, PartialEq, Eq, Structural)]
pub enum ResourceRecordType {
    A,
    NS,
    Cname,
    SOA,
    PTR,
    HINFO,
    MX,
    TXT,
    RP,
    AFSDB,
    SIG,
    KEY,
    AAAA,
    LOC,
    SRV,
    NAPTR,
    KX,
    CERT,
    DNAME,
    APL,
    DS,
    SSHFP,
    IPSECKEY,
    RRSIG,
    NSEC,
    DNSKEY,
    DHCID,
    NSEC3,
    NSEC3PARAM,
    TLSA,
    SMIMEA,
    HIP,
    CDS,
    CDNSKEY,
    OPENPGPKEY,
    CSYNC,
    ZONEMD,
    SVCB,
    HTTPS,
    EUI48,
    EUI64,
    TKEY,
    TSIG,
    URI,
    CAA,
    TA,
    DLV,
}

/// The class of a record or question; in practice almost always `IN`.
#[derive(Clone, Copy, Debug, PartialEq, Eq, Structural)]
pub enum ClassCode {
    /// The class for the Internet. Most common.
    IN,
    /// Chaos
    CH,
    /// Hesiod
    HS,
}

/// The numeric wire tag of a record type.
pub open spec fn spec_rr_type_value(t: ResourceRecordType) -> u16 {
    match t {
        ResourceRecordType::A => 1,
        ResourceRecordType::NS => 2,
        ResourceRecordType::Cname => 5,
        ResourceRecordType::SOA => 6,
        ResourceRecordType::PTR => 12,
        ResourceRecordType::HINFO => 13,
        ResourceRecordType::MX => 15,
        ResourceRecordType::TXT => 16,
        ResourceRecordType::RP => 17,
        ResourceRecordType::AFSDB => 18,
        ResourceRecordType::SIG => 24,
        ResourceRecordType::KEY => 25,
        ResourceRecordType::AAAA => 28,
        ResourceRecordType::LOC => 29,
        ResourceRecordType::SRV => 33,
        ResourceRecordType::NAPTR => 35,
        ResourceRecordType::KX => 36,
        ResourceRecordType::CERT => 37,
        ResourceRecordType::DNAME => 39,
        ResourceRecordType::APL => 42,
        ResourceRecordType::DS => 43,
        ResourceRecordType::SSHFP => 44,
        ResourceRecordType::IPSECKEY => 45,
        ResourceRecordType::RRSIG => 46,
        ResourceRecordType::NSEC => 47,
        ResourceRecordType::DNSKEY => 48,
        ResourceRecordType::DHCID => 49,
        ResourceRecordType::NSEC3 => 50,
        ResourceRecordType::NSEC3PARAM => 51,
        ResourceRecordType::TLSA => 52,
        ResourceRecordType::SMIMEA => 53,
        ResourceRecordType::HIP => 55,
        ResourceRecordType::CDS => 59,
        ResourceRecordType::CDNSKEY => 60,
        ResourceRecordType::OPENPGPKEY => 61,
        ResourceRecordType::CSYNC => 62,
        ResourceRecordType::ZONEMD => 63,
        ResourceRecordType::SVCB => 64,
        ResourceRecordType::HTTPS => 65,
        ResourceRecordType::EUI48 => 108,
        ResourceRecordType::EUI64 => 109,
        ResourceRecordType::TKEY => 249,
        ResourceRecordType::TSIG => 250,
        ResourceRecordType::URI => 256,
        ResourceRecordType::CAA => 257,
        ResourceRecordType::TA => 32768,
        ResourceRecordType::DLV => 32769,
    }
}

/// The record type denoted by a numeric tag, if any.
pub open spec fn spec_rr_type_of(v: u16) -> Option<ResourceRecordType> {
    if v == 1 {
        Some(ResourceRecordType::A)
    } else if v == 2 {
        Some(ResourceRecordType::NS)
    } else if v == 5 {
        Some(ResourceRecordType::Cname)
    } else if v == 6 {
        Some(ResourceRecordType::SOA)
    } else if v == 12 {
        Some(ResourceRecordType::PTR)
    } else if v == 13 {
        Some(ResourceRecordType::HINFO)
    } else if v == 15 {
        Some(ResourceRecordType::MX)
    } else if v == 16 {
        Some(ResourceRecordType::TXT)
    } else if v == 17 {
        Some(ResourceRecordType::RP)
    } else if v == 18 {
        Some(ResourceRecordType::AFSDB)
    } else if v == 24 {
        Some(ResourceRecordType::SIG)
    } else if v == 25 {
        Some(ResourceRecordType::KEY)
    } else if v == 28 {
        Some(ResourceRecordType::AAAA)
    } else if v == 29 {
        Some(ResourceRecordType::LOC)
    } else if v == 33 {
        Some(ResourceRecordType::SRV)
    } else if v == 35 {
        Some(ResourceRecordType::NAPTR)
    } else if v == 36 {
        Some(ResourceRecordType::KX)
    } else if v == 37 {
        Some(ResourceRecordType::CERT)
    } else if v == 39 {
        Some(ResourceRecordType::DNAME)
    } else if v == 42 {
        Some(ResourceRecordType::APL)
    } else if v == 43 {
        Some(ResourceRecordType::DS)
    } else if v == 44 {
        Some(ResourceRecordType::SSHFP)
    } else if v == 45 {
        Some(ResourceRecordType::IPSECKEY)
    } else if v == 46 {
        Some(ResourceRecordType::RRSIG)
    } else if v == 47 {
        Some(ResourceRecordType::NSEC)
    } else if v == 48 {
        Some(ResourceRecordType::DNSKEY)
    } else if v == 49 {
        Some(ResourceRecordType::DHCID)
    } else if v == 50 {
        Some(ResourceRecordType::NSEC3)
    } else if v == 51 {
        Some(ResourceRecordType::NSEC3PARAM)
    } else if v == 52 {
        Some(ResourceRecordType::TLSA)
    } else if v == 53 {
        Some(ResourceRecordType::SMIMEA)
    } else if v == 55 {
        Some(ResourceRecordType::HIP)
    } else if v == 59 {
        Some(ResourceRecordType::CDS)
    } else if v == 60 {
        Some(ResourceRecordType::CDNSKEY)
    } else if v == 61 {
        Some(ResourceRecordType::OPENPGPKEY)
    } else if v == 62 {
        Some(ResourceRecordType::CSYNC)
    } else if v == 63 {
        Some(ResourceRecordType::ZONEMD)
    } else if v == 64 {
        Some(ResourceRecordType::SVCB)
    } else if v == 65 {
        Some(ResourceRecordType::HTTPS)
    } else if v == 108 {
        Some(ResourceRecordType::EUI48)
    } else if v == 109 {
        Some(ResourceRecordType::EUI64)
    } else if v == 249 {
        Some(ResourceRecordType::TKEY)
    } else if v == 250 {
        Some(ResourceRecordType::TSIG)
    } else if v == 256 {
        Some(ResourceRecordType::URI)
    } else if v == 257 {
        Some(ResourceRecordType::CAA)
    } else if v == 32768 {
        Some(ResourceRecordType::TA)
    } else if v == 32769 {
        Some(ResourceRecordType::DLV)
    } else {
        None
    }
}

/// The numeric wire tag of a class.
pub open spec fn spec_class_value(c: ClassCode) -> u16 {
    match c {
        ClassCode::IN => 1,
        ClassCode::CH => 3,
        ClassCode::HS => 4,
    }
}

/// The class denoted by a numeric tag, if any.
pub open spec fn spec_class_of(v: u16) -> Option<ClassCode> {
    if v == 1 {
        Some(ClassCode::IN)
    } else if v == 3 {
        Some(ClassCode::CH)
    } else if v == 4 {
        Some(ClassCode::HS)
    } else {
        None
    }
}

impl ResourceRecordType {
    /// The record type for a numeric tag, or `InvalidRecordType`.
    pub fn try_from(value: u16) -> (r: Result<ResourceRecordType, DNSBodyParseError>)
        ensures
            r == match spec_rr_type_of(value) {
                Some(t) => Ok::<ResourceRecordType, DNSBodyParseError>(t),
                None => Err(DNSBodyParseError::InvalidRecordType),
            },
    {
        match value {
            1 => Ok(ResourceRecordType::A),
            2 => Ok(ResourceRecordType::NS),
            5 => Ok(ResourceRecordType::Cname),
            6 => Ok(ResourceRecordType::SOA),
            12 => Ok(ResourceRecordType::PTR),
            13 => Ok(ResourceRecordType::HINFO),
            15 => Ok(ResourceRecordType::MX),
            16 => Ok(ResourceRecordType::TXT),
            17 => Ok(ResourceRecordType::RP),
            18 => Ok(ResourceRecordType::AFSDB),
            24 => Ok(ResourceRecordType::SIG),
            25 => Ok(ResourceRecordType::KEY),
            28 => Ok(ResourceRecordType::AAAA),
            29 => Ok(ResourceRecordType::LOC),
            33 => Ok(ResourceRecordType::SRV),
            35 => Ok(ResourceRecordType::NAPTR),
            36 => Ok(ResourceRecordType::KX),
            37 => Ok(ResourceRecordType::CERT),
            39 => Ok(ResourceRecordType::DNAME),
            42 => Ok(ResourceRecordType::APL),
            43 => Ok(ResourceRecordType::DS),
            44 => Ok(ResourceRecordType::SSHFP),
            45 => Ok(ResourceRecordType::IPSECKEY),
            46 => Ok(ResourceRecordType::RRSIG),
            47 => Ok(ResourceRecordType::NSEC),
            48 => Ok(ResourceRecordType::DNSKEY),
            49 => Ok(ResourceRecordType::DHCID),
            50 => Ok(ResourceRecordType::NSEC3),
            51 => Ok(ResourceRecordType::NSEC3PARAM),
            52 => Ok(ResourceRecordType::TLSA),
            53 => Ok(ResourceRecordType::SMIMEA),
            55 => Ok(ResourceRecordType::HIP),
            59 => Ok(ResourceRecordType::CDS),
            60 => Ok(ResourceRecordType::CDNSKEY),
            61 => Ok(ResourceRecordType::OPENPGPKEY),
            62 => Ok(ResourceRecordType::CSYNC),
            63 => Ok(ResourceRecordType::ZONEMD),
            64 => Ok(ResourceRecordType::SVCB),
            65 => Ok(ResourceRecordType::HTTPS),
            108 => Ok(ResourceRecordType::EUI48),
            109 => Ok(ResourceRecordType::EUI64),
            249 => Ok(ResourceRecordType::TKEY),
            250 => Ok(ResourceRecordType::TSIG),
            256 => Ok(ResourceRecordType::URI),
            257 => Ok(ResourceRecordType::CAA),
            32768 => Ok(ResourceRecordType::TA),
            32769 => Ok(ResourceRecordType::DLV),
            _ => Err(DNSBodyParseError::InvalidRecordType),
        }
    }

    /// The numeric wire tag of this record type.
    pub fn value(&self) -> (r: u16)
        ensures
            r == spec_rr_type_value(*self),
    {
        match self {
            ResourceRecordType::A => 1,
            ResourceRecordType::NS => 2,
            ResourceRecordType::Cname => 5,
            ResourceRecordType::SOA => 6,
            ResourceRecordType::PTR => 12,
            ResourceRecordType::HINFO => 13,
            ResourceRecordType::MX => 15,
            ResourceRecordType::TXT => 16,
            ResourceRecordType::RP => 17,
            ResourceRecordType::AFSDB => 18,
            ResourceRecordType::SIG => 24,
            ResourceRecordType::KEY => 25,
            ResourceRecordType::AAAA => 28,
            ResourceRecordType::LOC => 29,
            ResourceRecordType::SRV => 33,
            ResourceRecordType::NAPTR => 35,
            ResourceRecordType::KX => 36,
            ResourceRecordType::CERT => 37,
            ResourceRecordType::DNAME => 39,
            ResourceRecordType::APL => 42,
            ResourceRecordType::DS => 43,
            ResourceRecordType::SSHFP => 44,
            ResourceRecordType::IPSECKEY => 45,
            ResourceRecordType::RRSIG => 46,
            ResourceRecordType::NSEC => 47,
            ResourceRecordType::DNSKEY => 48,
            ResourceRecordType::DHCID => 49,
            ResourceRecordType::NSEC3 => 50,
            ResourceRecordType::NSEC3PARAM => 51,
            ResourceRecordType::TLSA => 52,
            ResourceRecordType::SMIMEA => 53,
            ResourceRecordType::HIP => 55,
            ResourceRecordType::CDS => 59,
            ResourceRecordType::CDNSKEY => 60,
            ResourceRecordType::OPENPGPKEY => 61,
            ResourceRecordType::CSYNC => 62,
            ResourceRecordType::ZONEMD => 63,
            ResourceRecordType::SVCB => 64,
            ResourceRecordType::HTTPS => 65,
            ResourceRecordType::EUI48 => 108,
            ResourceRecordType::EUI64 => 109,
            ResourceRecordType::TKEY => 249,
            ResourceRecordType::TSIG => 250,
            ResourceRecordType::URI => 256,
            ResourceRecordType::CAA => 257,
            ResourceRecordType::TA => 32768,
            ResourceRecordType::DLV => 32769,
        }
    }
}

impl ClassCode {
    /// The class for a numeric tag, or `InvalidClassCode`.
    pub fn try_from(value: u16) -> (r: Result<ClassCode, DNSBodyParseError>)
        ensures
            r == match spec_class_of(value) {
                Some(c) => Ok::<ClassCode, DNSBodyParseError>(c),
                None => Err(DNSBodyParseError::InvalidClassCode),
            },
    {
        match value {
            1 => Ok(ClassCode::IN),
            3 => Ok(ClassCode::CH),
            4 => Ok(ClassCode::HS),
            _ => Err(DNSBodyParseError::InvalidClassCode),
        }
    }

    /// The numeric wire tag of this class.
    pub fn value(&self) -> (r: u16)
        ensures
            r == spec_class_value(*self),
    {
        match self {
            ClassCode::IN => 1,
            ClassCode::CH => 3,
            ClassCode::HS => 4,
        }
    }
}

/// One of the questions sent in a query.
pub struct Question {
    /// The name requested, as its labels.
    pub name: Vec<Vec<u8>>,
    /// The type of resource record requested.
    pub rr_type: ResourceRecordType,
    /// The class code. Usually IN.
    pub class: ClassCode,
}

/// The mathematical value of a [`Question`].
pub ghost struct QuestionView {
    pub name: Seq<Seq<u8>>,
    pub rr_type: ResourceRecordType,
    pub class: ClassCode,
}

impl View for Question {
    type V = QuestionView;

    open spec fn view(&self) -> QuestionView {
        QuestionView { name: labels_view(self.name), rr_type: self.rr_type, class: self.class }
    }
}

/// A typed, classed, TTL-bounded unit of DNS data.
pub struct ResourceRecord {
    /// The name the record belongs to, as its labels.
    pub name: Vec<Vec<u8>>,
    pub rr_type: ResourceRecordType,
    pub class: ClassCode,
    /// Seconds the record may be cached before it must be re-resolved.
    pub ttl: u32,
    /// The declared length of the rdata field.
    pub rd_length: u16,
    /// The record data, of length `rd_length`.
    pub rdata: Vec<u8>,
}

/// The mathematical value of a [`ResourceRecord`].
pub ghost struct ResourceRecordView {
    pub name: Seq<Seq<u8>>,
    pub rr_type: ResourceRecordType,
    pub class: ClassCode,
    pub ttl: u32,
    pub rd_length: u16,
    pub rdata: Seq<u8>,
}

impl View for ResourceRecord {
    type V = ResourceRecordView;

    open spec fn view(&self) -> ResourceRecordView {
        ResourceRecordView {
            name: labels_view(self.name),
            rr_type: self.rr_type,
            class: self.class,
            ttl: self.ttl,
            rd_length: self.rd_length,
            rdata: self.rdata@,
        }
    }
}

impl ResourceRecordView {
    /// A record is well formed when its rdata is as long as it declares.
    pub open spec fn wf(self) -> bool {
        self.rd_length as int == self.rdata.len()
    }
}

/// A decoded message: header, questions, then the answer, authority and
/// additional records in wire order.
pub struct DNSRequest {
    pub headers: DNSHeaders,
    pub questions: Vec<Question>,
    pub records: Vec<ResourceRecord>,
}

/// The mathematical value of a [`DNSRequest`].
pub ghost struct DNSRequestView {
    pub headers: DNSHeaders,
    pub questions: Seq<QuestionView>,
    pub records: Seq<ResourceRecordView>,
}

/// The views of a vector of questions.
pub open spec fn questions_view(v: Vec<Question>) -> Seq<QuestionView> {
    Seq::new(v@.len(), |i: int| v@[i]@)
}

/// The views of a vector of resource records.
pub open spec fn records_view(v: Vec<ResourceRecord>) -> Seq<ResourceRecordView> {
    Seq::new(v@.len(), |i: int| v@[i]@)
}

impl View for DNSRequest {
    type V = DNSRequestView;

    open spec fn view(&self) -> DNSRequestView {
        DNSRequestView {
            headers: self.headers,
            questions: questions_view(self.questions),
            records: records_view(self.records),
        }
    }
}

/// A 32-bit value as four big-endian bytes.
pub open spec fn spec_u32_be(v: u32) -> Seq<u8> {
    seq![(v >> 24) as u8, (v >> 16) as u8, (v >> 8) as u8, v as u8]
}

/// The 32-bit value read from four big-endian bytes.
pub open spec fn spec_read_u32(b0: u8, b1: u8, b2: u8, b3: u8) -> u32 {
    ((b0 as u32) << 24) | ((b1 as u32) << 16) | ((b2 as u32) << 8) | (b3 as u32)
}

/// The 32-bit value read from four big-endian bytes.
pub fn read_u32(b0: u8, b1: u8, b2: u8, b3: u8) -> (r: u32)
    ensures
        r == spec_read_u32(b0, b1, b2, b3),
{
    ((b0 as u32) << 24) | ((b1 as u32) << 16) | ((b2 as u32) << 8) | (b3 as u32)
}

/// The wire encoding of a question.
pub open spec fn spec_encode_question(q: QuestionView) -> Seq<u8> {
    spec_encoded_name(q.name) + spec_u16_be(spec_rr_type_value(q.rr_type)) + spec_u16_be(
        spec_class_value(q.class),
    )
}

/// The wire encoding of a resource record.
pub open spec fn spec_encode_rr(r: ResourceRecordView) -> Seq<u8> {
    spec_encoded_name(r.name) + spec_u16_be(spec_rr_type_value(r.rr_type)) + spec_u16_be(
        spec_class_value(r.class),
    ) + spec_u32_be(r.ttl) + spec_u16_be(r.rd_length) + r.rdata
}

/// The question decoded at `pos`: its value and the position just past it.
pub open spec fn spec_decode_question(bytes: Seq<u8>, pos: int) -> Result<
    (QuestionView, int),
    DNSBodyParseError,
> {
    match spec_decode_name(bytes, pos) {
        Ok((name, end)) => if end + 4 <= bytes.len() {
            match spec_rr_type_of(spec_read_u16(bytes[end], bytes[end + 1])) {
                None => Err(DNSBodyParseError::InvalidRecordType),
                Some(t) => match spec_class_of(spec_read_u16(bytes[end + 2], bytes[end + 3])) {
                    None => Err(DNSBodyParseError::InvalidClassCode),
                    Some(c) => Ok((QuestionView { name, rr_type: t, class: c }, end + 4)),
                },
            }
        } else {
            Err(DNSBodyParseError::Truncated)
        },
        Err(e) => Err(e),
    }
}

/// The resource record decoded at `pos`: its value and the position just
/// past its rdata.
pub open spec fn spec_decode_rr(bytes: Seq<u8>, pos: int) -> Result<
    (ResourceRecordView, int),
    DNSBodyParseError,
> {
    match spec_decode_name(bytes, pos) {
        Ok((name, end)) => if end + 10 <= bytes.len() {
            match spec_rr_type_of(spec_read_u16(bytes[end], bytes[end + 1])) {
                None => Err(DNSBodyParseError::InvalidRecordType),
                Some(t) => match spec_class_of(spec_read_u16(bytes[end + 2], bytes[end + 3])) {
                    None => Err(DNSBodyParseError::InvalidClassCode),
                    Some(c) => {
                        let ttl = spec_read_u32(
                            bytes[end + 4],
                            bytes[end + 5],
                            bytes[end + 6],
                            bytes[end + 7],
                        );
                        let rd_length = spec_read_u16(bytes[end + 8], bytes[end + 9]);
                        if end + 10 + rd_length <= bytes.len() {
                            Ok(
                                (
                                    ResourceRecordView {
                                        name,
                                        rr_type: t,
                                        class: c,
                                        ttl,
                                        rd_length,
                                        rdata: bytes.subrange(end + 10, end + 10 + rd_length),
                                    },
                                    end + 10 + rd_length,
                                ),
                            )
                        } else {
                            Err(DNSBodyParseError::Truncated)
                        }
                    },
                },
            }
        } else {
            Err(DNSBodyParseError::Truncated)
        },
        Err(e) => Err(e),
    }
}

/// `count` questions decoded one after another from `pos`.
pub open spec fn spec_parse_questions(bytes: Seq<u8>, pos: int, count: nat) -> Result<
    (Seq<QuestionView>, int),
    DNSBodyParseError,
>
    decreases count,
{
    if count == 0 {
        Ok((Seq::<QuestionView>::empty(), pos))
    } else {
        match spec_decode_question(bytes, pos) {
            Ok((q, next)) => match spec_parse_questions(bytes, next, (count - 1) as nat) {
                Ok((rest, end)) => Ok((seq![q] + rest, end)),
                Err(e) => Err(e),
            },
            Err(e) => Err(e),
        }
    }
}

/// `count` resource records decoded one after another from `pos`.
pub open spec fn spec_parse_records(bytes: Seq<u8>, pos: int, count: nat) -> Result<
    (Seq<ResourceRecordView>, int),
    DNSBodyParseError,
>
    decreases count,
{
    if count == 0 {
        Ok((Seq::<ResourceRecordView>::empty(), pos))
    } else {
        match spec_decode_rr(bytes, pos) {
            Ok((r, next)) => match spec_parse_records(bytes, next, (count - 1) as nat) {
                Ok((rest, end)) => Ok((seq![r] + rest, end)),
                Err(e) => Err(e),
            },
            Err(e) => Err(e),
        }
    }
}

/// The whole body of a message whose header is `h`: the questions starting
/// at offset 12, then all the records the header announces. Trailing bytes
/// are ignored.
pub open spec fn spec_parse_body(h: DNSHeaders, bytes: Seq<u8>) -> Result<
    DNSRequestView,
    DNSBodyParseError,
> {
    match spec_parse_questions(bytes, 12, h.n_questions as nat) {
        Ok((qs, p)) => match spec_parse_records(
            bytes,
            p,
            (h.n_answers + h.n_authority_rrs + h.n_additional_rrs) as nat,
        ) {
            Ok((rs, _end)) => Ok(DNSRequestView { headers: h, questions: qs, records: rs }),
            Err(e) => Err(e),
        },
        Err(e) => Err(e),
    }
}

/// A question the decoder accepts carries a valid wire name.
pub proof fn lemma_decoded_question_valid(bytes: Seq<u8>, pos: int)
    ensures
        spec_decode_question(bytes, pos) matches Ok(p) ==> valid_name(p.0.name),
{
    crate::name::lemma_decoded_name_valid(bytes, pos);
}

/// A record the decoder accepts carries a valid wire name.
pub proof fn lemma_decoded_rr_valid(bytes: Seq<u8>, pos: int)
    ensures
        spec_decode_rr(bytes, pos) matches Ok(p) ==> valid_name(p.0.name) && p.0.wf(),
{
    crate::name::lemma_decoded_name_valid(bytes, pos);
    crate::name::lemma_decoded_name_end_range(bytes, pos);
}

/// Every question in an accepted body carries a valid wire name.
pub proof fn lemma_parse_questions_valid(bytes: Seq<u8>, pos: int, count: nat)
    ensures
        spec_parse_questions(bytes, pos, count) matches Ok(p) ==> forall|i: int|
            0 <= i < p.0.len() ==> valid_name(#[trigger] p.0[i].name),
    decreases count,
{
    if count > 0 {
        lemma_decoded_question_valid(bytes, pos);
        match spec_decode_question(bytes, pos) {
            Ok((q, next)) => {
                lemma_parse_questions_valid(bytes, next, (count - 1) as nat);
                match spec_parse_questions(bytes, next, (count - 1) as nat) {
                    Ok((rest, _end)) => {
                        assert forall|i: int| 0 <= i < (seq![q] + rest).len() implies valid_name(
                            #[trigger] (seq![q] + rest)[i].name,
                        ) by {
                            if i > 0 {
                                assert((seq![q] + rest)[i] == rest[i - 1]);
                            }
                        }
                    },
                    Err(_) => {},
                }
            },
            Err(_) => {},
        }
    }
}

/// Every record in an accepted body is well formed with a valid wire name.
pub proof fn lemma_parse_records_valid(bytes: Seq<u8>, pos: int, count: nat)
    ensures
        spec_parse_records(bytes, pos, count) matches Ok(p) ==> forall|i: int|
            0 <= i < p.0.len() ==> valid_name(#[trigger] p.0[i].name) && p.0[i].wf(),
    decreases count,
{
    if count > 0 {
        lemma_decoded_rr_valid(bytes, pos);
        match spec_decode_rr(bytes, pos) {
            Ok((r, next)) => {
                lemma_parse_records_valid(bytes, next, (count - 1) as nat);
                match spec_parse_records(bytes, next, (count - 1) as nat) {
                    Ok((rest, _end)) => {
                        assert forall|i: int| 0 <= i < (seq![r] + rest).len() implies valid_name(
                            #[trigger] (seq![r] + rest)[i].name,
                        ) && (seq![r] + rest)[i].wf() by {
                            if i > 0 {
                                assert((seq![r] + rest)[i] == rest[i - 1]);
                                assert(valid_name(rest[i - 1].name) && rest[i - 1].wf());
                            } else {
                                assert((seq![r] + rest)[0] == r);
                                assert(valid_name(r.name) && r.wf());
                            }
                        }
                        assert(spec_parse_records(bytes, pos, count) == Ok::<
                            (Seq<ResourceRecordView>, int),
                            DNSBodyParseError,
                        >((seq![r] + rest, _end)));
                    },
                    Err(_) => {},
                }
            },
            Err(_) => {},
        }
    }
}

/// Everything in an accepted body is well formed: question and record names
/// are valid and record data has its declared length.
pub proof fn lemma_parse_body_valid(h: DNSHeaders, bytes: Seq<u8>)
    ensures
        spec_parse_body(h, bytes) is Ok ==> ({
            let req = spec_parse_body(h, bytes)->Ok_0;
            (forall|i: int|
                0 <= i < req.questions.len() ==> valid_name(#[trigger] req.questions[i].name))
                && (forall|i: int|
                0 <= i < req.records.len() ==> valid_name(#[trigger] req.records[i].name)
                    && req.records[i].wf())
        }),
{
    lemma_parse_questions_valid(bytes, 12, h.n_questions as nat);
    match spec_parse_questions(bytes, 12, h.n_questions as nat) {
        Ok((qs, p)) => {
            lemma_parse_records_valid(
                bytes,
                p,
                (h.n_answers + h.n_authority_rrs + h.n_additional_rrs) as nat,
            );
        },
        Err(_) => {},
    }
}

/// Encodes a question: name, type tag, class tag. Fails exactly as
/// [`encode_name`] does on the name.
pub fn encode_question(q: &Question) -> (r: Result<Vec<u8>, DNSBodyParseError>)
    ensures
        valid_name(q@.name) ==> (r matches Ok(out) && out@ == spec_encode_question(q@)),
        r is Err ==> !valid_name(q@.name),
{
    let mut out = match encode_name(&q.name) {
        Ok(v) => v,
        Err(e) => {
            return Err(e);
        },
    };
    let tv = q.rr_type.value();
    out.push((tv >> 8) as u8);
    out.push(tv as u8);
    let cv = q.class.value();
    out.push((cv >> 8) as u8);
    out.push(cv as u8);
    proof {
        if valid_name(q@.name) {
            assert(out@ =~= spec_encode_question(q@));
        }
    }
    Ok(out)
}

/// Encodes a resource record: name, type, class, TTL, rdata length, rdata.
/// The record must be well formed; the name fails as in [`encode_name`].
pub fn encode_resource_record(rec: &ResourceRecord) -> (r: Result<Vec<u8>, DNSBodyParseError>)
    requires
        rec@.wf(),
    ensures
        valid_name(rec@.name) ==> (r matches Ok(out) && out@ == spec_encode_rr(rec@)),
        r is Err ==> !valid_name(rec@.name),
{
    let mut out = match encode_name(&rec.name) {
        Ok(v) => v,
        Err(e) => {
            return Err(e);
        },
    };
    let tv = rec.rr_type.value();
    out.push((tv >> 8) as u8);
    out.push(tv as u8);
    let cv = rec.class.value();
    out.push((cv >> 8) as u8);
    out.push(cv as u8);
    let ttl = rec.ttl;
    out.push((ttl >> 24) as u8);
    out.push((ttl >> 16) as u8);
    out.push((ttl >> 8) as u8);
    out.push(ttl as u8);
    out.push((rec.rd_length >> 8) as u8);
    out.push(rec.rd_length as u8);
    let mut j: usize = 0;
    let ghost before = out@;
    while j < rec.rdata.len()
        invariant
            0 <= j <= rec.rdata@.len(),
            out@ == before + rec.rdata@.take(j as int),
        decreases rec.rdata@.len() - j,
    {
        out.push(rec.rdata[j]);
        proof {
            assert(rec.rdata@.take(j + 1) =~= rec.rdata@.take(j as int).push(rec.rdata@[j as int]));
            assert(out@ =~= before + rec.rdata@.take(j + 1));
        }
        j += 1;
    }
    proof {
        if valid_name(rec@.name) {
            assert(rec.rdata@.take(rec.rdata@.len() as int) =~= rec.rdata@);
            assert(out@ =~= spec_encode_rr(rec@));
        }
    }
    Ok(out)
}

/// Decodes the question at `start`: its value and the position just past it.
pub fn decode_question(bytes: &[u8], start: usize) -> (r: Result<
    (Question, usize),
    DNSBodyParseError,
>)
    ensures
        match r {
            Ok((q, end)) => spec_decode_question(bytes@, start as int) is Ok
                && spec_decode_question(bytes@, start as int)->Ok_0 == (q@, end as int),
            Err(e) => spec_decode_question(bytes@, start as int) == Err::<
                (QuestionView, int),
                DNSBodyParseError,
            >(e),
        },
{
    let (name, end) = match decode_name(bytes, start) {
        Ok(p) => p,
        Err(e) => {
            return Err(e);
        },
    };
    if bytes.len() < 4 || end > bytes.len() - 4 {
        return Err(DNSBodyParseError::Truncated);
    }
    let tv = read_u16(bytes[end], bytes[end + 1]);
    let t = match ResourceRecordType::try_from(tv) {
        Ok(t) => t,
        Err(e) => {
            return Err(e);
        },
    };
    let cv = read_u16(bytes[end + 2], bytes[end + 3]);
    let c = match ClassCode::try_from(cv) {
        Ok(c) => c,
        Err(e) => {
            return Err(e);
        },
    };
    Ok((Question { name, rr_type: t, class: c }, end + 4))
}

/// Decodes the resource record at `start`: its value and the position just
/// past its rdata. The result is well formed: its rdata has the declared
/// length.
pub fn decode_resource_record(bytes: &[u8], start: usize) -> (r: Result<
    (ResourceRecord, usize),
    DNSBodyParseError,
>)
    ensures
        match r {
            Ok((rec, end)) => spec_decode_rr(bytes@, start as int) is Ok && spec_decode_rr(
                bytes@,
                start as int,
            )->Ok_0 == (rec@, end as int) && rec@.wf(),
            Err(e) => spec_decode_rr(bytes@, start as int) == Err::<
                (ResourceRecordView, int),
                DNSBodyParseError,
            >(e),
        },
{
    let (name, end) = match decode_name(bytes, start) {
        Ok(p) => p,
        Err(e) => {
            return Err(e);
        },
    };
    if bytes.len() < 10 || end > bytes.len() - 10 {
        return Err(DNSBodyParseError::Truncated);
    }
    let tv = read_u16(bytes[end], bytes[end + 1]);
    let t = match ResourceRecordType::try_from(tv) {
        Ok(t) => t,
        Err(e) => {
            return Err(e);
        },
    };
    let cv = read_u16(bytes[end + 2], bytes[end + 3]);
    let c = match ClassCode::try_from(cv) {
        Ok(c) => c,
        Err(e) => {
            return Err(e);
        },
    };
    let ttl = read_u32(bytes[end + 4], bytes[end + 5], bytes[end + 6], bytes[end + 7]);
    let rd_length = read_u16(bytes[end + 8], bytes[end + 9]);
    let rd_len = rd_length as usize;
    let base = end + 10;
    let n = bytes.len();
    if rd_len > n - base {
        return Err(DNSBodyParseError::Truncated);
    }
    let mut rdata: Vec<u8> = Vec::new();
    let mut j: usize = 0;
    while j < rd_len
        invariant
            0 <= j <= rd_len,
            n == bytes@.len(),
            base + rd_len <= n,
            rdata@ == bytes@.subrange(base as int, base + j),
        decreases rd_len - j,
    {
        rdata.push(bytes[base + j]);
        proof {
            assert(rdata@ =~= bytes@.subrange(base as int, base + (j + 1)));
        }
        j += 1;
    }
    Ok((ResourceRecord { name, rr_type: t, class: c, ttl, rd_length, rdata }, base + rd_len))
}

/// Parses a message body against its header: the announced number of
/// questions, then the announced records. Malformed or short input yields
/// a typed error, never a panic. `bytes` is the whole message, so that
/// compression pointers can reach earlier positions.
#[verifier::loop_isolation(false)]
pub fn parse_body(headers: DNSHeaders, bytes: &[u8]) -> (r: Result<DNSRequest, DNSBodyParseError>)
    ensures
        match r {
            Ok(req) => spec_parse_body(headers, bytes@) == Ok::<
                DNSRequestView,
                DNSBodyParseError,
            >(req@) && req@.headers == headers,
            Err(e) => spec_parse_body(headers, bytes@) == Err::<DNSRequestView, DNSBodyParseError>(
                e,
            ),
        },
{
    let n_questions = headers.n_questions as usize;
    let mut questions: Vec<Question> = Vec::new();
    let mut pos: usize = 12;
    let mut k: usize = 0;
    proof {
        assert(questions_view(questions) =~= Seq::<QuestionView>::empty());
    }
    while k < n_questions
        invariant
            0 <= k <= n_questions,
            questions@.len() == k,
            ({
                let whole = spec_parse_questions(bytes@, 12, n_questions as nat);
                let here = spec_parse_questions(bytes@, pos as int, (n_questions - k) as nat);
                match here {
                    Ok(p) => whole == Ok::<(Seq<QuestionView>, int), DNSBodyParseError>(
                        (questions_view(questions) + p.0, p.1),
                    ),
                    Err(e) => whole == Err::<(Seq<QuestionView>, int), DNSBodyParseError>(e),
                }
            }),
        decreases n_questions - k,
    {
        let (q, next) = match decode_question(bytes, pos) {
            Ok(p) => p,
            Err(e) => {
                return Err(e);
            },
        };
        let ghost old_questions = questions;
        questions.push(q);
        proof {
            assert(questions_view(questions) =~= questions_view(old_questions).push(q@));
            let rest_after = spec_parse_questions(
                bytes@,
                next as int,
                (n_questions - k - 1) as nat,
            );
            match rest_after {
                Ok(p) => {
                    assert(questions_view(old_questions) + (seq![q@] + p.0) =~= questions_view(
                        questions,
                    ) + p.0);
                },
                Err(_) => {},
            }
        }
        pos = next;
        k += 1;
    }
    let n_records = headers.n_answers as usize + headers.n_authority_rrs as usize
        + headers.n_additional_rrs as usize;
    let mut records: Vec<ResourceRecord> = Vec::new();
    let ghost rec_start = pos as int;
    let mut k2: usize = 0;
    proof {
        assert(records_view(records) =~= Seq::<ResourceRecordView>::empty());
    }
    while k2 < n_records
        invariant
            0 <= k2 <= n_records,
            ({
                let whole = spec_parse_records(bytes@, rec_start, n_records as nat);
                let here = spec_parse_records(bytes@, pos as int, (n_records - k2) as nat);
                match here {
                    Ok(p) => whole == Ok::<(Seq<ResourceRecordView>, int), DNSBodyParseError>(
                        (records_view(records) + p.0, p.1),
                    ),
                    Err(e) => whole == Err::<(Seq<ResourceRecordView>, int), DNSBodyParseError>(e),
                }
            }),
        decreases n_records - k2,
    {
        let (rec, next) = match decode_resource_record(bytes, pos) {
            Ok(p) => p,
            Err(e) => {
                return Err(e);
            },
        };
        let ghost old_records = records;
        records.push(rec);
        proof {
            assert(records_view(records) =~= records_view(old_records).push(rec@));
            let rest_after = spec_parse_records(bytes@, next as int, (n_records - k2 - 1) as nat);
            match rest_after {
                Ok(p) => {
                    assert(records_view(old_records) + (seq![rec@] + p.0) =~= records_view(records)
                        + p.0);
                },
                Err(_) => {},
            }
        }
        pos = next;
        k2 += 1;
    }
    let req = DNSRequest { headers, questions, records };
    proof {
        assert(questions_view(req.questions) + Seq::<QuestionView>::empty() =~= questions_view(
            req.questions,
        ));
        assert(records_view(req.records) + Seq::<ResourceRecordView>::empty() =~= records_view(
            req.records,
        ));
    }
    Ok(req)
}

} // verus!
