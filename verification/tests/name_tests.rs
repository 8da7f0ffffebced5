use dns_core::codec::{
    decode_question, decode_resource_record, encode_question, encode_resource_record, parse_body,
    ClassCode, Question, ResourceRecord, ResourceRecordType,
};
use dns_core::messages::{parse_header, DNSHeaderFlags, DNSHeaders, OpCode, ResponseCode};
use dns_core::name::{decode_name, encode_name, DNSBodyParseError};
use dns_core::resolver::dotted_key;

fn example_com() -> Vec<Vec<u8>> {
    vec![b"example".to_vec(), b"com".to_vec()]
}

#[test]
fn name_encode_decode_round_trip() {
    let name = example_com();
    let encoded = encode_name(&name).expect("a short name encodes");
    let mut expected: Vec<u8> = vec![7];
    expected.extend_from_slice(b"example");
    expected.push(3);
    expected.extend_from_slice(b"com");
    expected.push(0);
    assert_eq!(encoded, expected);

    let (labels, end) = decode_name(&encoded, 0).expect("the encoding decodes");
    assert_eq!(labels, name);
    assert_eq!(end, encoded.len());
    assert_eq!(dotted_key(&labels), b"example.com".to_vec());
}

#[test]
fn label_length_boundary() {
    let just_fits = vec![vec![0x61u8; 63], b"com".to_vec()];
    assert!(encode_name(&just_fits).is_ok());

    let too_long = vec![vec![0x61u8; 64], b"com".to_vec()];
    assert_eq!(
        encode_name(&too_long),
        Err(DNSBodyParseError::InvalidLabelLength)
    );

    // The same boundary on the wire: a 63-byte label decodes, a length byte
    // of 64 is in the reserved range.
    let encoded = encode_name(&just_fits).unwrap();
    assert!(decode_name(&encoded, 0).is_ok());

    let mut bad = vec![64u8];
    bad.extend_from_slice(&[0x61; 64]);
    bad.push(0);
    assert_eq!(
        decode_name(&bad, 0),
        Err(DNSBodyParseError::InvalidLabelLength)
    );
}

#[test]
fn name_too_long_rejected() {
    // Five labels of 63 bytes encode to 5 * 64 + 1 = 321 octets, over 255.
    let name = vec![vec![0x61u8; 63]; 5];
    assert_eq!(encode_name(&name), Err(DNSBodyParseError::NameTooLong));
}

#[test]
fn truncated_name_rejected() {
    // Length byte says 7 but only three bytes follow.
    let bad = vec![7u8, 0x61, 0x62, 0x63];
    assert_eq!(decode_name(&bad, 0), Err(DNSBodyParseError::Truncated));
    // No terminator.
    let bad2 = vec![1u8, 0x61];
    assert_eq!(decode_name(&bad2, 0), Err(DNSBodyParseError::Truncated));
}

#[test]
fn compression_pointer_followed() {
    // "com" at offset 0; at offset 5 the label "example" then a pointer back
    // to offset 0: together "example.com".
    let mut bytes: Vec<u8> = vec![3];
    bytes.extend_from_slice(b"com");
    bytes.push(0);
    let start = bytes.len();
    bytes.push(7);
    bytes.extend_from_slice(b"example");
    bytes.push(0xC0);
    bytes.push(0x00);
    let (labels, end) = decode_name(&bytes, start).expect("the pointer resolves");
    assert_eq!(labels, example_com());
    assert_eq!(end, bytes.len());
}

#[test]
fn compression_pointer_loop_rejected() {
    // A pointer that points at itself never terminates; the chase bound
    // rejects it.
    let bytes = vec![0xC0u8, 0x00];
    assert_eq!(
        decode_name(&bytes, 0),
        Err(DNSBodyParseError::CompressionPointerLoop)
    );
}

#[test]
fn question_round_trip() {
    let q = Question {
        name: example_com(),
        rr_type: ResourceRecordType::A,
        class: ClassCode::IN,
    };
    let bytes = encode_question(&q).expect("the question encodes");
    let (back, end) = decode_question(&bytes, 0).expect("the question decodes");
    assert_eq!(back.name, q.name);
    assert_eq!(back.rr_type, q.rr_type);
    assert_eq!(back.class, q.class);
    assert_eq!(end, bytes.len());
}

#[test]
fn question_invalid_type_and_class() {
    let mut bytes = encode_name(&example_com()).unwrap();
    bytes.extend_from_slice(&[0x00, 0x03]); // type 3 is not assigned
    bytes.extend_from_slice(&[0x00, 0x01]);
    assert!(matches!(
        decode_question(&bytes, 0),
        Err(DNSBodyParseError::InvalidRecordType)
    ));

    let mut bytes2 = encode_name(&example_com()).unwrap();
    bytes2.extend_from_slice(&[0x00, 0x01]);
    bytes2.extend_from_slice(&[0x00, 0x05]); // class 5 is not assigned
    assert!(matches!(
        decode_question(&bytes2, 0),
        Err(DNSBodyParseError::InvalidClassCode)
    ));
}

#[test]
fn resource_record_round_trip() {
    let rec = ResourceRecord {
        name: example_com(),
        rr_type: ResourceRecordType::A,
        class: ClassCode::IN,
        ttl: 3600,
        rd_length: 4,
        rdata: vec![93, 184, 216, 34],
    };
    let bytes = encode_resource_record(&rec).expect("the record encodes");
    let (back, end) = decode_resource_record(&bytes, 0).expect("the record decodes");
    assert_eq!(back.name, rec.name);
    assert_eq!(back.rr_type, rec.rr_type);
    assert_eq!(back.class, rec.class);
    assert_eq!(back.ttl, rec.ttl);
    assert_eq!(back.rd_length, rec.rd_length);
    assert_eq!(back.rdata, rec.rdata);
    assert_eq!(end, bytes.len());
}

#[test]
fn resource_record_short_rdata_rejected() {
    let rec = ResourceRecord {
        name: example_com(),
        rr_type: ResourceRecordType::A,
        class: ClassCode::IN,
        ttl: 60,
        rd_length: 4,
        rdata: vec![1, 2, 3, 4],
    };
    let mut bytes = encode_resource_record(&rec).unwrap();
    bytes.truncate(bytes.len() - 2);
    assert!(matches!(
        decode_resource_record(&bytes, 0),
        Err(DNSBodyParseError::Truncated)
    ));
}

#[test]
fn parse_body_reads_question_and_answer() {
    let headers = DNSHeaders {
        transaction_id: 0x0102,
        flags: DNSHeaderFlags {
            is_query: false,
            opcode: OpCode::Query,
            is_authoritative: true,
            truncated: false,
            recursion_desired: false,
            recursion_available: false,
            zero: false,
            authentic_data: false,
            checking_disabled: false,
            rcode: ResponseCode::NoError,
        },
        n_questions: 1,
        n_answers: 1,
        n_authority_rrs: 0,
        n_additional_rrs: 0,
    };
    let q = Question {
        name: example_com(),
        rr_type: ResourceRecordType::A,
        class: ClassCode::IN,
    };
    let rec = ResourceRecord {
        name: example_com(),
        rr_type: ResourceRecordType::A,
        class: ClassCode::IN,
        ttl: 300,
        rd_length: 4,
        rdata: vec![10, 0, 0, 1],
    };
    let mut message = headers.to_bytes();
    message.extend_from_slice(&encode_question(&q).unwrap());
    message.extend_from_slice(&encode_resource_record(&rec).unwrap());

    let parsed_headers = parse_header(&message).unwrap();
    assert_eq!(parsed_headers, headers);
    let req = parse_body(parsed_headers, &message).expect("the body parses");
    assert_eq!(req.questions.len(), 1);
    assert_eq!(req.records.len(), 1);
    assert_eq!(req.questions[0].name, q.name);
    assert_eq!(req.records[0].rdata, rec.rdata);
    assert_eq!(req.records[0].ttl, 300);
}

#[test]
fn parse_body_truncated_record() {
    let headers = DNSHeaders {
        transaction_id: 1,
        flags: DNSHeaderFlags {
            is_query: true,
            opcode: OpCode::Query,
            is_authoritative: false,
            truncated: false,
            recursion_desired: false,
            recursion_available: false,
            zero: false,
            authentic_data: false,
            checking_disabled: false,
            rcode: ResponseCode::NoError,
        },
        n_questions: 1,
        n_answers: 0,
        n_authority_rrs: 0,
        n_additional_rrs: 0,
    };
    // Header only: the promised question is missing.
    let message = headers.to_bytes();
    assert!(matches!(
        parse_body(headers, &message),
        Err(DNSBodyParseError::Truncated)
    ));
}
