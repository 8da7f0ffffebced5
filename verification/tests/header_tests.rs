use dns_core::messages::{
    parse_header, DNSHeaderFlags, DNSHeaderParseError, DNSHeaders, OpCode, ResponseCode,
};

fn show_binary(byte_array: &[u8]) -> String {
    byte_array
        .iter()
        .map(|x| format!("{x:b}"))
        .fold("".into(), |acc, x| format!("{acc} {x}"))
}

#[test]
fn test_parse_header_normal() {
    let raw_header: [u8; 12] = [
        0x1a, 0x2b, // Transaction ID
        0x01, 0x00, // Flags (standard query, recursion desired)
        0x00, 0x01, // Questions: 1
        0x00, 0x00, // Answer RRs: 0
        0x00, 0x00, // Authority RRs: 0
        0x00, 0x00, // Additional RRs: 0
    ];

    if let Ok(result) = parse_header(&raw_header) {
        assert_eq!(result.transaction_id, 0x1a2b);
        assert!(result.flags.is_query);
        assert_eq!(result.flags.opcode, OpCode::Query);
        assert!(!result.flags.is_authoritative);
        assert!(!result.flags.truncated);
        assert!(result.flags.recursion_desired);
        assert!(!result.flags.recursion_available);
        assert!(!result.flags.zero);
        assert!(!result.flags.authentic_data);
        assert!(!result.flags.checking_disabled);
        assert_eq!(result.flags.rcode, ResponseCode::NoError);

        assert_eq!(result.n_questions, 1);
        assert_eq!(result.n_answers, 0);
        assert_eq!(result.n_authority_rrs, 0);
        assert_eq!(result.n_additional_rrs, 0);
    } else {
        panic!("Parsing a normal header should succeed");
    }
}

#[test]
fn test_header_to_bytes() {
    let expected_raw: [u8; 12] = [
        0xbe, 0xef, // Transaction ID
        0x85, 0x80, // Flags (response, AA=1, RD=1, RA=1, NoError)
        0x00, 0x01, // Questions: 1
        0x00, 0x01, // Answer RRs: 1
        0x00, 0x00, // Authority RRs: 0
        0x00, 0x00, // Additional RRs: 0
    ];
    let original = DNSHeaders {
        transaction_id: 0xbeef,
        flags: DNSHeaderFlags {
            is_query: false,
            opcode: OpCode::Query,
            is_authoritative: true,
            truncated: false,
            recursion_desired: true,
            recursion_available: true,
            zero: false,
            authentic_data: false,
            checking_disabled: false,
            rcode: ResponseCode::NoError,
        },
        n_questions: 1,
        n_answers: 1,
        n_authority_rrs: 0,
        n_additional_rrs: 0,
    };

    let output_raw = original.to_bytes();
    assert_eq!(
        output_raw,
        expected_raw,
        "The correct binary representation should be generated.
                Expected: {0}
                Actual  : {1}",
        show_binary(&expected_raw),
        show_binary(&output_raw)
    )
}

#[test]
fn header_round_trip_concrete() {
    let original = DNSHeaders {
        transaction_id: 0x7f31,
        flags: DNSHeaderFlags {
            is_query: true,
            opcode: OpCode::Status,
            is_authoritative: false,
            truncated: true,
            recursion_desired: false,
            recursion_available: true,
            zero: false,
            authentic_data: true,
            checking_disabled: true,
            rcode: ResponseCode::NXDomain,
        },
        n_questions: 3,
        n_answers: 260,
        n_authority_rrs: 1,
        n_additional_rrs: 65535,
    };
    let bytes = original.to_bytes();
    let back = parse_header(&bytes).expect("an encoded header decodes");
    assert_eq!(back, original);
}

#[test]
fn header_too_short_is_truncated() {
    let raw: [u8; 11] = [0; 11];
    assert_eq!(parse_header(&raw), Err(DNSHeaderParseError::Truncated));
    assert_eq!(parse_header(&[]), Err(DNSHeaderParseError::Truncated));
}

#[test]
fn header_invalid_opcode_rejected() {
    // Opcode bits 0011 = 3, outside the enumeration.
    let raw: [u8; 12] = [0, 0, 0b0001_1000, 0, 0, 0, 0, 0, 0, 0, 0, 0];
    assert_eq!(parse_header(&raw), Err(DNSHeaderParseError::InvalidOpcode));
}

#[test]
fn header_invalid_rcode_rejected() {
    // Rcode 4, outside the enumeration.
    let raw: [u8; 12] = [0, 0, 0, 0b0000_0100, 0, 0, 0, 0, 0, 0, 0, 0];
    assert_eq!(
        parse_header(&raw),
        Err(DNSHeaderParseError::InvalidResponseCode)
    );
}

#[test]
fn opcode_error_reported_before_rcode_error() {
    let raw: [u8; 12] = [0, 0, 0b0111_1000, 0x0f, 0, 0, 0, 0, 0, 0, 0, 0];
    assert_eq!(parse_header(&raw), Err(DNSHeaderParseError::InvalidOpcode));
}
