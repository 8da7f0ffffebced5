use dns_core::codec::{encode_question, ClassCode, Question, ResourceRecord, ResourceRecordType};
use dns_core::domain::Domain;
use dns_core::messages::{parse_header, DNSHeaderFlags, DNSHeaders, OpCode, ResponseCode};
use dns_core::resolver::{build_error_response, Resolver, ResolverOutput};

fn example_name() -> Vec<Vec<u8>> {
    vec![b"example".to_vec(), b"com".to_vec()]
}

fn example_question() -> Question {
    Question {
        name: example_name(),
        rr_type: ResourceRecordType::A,
        class: ClassCode::IN,
    }
}

fn example_record() -> ResourceRecord {
    ResourceRecord {
        name: example_name(),
        rr_type: ResourceRecordType::A,
        class: ClassCode::IN,
        ttl: 300,
        rd_length: 4,
        rdata: vec![93, 184, 216, 34],
    }
}

fn query_header(tid: u16) -> DNSHeaders {
    DNSHeaders {
        transaction_id: tid,
        flags: DNSHeaderFlags {
            is_query: true,
            opcode: OpCode::Query,
            is_authoritative: false,
            truncated: false,
            recursion_desired: true,
            recursion_available: false,
            zero: false,
            authentic_data: false,
            checking_disabled: false,
            rcode: ResponseCode::NoError,
        },
        n_questions: 1,
        n_answers: 0,
        n_authority_rrs: 0,
        n_additional_rrs: 0,
    }
}

fn query_bytes(tid: u16) -> Vec<u8> {
    let mut bytes = query_header(tid).to_bytes();
    bytes.extend_from_slice(&encode_question(&example_question()).unwrap());
    bytes
}

fn reply_bytes(tid: u16, authoritative: bool) -> Vec<u8> {
    let mut headers = query_header(tid);
    headers.flags.is_query = false;
    headers.flags.is_authoritative = authoritative;
    headers.n_answers = 1;
    let mut bytes = headers.to_bytes();
    bytes.extend_from_slice(&encode_question(&example_question()).unwrap());
    bytes.extend_from_slice(
        &dns_core::codec::encode_resource_record(&example_record()).unwrap(),
    );
    bytes
}

#[test]
fn malformed_query_answers_formerr() {
    let mut resolver = Resolver::new(30, 8, 4);
    // Too short for a header: the two leading bytes still name the caller.
    let out = resolver.handle_query(&[0xab, 0xcd, 0x01], 0);
    match out {
        ResolverOutput::Respond(bytes) => {
            let h = parse_header(&bytes).unwrap();
            assert_eq!(h.transaction_id, 0xabcd);
            assert_eq!(h.flags.rcode, ResponseCode::FormErr);
            assert!(!h.flags.is_query);
            assert_eq!(h.n_answers, 0);
        }
        ResolverOutput::Delegate(_) => panic!("a malformed query never delegates"),
    }
}

#[test]
fn unknown_zone_answers_nxdomain() {
    let mut resolver = Resolver::new(30, 8, 4);
    let out = resolver.handle_query(&query_bytes(7), 0);
    match out {
        ResolverOutput::Respond(bytes) => {
            let h = parse_header(&bytes).unwrap();
            assert_eq!(h.transaction_id, 7);
            assert_eq!(h.flags.rcode, ResponseCode::NXDomain);
        }
        ResolverOutput::Delegate(_) => panic!("an empty zone tree cannot delegate"),
    }
}

#[test]
fn known_zone_delegates() {
    let mut resolver = Resolver::new(30, 8, 4);
    resolver.zones.insert(&Domain::new("example.com"));
    let out = resolver.handle_query(&query_bytes(7), 0);
    match out {
        ResolverOutput::Delegate(node) => {
            // The deepest match: root(0) -> com(1) -> example(2).
            assert_eq!(node, 2);
        }
        ResolverOutput::Respond(_) => panic!("a known zone without a cached answer delegates"),
    }
}

#[test]
fn cache_hit_answers_from_cache() {
    let mut resolver = Resolver::new(30, 8, 4);
    resolver
        .cache
        .put(b"example.com".to_vec(), example_record(), 100, Some(300));
    let out = resolver.handle_query(&query_bytes(9), 150);
    match out {
        ResolverOutput::Respond(bytes) => {
            let h = parse_header(&bytes).unwrap();
            assert_eq!(h.transaction_id, 9);
            assert_eq!(h.flags.rcode, ResponseCode::NoError);
            assert_eq!(h.n_questions, 1);
            assert_eq!(h.n_answers, 1);
            // The rdata of the cached record sits at the end of the message.
            assert_eq!(&bytes[bytes.len() - 4..], &[93, 184, 216, 34]);
        }
        ResolverOutput::Delegate(_) => panic!("a fresh cache hit answers at once"),
    }
}

#[test]
fn expired_cache_entry_leads_to_delegation() {
    let mut resolver = Resolver::new(30, 8, 4);
    resolver.zones.insert(&Domain::new("example.com"));
    resolver
        .cache
        .put(b"example.com".to_vec(), example_record(), 100, Some(10));
    // Past the TTL the entry is gone and the zone tree decides again.
    let out = resolver.handle_query(&query_bytes(9), 200);
    assert!(matches!(out, ResolverOutput::Delegate(2)));
    assert_eq!(resolver.cache.len(), 0);
}

#[test]
fn authoritative_reply_is_committed_and_answered() {
    let mut resolver = Resolver::new(30, 8, 4);
    let question = example_question();
    let out = resolver.handle_delegate_reply(11, &question, &reply_bytes(11, true), 500);
    match out {
        ResolverOutput::Respond(bytes) => {
            let h = parse_header(&bytes).unwrap();
            assert_eq!(h.transaction_id, 11);
            assert_eq!(h.flags.rcode, ResponseCode::NoError);
            assert_eq!(h.n_answers, 1);
        }
        ResolverOutput::Delegate(_) => panic!("an authoritative reply answers"),
    }
    // The answer was committed with the record's own TTL (300).
    let hit = resolver.cache.get(&b"example.com".to_vec(), 500 + 299);
    assert!(hit.is_some());
    assert_eq!(hit.unwrap().rdata, vec![93, 184, 216, 34]);
    assert!(resolver.cache.get(&b"example.com".to_vec(), 500 + 300).is_none());
}

#[test]
fn non_authoritative_reply_answers_servfail() {
    let mut resolver = Resolver::new(30, 8, 4);
    let question = example_question();
    let out = resolver.handle_delegate_reply(11, &question, &reply_bytes(11, false), 500);
    match out {
        ResolverOutput::Respond(bytes) => {
            let h = parse_header(&bytes).unwrap();
            assert_eq!(h.flags.rcode, ResponseCode::ServFail);
        }
        ResolverOutput::Delegate(_) => panic!("an unusable reply answers ServFail"),
    }
    // A failed resolution never mutates the cache.
    assert_eq!(resolver.cache.len(), 0);
}

#[test]
fn malformed_reply_answers_servfail() {
    let mut resolver = Resolver::new(30, 8, 4);
    let question = example_question();
    let out = resolver.handle_delegate_reply(12, &question, &[1, 2, 3], 0);
    match out {
        ResolverOutput::Respond(bytes) => {
            let h = parse_header(&bytes).unwrap();
            assert_eq!(h.transaction_id, 12);
            assert_eq!(h.flags.rcode, ResponseCode::ServFail);
        }
        ResolverOutput::Delegate(_) => panic!("a malformed reply answers ServFail"),
    }
    assert_eq!(resolver.cache.len(), 0);
}

#[test]
fn delegate_failure_answers_servfail() {
    let resolver = Resolver::new(30, 8, 4);
    let bytes = resolver.handle_delegate_failure(13);
    let h = parse_header(&bytes).unwrap();
    assert_eq!(h.transaction_id, 13);
    assert_eq!(h.flags.rcode, ResponseCode::ServFail);
    assert_eq!(bytes, build_error_response(13, ResponseCode::ServFail));
}

#[test]
fn query_without_questions_answers_formerr() {
    let mut resolver = Resolver::new(30, 8, 4);
    let mut headers = query_header(5);
    headers.n_questions = 0;
    let bytes = headers.to_bytes();
    let out = resolver.handle_query(&bytes, 0);
    match out {
        ResolverOutput::Respond(resp) => {
            let h = parse_header(&resp).unwrap();
            assert_eq!(h.flags.rcode, ResponseCode::FormErr);
        }
        ResolverOutput::Delegate(_) => panic!("no question, nothing to delegate"),
    }
}
