//! DNS message types and the 12-byte header codec.
//!
//! The wire layout is big-endian: a 16-bit transaction id, 16 bits of flags,
//! then four 16-bit section counts. The first flag byte carries the direction
//! bit (0 for a query), the 4-bit opcode, and the authoritative, truncated and
//! recursion-desired bits; the second carries recursion-available, the
//! reserved-zero bit, authentic-data, checking-disabled and the 4-bit rcode.

use vstd::prelude::*;

verus! {

/// The type of operation carried in the header's 4-bit opcode field.
/// Wire values 3 through 15 are outside the enumeration and rejected.
#[derive(Clone, Copy, Debug, PartialEq, Eq, Structural)]
pub enum OpCode {
    /// Standard query
    Query,
    /// Inverse query
    IQuery,
    /// Server status request
    Status,
}

/// The result status carried in the header's 4-bit rcode field.
/// Wire values 4 through 15 are outside the enumeration and rejected.
#[derive(Clone, Copy, Debug, PartialEq, Eq, Structural)]
pub enum ResponseCode {
    /// OK
    NoError,
    /// Formatting error
    FormErr,
    /// The server failed
    ServFail,
    /// The domain doesn't exist
    NXDomain,
}

/// The 16-bit flags section of a header.
#[derive(Clone, Copy, Debug, PartialEq, Eq, Structural)]
pub struct DNSHeaderFlags {
    /// Whether the message is a query or a reply; transmitted inverted
    /// (the wire bit is 0 for a query).
    pub is_query: bool,
    /// The type of operation (4 bits on the wire).
    pub opcode: OpCode,
    /// Whether the answer is authoritative. Only used in responses.
    pub is_authoritative: bool,
    /// Whether the message was truncated.
    pub truncated: bool,
    /// Whether the client wants a recursive query.
    pub recursion_desired: bool,
    /// Whether the responding resolver supports recursion.
    pub recursion_available: bool,
    /// Reserved for future use; always encodes as 0 in a valid header.
    pub zero: bool,
    /// Whether the replying server verified the data. Only used in responses.
    pub authentic_data: bool,
    /// Whether non-verified data is allowed in responses. Only used in queries.
    pub checking_disabled: bool,
    /// The response code (4 bits on the wire).
    pub rcode: ResponseCode,
}

/// The fixed 12-byte header of a DNS message.
#[derive(Clone, Copy, Debug, PartialEq, Eq, Structural)]
pub struct DNSHeaders {
    pub transaction_id: u16,
    pub flags: DNSHeaderFlags,
    pub n_questions: u16,
    pub n_answers: u16,
    pub n_authority_rrs: u16,
    pub n_additional_rrs: u16,
}

/// Why a header failed to decode.
#[derive(Clone, Copy, Debug, PartialEq, Eq, Structural)]
pub enum DNSHeaderParseError {
    /// Fewer than 12 bytes were available.
    Truncated,
    /// The 4-bit opcode field held a value outside the enumeration.
    InvalidOpcode,
    /// The 4-bit rcode field held a value outside the enumeration.
    InvalidResponseCode,
}

/// The numeric wire value of an opcode.
pub open spec fn spec_opcode_value(op: OpCode) -> u8 {
    match op {
        OpCode::Query => 0,
        OpCode::IQuery => 1,
        OpCode::Status => 2,
    }
}

/// The opcode denoted by a 4-bit wire value, if any.
pub open spec fn spec_opcode_of(v: u8) -> Option<OpCode> {
    if v == 0 {
        Some(OpCode::Query)
    } else if v == 1 {
        Some(OpCode::IQuery)
    } else if v == 2 {
        Some(OpCode::Status)
    } else {
        None
    }
}

/// The numeric wire value of a response code.
pub open spec fn spec_rcode_value(rc: ResponseCode) -> u8 {
    match rc {
        ResponseCode::NoError => 0,
        ResponseCode::FormErr => 1,
        ResponseCode::ServFail => 2,
        ResponseCode::NXDomain => 3,
    }
}

/// The response code denoted by a 4-bit wire value, if any.
pub open spec fn spec_rcode_of(v: u8) -> Option<ResponseCode> {
    if v == 0 {
        Some(ResponseCode::NoError)
    } else if v == 1 {
        Some(ResponseCode::FormErr)
    } else if v == 2 {
        Some(ResponseCode::ServFail)
    } else if v == 3 {
        Some(ResponseCode::NXDomain)
    } else {
        None
    }
}

/// A single flag bit, already shifted to its position.
pub open spec fn spec_bool_bit(flag: bool, idx: u8) -> u8
    recommends
        idx < 8,
{
    (if flag {
        1u8
    } else {
        0u8
    }) << idx
}

/// Whether bit `idx` of `byte` is set.
pub open spec fn spec_bit(byte: u8, idx: u8) -> bool
    recommends
        idx < 8,
{
    (byte >> idx) & 1 == 1
}

/// The 4-bit opcode field extracted from the first flag byte.
pub open spec fn spec_opcode_bits(byte: u8) -> u8 {
    (byte & 0x78) >> 3
}

/// The 4-bit rcode field extracted from the second flag byte.
pub open spec fn spec_rcode_bits(byte: u8) -> u8 {
    byte & 0x0F
}

/// The first flag byte: direction (inverted), opcode, authoritative,
/// truncated, recursion-desired.
pub open spec fn spec_flags_byte0(f: DNSHeaderFlags) -> u8 {
    spec_bool_bit(!f.is_query, 7) | (spec_opcode_value(f.opcode) << 3) | spec_bool_bit(
        f.is_authoritative,
        2,
    ) | spec_bool_bit(f.truncated, 1) | spec_bool_bit(f.recursion_desired, 0)
}

/// The second flag byte: recursion-available, reserved-zero, authentic-data,
/// checking-disabled, rcode.
pub open spec fn spec_flags_byte1(f: DNSHeaderFlags) -> u8 {
    spec_bool_bit(f.recursion_available, 7) | spec_bool_bit(f.zero, 6) | spec_bool_bit(
        f.authentic_data,
        5,
    ) | spec_bool_bit(f.checking_disabled, 4) | spec_rcode_value(f.rcode)
}

/// The two encoded flag bytes.
pub open spec fn spec_encode_flags(f: DNSHeaderFlags) -> Seq<u8> {
    seq![spec_flags_byte0(f), spec_flags_byte1(f)]
}

/// A 16-bit value as two big-endian bytes.
pub open spec fn spec_u16_be(v: u16) -> Seq<u8> {
    seq![(v >> 8) as u8, v as u8]
}

/// The 16-bit value read from two big-endian bytes.
pub open spec fn spec_read_u16(hi: u8, lo: u8) -> u16 {
    ((hi as u16) << 8) | (lo as u16)
}

/// The full 12-byte encoding of a header.
pub open spec fn spec_encode_header(h: DNSHeaders) -> Seq<u8> {
    spec_u16_be(h.transaction_id) + spec_encode_flags(h.flags) + spec_u16_be(h.n_questions)
        + spec_u16_be(h.n_answers) + spec_u16_be(h.n_authority_rrs) + spec_u16_be(
        h.n_additional_rrs,
    )
}

/// The flags decoded from the two flag bytes, or the first applicable error:
/// an out-of-range opcode is reported before an out-of-range rcode.
pub open spec fn spec_parse_flags(b0: u8, b1: u8) -> Result<DNSHeaderFlags, DNSHeaderParseError> {
    match spec_opcode_of(spec_opcode_bits(b0)) {
        None => Err(DNSHeaderParseError::InvalidOpcode),
        Some(opcode) => match spec_rcode_of(spec_rcode_bits(b1)) {
            None => Err(DNSHeaderParseError::InvalidResponseCode),
            Some(rcode) => Ok(
                DNSHeaderFlags {
                    is_query: !spec_bit(b0, 7),
                    opcode,
                    is_authoritative: spec_bit(b0, 2),
                    truncated: spec_bit(b0, 1),
                    recursion_desired: spec_bit(b0, 0),
                    recursion_available: spec_bit(b1, 7),
                    zero: spec_bit(b1, 6),
                    authentic_data: spec_bit(b1, 5),
                    checking_disabled: spec_bit(b1, 4),
                    rcode,
                },
            ),
        },
    }
}

/// The header decoded from the first 12 bytes of `s`, or the first
/// applicable error. Fewer than 12 bytes is `Truncated`.
pub open spec fn spec_parse_header(s: Seq<u8>) -> Result<DNSHeaders, DNSHeaderParseError> {
    if s.len() < 12 {
        Err(DNSHeaderParseError::Truncated)
    } else {
        match spec_parse_flags(s[2], s[3]) {
            Err(e) => Err(e),
            Ok(flags) => Ok(
                DNSHeaders {
                    transaction_id: spec_read_u16(s[0], s[1]),
                    flags,
                    n_questions: spec_read_u16(s[4], s[5]),
                    n_answers: spec_read_u16(s[6], s[7]),
                    n_authority_rrs: spec_read_u16(s[8], s[9]),
                    n_additional_rrs: spec_read_u16(s[10], s[11]),
                },
            ),
        }
    }
}

/// A flag as a byte with the given bit set or cleared. Big-endian bit order:
/// the leftmost transmitted bit is index 7.
pub fn to_bitflag(idx: u8, flag: bool) -> (r: u8)
    requires
        idx < 8,
    ensures
        r == spec_bool_bit(flag, idx),
{
    (if flag {
        1u8
    } else {
        0u8
    }) << idx
}

/// Whether bit `idx` of `byte` is set. The index is a compile-time constant
/// at every call site, never attacker data, so out-of-range indices are
/// excluded at verification time rather than checked at run time.
pub fn bit_at(idx: u8, byte: u8) -> (r: bool)
    requires
        idx < 8,
    ensures
        r == spec_bit(byte, idx),
{
    (byte >> idx) & 1 == 1
}

/// The 4-bit opcode field of the first flag byte.
pub fn read_opcode(byte: u8) -> (r: u8)
    ensures
        r == spec_opcode_bits(byte),
{
    let mask = 0x78u8;
    (byte & mask) >> 3
}

/// The 4-bit rcode field of the second flag byte.
pub fn read_rcode(byte: u8) -> (r: u8)
    ensures
        r == spec_rcode_bits(byte),
{
    let mask = 0x0Fu8;
    byte & mask
}

/// The 16-bit value read from two big-endian bytes.
pub fn read_u16(hi: u8, lo: u8) -> (r: u16)
    ensures
        r == spec_read_u16(hi, lo),
{
    ((hi as u16) << 8) | (lo as u16)
}

impl OpCode {
    /// The opcode for a 4-bit wire value, or `InvalidOpcode`.
    pub fn try_from(value: u8) -> (r: Result<OpCode, DNSHeaderParseError>)
        ensures
            r == match spec_opcode_of(value) {
                Some(op) => Ok::<OpCode, DNSHeaderParseError>(op),
                None => Err(DNSHeaderParseError::InvalidOpcode),
            },
    {
        match value {
            0 => Ok(OpCode::Query),
            1 => Ok(OpCode::IQuery),
            2 => Ok(OpCode::Status),
            _ => Err(DNSHeaderParseError::InvalidOpcode),
        }
    }

    /// The numeric wire value of this opcode.
    pub fn value(&self) -> (r: u8)
        ensures
            r == spec_opcode_value(*self),
    {
        match self {
            OpCode::Query => 0,
            OpCode::IQuery => 1,
            OpCode::Status => 2,
        }
    }
}

impl ResponseCode {
    /// The response code for a 4-bit wire value, or `InvalidResponseCode`.
    pub fn try_from(value: u8) -> (r: Result<ResponseCode, DNSHeaderParseError>)
        ensures
            r == match spec_rcode_of(value) {
                Some(rc) => Ok::<ResponseCode, DNSHeaderParseError>(rc),
                None => Err(DNSHeaderParseError::InvalidResponseCode),
            },
    {
        match value {
            0 => Ok(ResponseCode::NoError),
            1 => Ok(ResponseCode::FormErr),
            2 => Ok(ResponseCode::ServFail),
            3 => Ok(ResponseCode::NXDomain),
            _ => Err(DNSHeaderParseError::InvalidResponseCode),
        }
    }

    /// The numeric wire value of this response code.
    pub fn value(&self) -> (r: u8)
        ensures
            r == spec_rcode_value(*self),
    {
        match self {
            ResponseCode::NoError => 0,
            ResponseCode::FormErr => 1,
            ResponseCode::ServFail => 2,
            ResponseCode::NXDomain => 3,
        }
    }
}

impl DNSHeaderFlags {
    /// The two flag bytes of this flag set, most significant first.
    pub fn to_bytes(&self) -> (r: Vec<u8>)
        ensures
            r@ == spec_encode_flags(*self),
    {
        // QR = 0 when is_query = true
        let shifted_is_query = to_bitflag(7, !self.is_query);
        let shifted_opcode = self.opcode.value() << 3;
        let shifted_is_authoritative = to_bitflag(2, self.is_authoritative);
        let shifted_truncated = to_bitflag(1, self.truncated);
        let shifted_recursion_desired = to_bitflag(0, self.recursion_desired);
        let first_byte = shifted_is_query | shifted_opcode | shifted_is_authoritative
            | shifted_truncated | shifted_recursion_desired;

        let shifted_recursion_available = to_bitflag(7, self.recursion_available);
        let shifted_zero = to_bitflag(6, self.zero);
        let shifted_authentic_data = to_bitflag(5, self.authentic_data);
        let shifted_checking_disabled = to_bitflag(4, self.checking_disabled);
        let shifted_rcode = self.rcode.value();
        let second_byte = shifted_recursion_available | shifted_zero | shifted_authentic_data
            | shifted_checking_disabled | shifted_rcode;

        let mut bytes: Vec<u8> = Vec::new();
        bytes.push(first_byte);
        bytes.push(second_byte);
        proof {
            assert(bytes@ =~= spec_encode_flags(*self));
        }
        bytes
    }
}

/// Appends a 16-bit value to `out` as two big-endian bytes.
fn push_u16_be(out: &mut Vec<u8>, v: u16)
    ensures
        final(out)@ == old(out)@ + spec_u16_be(v),
{
    out.push((v >> 8) as u8);
    out.push(v as u8);
    proof {
        assert(out@ =~= old(out)@ + spec_u16_be(v));
    }
}

impl DNSHeaders {
    /// The 12-byte wire encoding of this header.
    pub fn to_bytes(&self) -> (r: Vec<u8>)
        ensures
            r@ == spec_encode_header(*self),
            r@.len() == 12,
    {
        let flag_bytes = self.flags.to_bytes();
        let mut bytes: Vec<u8> = Vec::new();
        push_u16_be(&mut bytes, self.transaction_id);
        bytes.push(flag_bytes[0]);
        bytes.push(flag_bytes[1]);
        push_u16_be(&mut bytes, self.n_questions);
        push_u16_be(&mut bytes, self.n_answers);
        push_u16_be(&mut bytes, self.n_authority_rrs);
        push_u16_be(&mut bytes, self.n_additional_rrs);
        proof {
            assert(bytes@ =~= spec_encode_header(*self));
        }
        bytes
    }
}

/// The flags decoded from the two flag bytes.
pub fn parse_flags(first_byte: u8, second_byte: u8) -> (r: Result<
    DNSHeaderFlags,
    DNSHeaderParseError,
>)
    ensures
        r == spec_parse_flags(first_byte, second_byte),
{
    // Big-endian, so the leftmost bit is at index 7.
    // QR = 0 when is_query = true.
    let is_query = !bit_at(7, first_byte);
    let opcode = match OpCode::try_from(read_opcode(first_byte)) {
        Ok(op) => op,
        Err(e) => {
            return Err(e);
        },
    };
    let is_authoritative = bit_at(2, first_byte);
    let truncated = bit_at(1, first_byte);
    let recursion_desired = bit_at(0, first_byte);

    let recursion_available = bit_at(7, second_byte);
    let zero = bit_at(6, second_byte);
    let authentic_data = bit_at(5, second_byte);
    let checking_disabled = bit_at(4, second_byte);
    let rcode = match ResponseCode::try_from(read_rcode(second_byte)) {
        Ok(rc) => rc,
        Err(e) => {
            return Err(e);
        },
    };

    Ok(
        DNSHeaderFlags {
            is_query,
            opcode,
            is_authoritative,
            truncated,
            recursion_desired,
            recursion_available,
            zero,
            authentic_data,
            checking_disabled,
            rcode,
        },
    )
}

/// The header decoded from the first 12 bytes of `bytes`. Malformed input
/// yields a typed error, never a panic.
pub fn parse_header(bytes: &[u8]) -> (r: Result<DNSHeaders, DNSHeaderParseError>)
    ensures
        r == spec_parse_header(bytes@),
{
    if bytes.len() < 12 {
        return Err(DNSHeaderParseError::Truncated);
    }
    let transaction_id = read_u16(bytes[0], bytes[1]);
    let flags = match parse_flags(bytes[2], bytes[3]) {
        Ok(f) => f,
        Err(e) => {
            return Err(e);
        },
    };
    let n_questions = read_u16(bytes[4], bytes[5]);
    let n_answers = read_u16(bytes[6], bytes[7]);
    let n_authority_rrs = read_u16(bytes[8], bytes[9]);
    let n_additional_rrs = read_u16(bytes[10], bytes[11]);

    Ok(
        DNSHeaders {
            transaction_id,
            flags,
            n_questions,
            n_answers,
            n_authority_rrs,
            n_additional_rrs,
        },
    )
}

/// Recombining the two big-endian bytes of a 16-bit value gives it back.
proof fn lemma_u16_be_round_trip(v: u16)
    ensures
        spec_read_u16((v >> 8) as u8, v as u8) == v,
{
    assert(((((v >> 8) as u8) as u16) << 8) | ((v as u8) as u16) == v) by (bit_vector);
}

/// Law: decoding an encoded header gives the header back, for every header.
/// The reserved-zero bit and every flag bit survive the trip because encode
/// writes each field to a distinct bit position and decode reads it back.
pub proof fn lemma_header_round_trip(h: DNSHeaders)
    ensures
        spec_parse_header(spec_encode_header(h)) == Ok::<DNSHeaders, DNSHeaderParseError>(h),
{
    let s = spec_encode_header(h);
    let f = h.flags;
    let b0 = spec_flags_byte0(f);
    let b1 = spec_flags_byte1(f);
    assert(s =~= seq![
        (h.transaction_id >> 8) as u8,
        h.transaction_id as u8,
        b0,
        b1,
        (h.n_questions >> 8) as u8,
        h.n_questions as u8,
        (h.n_answers >> 8) as u8,
        h.n_answers as u8,
        (h.n_authority_rrs >> 8) as u8,
        h.n_authority_rrs as u8,
        (h.n_additional_rrs >> 8) as u8,
        h.n_additional_rrs as u8,
    ]);
    lemma_u16_be_round_trip(h.transaction_id);
    lemma_u16_be_round_trip(h.n_questions);
    lemma_u16_be_round_trip(h.n_answers);
    lemma_u16_be_round_trip(h.n_authority_rrs);
    lemma_u16_be_round_trip(h.n_additional_rrs);
    lemma_flags_round_trip(f);
}

/// Law: the two encoded flag bytes decode back to the same flags.
pub proof fn lemma_flags_round_trip(f: DNSHeaderFlags)
    ensures
        spec_parse_flags(spec_flags_byte0(f), spec_flags_byte1(f)) == Ok::<
            DNSHeaderFlags,
            DNSHeaderParseError,
        >(f),
{
    let b0 = spec_flags_byte0(f);
    let b1 = spec_flags_byte1(f);
    let nq: u8 = if !f.is_query {
        1
    } else {
        0
    };
    let op = spec_opcode_value(f.opcode);
    let aa: u8 = if f.is_authoritative {
        1
    } else {
        0
    };
    let tc: u8 = if f.truncated {
        1
    } else {
        0
    };
    let rd: u8 = if f.recursion_desired {
        1
    } else {
        0
    };
    assert(op <= 2);
    assert(b0 == (nq << 7) | (op << 3) | (aa << 2) | (tc << 1) | (rd << 0));
    assert({
        let c = (nq << 7) | (op << 3) | (aa << 2) | (tc << 1) | (rd << 0);
        ((c & 0x78) >> 3) == op && ((c >> 7) & 1) == nq && ((c >> 2) & 1) == aa && ((c >> 1) & 1)
            == tc && ((c >> 0) & 1) == rd
    }) by (bit_vector)
        requires
            nq <= 1 && op <= 2 && aa <= 1 && tc <= 1 && rd <= 1,
    ;

    let ra: u8 = if f.recursion_available {
        1
    } else {
        0
    };
    let zz: u8 = if f.zero {
        1
    } else {
        0
    };
    let ad: u8 = if f.authentic_data {
        1
    } else {
        0
    };
    let cd: u8 = if f.checking_disabled {
        1
    } else {
        0
    };
    let rc = spec_rcode_value(f.rcode);
    assert(rc <= 3);
    assert(b1 == (ra << 7) | (zz << 6) | (ad << 5) | (cd << 4) | rc);
    assert({
        let c = (ra << 7) | (zz << 6) | (ad << 5) | (cd << 4) | rc;
        (c & 0x0F) == rc && ((c >> 7) & 1) == ra && ((c >> 6) & 1) == zz && ((c >> 5) & 1) == ad
            && ((c >> 4) & 1) == cd
    }) by (bit_vector)
        requires
            ra <= 1 && zz <= 1 && ad <= 1 && cd <= 1 && rc <= 3,
    ;
}

} // verus!
