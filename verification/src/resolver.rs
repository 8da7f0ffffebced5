//! The resolver: decode a query, consult the cache, walk the zone tree for
//! a delegation, build a response, encode it.
//!
//! One query flows through: query bytes are decoded (any decode failure
//! answers with a `FormErr` response at once); the question's name is looked
//! up in the cache; a fresh hit answers immediately; on a miss the zone tree
//! names the delegation boundary. A boundary above the root asks the caller
//! to query that authority and await its reply; a reply that is
//! authoritative and carries an answer is committed to the cache and turned
//! into the response, any other reply, a transport failure or a timeout
//! answers `ServFail`. No match at all answers `NXDomain`. A cancelled
//! resolution simply never hands its reply back, so it mutates nothing.

use vstd::prelude::*;
use crate::authority::ResolutionError;
use crate::cache::{
    entries_view, entry_ok, key_search, put_result, spec_expired, CacheEntryView, ResolutionCache,
};
use crate::codec::{
    parse_body, questions_view, spec_encode_question, spec_encode_rr, spec_parse_body, Question,
    QuestionView, ResourceRecord, ResourceRecordView,
};
use crate::domain::{strings_view, Domain};
use crate::messages::{
    parse_header, read_u16, spec_encode_header, spec_parse_header, spec_read_u16, DNSHeaderFlags,
    DNSHeaders, OpCode, ResponseCode,
};
use crate::name::{labels_view, valid_name};
use crate::zone_tree::ZoneTree;

verus! {

/// The characters of a byte label, byte for byte.
pub open spec fn spec_label_chars(b: Seq<u8>) -> Seq<char> {
    Seq::new(b.len(), |i: int| b[i] as char)
}

/// A wire name's labels as zone strings, top-down: the zone order reverses
/// the wire order.
pub open spec fn spec_zone_strings(name: Seq<Seq<u8>>) -> Seq<Seq<char>> {
    Seq::new(name.len(), |i: int| spec_label_chars(name[name.len() - 1 - i]))
}

/// The dotted byte form of a name: its labels joined by `'.'`. This is the
/// cache key for the name.
pub open spec fn spec_dotted_bytes(name: Seq<Seq<u8>>) -> Seq<u8>
    decreases name.len(),
{
    if name.len() == 0 {
        Seq::<u8>::empty()
    } else if name.len() == 1 {
        name[0]
    } else {
        name[0] + seq![46u8] + spec_dotted_bytes(name.drop_first())
    }
}

/// One more label extends the dotted form by a dot and the label.
proof fn lemma_dotted_push(name: Seq<Seq<u8>>, label: Seq<u8>)
    ensures
        spec_dotted_bytes(name.push(label)) == if name.len() == 0 {
            label
        } else {
            spec_dotted_bytes(name) + seq![46u8] + label
        },
    decreases name.len(),
{
    if name.len() == 0 {
        assert(spec_dotted_bytes(name.push(label)) == name.push(label)[0]);
    } else {
        assert(name.push(label).drop_first() =~= name.drop_first().push(label));
        lemma_dotted_push(name.drop_first(), label);
        if name.len() == 1 {
            assert(spec_dotted_bytes(name.push(label)) =~= spec_dotted_bytes(name) + seq![46u8]
                + label);
        } else {
            assert(spec_dotted_bytes(name.push(label)) =~= spec_dotted_bytes(name) + seq![46u8]
                + label);
        }
    }
}

/// Relies on String::push: appends exactly one character at the end.
#[verifier::external_body]
fn push_char(s: &mut String, c: char)
    ensures
        final(s)@ == old(s)@.push(c),
{
    s.push(c);
}

/// A byte label as a string, byte for byte.
fn label_to_string(b: &Vec<u8>) -> (r: String)
    ensures
        r@ == spec_label_chars(b@),
{
    let mut out = String::new();
    let mut i: usize = 0;
    while i < b.len()
        invariant
            0 <= i <= b@.len(),
            out@.len() == i,
            forall|j: int| 0 <= j < i ==> out@[j] == b@[j] as char,
        decreases b@.len() - i,
    {
        push_char(&mut out, b[i] as char);
        i += 1;
    }
    proof {
        assert(out@ =~= spec_label_chars(b@));
    }
    out
}

/// A wire name's labels as zone strings, top-down (TLD first).
fn name_to_zone_strings(name: &Vec<Vec<u8>>) -> (r: Vec<String>)
    ensures
        strings_view(r) == spec_zone_strings(labels_view(*name)),
{
    let n = name.len();
    let mut zones: Vec<String> = Vec::new();
    let mut k: usize = 0;
    while k < n
        invariant
            n == name@.len(),
            0 <= k <= n,
            zones@.len() == k,
            forall|i: int| 0 <= i < k ==> strings_view(zones)[i] == spec_label_chars(
                labels_view(*name)[n - 1 - i],
            ),
        decreases n - k,
    {
        let item = label_to_string(&name[n - 1 - k]);
        let ghost old_zones = zones;
        zones.push(item);
        proof {
            assert forall|i: int| 0 <= i < k + 1 implies strings_view(zones)[i]
                == spec_label_chars(labels_view(*name)[n - 1 - i]) by {
                if i < k {
                    assert(strings_view(zones)[i] == strings_view(old_zones)[i]);
                }
            }
        }
        k += 1;
    }
    proof {
        assert(strings_view(zones) =~= spec_zone_strings(labels_view(*name)));
    }
    zones
}

/// The dotted byte form of a name, its cache key.
#[verifier::loop_isolation(false)]
pub fn dotted_key(name: &Vec<Vec<u8>>) -> (r: Vec<u8>)
    ensures
        r@ == spec_dotted_bytes(labels_view(*name)),
{
    let ghost lv = labels_view(*name);
    let mut out: Vec<u8> = Vec::new();
    let mut i: usize = 0;
    proof {
        assert(lv.take(0) =~= Seq::<Seq<u8>>::empty());
    }
    while i < name.len()
        invariant
            0 <= i <= name@.len(),
            out@ == spec_dotted_bytes(lv.take(i as int)),
        decreases name@.len() - i,
    {
        if i > 0 {
            out.push(46u8);
        }
        let label = &name[i];
        let mut j: usize = 0;
        let ghost before = out@;
        while j < label.len()
            invariant
                0 <= j <= label@.len(),
                label == name@[i as int],
                i < name@.len(),
                out@ == before + label@.take(j as int),
            decreases label@.len() - j,
        {
            out.push(label[j]);
            proof {
                assert(label@.take(j + 1) =~= label@.take(j as int).push(label@[j as int]));
                assert(out@ =~= before + label@.take(j + 1));
            }
            j += 1;
        }
        proof {
            assert(label@.take(label@.len() as int) =~= label@);
            lemma_dotted_push(lv.take(i as int), lv[i as int]);
            assert(lv.take(i as int).push(lv[i as int]) =~= lv.take(i + 1));
            if i == 0 {
                assert(out@ =~= spec_dotted_bytes(lv.take(i + 1)));
            } else {
                assert(out@ =~= spec_dotted_bytes(lv.take(i as int)) + seq![46u8] + label@);
            }
        }
        i += 1;
    }
    proof {
        assert(lv.take(lv.len() as int) =~= lv);
    }
    out
}

/// The flags of an error or answer response built by this resolver: a reply
/// to a standard query, nothing else set.
pub open spec fn spec_reply_flags(rcode: ResponseCode) -> DNSHeaderFlags {
    DNSHeaderFlags {
        is_query: false,
        opcode: OpCode::Query,
        is_authoritative: false,
        truncated: false,
        recursion_desired: false,
        recursion_available: false,
        zero: false,
        authentic_data: false,
        checking_disabled: false,
        rcode,
    }
}

/// The header of an error response: the caller's transaction id, the error
/// rcode, and no sections.
pub open spec fn spec_error_header(tid: u16, rcode: ResponseCode) -> DNSHeaders {
    DNSHeaders {
        transaction_id: tid,
        flags: spec_reply_flags(rcode),
        n_questions: 0,
        n_answers: 0,
        n_authority_rrs: 0,
        n_additional_rrs: 0,
    }
}

/// The bytes of an error response.
pub open spec fn spec_error_bytes(tid: u16, rcode: ResponseCode) -> Seq<u8> {
    spec_encode_header(spec_error_header(tid, rcode))
}

/// The header of an answer response: one question, one answer.
pub open spec fn spec_answer_header(tid: u16) -> DNSHeaders {
    DNSHeaders {
        transaction_id: tid,
        flags: spec_reply_flags(ResponseCode::NoError),
        n_questions: 1,
        n_answers: 1,
        n_authority_rrs: 0,
        n_additional_rrs: 0,
    }
}

/// The bytes of an answer response: header, the question echoed, the answer.
pub open spec fn spec_answer_bytes(tid: u16, q: QuestionView, rec: ResourceRecordView) -> Seq<u8> {
    spec_encode_header(spec_answer_header(tid)) + spec_encode_question(q) + spec_encode_rr(rec)
}

/// The transaction id echoed when the header itself failed to decode: the
/// first two bytes if present, zero otherwise.
pub open spec fn spec_fallback_tid(bytes: Seq<u8>) -> u16 {
    if bytes.len() >= 2 {
        spec_read_u16(bytes[0], bytes[1])
    } else {
        0
    }
}

/// The response code a resolution error maps to: an unknown name is
/// `NXDomain`; a chain, transport or timeout failure is `ServFail`.
pub fn rcode_for_error(e: ResolutionError) -> (r: ResponseCode)
    ensures
        e == ResolutionError::NotFound ==> r == ResponseCode::NXDomain,
        e != ResolutionError::NotFound ==> r == ResponseCode::ServFail,
{
    match e {
        ResolutionError::NotFound => ResponseCode::NXDomain,
        ResolutionError::AuthorityChainTooDeep => ResponseCode::ServFail,
        ResolutionError::TransportFailure => ResponseCode::ServFail,
        ResolutionError::Timeout => ResponseCode::ServFail,
    }
}

/// An error response: header only, with the given rcode.
pub fn build_error_response(tid: u16, rcode: ResponseCode) -> (r: Vec<u8>)
    ensures
        r@ == spec_error_bytes(tid, rcode),
{
    let headers = DNSHeaders {
        transaction_id: tid,
        flags: DNSHeaderFlags {
            is_query: false,
            opcode: OpCode::Query,
            is_authoritative: false,
            truncated: false,
            recursion_desired: false,
            recursion_available: false,
            zero: false,
            authentic_data: false,
            checking_disabled: false,
            rcode,
        },
        n_questions: 0,
        n_answers: 0,
        n_authority_rrs: 0,
        n_additional_rrs: 0,
    };
    headers.to_bytes()
}

/// An answer response: the header, the question echoed, the answer record.
pub fn build_response(tid: u16, question: &Question, record: &ResourceRecord) -> (r: Vec<u8>)
    requires
        valid_name(question@.name),
        valid_name(record@.name),
        record@.wf(),
    ensures
        r@ == spec_answer_bytes(tid, question@, record@),
{
    let headers = DNSHeaders {
        transaction_id: tid,
        flags: DNSHeaderFlags {
            is_query: false,
            opcode: OpCode::Query,
            is_authoritative: false,
            truncated: false,
            recursion_desired: false,
            recursion_available: false,
            zero: false,
            authentic_data: false,
            checking_disabled: false,
            rcode: ResponseCode::NoError,
        },
        n_questions: 1,
        n_answers: 1,
        n_authority_rrs: 0,
        n_additional_rrs: 0,
    };
    let mut out = headers.to_bytes();
    let qbytes = match crate::codec::encode_question(question) {
        Ok(v) => v,
        Err(_) => {
            proof {
                assert(false);
            }
            Vec::new()
        },
    };
    let rbytes = match crate::codec::encode_resource_record(record) {
        Ok(v) => v,
        Err(_) => {
            proof {
                assert(false);
            }
            Vec::new()
        },
    };
    let ghost mid = out@;
    let mut qb = qbytes;
    out.append(&mut qb);
    let mut rb = rbytes;
    out.append(&mut rb);
    proof {
        assert(out@ =~= spec_answer_bytes(tid, question@, record@));
    }
    out
}

/// What the resolver asks its caller to do next.
pub enum ResolverOutput {
    /// Send these response bytes back to the querier; the query is done.
    Respond(Vec<u8>),
    /// Query the authority at this zone-tree node and hand the reply to
    /// [`Resolver::handle_delegate_reply`], or a failure to
    /// [`Resolver::handle_delegate_failure`].
    Delegate(usize),
}

/// The resolver: the answer cache, the zone tree, and the configured
/// maximum authority-chain depth, all passed in explicitly.
pub struct Resolver {
    pub cache: ResolutionCache,
    pub zones: ZoneTree,
    pub max_chain_depth: usize,
}

impl Resolver {
    /// A resolver with an empty cache and an empty zone tree.
    pub fn new(default_ttl: u64, max_cache_size: usize, max_chain_depth: usize) -> (r: Resolver)
        ensures
            r.cache.wf(),
            r.zones.wf(),
            r.cache.entries@.len() == 0,
            r.cache.default_ttl == default_ttl,
            r.cache.max_size == max_cache_size,
            r.max_chain_depth == max_chain_depth,
    {
        Resolver {
            cache: ResolutionCache::new(default_ttl, max_cache_size),
            zones: ZoneTree::new(),
            max_chain_depth,
        }
    }

    /// Handles one inbound query. A decode failure answers `FormErr`; a
    /// fresh cache hit answers the cached record; a miss asks for a
    /// delegation to the deepest matching zone, or answers `NXDomain` when
    /// no zone matches at all. Only the lazy expiry of the lookup itself
    /// ever mutates the cache here.
    pub fn handle_query(&mut self, query: &[u8], now: u64) -> (r: ResolverOutput)
        requires
            old(self).cache.wf(),
            old(self).zones.wf(),
        ensures
            final(self).cache.wf(),
            final(self).zones == old(self).zones,
            final(self).max_chain_depth == old(self).max_chain_depth,
            final(self).cache.default_ttl == old(self).cache.default_ttl,
            final(self).cache.max_size == old(self).cache.max_size,
            ({
                let s = entries_view(old(self).cache.entries);
                let fs = entries_view(final(self).cache.entries);
                match spec_parse_header(query@) {
                    Err(_) => (r matches ResolverOutput::Respond(out) && out@ == spec_error_bytes(
                        spec_fallback_tid(query@),
                        ResponseCode::FormErr,
                    )) && fs == s,
                    Ok(h) => match spec_parse_body(h, query@) {
                        Err(_) => (r matches ResolverOutput::Respond(out) && out@
                            == spec_error_bytes(h.transaction_id, ResponseCode::FormErr)) && fs
                            == s,
                        Ok(req) => if req.questions.len() == 0 {
                            (r matches ResolverOutput::Respond(out) && out@ == spec_error_bytes(
                                h.transaction_id,
                                ResponseCode::FormErr,
                            )) && fs == s
                        } else {
                            let q = req.questions[0];
                            let i = key_search(s, spec_dotted_bytes(q.name), 0);
                            let hit = i >= 0 && !spec_expired(s[i], now);
                            &&& hit ==> (r matches ResolverOutput::Respond(out) && out@
                                == spec_answer_bytes(h.transaction_id, q, s[i].record)) && fs == s
                            &&& !hit ==> ({
                                let node = old(self).zones.spec_descend(
                                    0,
                                    spec_zone_strings(q.name),
                                );
                                &&& fs == (if i >= 0 {
                                    s.remove(i)
                                } else {
                                    s
                                })
                                &&& node == 0 ==> (r matches ResolverOutput::Respond(out) && out@
                                    == spec_error_bytes(h.transaction_id, ResponseCode::NXDomain))
                                &&& node != 0 ==> (r matches ResolverOutput::Delegate(d) && d as int
                                    == node)
                            })
                        },
                    },
                }
            }),
    {
        let headers = match parse_header(query) {
            Ok(h) => h,
            Err(_) => {
                let tid = if query.len() >= 2 {
                    read_u16(query[0], query[1])
                } else {
                    0
                };
                return ResolverOutput::Respond(
                    build_error_response(tid, ResponseCode::FormErr),
                );
            },
        };
        let req = match parse_body(headers, query) {
            Ok(req) => req,
            Err(_) => {
                return ResolverOutput::Respond(
                    build_error_response(headers.transaction_id, ResponseCode::FormErr),
                );
            },
        };
        if req.questions.len() == 0 {
            return ResolverOutput::Respond(
                build_error_response(headers.transaction_id, ResponseCode::FormErr),
            );
        }
        let question = &req.questions[0];
        proof {
            crate::codec::lemma_parse_body_valid(headers, query@);
            assert(questions_view(req.questions)[0] == question@);
            assert(valid_name(question@.name));
        }
        let key = dotted_key(&question.name);
        match self.cache.get(&key, now) {
            Some(record) => {
                proof {
                    let s = entries_view(old(self).cache.entries);
                    crate::cache::lemma_key_search_in_range(s, key@);
                    let i = key_search(s, key@, 0);
                    assert(entry_ok(s[i]));
                }
                ResolverOutput::Respond(
                    build_response(headers.transaction_id, question, &record),
                )
            },
            None => {
                let zones_vec = name_to_zone_strings(&question.name);
                let lookup = Domain { name: String::new(), zones: zones_vec };
                let node = self.zones.lookup_authority(&lookup);
                if node == 0 {
                    ResolverOutput::Respond(
                        build_error_response(headers.transaction_id, ResponseCode::NXDomain),
                    )
                } else {
                    ResolverOutput::Delegate(node)
                }
            },
        }
    }

    /// Handles the reply of a delegated query for `question`. A reply that
    /// decodes, is authoritative, reports no error and carries at least one
    /// record commits that record to the cache under the question's name,
    /// with the record's own TTL overriding the default, and answers with
    /// it. Anything else answers `ServFail` and leaves the cache untouched:
    /// a failed resolution never mutates the cache.
    pub fn handle_delegate_reply(
        &mut self,
        tid: u16,
        question: &Question,
        reply: &[u8],
        now: u64,
    ) -> (r: ResolverOutput)
        requires
            old(self).cache.wf(),
            valid_name(question@.name),
        ensures
            final(self).cache.wf(),
            final(self).zones == old(self).zones,
            final(self).max_chain_depth == old(self).max_chain_depth,
            final(self).cache.default_ttl == old(self).cache.default_ttl,
            final(self).cache.max_size == old(self).cache.max_size,
            ({
                let s = entries_view(old(self).cache.entries);
                let fs = entries_view(final(self).cache.entries);
                let servfail = (r matches ResolverOutput::Respond(out) && out@
                    == spec_error_bytes(tid, ResponseCode::ServFail)) && fs == s;
                match spec_parse_header(reply@) {
                    Err(_) => servfail,
                    Ok(h) => match spec_parse_body(h, reply@) {
                        Err(_) => servfail,
                        Ok(rep) => if h.flags.is_authoritative && h.flags.rcode
                            == ResponseCode::NoError && rep.records.len() > 0 {
                            let rec = rep.records[0];
                            &&& r matches ResolverOutput::Respond(out) && out@
                                == spec_answer_bytes(tid, question@, rec)
                            &&& fs == put_result(
                                s,
                                CacheEntryView {
                                    key: spec_dotted_bytes(question@.name),
                                    record: rec,
                                    inserted_at: now,
                                    ttl: rec.ttl as u64,
                                },
                                now,
                                old(self).cache.max_size as int,
                            )
                        } else {
                            servfail
                        },
                    },
                }
            }),
    {
        let headers = match parse_header(reply) {
            Ok(h) => h,
            Err(_) => {
                return ResolverOutput::Respond(
                    build_error_response(tid, ResponseCode::ServFail),
                );
            },
        };
        let mut rep = match parse_body(headers, reply) {
            Ok(rep) => rep,
            Err(_) => {
                return ResolverOutput::Respond(
                    build_error_response(tid, ResponseCode::ServFail),
                );
            },
        };
        let usable = headers.flags.is_authoritative && matches!(
            headers.flags.rcode,
            ResponseCode::NoError,
        ) && rep.records.len() > 0;
        if !usable {
            return ResolverOutput::Respond(build_error_response(tid, ResponseCode::ServFail));
        }
        proof {
            crate::codec::lemma_parse_body_valid(headers, reply@);
            let req_v = spec_parse_body(headers, reply@)->Ok_0;
            assert(req_v.records.len() > 0);
            assert(valid_name(req_v.records[0].name));
            assert(req_v.records[0].wf());
        }
        let ghost rv = crate::codec::records_view(rep.records);
        let record = rep.records.remove(0);
        proof {
            let req_v = spec_parse_body(headers, reply@)->Ok_0;
            assert(req_v.records == rv);
            assert(record@ == rv[0]);
            assert(valid_name(record@.name));
            assert(record@.wf());
        }
        let ttl_override = record.ttl as u64;
        let out = build_response(tid, question, &record);
        let key = dotted_key(&question.name);
        self.cache.put(key, record, now, Some(ttl_override));
        ResolverOutput::Respond(out)
    }

    /// Handles a transport failure or timeout of a delegated query: the
    /// answer is `ServFail`, and the cache is untouched.
    pub fn handle_delegate_failure(&self, tid: u16) -> (r: Vec<u8>)
        ensures
            r@ == spec_error_bytes(tid, ResponseCode::ServFail),
    {
        build_error_response(tid, ResponseCode::ServFail)
    }
}

} // verus!
