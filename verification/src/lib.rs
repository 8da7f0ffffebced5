//! A DNS message codec with a zone-authority resolver and a TTL-bounded cache.
//!
//! The crate covers the bit-level wire encoding of DNS headers, questions and
//! resource records, a zone tree for delegation lookup, an authority chain of
//! trust, a resolution cache with lazy expiry and capacity eviction, and the
//! resolver state machine that ties them together.
//!
//! Every operation here is a plain, single-threaded transform over in-memory
//! values. An embedding server that shares the cache or the zone tree across
//! in-flight resolutions must synchronize that access itself, so that
//! eviction and insertion stay atomic with respect to concurrent lookups.
//! Transport, timeouts and cancellation likewise belong to the embedding:
//! the resolver only decides, and is handed bytes and events.

pub mod messages;
pub mod name;
pub mod codec;
pub mod domain;
pub mod zone_tree;
pub mod authority;
pub mod cache;
pub mod resolver;
