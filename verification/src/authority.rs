//! The authority chain of trust.
//!
//! A root authority has no parent; a regular authority exclusively owns a
//! link to its parent. Because a node can only be built from an already
//! existing parent, no cycle is representable and every chain is finite by
//! construction. Walking to the root collects the public keys child first;
//! a chain deeper than the configured maximum is rejected rather than
//! traversed without bound. An IPv4 address is held as its 32-bit value.

use vstd::prelude::*;
use crate::domain::strings_view;

verus! {

/// Why a resolution failed.
#[derive(Clone, Copy, Debug, PartialEq, Eq, Structural)]
pub enum ResolutionError {
    /// The zone tree yields no further delegation and no record.
    NotFound,
    /// An authority chain exceeded the configured maximum depth.
    AuthorityChainTooDeep,
    /// The transport collaborator failed to deliver.
    TransportFailure,
    /// The transport collaborator did not answer within the ceiling.
    Timeout,
}

/// A server responsible for a zone: the root, or a delegate that owns the
/// link to its parent.
pub enum Authority {
    RootAuthority { host_name: String, ip_address: u32, public_key: String },
    RegularAuthority { host_name: String, ip_address: u32, public_key: String, parent: Box<
        Authority,
    > },
}

impl Authority {
    /// How many parent links stand between this authority and the root.
    pub open spec fn depth(self) -> nat
        decreases self,
    {
        match self {
            Authority::RootAuthority { .. } => 0,
            Authority::RegularAuthority { parent, .. } => 1 + parent.depth(),
        }
    }

    /// The public keys from this authority up to the root, child first.
    pub open spec fn spec_keys(self) -> Seq<Seq<char>>
        decreases self,
    {
        match self {
            Authority::RootAuthority { public_key, .. } => seq![public_key@],
            Authority::RegularAuthority { public_key, parent, .. } => seq![public_key@]
                + parent.spec_keys(),
        }
    }
}

/// Law: a chain of depth d carries exactly d + 1 public keys.
pub proof fn lemma_keys_len(a: Authority)
    ensures
        a.spec_keys().len() == a.depth() + 1,
    decreases a,
{
    match a {
        Authority::RootAuthority { .. } => {},
        Authority::RegularAuthority { parent, .. } => {
            lemma_keys_len(*parent);
        },
    }
}

/// The ordered public keys from `authority` up to the root, child first,
/// walking at most `budget` parent links.
fn walk_bounded(authority: &Authority, budget: usize) -> (r: Result<Vec<String>, ResolutionError>)
    ensures
        authority.depth() <= budget ==> (r matches Ok(keys) && strings_view(keys)
            == authority.spec_keys()),
        authority.depth() > budget ==> r == Err::<Vec<String>, ResolutionError>(
            ResolutionError::AuthorityChainTooDeep,
        ),
    decreases *authority,
{
    match authority {
        Authority::RootAuthority { public_key, .. } => {
            let mut keys: Vec<String> = Vec::new();
            keys.push(public_key.clone());
            proof {
                assert(strings_view(keys) =~= authority.spec_keys());
            }
            Ok(keys)
        },
        Authority::RegularAuthority { public_key, parent, .. } => {
            if budget == 0 {
                return Err(ResolutionError::AuthorityChainTooDeep);
            }
            let mut keys = match walk_bounded(parent, budget - 1) {
                Ok(keys) => keys,
                Err(e) => {
                    return Err(e);
                },
            };
            keys.insert(0, public_key.clone());
            proof {
                if authority.depth() <= budget {
                    assert(strings_view(keys) =~= authority.spec_keys());
                }
            }
            Ok(keys)
        },
    }
}

/// The chain of trust for `authority`: its public keys up to the root,
/// child first. A chain of depth d within `max_depth` yields exactly d + 1
/// keys; a deeper chain is `AuthorityChainTooDeep`.
pub fn walk_to_root(authority: &Authority, max_depth: usize) -> (r: Result<
    Vec<String>,
    ResolutionError,
>)
    ensures
        authority.depth() <= max_depth ==> (r matches Ok(keys) && strings_view(keys)
            == authority.spec_keys() && keys@.len() == authority.depth() + 1),
        authority.depth() > max_depth ==> r == Err::<Vec<String>, ResolutionError>(
            ResolutionError::AuthorityChainTooDeep,
        ),
{
    let r = walk_bounded(authority, max_depth);
    proof {
        lemma_keys_len(*authority);
    }
    r
}

} // verus!
