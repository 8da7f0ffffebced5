use dns_core::authority::{walk_to_root, Authority, ResolutionError};
use dns_core::messages::ResponseCode;
use dns_core::resolver::rcode_for_error;

fn chain_of_depth_two() -> Authority {
    let root = Authority::RootAuthority {
        host_name: "root.example".to_string(),
        ip_address: 0x0A000001,
        public_key: "root-key".to_string(),
    };
    let mid = Authority::RegularAuthority {
        host_name: "com.example".to_string(),
        ip_address: 0x0A000002,
        public_key: "com-key".to_string(),
        parent: Box::new(root),
    };
    Authority::RegularAuthority {
        host_name: "leaf.example".to_string(),
        ip_address: 0x0A000003,
        public_key: "leaf-key".to_string(),
        parent: Box::new(mid),
    }
}

#[test]
fn walk_returns_keys_child_to_root() {
    let chain = chain_of_depth_two();
    let keys = walk_to_root(&chain, 2).expect("depth 2 within the bound");
    // Depth d = 2 gives d + 1 = 3 keys, child first.
    assert_eq!(
        keys,
        vec![
            "leaf-key".to_string(),
            "com-key".to_string(),
            "root-key".to_string()
        ]
    );
}

#[test]
fn walk_at_exact_bound_succeeds() {
    let root = Authority::RootAuthority {
        host_name: "root.example".to_string(),
        ip_address: 1,
        public_key: "only-key".to_string(),
    };
    let keys = walk_to_root(&root, 0).expect("depth 0 within bound 0");
    assert_eq!(keys, vec!["only-key".to_string()]);
}

#[test]
fn walk_too_deep_is_rejected() {
    let chain = chain_of_depth_two();
    assert!(matches!(
        walk_to_root(&chain, 1),
        Err(ResolutionError::AuthorityChainTooDeep)
    ));
}

#[test]
fn resolution_errors_map_to_rcodes() {
    assert_eq!(
        rcode_for_error(ResolutionError::NotFound),
        ResponseCode::NXDomain
    );
    assert_eq!(
        rcode_for_error(ResolutionError::AuthorityChainTooDeep),
        ResponseCode::ServFail
    );
    assert_eq!(
        rcode_for_error(ResolutionError::TransportFailure),
        ResponseCode::ServFail
    );
    assert_eq!(
        rcode_for_error(ResolutionError::Timeout),
        ResponseCode::ServFail
    );
}
