use dns_core::domain::Domain;
use dns_core::zone_tree::ZoneTree;

#[test]
fn insert_is_idempotent() {
    let mut tree = ZoneTree::new();
    assert_eq!(tree.node_count(), 1);

    let domain = Domain::new("a.b.com");
    tree.insert(&domain);
    // Exactly one path root -> com -> b -> a.
    assert_eq!(tree.node_count(), 4);

    tree.insert(&domain);
    assert_eq!(tree.node_count(), 4);
}

#[test]
fn insert_shares_common_prefixes() {
    let mut tree = ZoneTree::new();
    tree.insert(&Domain::new("a.b.com"));
    tree.insert(&Domain::new("c.b.com"));
    // root, com, b, a, c: the com and b nodes are shared.
    assert_eq!(tree.node_count(), 5);
}

#[test]
fn lookup_finds_deepest_match() {
    let mut tree = ZoneTree::new();
    tree.insert(&Domain::new("b.com"));

    // Full match: the node for b.com.
    let full = tree.lookup_authority(&Domain::new("b.com"));
    assert_eq!(full, 2);

    // Partial match: a.b.com matches down to b.
    let partial = tree.lookup_authority(&Domain::new("a.b.com"));
    assert_eq!(partial, 2);

    // Sibling under com: matches only com.
    let sibling = tree.lookup_authority(&Domain::new("x.com"));
    assert_eq!(sibling, 1);

    // No match at all: stays at the root.
    let none = tree.lookup_authority(&Domain::new("example.org"));
    assert_eq!(none, 0);
}

#[test]
fn dotted_name_walks_root_to_node() {
    let mut tree = ZoneTree::new();
    tree.insert(&Domain::new("a.b.com"));
    // Nodes: root(0), com(1), b(2), a(3). A node's full name joins the
    // labels from the root down to it.
    assert_eq!(tree.to_dotted_string(0), "");
    assert_eq!(tree.to_dotted_string(1), "com");
    assert_eq!(tree.to_dotted_string(2), "com.b");
    assert_eq!(tree.to_dotted_string(3), "com.b.a");
}
