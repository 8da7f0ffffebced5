use dns_core::domain::{to_zones, Domain, DomainParseError};

#[test]
fn zones_are_top_down() {
    let zones = to_zones("example.com");
    assert_eq!(zones, vec!["com".to_string(), "example".to_string()]);

    let zones3 = to_zones("a.b.com");
    assert_eq!(
        zones3,
        vec!["com".to_string(), "b".to_string(), "a".to_string()]
    );
}

#[test]
fn domain_new_keeps_name_and_zones() {
    let d = Domain::new("mail.example.com");
    assert_eq!(d.name, "mail.example.com");
    assert_eq!(
        d.zones,
        vec![
            "com".to_string(),
            "example".to_string(),
            "mail".to_string()
        ]
    );
}

#[test]
fn parse_rejects_empty_string() {
    assert!(matches!(
        Domain::parse(""),
        Err(DomainParseError::EmptyString)
    ));
}

#[test]
fn parse_rejects_single_label() {
    assert!(matches!(
        Domain::parse("com"),
        Err(DomainParseError::InvalidFormat)
    ));
}

#[test]
fn parse_accepts_two_labels() {
    let d = Domain::parse("example.com").expect("two labels parse");
    assert_eq!(d.name, "example.com");
    assert_eq!(d.zones.len(), 2);
    assert_eq!(d.zones[0], "com");
    assert_eq!(d.zones[1], "example");
}
