use namespace_sets::dn::{parse_ou_from_dn, parse_ous_from_dns};

#[test]
fn extracts_first_unit_component() {
    assert_eq!(
        parse_ou_from_dn("uid=alice,ou=people,dc=example,dc=org"),
        Some("people".to_string()),
    );
}

#[test]
fn skips_groups_component() {
    assert_eq!(parse_ou_from_dn("cn=admins,ou=groups,dc=example,dc=org"), None);
}

#[test]
fn takes_unit_after_groups() {
    assert_eq!(
        parse_ou_from_dn("ou=groups,ou=staff,dc=example,dc=org"),
        Some("staff".to_string()),
    );
}

#[test]
fn strips_every_prefix_occurrence() {
    assert_eq!(parse_ou_from_dn("ou=abou=cd"), Some("abcd".to_string()));
}

#[test]
fn first_matching_component_wins() {
    assert_eq!(
        parse_ou_from_dn("ou=first,ou=second,dc=example"),
        Some("first".to_string()),
    );
}

#[test]
fn no_unit_component_yields_none() {
    assert_eq!(parse_ou_from_dn("uid=bob,dc=example,dc=org"), None);
    assert_eq!(parse_ou_from_dn(""), None);
    assert_eq!(parse_ou_from_dn("ou"), None);
}

#[test]
fn collects_units_from_membership_dns() {
    let dns = vec![
        "cn=dev,ou=engineering,dc=example,dc=org".to_string(),
        "cn=admins,ou=groups,dc=example,dc=org".to_string(),
        "cn=ops,ou=operations,dc=example,dc=org".to_string(),
    ];
    assert_eq!(
        parse_ous_from_dns(&dns),
        vec!["engineering".to_string(), "operations".to_string()],
    );
    assert_eq!(parse_ous_from_dns(&Vec::new()), Vec::<String>::new());
}
