use tmnn::access::{AccessControl, Operation};

#[test]
fn defaults_allow_reading_and_deny_posting() {
    let acl = AccessControl::new();
    assert!(acl.can_read(b"anyone", b"any.group"));
    assert!(!acl.can_post(b"anyone", b"any.group"));
    assert_eq!(acl.group_rule(b"any.group", Operation::Read), None);
    assert_eq!(acl.identity_rule(b"anyone", b"any.group", Operation::Post), None);
}

#[test]
fn configured_defaults_apply_where_no_rule_matches() {
    let acl = AccessControl::with_defaults(false, true);
    assert!(!acl.can_read(b"x", b"g"));
    assert!(acl.can_post(b"x", b"g"));
    let mut acl = AccessControl::new();
    acl.set_group_rule(b"g", Operation::Post, true);
    acl.set_defaults(false, false);
    assert!(!acl.can_read(b"x", b"g"));
    assert!(acl.can_post(b"x", b"g"));
    assert!(!acl.can_post(b"x", b"h"));
}

#[test]
fn group_rule_overrides_default() {
    let mut acl = AccessControl::new();
    acl.set_group_rule(b"open", Operation::Post, true);
    acl.set_group_rule(b"secret", Operation::Read, false);
    assert!(acl.can_post(b"x", b"open"));
    assert!(!acl.can_post(b"x", b"secret"));
    assert!(!acl.can_read(b"x", b"secret"));
    assert!(acl.can_read(b"x", b"open"));
    assert_eq!(acl.group_rule(b"open", Operation::Post), Some(true));
    assert_eq!(acl.group_rule(b"open", Operation::Read), None);
}

#[test]
fn identity_rule_overrides_group_rule() {
    let mut acl = AccessControl::new();
    acl.set_group_rule(b"g", Operation::Post, true);
    acl.set_identity_rule(b"mallory", b"g", Operation::Post, false);
    acl.set_group_rule(b"h", Operation::Read, false);
    acl.set_identity_rule(b"alice", b"h", Operation::Read, true);
    assert!(!acl.can_post(b"mallory", b"g"));
    assert!(acl.can_post(b"alice", b"g"));
    assert!(acl.can_read(b"alice", b"h"));
    assert!(!acl.can_read(b"mallory", b"h"));
    assert!(acl.can_read(b"mallory", b"g"));
    assert!(acl.allows(b"alice", b"h", Operation::Read));
    assert!(!acl.allows(b"alice", b"h", Operation::Post));
}

#[test]
fn later_rule_replaces_earlier() {
    let mut acl = AccessControl::new();
    acl.set_identity_rule(b"bob", b"g", Operation::Post, true);
    acl.set_identity_rule(b"bob", b"g", Operation::Post, false);
    acl.set_group_rule(b"g", Operation::Read, false);
    acl.set_group_rule(b"g", Operation::Read, true);
    assert!(!acl.can_post(b"bob", b"g"));
    assert!(acl.can_read(b"bob", b"g"));
    assert_eq!(acl.identity_rule(b"bob", b"g", Operation::Post), Some(false));
}

#[test]
fn rules_are_exact_about_names_and_operations() {
    let mut acl = AccessControl::new();
    acl.set_identity_rule(b"bob", b"g", Operation::Post, true);
    assert!(!acl.can_post(b"Bob", b"g"));
    assert!(!acl.can_post(b"bob", b"G"));
    assert!(!acl.can_post(b"bo", b"g"));
    assert!(acl.can_post(b"bob", b"g"));
    acl.set_identity_rule(b"bob", b"g", Operation::Read, false);
    assert!(acl.can_post(b"bob", b"g"));
    assert!(!acl.can_read(b"bob", b"g"));
}
