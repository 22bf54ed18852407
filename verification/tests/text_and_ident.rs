use tmnn::error::{Error, ErrorKind};
use tmnn::ident::{
    derive_message_id, digest_bytes, id_part, message_id_ok, normalize_message_id, DIGEST_SEED,
};
use tmnn::text::{
    append_bytes, bytes_eq, contains_bytes, copy_bytes, copy_range, decimal, eq_ignore_case, trim,
    to_lower,
};

#[test]
fn bytes_eq_compares_content() {
    assert!(bytes_eq(b"abc", b"abc"));
    assert!(!bytes_eq(b"abc", b"abd"));
    assert!(!bytes_eq(b"abc", b"abcd"));
    assert!(bytes_eq(b"", b""));
}

#[test]
fn copies_are_exact() {
    assert_eq!(copy_bytes(b"hello"), b"hello".to_vec());
    assert_eq!(copy_range(b"hello", 1, 4), b"ell".to_vec());
    assert_eq!(copy_range(b"hello", 2, 2), Vec::<u8>::new());
    let mut out = b"ab".to_vec();
    append_bytes(&mut out, b"cd");
    assert_eq!(out, b"abcd".to_vec());
}

#[test]
fn case_folding_touches_only_ascii_letters() {
    assert_eq!(to_lower(b'A'), b'a');
    assert_eq!(to_lower(b'Z'), b'z');
    assert_eq!(to_lower(b'a'), b'a');
    assert_eq!(to_lower(b'@'), b'@');
    assert_eq!(to_lower(b'['), b'[');
    assert_eq!(to_lower(0xc4), 0xc4);
    assert!(eq_ignore_case(b"Message-ID", b"message-id"));
    assert!(eq_ignore_case(b"NEWSGROUPS", b"newsGroups"));
    assert!(!eq_ignore_case(b"Subject", b"Subjects"));
    assert!(!eq_ignore_case(b"From", b"Form"));
}

#[test]
fn trim_drops_blanks_at_both_ends_only() {
    assert_eq!(trim(b"  a b \t"), b"a b".to_vec());
    assert_eq!(trim(b"abc"), b"abc".to_vec());
    assert_eq!(trim(b" \t "), Vec::<u8>::new());
    assert_eq!(trim(b""), Vec::<u8>::new());
    assert_eq!(trim(b"\nx\n"), b"\nx\n".to_vec());
}

#[test]
fn decimal_renders_without_padding() {
    assert_eq!(decimal(0), b"0".to_vec());
    assert_eq!(decimal(7), b"7".to_vec());
    assert_eq!(decimal(10), b"10".to_vec());
    assert_eq!(decimal(12345), b"12345".to_vec());
    assert_eq!(decimal(u64::MAX), b"18446744073709551615".to_vec());
}

#[test]
fn contains_bytes_finds_equal_strings() {
    let list = vec![b"a".to_vec(), b"bc".to_vec()];
    assert!(contains_bytes(&list, b"bc"));
    assert!(!contains_bytes(&list, b"b"));
    assert!(!contains_bytes(&Vec::new(), b""));
}

#[test]
fn digest_matches_known_values() {
    assert_eq!(digest_bytes(DIGEST_SEED, b""), 0xcbf29ce484222325);
    assert_eq!(digest_bytes(DIGEST_SEED, b"a"), 0xaf63dc4c8601ec8c);
    assert_eq!(digest_bytes(DIGEST_SEED, b"foobar"), 0x85944171f73967e8);
    let half = digest_bytes(DIGEST_SEED, b"foo");
    assert_eq!(digest_bytes(half, b"bar"), 0x85944171f73967e8);
}

#[test]
fn derived_identifier_is_digest_at_domain() {
    assert_eq!(derive_message_id(42, b"news.example"), b"42@news.example".to_vec());
    assert_eq!(derive_message_id(0, b"h"), b"0@h".to_vec());
    assert!(message_id_ok(&derive_message_id(u64::MAX, b"news.example")));
}

#[test]
fn identifier_parts_exclude_blanks_controls_and_brackets() {
    assert!(id_part(b"news.example"));
    assert!(!id_part(b""));
    assert!(!id_part(b"a b"));
    assert!(!id_part(b"a@b"));
    assert!(!id_part(b"a<b"));
    assert!(!id_part(b"a\x7fb"));
    assert!(id_part(&[0xc3, 0xa9]));
}

#[test]
fn well_formed_identifiers_are_accepted() {
    assert!(message_id_ok(b"a@b"));
    assert!(message_id_ok(b"abc.123@news.example.org"));
    assert_eq!(normalize_message_id(b"abc@example"), Ok(b"abc@example".to_vec()));
}

#[test]
fn angle_brackets_are_removed() {
    assert_eq!(normalize_message_id(b"<abc@example>"), Ok(b"abc@example".to_vec()));
    let once = normalize_message_id(b"<x.1@host>").unwrap();
    assert_eq!(normalize_message_id(&once), Ok(once.clone()));
}

#[test]
fn malformed_identifiers_are_refused_with_the_input() {
    let bad: [&[u8]; 14] = [
        b"",
        b"@",
        b"abc",
        b"@example",
        b"abc@",
        b"a@b@c",
        b"a b@example",
        b"abc@exa mple",
        b"abc@example\n",
        b"ab\tc@example",
        b"a\x00@example",
        b"<abc@example",
        b"<<abc@example>>",
        b"<>",
    ];
    for raw in bad.iter() {
        let r = normalize_message_id(raw);
        assert_eq!(r, Err(Error::MalformedIdentifier(raw.to_vec())));
        assert!(!message_id_ok(raw));
    }
}

#[test]
fn error_reports_kind_and_context() {
    let e = Error::GroupNotFound(b"misc.test".to_vec());
    assert_eq!(e.kind(), ErrorKind::GroupNotFound);
    assert_eq!(e.context(), &b"misc.test".to_vec());
    assert!(!e.is_retryable());
    let all = [
        (Error::MalformedIdentifier(vec![1]), ErrorKind::MalformedIdentifier),
        (Error::MalformedHeaders(vec![2]), ErrorKind::MalformedHeaders),
        (Error::ArticleNotFound(vec![3]), ErrorKind::ArticleNotFound),
        (Error::GroupNotFound(vec![4]), ErrorKind::GroupNotFound),
        (Error::AccessDenied(vec![5]), ErrorKind::AccessDenied),
        (Error::BackendUnavailable(vec![6]), ErrorKind::BackendUnavailable),
        (Error::Config(vec![7]), ErrorKind::Config),
    ];
    for (i, (e, k)) in all.iter().enumerate() {
        assert_eq!(e.kind(), *k);
        assert_eq!(e.context(), &vec![i as u8 + 1]);
        assert_eq!(e.is_retryable(), *k == ErrorKind::BackendUnavailable);
    }
}

#[test]
fn database_failures_are_backend_failures_with_the_drivers_message() {
    let e = Error::from_database(sqlx::Error::RowNotFound);
    assert_eq!(e.kind(), ErrorKind::BackendUnavailable);
    assert!(e.is_retryable());
    assert_eq!(e.context(), &sqlx::Error::RowNotFound.to_string().into_bytes());
    assert!(!e.context().is_empty());
    let t = Error::from_database(sqlx::Error::PoolTimedOut);
    assert_eq!(t.kind(), ErrorKind::BackendUnavailable);
    assert_eq!(t.context(), &sqlx::Error::PoolTimedOut.to_string().into_bytes());
    assert_ne!(t.context(), e.context());
}

#[test]
fn driver_misconfiguration_is_a_configuration_error() {
    let e = Error::from_database(sqlx::Error::Configuration("bad url".into()));
    assert_eq!(e, Error::Config(b"error with configuration: bad url".to_vec()));
    assert!(!e.is_retryable());
    let p = Error::from_database(sqlx::Error::Protocol("garbled".to_string()));
    assert_eq!(
        p,
        Error::BackendUnavailable(b"encountered unexpected or invalid data: garbled".to_vec())
    );
}

#[test]
fn storage_failure_picks_the_kind_and_keeps_the_message() {
    assert_eq!(Error::storage_failure(true, b"m".to_vec()), Error::Config(b"m".to_vec()));
    assert_eq!(
        Error::storage_failure(false, b"m".to_vec()),
        Error::BackendUnavailable(b"m".to_vec())
    );
}

#[test]
fn io_failures_are_backend_failures_with_their_message() {
    let e = Error::from_io(std::io::Error::new(std::io::ErrorKind::TimedOut, "too slow"));
    assert_eq!(e.kind(), ErrorKind::BackendUnavailable);
    assert!(e.is_retryable());
    assert_eq!(e.context(), &b"too slow".to_vec());
}
