use tmnn::access::{AccessControl, Operation};
use tmnn::article::ArticleStore;
use tmnn::error::{Error, ErrorKind};
use tmnn::group::{GroupIndex, OverviewRow, MAX_ARTICLE_NUMBER};
use tmnn::header::Headers;
use tmnn::ident::{derive_message_id, digest_bytes, DIGEST_SEED};
use tmnn::service::Service;

const TURTLES: &[u8] = b"rec.arts.turtles";

fn headers(pairs: &[(&[u8], &[u8])]) -> Headers {
    let mut h = Headers::new();
    for (n, v) in pairs {
        h.push(n, v).unwrap();
    }
    h
}

fn turtle_service() -> Service {
    let mut acl = AccessControl::new();
    acl.set_identity_rule(b"alice", TURTLES, Operation::Read, true);
    acl.set_identity_rule(b"alice", TURTLES, Operation::Post, true);
    acl.set_identity_rule(b"mallory", TURTLES, Operation::Post, false);
    let mut s = Service::new(b"news.example", acl).unwrap();
    s.create_group(TURTLES, false).unwrap();
    s
}

fn open_service(groups: &[&[u8]]) -> Service {
    let mut s = Service::new(b"news.example", AccessControl::with_defaults(true, false)).unwrap();
    for g in groups {
        s.create_group(g, true).unwrap();
    }
    s
}

fn numbers(rows: &Vec<OverviewRow>) -> Vec<u64> {
    rows.iter().map(|r| r.article_number).collect()
}

fn all_rows(s: &Service, group: &[u8]) -> Vec<OverviewRow> {
    s.list(group, 0, u64::MAX, b"reader").unwrap()
}

#[test]
fn alice_posts_lists_and_fetches() {
    let mut s = turtle_service();
    let h = headers(&[(b"Subject", b"Hello"), (b"Newsgroups", b"rec.arts.turtles")]);
    let id = s.post(&h, b"hi", b"alice", 100).unwrap();
    let rows = s.list(TURTLES, 1, 10, b"alice").unwrap();
    assert_eq!(rows.len(), 1);
    assert_eq!(rows[0].article_number, 1);
    assert_eq!(rows[0].snapshot.subject, b"Hello".to_vec());
    assert_eq!(rows[0].message_id, id);
    assert_eq!(rows[0].group_name, TURTLES.to_vec());
    let article = s.fetch(&id, b"alice").unwrap();
    assert_eq!(article.body, b"hi".to_vec());
    assert_eq!(article.message_id, id);
    assert_eq!(article.headers, h);
    assert_eq!(article.newsgroups, vec![TURTLES.to_vec()]);
    assert_eq!(article.poster_identity, b"alice".to_vec());
    assert_eq!(article.posted_at, 100);
    assert_eq!(s.watermarks(TURTLES), Ok((1, 1)));
}

#[test]
fn mallory_is_denied_and_nothing_is_listed() {
    let mut s = turtle_service();
    let h = headers(&[(b"Subject", b"Hello"), (b"Newsgroups", b"rec.arts.turtles")]);
    assert_eq!(s.post(&h, b"hi", b"mallory", 100), Err(Error::AccessDenied(TURTLES.to_vec())));
    assert_eq!(s.list(TURTLES, 1, 10, b"alice"), Ok(Vec::new()));
    assert_eq!(s.list(TURTLES, 0, u64::MAX, b"mallory"), Ok(Vec::new()));
    assert_eq!(s.store().len(), 0);
    assert_eq!(s.watermarks(TURTLES), Ok((1, 0)));
}

#[test]
fn derived_identifier_is_the_content_digest_on_the_domain() {
    let mut s = turtle_service();
    let h = headers(&[(b"Subject", b"Hello"), (b"Newsgroups", b"rec.arts.turtles")]);
    let id = s.post(&h, b"hi", b"alice", 100).unwrap();
    let mut content = b"alice".to_vec();
    content.extend_from_slice(b"Subject:Hello\nNewsgroups:rec.arts.turtles\n");
    content.extend_from_slice(b"hi");
    let expected = derive_message_id(digest_bytes(DIGEST_SEED, &content), b"news.example");
    assert_eq!(id, expected);
    assert!(id.ends_with(b"@news.example"));
}

#[test]
fn given_identifier_is_kept_in_stored_form() {
    let mut s = open_service(&[b"g"]);
    let h = headers(&[(b"Message-ID", b"<abc.1@elsewhere>"), (b"Newsgroups", b"g")]);
    assert_eq!(s.post(&h, b"x", b"bob", 1), Ok(b"abc.1@elsewhere".to_vec()));
    assert_eq!(s.fetch(b"<abc.1@elsewhere>", b"r").unwrap().body, b"x".to_vec());
    assert_eq!(s.fetch(b"abc.1@elsewhere", b"r").unwrap().body, b"x".to_vec());
}

#[test]
fn posting_twice_stores_once() {
    let mut s = open_service(&[b"a", b"b"]);
    let h = headers(&[(b"Subject", b"S"), (b"Newsgroups", b"a,b")]);
    let first = s.post(&h, b"body", b"bob", 10).unwrap();
    let snapshot = s.clone();
    let second = s.post(&h, b"body", b"bob", 99).unwrap();
    assert_eq!(first, second);
    assert_eq!(s, snapshot);
    assert_eq!(s.store().len(), 1);
    assert_eq!(all_rows(&s, b"a").len(), 1);
    assert_eq!(all_rows(&s, b"b").len(), 1);
    assert_eq!(s.watermarks(b"a"), Ok((1, 1)));
    assert_eq!(s.store().clock(), 10);
}

#[test]
fn same_identifier_with_other_content_is_a_duplicate() {
    let mut s = open_service(&[b"a", b"b"]);
    let h1 = headers(&[(b"Message-ID", b"one@h"), (b"Newsgroups", b"a")]);
    let h2 = headers(&[(b"Message-ID", b"<one@h>"), (b"Newsgroups", b"b")]);
    assert_eq!(s.post(&h1, b"first", b"bob", 1), Ok(b"one@h".to_vec()));
    assert_eq!(s.post(&h2, b"second", b"eve", 2), Ok(b"one@h".to_vec()));
    assert_eq!(s.store().len(), 1);
    assert_eq!(s.fetch(b"one@h", b"r").unwrap().body, b"first".to_vec());
    assert_eq!(all_rows(&s, b"b").len(), 0);
}

#[test]
fn crosspost_shows_one_row_in_each_group() {
    let mut s = open_service(&[b"a", b"b", b"c"]);
    let h = headers(&[(b"Subject", b"X"), (b"Newsgroups", b"a, b")]);
    s.post(&headers(&[(b"Newsgroups", b"b")]), b"earlier", b"bob", 1).unwrap();
    let id = s.post(&h, b"body", b"bob", 2).unwrap();
    let in_a = all_rows(&s, b"a");
    let in_b = all_rows(&s, b"b");
    assert_eq!(in_a.iter().filter(|r| r.message_id == id).count(), 1);
    assert_eq!(in_b.iter().filter(|r| r.message_id == id).count(), 1);
    assert_eq!(numbers(&in_a), vec![1]);
    assert_eq!(numbers(&in_b), vec![1, 2]);
    assert_eq!(all_rows(&s, b"c").len(), 0);
    assert_eq!(in_a[0].snapshot, in_b[1].snapshot);
    assert_eq!((in_a[0].group_name.clone(), in_b[1].group_name.clone()), (b"a".to_vec(), b"b".to_vec()));
    assert_eq!(in_a[0].posted_at, 2);
    assert_eq!(s.fetch(&id, b"r").unwrap().newsgroups, vec![b"a".to_vec(), b"b".to_vec()]);
}

#[test]
fn failed_crosspost_leaves_no_row_anywhere() {
    let mut s = open_service(&[b"a"]);
    s.set_identity_rule(b"bob", b"missing", Operation::Post, true);
    let before = s.clone();
    let h = headers(&[(b"Newsgroups", b"a,missing")]);
    assert_eq!(s.post(&h, b"body", b"bob", 2), Err(Error::GroupNotFound(b"missing".to_vec())));
    assert_eq!(s, before);
    assert_eq!(all_rows(&s, b"a").len(), 0);
    assert_eq!(s.watermarks(b"a"), Ok((1, 0)));
    assert_eq!(s.store().len(), 0);
}

#[test]
fn numbers_increase_strictly_and_survive_expiry() {
    let mut s = open_service(&[b"g"]);
    let mut seen = Vec::new();
    for i in 0..5u8 {
        let h = headers(&[(b"Subject", &[b'0' + i]), (b"Newsgroups", b"g")]);
        let id = s.post(&h, b"b", b"bob", 10 * (i as u64 + 1)).unwrap();
        let rows = all_rows(&s, b"g");
        seen.push(rows.iter().find(|r| r.message_id == id).unwrap().article_number);
    }
    assert_eq!(seen, vec![1, 2, 3, 4, 5]);
    assert_eq!(s.expire(b"g", 1000), Ok(5));
    assert_eq!(s.watermarks(b"g"), Ok((6, 5)));
    let h = headers(&[(b"Subject", b"after"), (b"Newsgroups", b"g")]);
    s.post(&h, b"b", b"bob", 2000).unwrap();
    assert_eq!(numbers(&all_rows(&s, b"g")), vec![6]);
}

#[test]
fn expiry_does_not_renumber_survivors() {
    let mut s = open_service(&[b"g", b"h"]);
    let mut ids = Vec::new();
    for i in 0..4u8 {
        let h = headers(&[(b"Subject", &[b'0' + i]), (b"Newsgroups", b"g,h")]);
        ids.push(s.post(&h, b"b", b"bob", 10 * (i as u64 + 1)).unwrap());
    }
    let before = all_rows(&s, b"g");
    assert_eq!(s.expire(b"g", 25), Ok(2));
    let after = all_rows(&s, b"g");
    assert_eq!(after, before[2..].to_vec());
    assert_eq!(numbers(&after), vec![3, 4]);
    assert_eq!(s.watermarks(b"g"), Ok((3, 4)));
    assert_eq!(numbers(&all_rows(&s, b"h")), vec![1, 2, 3, 4]);
    assert_eq!(s.store().len(), 4);
    assert_eq!(s.expire(b"h", 25), Ok(2));
    assert_eq!(s.store().len(), 2);
    assert_eq!(s.fetch(&ids[0], b"r"), Err(Error::ArticleNotFound(ids[0].clone())));
    assert_eq!(s.fetch(&ids[2], b"r").unwrap().posted_at, 30);
}

#[test]
fn expiry_spares_what_was_accepted_at_the_cutoff() {
    let mut s = open_service(&[b"g"]);
    s.post(&headers(&[(b"Subject", b"1"), (b"Newsgroups", b"g")]), b"b", b"bob", 10).unwrap();
    s.post(&headers(&[(b"Subject", b"2"), (b"Newsgroups", b"g")]), b"b", b"bob", 20).unwrap();
    assert_eq!(s.expire(b"g", 20), Ok(1));
    assert_eq!(numbers(&all_rows(&s, b"g")), vec![2]);
    assert_eq!(s.expire(b"g", 20), Ok(0));
    assert_eq!(s.expire(b"nope", 20), Err(Error::GroupNotFound(b"nope".to_vec())));
}

#[test]
fn denied_crosspost_creates_nothing() {
    let mut s = open_service(&[b"a", b"b"]);
    s.set_identity_rule(b"eve", b"b", Operation::Post, false);
    let before = s.clone();
    let single = headers(&[(b"Newsgroups", b"b")]);
    let cross = headers(&[(b"Newsgroups", b"a,b")]);
    assert_eq!(s.post(&single, b"x", b"eve", 1), Err(Error::AccessDenied(b"b".to_vec())));
    assert_eq!(s.post(&cross, b"x", b"eve", 1), Err(Error::AccessDenied(b"b".to_vec())));
    assert_eq!(s, before);
    assert_eq!(all_rows(&s, b"a").len(), 0);
    assert_eq!(s.store().len(), 0);
    assert_eq!(s.post(&headers(&[(b"Newsgroups", b"a")]), b"x", b"eve", 1).is_ok(), true);
}

#[test]
fn denial_comes_before_duplicate_detection_and_missing_groups() {
    let mut s = open_service(&[b"a"]);
    let h = headers(&[(b"Message-ID", b"m@h"), (b"Newsgroups", b"a")]);
    s.post(&h, b"x", b"bob", 1).unwrap();
    s.set_identity_rule(b"eve", b"a", Operation::Post, false);
    assert_eq!(s.post(&h, b"x", b"eve", 2), Err(Error::AccessDenied(b"a".to_vec())));
    let far = headers(&[(b"Newsgroups", b"nowhere")]);
    assert_eq!(s.post(&far, b"x", b"bob", 2), Err(Error::AccessDenied(b"nowhere".to_vec())));
    s.set_defaults(true, true);
    assert_eq!(s.post(&far, b"x", b"bob", 2), Err(Error::GroupNotFound(b"nowhere".to_vec())));
}

#[test]
fn malformed_postings_are_refused() {
    let mut s = open_service(&[b"a"]);
    let before = s.clone();
    let no_groups = headers(&[(b"Subject", b"S")]);
    assert_eq!(
        s.post(&no_groups, b"x", b"bob", 1),
        Err(Error::MalformedHeaders(b"newsgroups".to_vec()))
    );
    let bad_id = headers(&[(b"Message-ID", b"not an id"), (b"Newsgroups", b"a")]);
    assert_eq!(
        s.post(&bad_id, b"x", b"bob", 1),
        Err(Error::MalformedIdentifier(b"not an id".to_vec()))
    );
    assert_eq!(s, before);
}

#[test]
fn posting_to_a_full_group_fails_whole() {
    let mut s = open_service(&[b"a"]);
    s.restore_group(b"full", true, MAX_ARTICLE_NUMBER).unwrap();
    let before = s.clone();
    let h = headers(&[(b"Newsgroups", b"a,full")]);
    let r = s.post(&h, b"x", b"bob", 1);
    assert_eq!(r, Err(Error::BackendUnavailable(b"full".to_vec())));
    assert!(r.unwrap_err().is_retryable());
    assert_eq!(s, before);
}

#[test]
fn acceptance_time_never_goes_back() {
    let mut s = open_service(&[b"g"]);
    let a = s.post(&headers(&[(b"Subject", b"1"), (b"Newsgroups", b"g")]), b"b", b"bob", 50).unwrap();
    let b = s.post(&headers(&[(b"Subject", b"2"), (b"Newsgroups", b"g")]), b"b", b"bob", 40).unwrap();
    assert_eq!(s.fetch(&a, b"r").unwrap().posted_at, 50);
    assert_eq!(s.fetch(&b, b"r").unwrap().posted_at, 50);
    assert_eq!(s.store().clock(), 50);
}

#[test]
fn fetch_tells_absent_from_unreadable() {
    let mut s = open_service(&[b"a", b"b"]);
    s.set_group_readable(b"a", false);
    s.set_group_readable(b"b", false);
    s.set_identity_rule(b"carol", b"b", Operation::Read, true);
    let id = s.post(&headers(&[(b"Newsgroups", b"a,b")]), b"x", b"bob", 1).unwrap();
    assert_eq!(s.fetch(&id, b"dave"), Err(Error::AccessDenied(id.clone())));
    assert_eq!(s.fetch(&id, b"carol").unwrap().body, b"x".to_vec());
    assert_eq!(s.fetch(b"no@where", b"carol"), Err(Error::ArticleNotFound(b"no@where".to_vec())));
    assert_eq!(s.fetch(b"garbage", b"carol"), Err(Error::ArticleNotFound(b"garbage".to_vec())));
}

#[test]
fn list_checks_access_before_existence() {
    let mut s = open_service(&[b"a"]);
    s.set_identity_rule(b"eve", b"a", Operation::Read, false);
    s.set_identity_rule(b"eve", b"ghost", Operation::Read, false);
    assert_eq!(s.list(b"a", 0, 9, b"eve"), Err(Error::AccessDenied(b"a".to_vec())));
    assert_eq!(s.list(b"ghost", 0, 9, b"eve"), Err(Error::AccessDenied(b"ghost".to_vec())));
    assert_eq!(s.list(b"ghost", 0, 9, b"bob"), Err(Error::GroupNotFound(b"ghost".to_vec())));
    assert_eq!(s.watermarks(b"ghost"), Err(Error::GroupNotFound(b"ghost".to_vec())));
    assert!(!s.can_read(b"eve", b"a"));
    assert!(s.can_read(b"bob", b"a"));
}

#[test]
fn group_flag_is_the_posting_rule() {
    let mut s = Service::new(b"news.example", AccessControl::with_defaults(true, true)).unwrap();
    s.create_group(b"closed", false).unwrap();
    assert!(!s.can_post(b"bob", b"closed"));
    assert_eq!(s.policy().group_rule(b"closed", Operation::Post), Some(false));
    assert_eq!(s.set_posting_allowed(b"closed", true), Ok(()));
    assert!(s.can_post(b"bob", b"closed"));
    assert!(s.index().group_at(0).posting_allowed);
    assert_eq!(
        s.set_posting_allowed(b"ghost", true),
        Err(Error::GroupNotFound(b"ghost".to_vec()))
    );
    assert_eq!(s.create_group(b"closed", true), Err(Error::Config(b"closed".to_vec())));
    assert_eq!(s.create_group(b"", true), Err(Error::Config(Vec::new())));
}

#[test]
fn bad_domain_is_a_configuration_error() {
    let r = Service::new(b"bad domain", AccessControl::new());
    assert_eq!(r.clone().unwrap_err(), Error::Config(b"bad domain".to_vec()));
    assert_eq!(r.unwrap_err().kind(), ErrorKind::Config);
    assert_eq!(ArticleStore::new(b"").unwrap_err(), Error::Config(Vec::new()));
    assert_eq!(ArticleStore::new(b"ok.example").unwrap().domain(), &b"ok.example".to_vec());
}

#[test]
fn store_works_with_its_collaborators_directly() {
    let mut store = ArticleStore::new(b"h").unwrap();
    let mut index = GroupIndex::new();
    let acl = AccessControl::with_defaults(true, true);
    index.create(b"g", true).unwrap();
    let h = headers(&[(b"Message-ID", b"1@x"), (b"Newsgroups", b"g"), (b"From", b"me"), (b"Date", b"d")]);
    assert_eq!(store.post(&mut index, &acl, &h, b"body", b"bob", 7), Ok(b"1@x".to_vec()));
    assert!(store.contains(b"1@x"));
    assert_eq!(store.position(b"1@x"), Some(0));
    assert_eq!(store.article_at(0).body, b"body".to_vec());
    let snap = ArticleStore::snapshot_of(&h, b"body");
    assert_eq!((snap.subject.len(), snap.from.clone(), snap.date.clone(), snap.size), (0, b"me".to_vec(), b"d".to_vec(), 4));
    assert_eq!(index.list(b"g", 1, 1).unwrap()[0].snapshot, snap);
    assert_eq!(store.fetch(&acl, b"1@x", b"any").unwrap().posted_at, 7);
    assert_eq!(store.expire(&mut index, b"g", 8), Ok(1));
    assert_eq!(store.len(), 0);
    assert!(!index.references(b"1@x"));
}

#[test]
fn first_in_is_the_head_of_the_listing() {
    let mut s = open_service(&[b"g"]);
    s.set_identity_rule(b"eve", b"g", Operation::Read, false);
    for i in 0..3u8 {
        let h = headers(&[(b"Subject", &[b'0' + i]), (b"Newsgroups", b"g")]);
        s.post(&h, b"b", b"bob", i as u64).unwrap();
    }
    let listed = s.list(b"g", 2, 3, b"bob").unwrap();
    assert_eq!(s.first_in(b"g", 2, 3, b"bob"), Ok(Some(listed[0].clone())));
    assert_eq!(s.first_in(b"g", 4, 9, b"bob"), Ok(None));
    assert_eq!(s.first_in(b"g", 0, 9, b"eve"), Err(Error::AccessDenied(b"g".to_vec())));
    assert_eq!(s.first_in(b"none", 0, 9, b"bob"), Err(Error::GroupNotFound(b"none".to_vec())));
}

#[test]
fn posting_creates_no_group() {
    let mut s = Service::new(b"news.example", AccessControl::with_defaults(true, true)).unwrap();
    let h = headers(&[(b"Newsgroups", b"brand.new")]);
    assert_eq!(s.post(&h, b"x", b"bob", 1), Err(Error::GroupNotFound(b"brand.new".to_vec())));
    assert_eq!(s.index().len(), 0);
    assert_eq!(s.watermarks(b"brand.new"), Err(Error::GroupNotFound(b"brand.new".to_vec())));
}

#[test]
fn policy_is_replaced_at_once_and_group_flags_stay() {
    let mut s = open_service(&[b"open"]);
    s.create_group(b"closed", false).unwrap();
    s.set_identity_rule(b"eve", b"open", Operation::Read, false);
    let mut fresh = AccessControl::with_defaults(false, true);
    fresh.set_group_rule(b"open", Operation::Post, false);
    fresh.set_group_rule(b"open", Operation::Read, true);
    fresh.set_identity_rule(b"bob", b"closed", Operation::Post, true);
    s.replace_policy(fresh);
    assert!(s.can_post(b"anyone", b"open"));
    assert!(!s.can_post(b"anyone", b"closed"));
    assert!(s.can_post(b"bob", b"closed"));
    assert!(s.can_post(b"anyone", b"elsewhere"));
    assert!(s.can_read(b"eve", b"open"));
    assert!(!s.can_read(b"eve", b"closed"));
    assert_eq!(s.index().len(), 2);
}
