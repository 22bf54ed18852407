use tmnn::error::Error;
use tmnn::group::{GroupIndex, OverviewRow, Snapshot, MAX_ARTICLE_NUMBER};

fn snap(subject: &[u8]) -> Snapshot {
    Snapshot { subject: subject.to_vec(), from: b"a@b".to_vec(), date: b"today".to_vec(), size: 2 }
}

fn numbers(rows: &Vec<OverviewRow>) -> Vec<u64> {
    rows.iter().map(|r| r.article_number).collect()
}

#[test]
fn new_group_is_empty_with_marks_one_and_zero() {
    let mut ix = GroupIndex::new();
    assert_eq!(ix.len(), 0);
    assert_eq!(ix.create(b"misc.test", true), Ok(()));
    assert_eq!(ix.len(), 1);
    assert_eq!(ix.watermarks(b"misc.test"), Ok((1, 0)));
    assert_eq!(ix.list(b"misc.test", 0, u64::MAX), Ok(Vec::new()));
    assert!(ix.contains(b"misc.test"));
    assert!(!ix.contains(b"misc.Test"));
    assert_eq!(ix.position(b"misc.test"), Some(0));
    let g = ix.group_at(0);
    assert_eq!(g.name, b"misc.test".to_vec());
    assert_eq!((g.low_water, g.high_water, g.posting_allowed), (1, 0, true));
}

#[test]
fn create_refuses_empty_and_repeated_names() {
    let mut ix = GroupIndex::new();
    assert_eq!(ix.create(b"", true), Err(Error::Config(Vec::new())));
    assert_eq!(ix.create(b"g", true), Ok(()));
    assert_eq!(ix.create(b"g", false), Err(Error::Config(b"g".to_vec())));
    assert_eq!(ix.len(), 1);
    assert_eq!(ix.group_at(0).posting_allowed, true);
}

#[test]
fn create_from_continues_numbering() {
    let mut ix = GroupIndex::new();
    assert_eq!(ix.create_from(b"g", true, 41), Ok(()));
    assert_eq!(ix.watermarks(b"g"), Ok((42, 41)));
    assert_eq!(ix.allocate(b"g", b"m@h", snap(b"s"), 5), Ok(42));
    assert_eq!(ix.watermarks(b"g"), Ok((42, 42)));
    assert_eq!(
        ix.create_from(b"h", true, MAX_ARTICLE_NUMBER + 1),
        Err(Error::Config(b"h".to_vec()))
    );
    assert_eq!(ix.create_from(b"h", true, MAX_ARTICLE_NUMBER), Ok(()));
    assert_eq!(ix.watermarks(b"h"), Ok((u64::MAX, MAX_ARTICLE_NUMBER)));
}

#[test]
fn allocate_numbers_from_one_upward() {
    let mut ix = GroupIndex::new();
    ix.create(b"g", true).unwrap();
    ix.create(b"h", true).unwrap();
    assert_eq!(ix.allocate(b"g", b"1@h", snap(b"one"), 10), Ok(1));
    assert_eq!(ix.allocate(b"g", b"2@h", snap(b"two"), 11), Ok(2));
    assert_eq!(ix.allocate(b"h", b"2@h", snap(b"two"), 11), Ok(1));
    assert_eq!(ix.allocate(b"g", b"3@h", snap(b"three"), 12), Ok(3));
    assert_eq!(ix.watermarks(b"g"), Ok((1, 3)));
    assert_eq!(ix.watermarks(b"h"), Ok((1, 1)));
    let rows = ix.list(b"g", 1, 10).unwrap();
    assert_eq!(numbers(&rows), vec![1, 2, 3]);
    assert_eq!(
        rows[1],
        OverviewRow { group_name: b"g".to_vec(), article_number: 2, message_id: b"2@h".to_vec(), snapshot: snap(b"two"), posted_at: 11 }
    );
}

#[test]
fn allocate_fails_for_unknown_group_and_exhausted_numbers() {
    let mut ix = GroupIndex::new();
    assert_eq!(
        ix.allocate(b"nope", b"1@h", snap(b"s"), 1),
        Err(Error::GroupNotFound(b"nope".to_vec()))
    );
    ix.create_from(b"full", true, MAX_ARTICLE_NUMBER - 1).unwrap();
    assert_eq!(ix.allocate(b"full", b"1@h", snap(b"s"), 1), Ok(MAX_ARTICLE_NUMBER));
    assert_eq!(
        ix.allocate(b"full", b"2@h", snap(b"s"), 2),
        Err(Error::BackendUnavailable(b"full".to_vec()))
    );
    assert_eq!(ix.watermarks(b"full"), Ok((MAX_ARTICLE_NUMBER, MAX_ARTICLE_NUMBER)));
    assert_eq!(ix.list(b"full", 0, u64::MAX).unwrap().len(), 1);
}

#[test]
fn list_restricts_to_range_and_is_restartable() {
    let mut ix = GroupIndex::new();
    ix.create(b"g", true).unwrap();
    for i in 1..=6u64 {
        ix.allocate(b"g", &[b'0' + i as u8, b'@', b'h'], snap(b"s"), i).unwrap();
    }
    assert_eq!(numbers(&ix.list(b"g", 2, 4).unwrap()), vec![2, 3, 4]);
    assert_eq!(numbers(&ix.list(b"g", 2, 4).unwrap()), vec![2, 3, 4]);
    assert_eq!(numbers(&ix.list(b"g", 0, 1).unwrap()), vec![1]);
    assert_eq!(numbers(&ix.list(b"g", 6, 100).unwrap()), vec![6]);
    assert_eq!(numbers(&ix.list(b"g", 7, 100).unwrap()), Vec::<u64>::new());
    assert_eq!(numbers(&ix.list(b"g", 4, 2).unwrap()), Vec::<u64>::new());
    assert_eq!(ix.list(b"x", 1, 2), Err(Error::GroupNotFound(b"x".to_vec())));
    assert_eq!(ix.watermarks(b"x"), Err(Error::GroupNotFound(b"x".to_vec())));
}

#[test]
fn expire_removes_old_rows_and_raises_low_mark() {
    let mut ix = GroupIndex::new();
    ix.create(b"g", true).unwrap();
    ix.create(b"other", true).unwrap();
    for i in 1..=5u64 {
        ix.allocate(b"g", &[b'0' + i as u8, b'@', b'h'], snap(b"s"), i * 10).unwrap();
    }
    ix.allocate(b"other", b"1@h", snap(b"s"), 10).unwrap();
    assert_eq!(ix.expire(b"g", 30), Ok(vec![b"1@h".to_vec(), b"2@h".to_vec()]));
    assert_eq!(ix.watermarks(b"g"), Ok((3, 5)));
    assert_eq!(numbers(&ix.list(b"g", 0, u64::MAX).unwrap()), vec![3, 4, 5]);
    assert_eq!(ix.watermarks(b"other"), Ok((1, 1)));
    assert!(ix.references(b"1@h"));
    assert!(!ix.references(b"2@h"));
    assert!(ix.references(b"3@h"));
    assert_eq!(ix.expire(b"g", 30), Ok(Vec::new()));
    assert_eq!(ix.expire(b"g", 1000).unwrap().len(), 3);
    assert_eq!(ix.watermarks(b"g"), Ok((6, 5)));
    assert_eq!(ix.allocate(b"g", b"6@h", snap(b"s"), 60), Ok(6));
    assert_eq!(ix.watermarks(b"g"), Ok((6, 6)));
    assert_eq!(ix.expire(b"none", 0), Err(Error::GroupNotFound(b"none".to_vec())));
}

#[test]
fn posting_flag_can_be_changed() {
    let mut ix = GroupIndex::new();
    ix.create(b"g", false).unwrap();
    assert_eq!(ix.set_posting_allowed(b"g", true), Ok(()));
    assert!(ix.group_at(0).posting_allowed);
    assert_eq!(ix.set_posting_allowed(b"h", true), Err(Error::GroupNotFound(b"h".to_vec())));
}

#[test]
fn row_copies_are_equal() {
    let row = OverviewRow { group_name: b"g".to_vec(), article_number: 9, message_id: b"m@h".to_vec(), snapshot: snap(b"s"), posted_at: 3 };
    assert_eq!(row.duplicate(), row);
    assert_eq!(row.snapshot.duplicate(), row.snapshot);
}

#[test]
fn first_in_steps_through_a_group() {
    let mut ix = GroupIndex::new();
    ix.create(b"g", true).unwrap();
    for i in 1..=4u64 {
        ix.allocate(b"g", &[b'0' + i as u8, b'@', b'h'], snap(b"s"), i * 10).unwrap();
    }
    ix.expire(b"g", 20).unwrap();
    let mut seen = Vec::new();
    let mut from = 0u64;
    while let Some(row) = ix.first_in(b"g", from, u64::MAX).unwrap() {
        seen.push(row.article_number);
        from = row.article_number + 1;
    }
    assert_eq!(seen, vec![2, 3, 4]);
    assert_eq!(ix.first_in(b"g", 3, 3).unwrap().unwrap().message_id, b"3@h".to_vec());
    assert_eq!(ix.first_in(b"g", 5, 9), Ok(None));
    assert_eq!(ix.first_in(b"g", 4, 2), Ok(None));
    assert_eq!(ix.first_in(b"x", 0, 9), Err(Error::GroupNotFound(b"x".to_vec())));
    assert_eq!(
        ix.first_in(b"g", 0, u64::MAX).unwrap(),
        ix.list(b"g", 0, u64::MAX).unwrap().first().cloned()
    );
}
