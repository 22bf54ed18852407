use tmnn::error::Error;
use tmnn::header::{
    collect_groups, header_name_ok, header_value_ok, parse_header_line, parse_headers, Header,
    Headers, MAX_HEADER_BLOCK,
};
use tmnn::ident::{digest_bytes, DIGEST_SEED};

fn pairs(h: &Headers) -> Vec<(Vec<u8>, Vec<u8>)> {
    let mut out = Vec::new();
    let mut i = 0;
    while i < h.len() {
        out.push((h.entry(i).name.clone(), h.entry(i).value.clone()));
        i += 1;
    }
    out
}

#[test]
fn parses_lines_in_order() {
    let h = parse_headers(b"Subject: Hello\nNewsgroups: rec.arts.turtles\n").unwrap();
    assert_eq!(
        pairs(&h),
        vec![
            (b"Subject".to_vec(), b"Hello".to_vec()),
            (b"Newsgroups".to_vec(), b"rec.arts.turtles".to_vec()),
        ]
    );
}

#[test]
fn parses_carriage_returns_and_trims_values() {
    let h = parse_headers(b"Subject:   spaced out \t\r\nX-Empty:\r\nFrom:a@b\n").unwrap();
    assert_eq!(
        pairs(&h),
        vec![
            (b"Subject".to_vec(), b"spaced out".to_vec()),
            (b"X-Empty".to_vec(), b"".to_vec()),
            (b"From".to_vec(), b"a@b".to_vec()),
        ]
    );
}

#[test]
fn value_may_hold_colons() {
    let h = parse_headers(b"Date: 12:30:00\n").unwrap();
    assert_eq!(pairs(&h), vec![(b"Date".to_vec(), b"12:30:00".to_vec())]);
}

#[test]
fn repeated_headers_are_kept_in_first_seen_order() {
    let h = parse_headers(b"Newsgroups: a\nX: 1\nNewsgroups: b\nx: 2\n").unwrap();
    assert_eq!(h.len(), 4);
    assert_eq!(h.get(b"newsgroups"), Some(&b"a".to_vec()));
    assert_eq!(h.get(b"X"), Some(&b"1".to_vec()));
    assert_eq!(h.entry(3), &Header { name: b"x".to_vec(), value: b"2".to_vec() });
}

#[test]
fn empty_block_has_no_headers() {
    let h = parse_headers(b"").unwrap();
    assert_eq!(h.len(), 0);
    assert_eq!(h, Headers::new());
}

#[test]
fn unterminated_block_is_refused_with_its_last_line() {
    assert_eq!(
        parse_headers(b"Subject: Hello\nFrom: x"),
        Err(Error::MalformedHeaders(b"From: x".to_vec()))
    );
    assert_eq!(parse_headers(b"Subject: Hello"), Err(Error::MalformedHeaders(b"Subject: Hello".to_vec())));
}

#[test]
fn overlong_block_is_refused() {
    let mut raw = Vec::new();
    while raw.len() <= MAX_HEADER_BLOCK {
        raw.extend_from_slice(b"X-Filler: 0123456789\n");
    }
    assert_eq!(parse_headers(&raw), Err(Error::MalformedHeaders(Vec::new())));
    raw.truncate(21 * (MAX_HEADER_BLOCK / 21));
    assert!(raw.len() <= MAX_HEADER_BLOCK);
    assert_eq!(parse_headers(&raw).unwrap().len(), MAX_HEADER_BLOCK / 21);
}

#[test]
fn first_bad_line_is_reported() {
    assert_eq!(
        parse_headers(b"Subject: ok\nno colon here\nalso bad\n"),
        Err(Error::MalformedHeaders(b"no colon here".to_vec()))
    );
    assert_eq!(parse_headers(b"\n"), Err(Error::MalformedHeaders(b"".to_vec())));
    assert_eq!(parse_headers(b": v\n"), Err(Error::MalformedHeaders(b": v".to_vec())));
    assert_eq!(
        parse_headers(b"Bad Name: v\n"),
        Err(Error::MalformedHeaders(b"Bad Name: v".to_vec()))
    );
    assert_eq!(
        parse_headers(b" folded: v\n"),
        Err(Error::MalformedHeaders(b" folded: v".to_vec()))
    );
    assert_eq!(
        parse_headers(b"A: x\ry\n"),
        Err(Error::MalformedHeaders(b"A: x\ry".to_vec()))
    );
}

#[test]
fn one_line_is_name_colon_value() {
    assert_eq!(
        parse_header_line(b"Subject: Hello"),
        Some(Header { name: b"Subject".to_vec(), value: b"Hello".to_vec() })
    );
    assert_eq!(
        parse_header_line(b"Subject: Hello\r"),
        Some(Header { name: b"Subject".to_vec(), value: b"Hello".to_vec() })
    );
    assert_eq!(parse_header_line(b"Subject"), None);
    assert_eq!(parse_header_line(b""), None);
}

#[test]
fn names_and_values_are_checked() {
    assert!(header_name_ok(b"X-Trace"));
    assert!(!header_name_ok(b""));
    assert!(!header_name_ok(b"a:b"));
    assert!(!header_name_ok(b"a b"));
    assert!(!header_name_ok(&[0x80]));
    assert!(header_value_ok(b"any thing: at all"));
    assert!(header_value_ok(b""));
    assert!(!header_value_ok(b"a\nb"));
    assert!(!header_value_ok(b"a\rb"));
}

#[test]
fn push_validates() {
    let mut h = Headers::new();
    assert_eq!(h.push(b"Subject", b"Hello"), Ok(()));
    assert_eq!(h.push(b"Bad Name", b"x"), Err(Error::MalformedHeaders(b"Bad Name".to_vec())));
    assert_eq!(h.push(b"X", b"line\nbreak"), Err(Error::MalformedHeaders(b"X".to_vec())));
    assert_eq!(h.push(b"", b"x"), Err(Error::MalformedHeaders(b"".to_vec())));
    assert_eq!(pairs(&h), vec![(b"Subject".to_vec(), b"Hello".to_vec())]);
}

#[test]
fn lookup_ignores_case_and_takes_the_first() {
    let mut h = Headers::new();
    h.push(b"subject", b"one").unwrap();
    h.push(b"SUBJECT", b"two").unwrap();
    assert_eq!(h.get(b"Subject"), Some(&b"one".to_vec()));
    assert_eq!(h.get(b"From"), None);
    assert_eq!(h.value_of(b"Subject"), b"one".to_vec());
    assert_eq!(h.value_of(b"From"), Vec::<u8>::new());
}

#[test]
fn target_groups_are_split_trimmed_and_unique() {
    let mut h = Headers::new();
    h.push(b"Newsgroups", b"rec.a, rec.b ,rec.a,,  ,rec.c").unwrap();
    h.push(b"Subject", b"rec.x").unwrap();
    h.push(b"newsgroups", b"rec.d,rec.b").unwrap();
    assert_eq!(
        h.target_groups(),
        vec![b"rec.a".to_vec(), b"rec.b".to_vec(), b"rec.c".to_vec(), b"rec.d".to_vec()]
    );
    assert_eq!(Headers::new().target_groups(), Vec::<Vec<u8>>::new());
    let mut none = Headers::new();
    none.push(b"Newsgroups", b" , ,").unwrap();
    assert_eq!(none.target_groups(), Vec::<Vec<u8>>::new());
}

#[test]
fn collect_groups_adds_to_what_is_there() {
    let mut out = vec![b"b".to_vec()];
    collect_groups(&mut out, b"a,b,c");
    assert_eq!(out, vec![b"b".to_vec(), b"a".to_vec(), b"c".to_vec()]);
    collect_groups(&mut out, b"");
    assert_eq!(out.len(), 3);
}

#[test]
fn header_digest_takes_name_colon_value_line_feed() {
    let mut h = Headers::new();
    h.push(b"A", b"1").unwrap();
    h.push(b"Bc", b"").unwrap();
    assert_eq!(h.digest(DIGEST_SEED), digest_bytes(DIGEST_SEED, b"A:1\nBc:\n"));
    assert_eq!(Headers::new().digest(17), 17);
}

#[test]
fn duplicate_is_equal() {
    let h = parse_headers(b"A: 1\nB: 2\n").unwrap();
    assert_eq!(h.duplicate(), h);
}

#[test]
fn render_spells_name_colon_space_value() {
    let mut h = Headers::new();
    h.push(b"Subject", b"Hello").unwrap();
    h.push(b"X-Empty", b"").unwrap();
    h.push(b"Newsgroups", b"a,b").unwrap();
    assert_eq!(h.render(), b"Subject: Hello\nX-Empty: \nNewsgroups: a,b\n".to_vec());
    assert_eq!(Headers::new().render(), Vec::<u8>::new());
}

#[test]
fn rendering_is_read_back() {
    let mut h = Headers::new();
    h.push(b"Subject", b"Re: a  long   subject").unwrap();
    h.push(b"From", b"someone <s@example>").unwrap();
    h.push(b"Newsgroups", b"rec.a, rec.b").unwrap();
    h.push(b"Newsgroups", b"rec.c").unwrap();
    h.push(b"X-Empty", b"").unwrap();
    assert_eq!(parse_headers(&h.render()), Ok(h.clone()));
    let parsed = parse_headers(b"A:1\r\nB:   2  \r\n").unwrap();
    assert_eq!(parsed.render(), b"A: 1\nB: 2\n".to_vec());
    assert_eq!(parse_headers(&parsed.render()), Ok(parsed));
}
