//! Article headers: the ordered list of name and value pairs at the top of
//! an article, the grammar of a raw header block, and what the core reads
//! from the headers.
//!
//! Names compare without regard to ASCII case. A name may occur more than
//! once; the order in which headers were given is kept.

use vstd::prelude::*;
use vstd::slice::slice_subrange;
use crate::error::{Error, ErrorKind, fails_with};
use crate::ident::{absorb, digest_bytes, DIGEST_PRIME, mix};
use crate::text::{
    append_bytes, contains_bytes, copy_bytes, eq_ignore_case, fold_case, is_blank, trim, trim_start,
    trimmed, views,
};

verus! {

/// The longest raw header block that is parsed, in bytes.
pub const MAX_HEADER_BLOCK: usize = 65536;

/// Line feed, which ends every line of a header block.
pub const LF: u8 = 0x0a;

/// Carriage return, which may precede the line feed.
pub const CR: u8 = 0x0d;

/// The byte `:` between a header's name and its value.
pub const COLON: u8 = 0x3a;

/// The byte `,` between the group names of a `Newsgroups` header.
pub const COMMA: u8 = 0x2c;

/// The space that a rendered header has after its colon.
pub const SPACE: u8 = 0x20;

/// One header as plain data.
pub struct Field {
    pub name: Seq<u8>,
    pub value: Seq<u8>,
}

/// One header: a name and its value.
#[derive(Clone, Debug, PartialEq, Eq)]
pub struct Header {
    pub name: Vec<u8>,
    pub value: Vec<u8>,
}

impl View for Header {
    type V = Field;

    open spec fn view(&self) -> Field {
        Field { name: self.name@, value: self.value@ }
    }
}

/// The headers of an article, in the order they were given.
#[derive(Clone, Debug, PartialEq, Eq)]
pub struct Headers {
    entries: Vec<Header>,
}

/// The plain data of a list of headers.
pub open spec fn fields_of(entries: Seq<Header>) -> Seq<Field> {
    Seq::new(entries.len(), |i: int| entries[i]@)
}

impl View for Headers {
    type V = Seq<Field>;

    closed spec fn view(&self) -> Seq<Field> {
        fields_of(self.entries@)
    }
}

/// `newsgroups`, the name of the header that lists the target groups.
pub open spec fn newsgroups_name() -> Seq<u8> {
    seq![0x6e, 0x65, 0x77, 0x73, 0x67, 0x72, 0x6f, 0x75, 0x70, 0x73]
}

/// `message-id`, the name of the header that carries the identifier.
pub open spec fn message_id_name() -> Seq<u8> {
    seq![0x6d, 0x65, 0x73, 0x73, 0x61, 0x67, 0x65, 0x2d, 0x69, 0x64]
}

/// `subject`.
pub open spec fn subject_name() -> Seq<u8> {
    seq![0x73, 0x75, 0x62, 0x6a, 0x65, 0x63, 0x74]
}

/// `from`.
pub open spec fn from_name() -> Seq<u8> {
    seq![0x66, 0x72, 0x6f, 0x6d]
}

/// `date`.
pub open spec fn date_name() -> Seq<u8> {
    seq![0x64, 0x61, 0x74, 0x65]
}

/// A byte that may stand in a header name: printable ASCII but the colon.
pub open spec fn is_name_byte(b: u8) -> bool {
    0x21 <= b <= 0x7e && b != COLON
}

/// A header name: a non-empty run of name bytes.
pub open spec fn is_header_name(s: Seq<u8>) -> bool {
    s.len() > 0 && forall|i: int| 0 <= i < s.len() ==> is_name_byte(#[trigger] s[i])
}

/// A header value: any bytes but the two that break a line.
pub open spec fn is_header_value(s: Seq<u8>) -> bool {
    forall|i: int| 0 <= i < s.len() ==> #[trigger] s[i] != LF && s[i] != CR
}

/// Whether every header has a valid name and a valid value.
pub open spec fn well_formed(fields: Seq<Field>) -> bool {
    forall|i: int|
        0 <= i < fields.len() ==> is_header_name(#[trigger] fields[i].name) && is_header_value(
            fields[i].value,
        )
}

/// Whether `a` and `b` name the same header.
pub open spec fn same_name(a: Seq<u8>, b: Seq<u8>) -> bool {
    fold_case(a) == fold_case(b)
}

/// The value of the first header called `name`, if there is one.
pub open spec fn first_value(fields: Seq<Field>, name: Seq<u8>) -> Option<Seq<u8>>
    decreases fields.len(),
{
    if fields.len() == 0 {
        None
    } else if same_name(fields[0].name, name) {
        Some(fields[0].value)
    } else {
        first_value(fields.drop_first(), name)
    }
}

/// The value of the first header called `name`, or the empty string.
pub open spec fn value_or_empty(fields: Seq<Field>, name: Seq<u8>) -> Seq<u8> {
    match first_value(fields, name) {
        Some(v) => v,
        None => Seq::empty(),
    }
}

/// The position of the first `b` in `s`, or the length of `s` if it holds
/// none.
pub open spec fn first_index(s: Seq<u8>, b: u8) -> int
    decreases s.len(),
{
    if s.len() == 0 || s[0] == b {
        0
    } else {
        1 + first_index(s.drop_first(), b)
    }
}

/// A line without the carriage return at its end, if it has one.
pub open spec fn without_cr(line: Seq<u8>) -> Seq<u8> {
    if line.len() > 0 && line.last() == CR {
        line.drop_last()
    } else {
        line
    }
}

/// The header that one line of a block spells, the line given without its
/// line feed: the name is what stands before the first colon, the value what
/// follows it, trimmed of blanks.
pub open spec fn parse_line(line: Seq<u8>) -> Option<Field> {
    let l = without_cr(line);
    let c = first_index(l, COLON);
    if c < l.len() && is_header_name(l.take(c)) && is_header_value(trimmed(l.skip(c + 1))) {
        Some(Field { name: l.take(c), value: trimmed(l.skip(c + 1)) })
    } else {
        None
    }
}

/// The headers that a sequence of lines spells, or the first line that
/// spells none. A last line without a line feed is such a line.
pub open spec fn parse_lines(raw: Seq<u8>) -> Result<Seq<Field>, Seq<u8>>
    decreases raw.len(),
{
    if raw.len() == 0 {
        Ok(Seq::empty())
    } else {
        let n = first_index(raw, LF);
        if n < 0 || n >= raw.len() {
            Err(raw)
        } else {
            match parse_line(raw.take(n)) {
                None => Err(raw.take(n)),
                Some(f) => match parse_lines(raw.skip(n + 1)) {
                    Err(c) => Err(c),
                    Ok(rest) => Ok(seq![f] + rest),
                },
            }
        }
    }
}

/// The headers that a raw block spells. A block longer than
/// [`MAX_HEADER_BLOCK`] spells none, and is reported with no line.
pub open spec fn parse_block(raw: Seq<u8>) -> Result<Seq<Field>, Seq<u8>> {
    if raw.len() > MAX_HEADER_BLOCK {
        Err(Seq::empty())
    } else {
        parse_lines(raw)
    }
}

/// `tail` with the headers `done` in front of what it holds.
pub open spec fn after(done: Seq<Field>, tail: Result<Seq<Field>, Seq<u8>>) -> Result<
    Seq<Field>,
    Seq<u8>,
> {
    match tail {
        Ok(rest) => Ok(done + rest),
        Err(c) => Err(c),
    }
}

/// The pieces of `s` between its commas. A string without a comma is one
/// piece; two commas in a row enclose an empty piece.
pub open spec fn split_commas(s: Seq<u8>) -> Seq<Seq<u8>>
    decreases s.len(),
{
    if s.len() == 0 {
        seq![Seq::empty()]
    } else {
        let p = split_commas(s.drop_last());
        if s.last() == COMMA {
            p.push(Seq::empty())
        } else {
            p.update(p.len() - 1, p.last().push(s.last()))
        }
    }
}

/// `acc` with `g` at its end, unless `g` is empty or already in it.
pub open spec fn add_unique(acc: Seq<Seq<u8>>, g: Seq<u8>) -> Seq<Seq<u8>> {
    if g.len() == 0 || acc.contains(g) {
        acc
    } else {
        acc.push(g)
    }
}

/// `acc` after each piece, trimmed of blanks, was added to it in turn.
pub open spec fn add_pieces(acc: Seq<Seq<u8>>, pieces: Seq<Seq<u8>>) -> Seq<Seq<u8>>
    decreases pieces.len(),
{
    if pieces.len() == 0 {
        acc
    } else {
        add_unique(add_pieces(acc, pieces.drop_last()), trimmed(pieces.last()))
    }
}

/// The groups an article is addressed to: the names listed, between commas,
/// in its `Newsgroups` headers, each trimmed of blanks, empty names left
/// out, each name once, in the order of first mention.
pub open spec fn target_groups(fields: Seq<Field>) -> Seq<Seq<u8>>
    decreases fields.len(),
{
    if fields.len() == 0 {
        Seq::empty()
    } else {
        let t = target_groups(fields.drop_last());
        if same_name(fields.last().name, newsgroups_name()) {
            add_pieces(t, split_commas(fields.last().value))
        } else {
            t
        }
    }
}

/// The digest `h` after it has taken in every header: name, colon, value,
/// line feed.
pub open spec fn absorb_fields(h: u64, fields: Seq<Field>) -> u64
    decreases fields.len(),
{
    if fields.len() == 0 {
        h
    } else {
        let f = fields.last();
        mix(absorb(mix(absorb(absorb_fields(h, fields.drop_last()), f.name), COLON), f.value), LF)
    }
}

/// The line that spells a header: name, colon, space, value, line feed.
pub open spec fn line_of(f: Field) -> Seq<u8> {
    (f.name + seq![COLON, SPACE] + f.value).push(LF)
}

/// The block that spells the headers, one line each, in order.
pub open spec fn rendered(fields: Seq<Field>) -> Seq<u8>
    decreases fields.len(),
{
    if fields.len() == 0 {
        Seq::empty()
    } else {
        rendered(fields.drop_last()) + line_of(fields.last())
    }
}

/// Whether a string neither starts nor ends with a blank.
pub open spec fn is_trimmed(s: Seq<u8>) -> bool {
    s.len() == 0 || (!is_blank(s[0]) && !is_blank(s.last()))
}

/// Where the first `b` stands, told from what precedes it.
pub proof fn lemma_first_index(s: Seq<u8>, b: u8, j: int)
    requires
        0 <= j <= s.len(),
        forall|i: int| 0 <= i < j ==> s[i] != b,
        j < s.len() ==> s[j] == b,
    ensures
        first_index(s, b) == j,
    decreases j,
{
    if j > 0 {
        let t = s.drop_first();
        assert forall|i: int| 0 <= i < j - 1 implies t[i] != b by {
            assert(t[i] == s[i + 1]);
        }
        lemma_first_index(t, b, j - 1);
    }
}

/// Adding pieces keeps a list free of repeats and of empty names.
pub proof fn lemma_add_pieces_distinct(acc: Seq<Seq<u8>>, pieces: Seq<Seq<u8>>)
    requires
        acc.no_duplicates(),
        forall|i: int| 0 <= i < acc.len() ==> (#[trigger] acc[i]).len() > 0,
    ensures
        add_pieces(acc, pieces).no_duplicates(),
        forall|i: int|
            0 <= i < add_pieces(acc, pieces).len() ==> (#[trigger] add_pieces(acc, pieces)[i]).len()
                > 0,
    decreases pieces.len(),
{
    if pieces.len() > 0 {
        lemma_add_pieces_distinct(acc, pieces.drop_last());
    }
}

/// No group is named twice among the targets, and none is empty.
pub proof fn lemma_target_groups_distinct(fields: Seq<Field>)
    ensures
        target_groups(fields).no_duplicates(),
        forall|i: int|
            0 <= i < target_groups(fields).len() ==> (#[trigger] target_groups(fields)[i]).len()
                > 0,
    decreases fields.len(),
{
    if fields.len() > 0 {
        lemma_target_groups_distinct(fields.drop_last());
        lemma_add_pieces_distinct(
            target_groups(fields.drop_last()),
            split_commas(fields.last().value),
        );
    }
}

/// The pieces put together again, with a comma between each two.
pub open spec fn joined(pieces: Seq<Seq<u8>>) -> Seq<u8>
    decreases pieces.len(),
{
    if pieces.len() == 0 {
        Seq::empty()
    } else if pieces.len() == 1 {
        pieces[0]
    } else {
        joined(pieces.drop_last()).push(COMMA) + pieces.last()
    }
}

/// Whether a `Newsgroups` header of `fields` lists `g` between commas,
/// blanks around it aside.
pub open spec fn names_group(fields: Seq<Field>, g: Seq<u8>) -> bool {
    exists|i: int, k: int|
        0 <= i < fields.len() && same_name(fields[i].name, newsgroups_name()) && 0 <= k
            < split_commas(fields[i].value).len() && trimmed(
            #[trigger] split_commas(fields[i].value)[k],
        ) == g
}

/// Splitting at commas loses nothing: there is at least one piece, no piece
/// holds a comma, and the pieces joined by commas are the string.
pub proof fn law_split_commas_joins_back(s: Seq<u8>)
    ensures
        split_commas(s).len() >= 1,
        forall|k: int, i: int|
            0 <= k < split_commas(s).len() && 0 <= i < split_commas(s)[k].len() ==> (
            #[trigger] split_commas(s)[k][i]) != COMMA,
        joined(split_commas(s)) == s,
    decreases s.len(),
{
    if s.len() == 0 {
        assert(joined(split_commas(s)) =~= s);
    } else {
        let t = s.drop_last();
        let c = s.last();
        let p = split_commas(t);
        let q = split_commas(s);
        law_split_commas_joins_back(t);
        if c == COMMA {
            assert(q.drop_last() =~= p);
            assert(joined(q) =~= s);
        } else {
            assert forall|k: int, i: int| 0 <= k < q.len() && 0 <= i < q[k].len() implies (
            #[trigger] q[k][i]) != COMMA by {
                if k < p.len() - 1 {
                    assert(q[k][i] == p[k][i]);
                } else if i < p.last().len() {
                    assert(q[k][i] == p[k][i]);
                }
            }
            if p.len() == 1 {
                assert(joined(q) =~= s);
            } else {
                assert(q.drop_last() =~= p.drop_last());
                assert(joined(q) =~= joined(p).push(c));
                assert(joined(p).push(c) =~= s);
            }
        }
    }
}

/// What adding pieces adds: a name is in the list afterwards exactly if it
/// was there before or is, trimmed of blanks, one of the pieces, and not
/// empty.
pub proof fn lemma_add_pieces_members(acc: Seq<Seq<u8>>, pieces: Seq<Seq<u8>>, g: Seq<u8>)
    ensures
        add_pieces(acc, pieces).contains(g) <==> acc.contains(g) || (g.len() > 0 && exists|k: int|
            0 <= k < pieces.len() && trimmed(#[trigger] pieces[k]) == g),
    decreases pieces.len(),
{
    if pieces.len() > 0 {
        let front = pieces.drop_last();
        let last = trimmed(pieces.last());
        let before = add_pieces(acc, front);
        let after = add_pieces(acc, pieces);
        lemma_add_pieces_members(acc, front, g);
        if after.contains(g) {
            if !before.contains(g) {
                assert(after == before.push(last));
                let x = choose|x: int| 0 <= x < after.len() && after[x] == g;
                if x < before.len() {
                    assert(before[x] == g);
                }
                assert(trimmed(pieces[pieces.len() - 1]) == g);
            } else if !acc.contains(g) {
                let k = choose|k: int| 0 <= k < front.len() && trimmed(#[trigger] front[k]) == g;
                assert(trimmed(pieces[k]) == g);
            }
        }
        if acc.contains(g) || (g.len() > 0 && exists|k: int|
            0 <= k < pieces.len() && trimmed(#[trigger] pieces[k]) == g) {
            if acc.contains(g) {
                assert(before.contains(g));
            } else {
                let k = choose|k: int| 0 <= k < pieces.len() && trimmed(#[trigger] pieces[k]) == g;
                if k < front.len() {
                    assert(trimmed(front[k]) == g);
                    assert(before.contains(g));
                } else if !before.contains(g) {
                    assert(after == before.push(g));
                    assert(after[before.len() as int] == g);
                }
            }
            if before.contains(g) {
                let x = choose|x: int| 0 <= x < before.len() && before[x] == g;
                assert(after[x] == g);
            }
        }
    }
}

/// The targets are the groups that the headers name: a name is among the
/// target groups exactly if it is not empty and some `Newsgroups` header
/// lists it.
pub proof fn law_targets_are_the_named_groups(fields: Seq<Field>, g: Seq<u8>)
    ensures
        target_groups(fields).contains(g) <==> g.len() > 0 && names_group(fields, g),
    decreases fields.len(),
{
    if fields.len() > 0 {
        let front = fields.drop_last();
        let last = fields.last();
        law_targets_are_the_named_groups(front, g);
        let pieces = split_commas(last.value);
        lemma_add_pieces_members(target_groups(front), pieces, g);
        if names_group(front, g) {
            let (i, k) = choose|i: int, k: int|
                0 <= i < front.len() && same_name(front[i].name, newsgroups_name()) && 0 <= k
                    < split_commas(front[i].value).len() && trimmed(
                    #[trigger] split_commas(front[i].value)[k],
                ) == g;
            assert(fields[i] == front[i]);
            assert(trimmed(split_commas(fields[i].value)[k]) == g);
        }
        if same_name(last.name, newsgroups_name()) && exists|k: int|
            0 <= k < pieces.len() && trimmed(#[trigger] pieces[k]) == g {
            let k = choose|k: int| 0 <= k < pieces.len() && trimmed(#[trigger] pieces[k]) == g;
            assert(trimmed(split_commas(fields[fields.len() - 1].value)[k]) == g);
        }
        if names_group(fields, g) {
            let (i, k) = choose|i: int, k: int|
                0 <= i < fields.len() && same_name(fields[i].name, newsgroups_name()) && 0 <= k
                    < split_commas(fields[i].value).len() && trimmed(
                    #[trigger] split_commas(fields[i].value)[k],
                ) == g;
            if i < front.len() {
                assert(front[i] == fields[i]);
                assert(trimmed(split_commas(front[i].value)[k]) == g);
            } else {
                assert(trimmed(pieces[k]) == g);
            }
        }
    }
}

/// A rendered block starts with the line of its first header.
pub proof fn lemma_rendered_front(fields: Seq<Field>)
    requires
        fields.len() > 0,
    ensures
        rendered(fields) == line_of(fields[0]) + rendered(fields.drop_first()),
    decreases fields.len(),
{
    if fields.len() == 1 {
        assert(fields.drop_last() =~= Seq::<Field>::empty());
        assert(fields.drop_first() =~= Seq::<Field>::empty());
        assert(rendered(fields.drop_last()) + line_of(fields.last()) =~= line_of(fields[0])
            + rendered(fields.drop_first()));
    } else {
        let front = fields.drop_last();
        lemma_rendered_front(front);
        assert(front.drop_first() =~= fields.drop_first().drop_last());
        assert(fields.drop_first().last() == fields.last());
        assert((line_of(fields[0]) + rendered(front.drop_first())) + line_of(fields.last())
            =~= line_of(fields[0]) + (rendered(front.drop_first()) + line_of(fields.last())));
    }
}

/// The line of a header is read back as that header, and what follows the
/// line is read on its own.
pub proof fn lemma_parse_line_of(f: Field, rest: Seq<u8>)
    requires
        is_header_name(f.name),
        is_header_value(f.value),
        is_trimmed(f.value),
    ensures
        parse_lines(line_of(f) + rest) == after(seq![f], parse_lines(rest)),
{
    let l = f.name + seq![COLON, SPACE] + f.value;
    let raw = line_of(f) + rest;
    let n = l.len() as int;
    let c = f.name.len() as int;
    assert forall|i: int| 0 <= i < n implies raw[i] != LF by {
        if i < c {
            assert(raw[i] == f.name[i]);
            assert(is_name_byte(f.name[i]));
        } else if i >= c + 2 {
            assert(raw[i] == f.value[i - c - 2]);
        }
    }
    assert(raw[n] == LF);
    lemma_first_index(raw, LF, n);
    assert(raw.take(n) =~= l);
    assert(raw.skip(n + 1) =~= rest);
    assert(without_cr(l) == l) by {
        if f.value.len() > 0 {
            assert(l.last() == f.value.last());
        }
    }
    assert forall|i: int| 0 <= i < c implies l[i] != COLON by {
        assert(l[i] == f.name[i]);
        assert(is_name_byte(f.name[i]));
    }
    assert(l[c] == COLON);
    lemma_first_index(l, COLON, c);
    assert(l.take(c) =~= f.name);
    let tail = l.skip(c + 1);
    assert(tail =~= seq![SPACE] + f.value);
    assert(tail.drop_first() =~= f.value);
    assert(trim_start(tail) == trim_start(f.value));
    assert(trimmed(tail) == f.value);
    assert(parse_line(l) == Some(f));
    match parse_lines(rest) {
        Ok(more) => {},
        Err(_) => {},
    }
}

/// What is rendered is read back. Headers with valid names and values,
/// whose values neither start nor end with a blank, are parsed back from
/// their rendering exactly as they are, provided the rendering is within
/// the limit of a block.
pub proof fn law_rendering_is_read_back(fields: Seq<Field>)
    requires
        well_formed(fields),
        forall|i: int| 0 <= i < fields.len() ==> is_trimmed(#[trigger] fields[i].value),
        rendered(fields).len() <= MAX_HEADER_BLOCK,
    ensures
        parse_block(rendered(fields)) == Ok::<Seq<Field>, Seq<u8>>(fields),
{
    lemma_rendering_is_read_back(fields);
}

/// The same, whatever the length of the rendering.
pub proof fn lemma_rendering_is_read_back(fields: Seq<Field>)
    requires
        well_formed(fields),
        forall|i: int| 0 <= i < fields.len() ==> is_trimmed(#[trigger] fields[i].value),
    ensures
        parse_lines(rendered(fields)) == Ok::<Seq<Field>, Seq<u8>>(fields),
    decreases fields.len(),
{
    if fields.len() > 0 {
        let rest = fields.drop_first();
        assert forall|i: int| 0 <= i < rest.len() implies is_header_name(#[trigger] rest[i].name)
            && is_header_value(rest[i].value) && is_trimmed(rest[i].value) by {
            assert(rest[i] == fields[i + 1]);
        }
        lemma_rendering_is_read_back(rest);
        lemma_rendered_front(fields);
        lemma_parse_line_of(fields[0], rendered(rest));
        assert(seq![fields[0]] + rest =~= fields);
    } else {
        assert(fields =~= Seq::<Field>::empty());
    }
}

/// Whether a byte may stand in a header name.
pub fn name_byte(b: u8) -> (r: bool)
    ensures
        r == is_name_byte(b),
{
    0x21 <= b && b <= 0x7e && b != COLON
}

/// Whether `s` is a header name.
pub fn header_name_ok(s: &[u8]) -> (r: bool)
    ensures
        r == is_header_name(s@),
{
    if s.len() == 0 {
        return false;
    }
    let mut i: usize = 0;
    while i < s.len()
        invariant
            i <= s.len(),
            forall|k: int| 0 <= k < i ==> is_name_byte(#[trigger] s@[k]),
        decreases s.len() - i,
    {
        if !name_byte(s[i]) {
            return false;
        }
        i += 1;
    }
    true
}

/// Whether `s` is a header value.
pub fn header_value_ok(s: &[u8]) -> (r: bool)
    ensures
        r == is_header_value(s@),
{
    let mut i: usize = 0;
    while i < s.len()
        invariant
            i <= s.len(),
            forall|k: int| 0 <= k < i ==> #[trigger] s@[k] != LF && s@[k] != CR,
        decreases s.len() - i,
    {
        if s[i] == LF || s[i] == CR {
            return false;
        }
        i += 1;
    }
    true
}

/// The name `newsgroups` as bytes.
pub fn newsgroups_header() -> (r: Vec<u8>)
    ensures
        r@ == newsgroups_name(),
{
    vec![0x6e, 0x65, 0x77, 0x73, 0x67, 0x72, 0x6f, 0x75, 0x70, 0x73]
}

/// The name `message-id` as bytes.
pub fn message_id_header() -> (r: Vec<u8>)
    ensures
        r@ == message_id_name(),
{
    vec![0x6d, 0x65, 0x73, 0x73, 0x61, 0x67, 0x65, 0x2d, 0x69, 0x64]
}

/// The name `subject` as bytes.
pub fn subject_header() -> (r: Vec<u8>)
    ensures
        r@ == subject_name(),
{
    vec![0x73, 0x75, 0x62, 0x6a, 0x65, 0x63, 0x74]
}

/// The name `from` as bytes.
pub fn from_header() -> (r: Vec<u8>)
    ensures
        r@ == from_name(),
{
    vec![0x66, 0x72, 0x6f, 0x6d]
}

/// The name `date` as bytes.
pub fn date_header() -> (r: Vec<u8>)
    ensures
        r@ == date_name(),
{
    vec![0x64, 0x61, 0x74, 0x65]
}

/// Adds to `out` the group names that `value` lists between commas.
pub fn collect_groups(out: &mut Vec<Vec<u8>>, value: &[u8])
    ensures
        views(final(out)@) == add_pieces(views(old(out)@), split_commas(value@)),
{
    let n = value.len();
    let mut start: usize = 0;
    let mut j: usize = 0;
    let ghost done: Seq<Seq<u8>> = Seq::empty();
    proof {
        assert(value@.take(0) =~= Seq::<u8>::empty());
        assert(seq![Seq::<u8>::empty()] =~= done.push(value@.subrange(0, 0)));
    }
    while j < n
        invariant
            n == value@.len(),
            start <= j <= n,
            split_commas(value@.take(j as int)) == done.push(
                value@.subrange(start as int, j as int),
            ),
            views(out@) == add_pieces(views(old(out)@), done),
        decreases n - j,
    {
        proof {
            assert(value@.take(j as int + 1).drop_last() =~= value@.take(j as int));
        }
        if value[j] == COMMA {
            let piece = trim(slice_subrange(value, start, j));
            proof {
                let before = done;
                done = done.push(value@.subrange(start as int, j as int));
                assert(done.drop_last() =~= before);
                assert(Seq::<u8>::empty() =~= value@.subrange(j as int + 1, j as int + 1));
            }
            if piece.len() > 0 && !contains_bytes(out, piece.as_slice()) {
                let ghost prior = out@;
                out.push(piece);
                assert(views(out@) =~= views(prior).push(piece@));
            }
            start = j + 1;
        } else {
            proof {
                let p = done.push(value@.subrange(start as int, j as int));
                assert(p.last().push(value@[j as int]) =~= value@.subrange(
                    start as int,
                    j as int + 1,
                ));
                assert(p.update(p.len() - 1, p.last().push(value@[j as int])) =~= done.push(
                    value@.subrange(start as int, j as int + 1),
                ));
            }
        }
        j += 1;
    }
    let piece = trim(slice_subrange(value, start, n));
    proof {
        assert(value@.take(n as int) =~= value@);
        let all = done.push(value@.subrange(start as int, n as int));
        assert(all.drop_last() =~= done);
    }
    if piece.len() > 0 && !contains_bytes(out, piece.as_slice()) {
        let ghost prior = out@;
        out.push(piece);
        assert(views(out@) =~= views(prior).push(piece@));
    }
}

/// Parses one line of a header block, given without its line feed.
pub fn parse_header_line(line: &[u8]) -> (r: Option<Header>)
    ensures
        match parse_line(line@) {
            Some(f) => r matches Some(h) && h@ == f,
            None => r is None,
        },
{
    let n = if line.len() > 0 && line[line.len() - 1] == CR {
        line.len() - 1
    } else {
        line.len()
    };
    let l = slice_subrange(line, 0, n);
    assert(l@ =~= without_cr(line@));
    let mut c: usize = 0;
    while c < n && l[c] != COLON
        invariant
            n == l@.len(),
            c <= n,
            forall|i: int| 0 <= i < c ==> l@[i] != COLON,
        decreases n - c,
    {
        c += 1;
    }
    proof {
        lemma_first_index(l@, COLON, c as int);
    }
    if c >= n {
        return None;
    }
    let name = slice_subrange(l, 0, c);
    assert(name@ =~= l@.take(c as int));
    if !header_name_ok(name) {
        return None;
    }
    let rest = slice_subrange(l, c + 1, n);
    assert(rest@ =~= l@.skip(c as int + 1));
    let value = trim(rest);
    if !header_value_ok(value.as_slice()) {
        return None;
    }
    Some(Header { name: copy_bytes(name), value })
}

/// Parses a raw header block.
///
/// The block is a sequence of lines, each ended by a line feed that a
/// carriage return may precede. Each line is a name, a colon and a value;
/// blanks around the value are dropped. A name may repeat. The block is
/// refused as malformed, with the offending line, at the first line that has
/// no colon, an invalid name or a carriage return inside its value, and at a
/// last line without its line feed. A block longer than
/// [`MAX_HEADER_BLOCK`] is refused with no line.
pub fn parse_headers(raw: &[u8]) -> (r: Result<Headers, Error>)
    ensures
        match parse_block(raw@) {
            Ok(fields) => r matches Ok(h) && h@ == fields && well_formed(fields),
            Err(line) => fails_with(r, ErrorKind::MalformedHeaders, line),
        },
{
    let n = raw.len();
    if n > MAX_HEADER_BLOCK {
        return Err(Error::MalformedHeaders(Vec::new()));
    }
    let mut entries: Vec<Header> = Vec::new();
    let mut pos: usize = 0;
    proof {
        assert(raw@.skip(0) =~= raw@);
        assert(fields_of(entries@) + Seq::<Field>::empty() =~= Seq::<Field>::empty());
        match parse_lines(raw@) {
            Ok(rest) => {
                assert(fields_of(entries@) + rest =~= rest);
            },
            Err(_) => {},
        }
    }
    while pos < n
        invariant
            n == raw@.len(),
            n <= MAX_HEADER_BLOCK,
            pos <= n,
            parse_lines(raw@) == after(fields_of(entries@), parse_lines(raw@.skip(pos as int))),
            well_formed(fields_of(entries@)),
        decreases n - pos,
    {
        let ghost tail = raw@.skip(pos as int);
        let mut j: usize = pos;
        while j < n && raw[j] != LF
            invariant
                n == raw@.len(),
                pos <= j <= n,
                forall|i: int| pos <= i < j ==> raw@[i] != LF,
            decreases n - j,
        {
            j += 1;
        }
        proof {
            assert forall|i: int| 0 <= i < j - pos implies tail[i] != LF by {
                assert(tail[i] == raw@[pos + i]);
            }
            lemma_first_index(tail, LF, j - pos);
            assert(tail.len() == n - pos);
        }
        if j >= n {
            assert(parse_lines(tail) == Err::<Seq<Field>, Seq<u8>>(tail));
            assert(parse_lines(raw@) == Err::<Seq<Field>, Seq<u8>>(tail));
            let rest = slice_subrange(raw, pos, n);
            assert(rest@ =~= tail);
            return Err(Error::MalformedHeaders(copy_bytes(rest)));
        }
        let line = slice_subrange(raw, pos, j);
        assert(line@ =~= tail.take(j - pos));
        match parse_header_line(line) {
            None => {
                assert(parse_lines(tail) == Err::<Seq<Field>, Seq<u8>>(line@));
                assert(parse_lines(raw@) == Err::<Seq<Field>, Seq<u8>>(line@));
                return Err(Error::MalformedHeaders(copy_bytes(line)));
            },
            Some(h) => {
                proof {
                    let prior = fields_of(entries@);
                    assert(tail.skip(j - pos + 1) =~= raw@.skip(j as int + 1));
                    match parse_lines(raw@.skip(j as int + 1)) {
                        Ok(rest) => {
                            assert(prior + (seq![h@] + rest) =~= prior.push(h@) + rest);
                        },
                        Err(_) => {},
                    }
                    assert(fields_of(entries@.push(h)) =~= prior.push(h@));
                }
                entries.push(h);
                pos = j + 1;
            },
        }
    }
    proof {
        assert(raw@.skip(n as int) =~= Seq::<u8>::empty());
        assert(fields_of(entries@) + Seq::<Field>::empty() =~= fields_of(entries@));
    }
    Ok(Headers { entries })
}

impl Headers {
    /// Whether every header has a valid name and a valid value.
    pub open spec fn wf(&self) -> bool {
        well_formed(self@)
    }

    /// No headers.
    pub fn new() -> (r: Headers)
        ensures
            r@ == Seq::<Field>::empty(),
            r.wf(),
    {
        let r = Headers { entries: Vec::new() };
        assert(r@ =~= Seq::<Field>::empty());
        r
    }

    /// Adds a header after those already held.
    ///
    /// The name must be a header name and the value free of line breaks;
    /// otherwise nothing is added and the failure carries the name.
    pub fn push(&mut self, name: &[u8], value: &[u8]) -> (r: Result<(), Error>)
        ensures
            is_header_name(name@) && is_header_value(value@) ==> r is Ok && final(self)@ == old(
                self,
            )@.push(Field { name: name@, value: value@ }),
            !(is_header_name(name@) && is_header_value(value@)) ==> fails_with(
                r,
                ErrorKind::MalformedHeaders,
                name@,
            ) && final(self)@ == old(self)@,
            old(self).wf() ==> final(self).wf(),
    {
        if header_name_ok(name) && header_value_ok(value) {
            let h = Header { name: copy_bytes(name), value: copy_bytes(value) };
            let ghost prior = self.entries@;
            self.entries.push(h);
            assert(fields_of(self.entries@) =~= fields_of(prior).push(h@));
            Ok(())
        } else {
            Err(Error::MalformedHeaders(copy_bytes(name)))
        }
    }

    /// How many headers are held.
    pub fn len(&self) -> (n: usize)
        ensures
            n == self@.len(),
    {
        self.entries.len()
    }

    /// The header at position `i`, counted from zero in the order given.
    pub fn entry(&self, i: usize) -> (h: &Header)
        requires
            i < self@.len(),
        ensures
            h@ == self@[i as int],
    {
        &self.entries[i]
    }

    /// The value of the first header called `name`, whatever the case of
    /// its letters.
    pub fn get(&self, name: &[u8]) -> (r: Option<&Vec<u8>>)
        ensures
            match first_value(self@, name@) {
                Some(v) => r matches Some(x) && x@ == v,
                None => r is None,
            },
    {
        let mut i: usize = 0;
        assert(self@.skip(0) =~= self@);
        while i < self.entries.len()
            invariant
                i <= self.entries.len(),
                first_value(self@, name@) == first_value(self@.skip(i as int), name@),
            decreases self.entries.len() - i,
        {
            assert(self@.skip(i as int)[0] == self.entries@[i as int]@);
            if eq_ignore_case(self.entries[i].name.as_slice(), name) {
                return Some(&self.entries[i].value);
            }
            assert(self@.skip(i as int).drop_first() =~= self@.skip(i as int + 1));
            i += 1;
        }
        None
    }

    /// A copy of the value of the first header called `name`, or the empty
    /// string if there is none.
    pub fn value_of(&self, name: &[u8]) -> (r: Vec<u8>)
        ensures
            r@ == value_or_empty(self@, name@),
    {
        match self.get(name) {
            Some(v) => copy_bytes(v.as_slice()),
            None => Vec::new(),
        }
    }

    /// The groups the article is addressed to, each once, in the order of
    /// first mention.
    pub fn target_groups(&self) -> (r: Vec<Vec<u8>>)
        ensures
            views(r@) == target_groups(self@),
    {
        let mut out: Vec<Vec<u8>> = Vec::new();
        let wanted = newsgroups_header();
        let mut i: usize = 0;
        assert(self@.take(0) =~= Seq::<Field>::empty());
        assert(views(out@) =~= Seq::<Seq<u8>>::empty());
        while i < self.entries.len()
            invariant
                i <= self.entries.len(),
                wanted@ == newsgroups_name(),
                views(out@) == target_groups(self@.take(i as int)),
            decreases self.entries.len() - i,
        {
            proof {
                assert(self@.take(i as int + 1).drop_last() =~= self@.take(i as int));
                assert(self@.take(i as int + 1).last() == self.entries@[i as int]@);
            }
            if eq_ignore_case(self.entries[i].name.as_slice(), wanted.as_slice()) {
                collect_groups(&mut out, self.entries[i].value.as_slice());
            }
            i += 1;
        }
        assert(self@.take(self@.len() as int) =~= self@);
        out
    }

    /// Takes every header into the digest `h`.
    pub fn digest(&self, h: u64) -> (r: u64)
        ensures
            r == absorb_fields(h, self@),
    {
        let mut acc: u64 = h;
        let mut i: usize = 0;
        assert(self@.take(0) =~= Seq::<Field>::empty());
        while i < self.entries.len()
            invariant
                i <= self.entries.len(),
                acc == absorb_fields(h, self@.take(i as int)),
            decreases self.entries.len() - i,
        {
            proof {
                assert(self@.take(i as int + 1).drop_last() =~= self@.take(i as int));
                assert(self@.take(i as int + 1).last() == self.entries@[i as int]@);
            }
            acc = digest_bytes(acc, self.entries[i].name.as_slice());
            acc = (acc ^ (COLON as u64)).wrapping_mul(DIGEST_PRIME);
            acc = digest_bytes(acc, self.entries[i].value.as_slice());
            acc = (acc ^ (LF as u64)).wrapping_mul(DIGEST_PRIME);
            i += 1;
        }
        assert(self@.take(self@.len() as int) =~= self@);
        acc
    }

    /// The block that spells these headers: for each, in order, its name, a
    /// colon, a space, its value and a line feed.
    pub fn render(&self) -> (r: Vec<u8>)
        ensures
            r@ == rendered(self@),
    {
        let mut out: Vec<u8> = Vec::new();
        let mut i: usize = 0;
        assert(self@.take(0) =~= Seq::<Field>::empty());
        while i < self.entries.len()
            invariant
                i <= self.entries.len(),
                out@ == rendered(self@.take(i as int)),
            decreases self.entries.len() - i,
        {
            proof {
                assert(self@.take(i as int + 1).drop_last() =~= self@.take(i as int));
                assert(self@.take(i as int + 1).last() == self.entries@[i as int]@);
            }
            let ghost before = out@;
            let ghost f = self.entries@[i as int]@;
            append_bytes(&mut out, self.entries[i].name.as_slice());
            out.push(COLON);
            out.push(SPACE);
            append_bytes(&mut out, self.entries[i].value.as_slice());
            out.push(LF);
            assert(out@ =~= before + line_of(f));
            i += 1;
        }
        assert(self@.take(self@.len() as int) =~= self@);
        out
    }

    /// A copy of these headers.
    pub fn duplicate(&self) -> (r: Headers)
        ensures
            r@ == self@,
    {
        let mut entries: Vec<Header> = Vec::new();
        let mut i: usize = 0;
        while i < self.entries.len()
            invariant
                i <= self.entries.len(),
                fields_of(entries@) == self@.take(i as int),
            decreases self.entries.len() - i,
        {
            let h = Header {
                name: copy_bytes(self.entries[i].name.as_slice()),
                value: copy_bytes(self.entries[i].value.as_slice()),
            };
            assert(h@ == self@[i as int]);
            assert(fields_of(entries@.push(h)) =~= self@.take(i as int).push(h@));
            assert(self@.take(i as int).push(h@) =~= self@.take(i as int + 1));
            entries.push(h);
            i += 1;
        }
        assert(self@.take(self@.len() as int) =~= self@);
        Headers { entries }
    }
}

} // verus!
