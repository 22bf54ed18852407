//! Articles and the store that holds them.
//!
//! The store keeps every accepted article under its message identifier. No
//! identifier is held twice: posting an article whose identifier is already
//! stored is accepted again and changes nothing. An article is posted to all
//! of its groups or to none, and it leaves the store with its last overview
//! row.

use vstd::prelude::*;
use crate::access::{AccessControl, Operation, permits, Policy};
use crate::coherence::{lemma_expire_preserves, lemma_post_preserves};
use crate::error::{Error, ErrorKind, Fault, fault};
use crate::filters::{lemma_filter_all, lemma_filter_same, lemma_filter_step};
use crate::group::{
    cites, crossposted, expired, GroupIndex, has_group, index_wf, keeps, lapsed, lemma_filter_rows,
    lemma_slot, Listing, listing, MAX_ARTICLE_NUMBER, slot, Snapshot, Summary,
};
use crate::header::{
    absorb_fields, date_header, date_name, Field, first_value, from_header, from_name, Headers,
    lemma_target_groups_distinct, message_id_header, message_id_name, newsgroups_header,
    newsgroups_name, subject_header, subject_name, target_groups, value_or_empty,
};
use crate::ident::{
    absorb, canonical_id, derive_message_id, derived_id, digest_bytes, DIGEST_SEED, is_id_part,
    is_message_id, normalize_message_id,
};
use crate::text::{bytes_eq, contains_bytes, copy_bytes, views};

verus! {

/// An article as plain data.
pub struct Record {
    pub message_id: Seq<u8>,
    pub headers: Seq<Field>,
    pub body: Seq<u8>,
    pub newsgroups: Seq<Seq<u8>>,
    pub posted_at: u64,
    pub poster: Seq<u8>,
}

/// A stored article.
#[derive(Clone, Debug, PartialEq, Eq)]
pub struct Article {
    /// The identifier under which the article is stored.
    pub message_id: Vec<u8>,
    /// The headers as they were posted.
    pub headers: Headers,
    /// The body as it was posted.
    pub body: Vec<u8>,
    /// The groups the article was posted to, each once.
    pub newsgroups: Vec<Vec<u8>>,
    /// When the store accepted the article.
    pub posted_at: u64,
    /// Who posted the article.
    pub poster_identity: Vec<u8>,
}

impl View for Article {
    type V = Record;

    open spec fn view(&self) -> Record {
        Record {
            message_id: self.message_id@,
            headers: self.headers@,
            body: self.body@,
            newsgroups: views(self.newsgroups@),
            posted_at: self.posted_at,
            poster: self.poster_identity@,
        }
    }
}

/// A store as plain data: the domain it derives identifiers on, the time of
/// its latest acceptance, and its articles in the order they were accepted.
pub struct Archive {
    pub domain: Seq<u8>,
    pub clock: u64,
    pub articles: Seq<Record>,
}

/// The article store.
#[derive(Clone, Debug, PartialEq, Eq)]
pub struct ArticleStore {
    domain: Vec<u8>,
    clock: u64,
    articles: Vec<Article>,
}

/// The plain data of a list of articles.
pub open spec fn records_of(articles: Seq<Article>) -> Seq<Record> {
    Seq::new(articles.len(), |i: int| articles[i]@)
}

impl View for ArticleStore {
    type V = Archive;

    closed spec fn view(&self) -> Archive {
        Archive { domain: self.domain@, clock: self.clock, articles: records_of(self.articles@) }
    }
}

/// Whether a store is in order: its domain is a valid domain part, every
/// article is stored under a valid identifier that no other article has, is
/// addressed to at least one group and to none twice, and was accepted no
/// later than the store's latest acceptance.
pub open spec fn archive_wf(a: Archive) -> bool {
    &&& is_id_part(a.domain)
    &&& forall|i: int|
        0 <= i < a.articles.len() ==> {
            &&& is_message_id((#[trigger] a.articles[i]).message_id)
            &&& a.articles[i].newsgroups.len() > 0
            &&& a.articles[i].newsgroups.no_duplicates()
            &&& a.articles[i].posted_at <= a.clock
        }
    &&& forall|i: int, j: int|
        0 <= i < a.articles.len() && 0 <= j < a.articles.len() && i != j ==> (
        #[trigger] a.articles[i]).message_id != (#[trigger] a.articles[j]).message_id
}

/// Whether an article with this identifier is stored.
pub open spec fn stored(a: Archive, message_id: Seq<u8>) -> bool {
    exists|i: int| 0 <= i < a.articles.len() && (#[trigger] a.articles[i]).message_id == message_id
}

/// The stored article with this identifier.
pub open spec fn record(a: Archive, message_id: Seq<u8>) -> Record {
    a.articles[choose|i: int|
        0 <= i < a.articles.len() && (#[trigger] a.articles[i]).message_id == message_id]
}

/// Whether store and index agree: every row refers to a stored article that
/// is addressed to the row's group and was accepted when the row says, no
/// group refers to an article twice, and every stored article has a row in
/// some group.
pub open spec fn coherent(a: Archive, groups: Seq<Listing>) -> bool {
    &&& forall|i: int, k: int|
        0 <= i < groups.len() && 0 <= k < groups[i].rows.len() ==> {
            &&& stored(a, (#[trigger] groups[i].rows[k]).message_id)
            &&& record(a, groups[i].rows[k].message_id).newsgroups.contains(groups[i].name)
            &&& record(a, groups[i].rows[k].message_id).posted_at == groups[i].rows[k].posted_at
        }
    &&& forall|i: int, k: int, l: int|
        0 <= i < groups.len() && 0 <= k < groups[i].rows.len() && 0 <= l < groups[i].rows.len() && k
            != l ==> (#[trigger] groups[i].rows[k]).message_id != (
        #[trigger] groups[i].rows[l]).message_id
    &&& forall|j: int|
        0 <= j < a.articles.len() ==> cites(groups, (#[trigger] a.articles[j]).message_id)
}

/// The digest of what was posted: the poster, the headers, the body.
pub open spec fn content_digest(fields: Seq<Field>, body: Seq<u8>, poster: Seq<u8>) -> u64 {
    absorb(absorb_fields(absorb(DIGEST_SEED, poster), fields), body)
}

/// The snapshot taken of an article for listings: the values of its first
/// `Subject`, `From` and `Date` headers, empty where it has none, and the
/// length of its body.
pub open spec fn summary_of(fields: Seq<Field>, body: Seq<u8>) -> Summary {
    Summary {
        subject: value_or_empty(fields, subject_name()),
        from: value_or_empty(fields, from_name()),
        date: value_or_empty(fields, date_name()),
        size: body.len() as usize,
    }
}

/// The first of `names` for which `p` holds, if there is one.
pub open spec fn first_where(names: Seq<Seq<u8>>, p: spec_fn(Seq<u8>) -> bool) -> Option<Seq<u8>>
    decreases names.len(),
{
    if names.len() == 0 {
        None
    } else if p(names[0]) {
        Some(names[0])
    } else {
        first_where(names.drop_first(), p)
    }
}

/// The groups that the policy does not let the identity post to.
pub open spec fn denied(policy: Policy, identity: Seq<u8>) -> spec_fn(Seq<u8>) -> bool {
    |g: Seq<u8>| !permits(policy, identity, g, Operation::Post)
}

/// The names under which no group exists.
pub open spec fn missing(groups: Seq<Listing>) -> spec_fn(Seq<u8>) -> bool {
    |g: Seq<u8>| !has_group(groups, g)
}

/// The groups that have handed out their last article number.
pub open spec fn full(groups: Seq<Listing>) -> spec_fn(Seq<u8>) -> bool {
    |g: Seq<u8>| listing(groups, g).high >= MAX_ARTICLE_NUMBER
}

/// The groups that the policy lets the identity read.
pub open spec fn readable(policy: Policy, identity: Seq<u8>) -> spec_fn(Seq<u8>) -> bool {
    |g: Seq<u8>| permits(policy, identity, g, Operation::Read)
}

/// The identifier under which a posting is stored: the one its `Message-ID`
/// header gives, in stored form, or else the one derived from its content.
/// A `Message-ID` header that holds no identifier is reported with its value.
pub open spec fn posting_id(
    domain: Seq<u8>,
    fields: Seq<Field>,
    body: Seq<u8>,
    identity: Seq<u8>,
) -> Result<Seq<u8>, Seq<u8>> {
    match first_value(fields, message_id_name()) {
        Some(raw) => match canonical_id(raw) {
            Some(id) => Ok(id),
            None => Err(raw),
        },
        None => Ok(derived_id(content_digest(fields, body, identity), domain)),
    }
}

/// The time a posting is accepted at: the time given, but never earlier
/// than the latest acceptance.
pub open spec fn acceptance_time(clock: u64, now: u64) -> u64 {
    if now > clock {
        now
    } else {
        clock
    }
}

/// Store, index and result after an operation.
pub struct Outcome<T> {
    pub archive: Archive,
    pub groups: Seq<Listing>,
    pub result: Result<T, Fault>,
}

/// The outcome that leaves store and index as they were and reports a
/// fault.
pub open spec fn refused<T>(a: Archive, groups: Seq<Listing>, kind: ErrorKind, context: Seq<u8>) -> Outcome<T> {
    Outcome { archive: a, groups, result: Err(fault(kind, context)) }
}

/// What posting does.
///
/// In this order: headers that name no group are malformed; a `Message-ID`
/// header that holds no identifier is a malformed identifier; the first
/// target group that the identity may not post to denies the whole posting;
/// an identifier that is already stored is accepted again, with no change;
/// the first target group that does not exist, then the first that is out of
/// numbers, fails the whole posting. Only then is the article stored, with
/// one new row in each target group. Every failure leaves store and index
/// as they were.
pub open spec fn post_outcome(
    a: Archive,
    groups: Seq<Listing>,
    policy: Policy,
    fields: Seq<Field>,
    body: Seq<u8>,
    identity: Seq<u8>,
    now: u64,
) -> Outcome<Seq<u8>> {
    let targets = target_groups(fields);
    if targets.len() == 0 {
        refused(a, groups, ErrorKind::MalformedHeaders, newsgroups_name())
    } else {
        match posting_id(a.domain, fields, body, identity) {
            Err(raw) => refused(a, groups, ErrorKind::MalformedIdentifier, raw),
            Ok(id) => match first_where(targets, denied(policy, identity)) {
                Some(g) => refused(a, groups, ErrorKind::AccessDenied, g),
                None => if stored(a, id) {
                    Outcome { archive: a, groups, result: Ok(id) }
                } else {
                    match first_where(targets, missing(groups)) {
                        Some(g) => refused(a, groups, ErrorKind::GroupNotFound, g),
                        None => match first_where(targets, full(groups)) {
                            Some(g) => refused(a, groups, ErrorKind::BackendUnavailable, g),
                            None => {
                                let at = acceptance_time(a.clock, now);
                                let article = Record {
                                    message_id: id,
                                    headers: fields,
                                    body,
                                    newsgroups: targets,
                                    posted_at: at,
                                    poster: identity,
                                };
                                Outcome {
                                    archive: Archive {
                                        clock: at,
                                        articles: a.articles.push(article),
                                        ..a
                                    },
                                    groups: crossposted(
                                        groups,
                                        targets,
                                        id,
                                        summary_of(fields, body),
                                        at,
                                    ),
                                    result: Ok(id),
                                }
                            },
                        },
                    }
                },
            },
        }
    }
}

/// What fetching yields: the stored article with the identifier, if the
/// identity may read at least one of the groups it was posted to. An
/// identifier that is malformed or not stored is not found; a stored article
/// that the identity may read in none of its groups is denied. Either
/// failure carries the identifier as asked for.
pub open spec fn fetch_outcome(
    a: Archive,
    policy: Policy,
    raw_id: Seq<u8>,
    requester: Seq<u8>,
) -> Result<Record, Fault> {
    match canonical_id(raw_id) {
        None => Err(fault(ErrorKind::ArticleNotFound, raw_id)),
        Some(id) => if !stored(a, id) {
            Err(fault(ErrorKind::ArticleNotFound, raw_id))
        } else if first_where(record(a, id).newsgroups, readable(policy, requester)) is None {
            Err(fault(ErrorKind::AccessDenied, raw_id))
        } else {
            Ok(record(a, id))
        },
    }
}

/// The articles that some row of `groups` refers to.
pub open spec fn cited_in(groups: Seq<Listing>) -> spec_fn(Record) -> bool {
    |r: Record| cites(groups, r.message_id)
}

/// What expiring a group does: the rows of the group accepted before the
/// cutoff are removed, and with them every article that no row of any group
/// refers to any more. The result is the number of rows removed. An unknown
/// group is reported and nothing changes.
pub open spec fn expire_outcome(
    a: Archive,
    groups: Seq<Listing>,
    name: Seq<u8>,
    cutoff: u64,
) -> Outcome<usize> {
    if !has_group(groups, name) {
        refused(a, groups, ErrorKind::GroupNotFound, name)
    } else {
        let after = groups.update(slot(groups, name), expired(listing(groups, name), cutoff));
        Outcome {
            archive: Archive { articles: a.articles.filter(cited_in(after)), ..a },
            groups: after,
            result: Ok(listing(groups, name).rows.filter(lapsed(cutoff)).len() as usize),
        }
    }
}

/// The plain content of a result that holds an identifier.
pub open spec fn id_result(r: Result<Vec<u8>, Error>) -> Result<Seq<u8>, Fault> {
    match r {
        Ok(v) => Ok(v@),
        Err(e) => Err(e@),
    }
}

/// The plain content of a result that holds an article.
pub open spec fn article_result(r: Result<&Article, Error>) -> Result<Record, Fault> {
    match r {
        Ok(a) => Ok(a@),
        Err(e) => Err(e@),
    }
}

/// The plain content of a result that holds a count.
pub open spec fn count_result(r: Result<usize, Error>) -> Result<usize, Fault> {
    match r {
        Ok(n) => Ok(n),
        Err(e) => Err(e@),
    }
}

/// What `first_where` yields, told from a position before which `p` holds
/// nowhere.
pub proof fn lemma_first_where(names: Seq<Seq<u8>>, p: spec_fn(Seq<u8>) -> bool, i: int)
    requires
        0 <= i <= names.len(),
        forall|k: int| 0 <= k < i ==> !p(#[trigger] names[k]),
        i < names.len() ==> p(names[i]),
    ensures
        first_where(names, p) == if i < names.len() {
            Some(names[i])
        } else {
            None
        },
    decreases i,
{
    if i > 0 {
        let rest = names.drop_first();
        assert forall|k: int| 0 <= k < i - 1 implies !p(#[trigger] rest[k]) by {
            assert(rest[k] == names[k + 1]);
        }
        lemma_first_where(rest, p, i - 1);
    }
}

/// What `first_where` yields: nothing only if `p` holds of no name, and
/// otherwise a name of which `p` holds and before which it holds of none.
pub proof fn lemma_first_where_found(names: Seq<Seq<u8>>, p: spec_fn(Seq<u8>) -> bool)
    ensures
        match first_where(names, p) {
            None => forall|k: int| 0 <= k < names.len() ==> !p(#[trigger] names[k]),
            Some(g) => exists|i: int|
                0 <= i < names.len() && #[trigger] names[i] == g && p(g) && forall|k: int|
                    0 <= k < i ==> !p(#[trigger] names[k]),
        },
    decreases names.len(),
{
    if names.len() > 0 && !p(names[0]) {
        let rest = names.drop_first();
        lemma_first_where_found(rest, p);
        match first_where(rest, p) {
            None => {
                assert forall|k: int| 0 <= k < names.len() implies !p(#[trigger] names[k]) by {
                    if k > 0 {
                        assert(rest[k - 1] == names[k]);
                    }
                }
            },
            Some(g) => {
                let i = choose|i: int|
                    0 <= i < rest.len() && #[trigger] rest[i] == g && p(g) && forall|k: int|
                        0 <= k < i ==> !p(#[trigger] rest[k]);
                assert(names[i + 1] == g);
                assert forall|k: int| 0 <= k < i + 1 implies !p(#[trigger] names[k]) by {
                    if k > 0 {
                        assert(rest[k - 1] == names[k]);
                    }
                }
            },
        }
    } else if names.len() > 0 {
        assert(names[0] == names[0]);
    }
}

/// The article found at a position is the stored article of its identifier.
pub proof fn lemma_record(a: Archive, i: int)
    requires
        archive_wf(a),
        0 <= i < a.articles.len(),
    ensures
        stored(a, a.articles[i].message_id),
        record(a, a.articles[i].message_id) == a.articles[i],
{
}

/// An article that had a row before an expiry still has one after it,
/// unless one of the rows removed was its own.
pub proof fn lemma_still_cited(a: Archive, groups: Seq<Listing>, name: Seq<u8>, cutoff: u64, j: int)
    requires
        archive_wf(a),
        index_wf(groups),
        coherent(a, groups),
        has_group(groups, name),
        0 <= j < a.articles.len(),
    ensures
        cites(
            groups.update(slot(groups, name), expired(listing(groups, name), cutoff)),
            a.articles[j].message_id,
        ) || exists|x: int|
            0 <= x < listing(groups, name).rows.filter(lapsed(cutoff)).len() && (
            #[trigger] listing(groups, name).rows.filter(lapsed(cutoff))[x]).message_id
                == a.articles[j].message_id,
{
    let s = slot(groups, name);
    let after = groups.update(s, expired(groups[s], cutoff));
    let id = a.articles[j].message_id;
    assert(cites(groups, id));
    let (i, k) = choose|i: int, k: int|
        0 <= i < groups.len() && 0 <= k < groups[i].rows.len() && (
        #[trigger] groups[i].rows[k]).message_id == id;
    let row = groups[i].rows[k];
    if i != s {
        assert(after[i].rows[k].message_id == id);
    } else {
        lemma_filter_rows(groups[s].rows, keeps(cutoff));
        lemma_filter_rows(groups[s].rows, lapsed(cutoff));
        if row.posted_at >= cutoff {
            let kept = groups[s].rows.filter(keeps(cutoff));
            assert(keeps(cutoff)(groups[s].rows[k]));
            assert(kept.contains(row));
            let x = choose|x: int| 0 <= x < kept.len() && kept[x] == row;
            assert(after[s].rows[x].message_id == id);
        } else {
            let lost = groups[s].rows.filter(lapsed(cutoff));
            assert(lapsed(cutoff)(groups[s].rows[k]));
            assert(lost.contains(row));
            let x = choose|x: int| 0 <= x < lost.len() && lost[x] == row;
            assert(lost[x].message_id == id);
        }
    }
}

/// The articles whose identifier is not among `ids`.
pub open spec fn unlisted(ids: Seq<Seq<u8>>) -> spec_fn(Record) -> bool {
    |r: Record| !ids.contains(r.message_id)
}

/// The position of the first target that the identity may not post to.
fn first_denied(acl: &AccessControl, identity: &[u8], targets: &Vec<Vec<u8>>) -> (r: Option<usize>)
    ensures
        match r {
            Some(k) => k < targets@.len() && first_where(
                views(targets@),
                denied(acl@, identity@),
            ) == Some(targets@[k as int]@),
            None => first_where(views(targets@), denied(acl@, identity@)) is None,
        },
{
    let ghost names = views(targets@);
    let ghost p = denied(acl@, identity@);
    let mut k: usize = 0;
    while k < targets.len()
        invariant
            k <= targets.len(),
            names == views(targets@),
            p == denied(acl@, identity@),
            forall|j: int| 0 <= j < k ==> !p(#[trigger] names[j]),
        decreases targets.len() - k,
    {
        if !acl.can_post(identity, targets[k].as_slice()) {
            proof {
                assert(p(names[k as int]));
                lemma_first_where(names, p, k as int);
            }
            return Some(k);
        }
        k += 1;
    }
    proof {
        lemma_first_where(names, p, names.len() as int);
    }
    None
}

/// The positions of the target groups in the index, or the position of the
/// first target that does not exist.
fn locate(index: &GroupIndex, targets: &Vec<Vec<u8>>) -> (r: Result<Vec<usize>, usize>)
    requires
        index.wf(),
    ensures
        match r {
            Ok(slots) => first_where(views(targets@), missing(index@)) is None && placed(
                index@,
                views(targets@),
                slots@,
            ),
            Err(k) => k < targets@.len() && first_where(views(targets@), missing(index@)) == Some(
                targets@[k as int]@,
            ),
        },
{
    let ghost names = views(targets@);
    let ghost p = missing(index@);
    let mut slots: Vec<usize> = Vec::new();
    let mut k: usize = 0;
    while k < targets.len()
        invariant
            k <= targets.len(),
            index.wf(),
            names == views(targets@),
            p == missing(index@),
            slots@.len() == k,
            forall|j: int| 0 <= j < k ==> !p(#[trigger] names[j]),
            forall|j: int|
                0 <= j < k ==> (#[trigger] slots@[j]) < index@.len() && index@[slots@[j] as int].name
                    == names[j],
        decreases targets.len() - k,
    {
        match index.position(targets[k].as_slice()) {
            None => {
                proof {
                    assert(p(names[k as int]));
                    lemma_first_where(names, p, k as int);
                }
                return Err(k);
            },
            Some(i) => {
                proof {
                    lemma_slot(index@, i as int);
                }
                slots.push(i);
            },
        }
        k += 1;
    }
    proof {
        lemma_first_where(names, p, names.len() as int);
    }
    Ok(slots)
}

/// Whether `slots` gives, name by name, the position of each group.
pub open spec fn placed(groups: Seq<Listing>, names: Seq<Seq<u8>>, slots: Seq<usize>) -> bool {
    &&& slots.len() == names.len()
    &&& forall|j: int|
        0 <= j < slots.len() ==> (#[trigger] slots[j]) < groups.len() && groups[slots[j] as int].name
            == names[j]
}

/// The position of the first target group that is out of numbers.
fn first_full(index: &GroupIndex, targets: &Vec<Vec<u8>>, slots: &Vec<usize>) -> (r: Option<usize>)
    requires
        index.wf(),
        placed(index@, views(targets@), slots@),
    ensures
        match r {
            Some(k) => k < targets@.len() && first_where(views(targets@), full(index@)) == Some(
                targets@[k as int]@,
            ),
            None => first_where(views(targets@), full(index@)) is None,
        },
{
    let ghost names = views(targets@);
    let ghost p = full(index@);
    let mut k: usize = 0;
    while k < targets.len()
        invariant
            k <= targets.len(),
            index.wf(),
            names == views(targets@),
            p == full(index@),
            placed(index@, names, slots@),
            forall|j: int| 0 <= j < k ==> !p(#[trigger] names[j]),
        decreases targets.len() - k,
    {
        proof {
            lemma_slot(index@, slots@[k as int] as int);
        }
        if index.group_at(slots[k]).high_water >= MAX_ARTICLE_NUMBER {
            proof {
                assert(p(names[k as int]));
                lemma_first_where(names, p, k as int);
            }
            return Some(k);
        }
        k += 1;
    }
    proof {
        lemma_first_where(names, p, names.len() as int);
    }
    None
}

/// Adds one row for the article to each target group.
fn add_rows(
    index: &mut GroupIndex,
    targets: &Vec<Vec<u8>>,
    slots: &Vec<usize>,
    message_id: &[u8],
    snapshot: &Snapshot,
    at: u64,
)
    requires
        old(index).wf(),
        placed(old(index)@, views(targets@), slots@),
        views(targets@).no_duplicates(),
        first_where(views(targets@), full(old(index)@)) is None,
    ensures
        final(index).wf(),
        final(index)@ == crossposted(old(index)@, views(targets@), message_id@, snapshot@, at),
{
    let ghost before = index@;
    let ghost names = views(targets@);
    let ghost id = message_id@;
    let ghost summary = snapshot@;
    let mut k: usize = 0;
    proof {
        crate::article::lemma_first_where_found(names, full(before));
        assert(names.take(0) =~= Seq::<Seq<u8>>::empty());
        assert(before =~= crossposted(before, names.take(0), id, summary, at));
    }
    while k < targets.len()
        invariant
            k <= targets.len(),
            index.wf(),
            index_wf(before),
            names == views(targets@),
            names.no_duplicates(),
            id == message_id@,
            summary == snapshot@,
            placed(before, names, slots@),
            index@ == crossposted(before, names.take(k as int), id, summary, at),
            forall|j: int| 0 <= j < names.len() ==> !full(before)(#[trigger] names[j]),
        decreases targets.len() - k,
    {
        let i = slots[k];
        proof {
            lemma_slot(before, i as int);
            assert(!full(before)(names[k as int]));
            assert(!names.take(k as int).contains(names[k as int])) by {
                if names.take(k as int).contains(names[k as int]) {
                    let x = choose|x: int|
                        0 <= x < names.take(k as int).len() && names.take(k as int)[x] == names[k as int];
                    assert(names[x] == names[k as int]);
                }
            }
            assert(index@[i as int] == before[i as int]);
        }
        index.allocate_at(i, message_id, snapshot.duplicate(), at);
        proof {
            let upto = names.take(k as int + 1);
            let next = crossposted(before, upto, id, summary, at);
            assert(upto[k as int] == names[k as int]);
            assert forall|j: int| 0 <= j < before.len() implies #[trigger] index@[j] == next[j] by {
                if j == i {
                    assert(upto.contains(before[j].name));
                } else {
                    if upto.contains(before[j].name) {
                        let x = choose|x: int| 0 <= x < upto.len() && upto[x] == before[j].name;
                        assert(x < k);
                        assert(names.take(k as int)[x] == before[j].name);
                    }
                    if names.take(k as int).contains(before[j].name) {
                        let x = choose|x: int|
                            0 <= x < k && names.take(k as int)[x] == before[j].name;
                        assert(upto[x] == before[j].name);
                    }
                }
            }
            assert(index@ =~= next);
        }
        k += 1;
    }
    assert(names.take(names.len() as int) =~= names);
}

/// Those of the identifiers `ids` that no row of the index refers to.
fn unreferenced(index: &GroupIndex, ids: &Vec<Vec<u8>>) -> (r: Vec<Vec<u8>>)
    ensures
        forall|j: int| 0 <= j < r@.len() ==> !cites(index@, #[trigger] views(r@)[j]),
        forall|j: int|
            0 <= j < ids@.len() && !cites(index@, views(ids@)[j]) ==> views(r@).contains(
                #[trigger] views(ids@)[j],
            ),
{
    let mut out: Vec<Vec<u8>> = Vec::new();
    let mut k: usize = 0;
    while k < ids.len()
        invariant
            k <= ids.len(),
            forall|j: int| 0 <= j < out@.len() ==> !cites(index@, #[trigger] views(out@)[j]),
            forall|j: int|
                0 <= j < k && !cites(index@, views(ids@)[j]) ==> views(out@).contains(
                    #[trigger] views(ids@)[j],
                ),
        decreases ids.len() - k,
    {
        if !index.references(ids[k].as_slice()) {
            let ghost prior = out@;
            let copy = copy_bytes(ids[k].as_slice());
            out.push(copy);
            proof {
                assert(views(out@) =~= views(prior).push(copy@));
                assert(views(ids@)[k as int] == copy@);
                assert forall|j: int| 0 <= j < k + 1 && !cites(index@, views(ids@)[j]) implies views(
                    out@,
                ).contains(#[trigger] views(ids@)[j]) by {
                    if j < k {
                        assert(views(prior).contains(views(ids@)[j]));
                        let x = choose|x: int|
                            0 <= x < views(prior).len() && views(prior)[x] == views(ids@)[j];
                        assert(views(out@)[x] == views(ids@)[j]);
                    } else {
                        assert(views(out@)[prior.len() as int] == copy@);
                    }
                }
            }
        }
        k += 1;
    }
    out
}

impl ArticleStore {
    /// Whether the store is in order.
    pub open spec fn wf(&self) -> bool {
        archive_wf(self@)
    }

    /// An empty store that derives identifiers on the given domain.
    ///
    /// The domain must be a non-empty run of identifier bytes; any other is
    /// refused as a configuration error that carries it.
    pub fn new(domain: &[u8]) -> (r: Result<ArticleStore, Error>)
        ensures
            is_id_part(domain@) ==> (r matches Ok(s) && s.wf() && s@ == (Archive {
                domain: domain@,
                clock: 0,
                articles: Seq::empty(),
            })),
            !is_id_part(domain@) ==> (r matches Err(e) && e@ == fault(ErrorKind::Config, domain@)),
    {
        if crate::ident::id_part(domain) {
            let s = ArticleStore { domain: copy_bytes(domain), clock: 0, articles: Vec::new() };
            assert(s@.articles =~= Seq::<Record>::empty());
            Ok(s)
        } else {
            Err(Error::Config(copy_bytes(domain)))
        }
    }

    /// How many articles are stored.
    pub fn len(&self) -> (n: usize)
        ensures
            n == self@.articles.len(),
    {
        self.articles.len()
    }

    /// The time of the latest acceptance.
    pub fn clock(&self) -> (t: u64)
        ensures
            t == self@.clock,
    {
        self.clock
    }

    /// The domain on which identifiers are derived.
    pub fn domain(&self) -> (d: &Vec<u8>)
        ensures
            d@ == self@.domain,
    {
        &self.domain
    }

    /// The article at position `i`, counted from zero in order of
    /// acceptance.
    pub fn article_at(&self, i: usize) -> (a: &Article)
        requires
            i < self@.articles.len(),
        ensures
            a@ == self@.articles[i as int],
    {
        &self.articles[i]
    }

    /// Where the article with this identifier stands, if it is stored.
    pub fn position(&self, message_id: &[u8]) -> (r: Option<usize>)
        ensures
            match r {
                Some(i) => i < self@.articles.len() && self@.articles[i as int].message_id
                    == message_id@,
                None => !stored(self@, message_id@),
            },
    {
        let mut i: usize = 0;
        while i < self.articles.len()
            invariant
                i <= self.articles.len(),
                forall|k: int| 0 <= k < i ==> (#[trigger] self@.articles[k]).message_id != message_id@,
            decreases self.articles.len() - i,
        {
            if bytes_eq(self.articles[i].message_id.as_slice(), message_id) {
                return Some(i);
            }
            i += 1;
        }
        None
    }

    /// Whether an article with this identifier, given in stored form, is
    /// stored.
    pub fn contains(&self, message_id: &[u8]) -> (r: bool)
        ensures
            r == stored(self@, message_id@),
    {
        self.position(message_id).is_some()
    }

    /// The snapshot that listings show of an article with these headers and
    /// this body.
    pub fn snapshot_of(headers: &Headers, body: &[u8]) -> (r: Snapshot)
        ensures
            r@ == summary_of(headers@, body@),
    {
        Snapshot {
            subject: headers.value_of(subject_header().as_slice()),
            from: headers.value_of(from_header().as_slice()),
            date: headers.value_of(date_header().as_slice()),
            size: body.len(),
        }
    }

    /// Accepts an article for all the groups its headers name, or for none.
    ///
    /// The identifier is the one the `Message-ID` header gives, or else one
    /// derived from the poster, the headers and the body. The article is
    /// refused if its headers name no group, if its identifier is malformed,
    /// or if the identity may not post to one of the groups: then nothing is
    /// stored at all. An article whose identifier is already stored is
    /// accepted again: its identifier is returned and nothing changes.
    /// Otherwise every named group must exist and have a number left; then
    /// the article is stored, accepted at `now` or at the time of the latest
    /// acceptance if that is later, and each group gets one row for it under
    /// its next number. On every failure store and index are as before.
    pub fn post(
        &mut self,
        index: &mut GroupIndex,
        acl: &AccessControl,
        headers: &Headers,
        body: &[u8],
        identity: &[u8],
        now: u64,
    ) -> (r: Result<Vec<u8>, Error>)
        requires
            old(self).wf(),
            old(index).wf(),
            coherent(old(self)@, old(index)@),
        ensures
            final(self).wf(),
            final(index).wf(),
            coherent(final(self)@, final(index)@),
            final(self)@ == post_outcome(
                old(self)@,
                old(index)@,
                acl@,
                headers@,
                body@,
                identity@,
                now,
            ).archive,
            final(index)@ == post_outcome(
                old(self)@,
                old(index)@,
                acl@,
                headers@,
                body@,
                identity@,
                now,
            ).groups,
            id_result(r) == post_outcome(
                old(self)@,
                old(index)@,
                acl@,
                headers@,
                body@,
                identity@,
                now,
            ).result,
    {
        proof {
            lemma_post_preserves(self@, index@, acl@, headers@, body@, identity@, now);
            lemma_target_groups_distinct(headers@);
        }
        let targets = headers.target_groups();
        if targets.len() == 0 {
            return Err(Error::MalformedHeaders(newsgroups_header()));
        }
        let id = match headers.get(message_id_header().as_slice()) {
            Some(raw) => match normalize_message_id(raw.as_slice()) {
                Ok(id) => id,
                Err(e) => {
                    return Err(e);
                },
            },
            None => {
                let seed = digest_bytes(DIGEST_SEED, identity);
                let digest = digest_bytes(headers.digest(seed), body);
                derive_message_id(digest, self.domain.as_slice())
            },
        };
        if let Some(k) = first_denied(acl, identity, &targets) {
            return Err(Error::AccessDenied(copy_bytes(targets[k].as_slice())));
        }
        if self.position(id.as_slice()).is_some() {
            return Ok(id);
        }
        let slots = match locate(index, &targets) {
            Ok(slots) => slots,
            Err(k) => {
                return Err(Error::GroupNotFound(copy_bytes(targets[k].as_slice())));
            },
        };
        if let Some(k) = first_full(index, &targets, &slots) {
            return Err(Error::BackendUnavailable(copy_bytes(targets[k].as_slice())));
        }
        let at = if now > self.clock {
            now
        } else {
            self.clock
        };
        let snapshot = Self::snapshot_of(headers, body);
        add_rows(index, &targets, &slots, id.as_slice(), &snapshot, at);
        let article = Article {
            message_id: copy_bytes(id.as_slice()),
            headers: headers.duplicate(),
            body: copy_bytes(body),
            newsgroups: targets,
            posted_at: at,
            poster_identity: copy_bytes(identity),
        };
        let ghost prior = self.articles@;
        self.articles.push(article);
        self.clock = at;
        assert(records_of(self.articles@) =~= records_of(prior).push(article@));
        Ok(id)
    }

    /// Removes from a group the rows accepted before `cutoff`, and from the
    /// store every article that is left without a row in any group. Returns
    /// the number of rows removed.
    ///
    /// A row accepted at `cutoff` or later is never removed, and the rows
    /// that stay keep their numbers. An unknown group is reported and
    /// nothing changes.
    pub fn expire(&mut self, index: &mut GroupIndex, group_name: &[u8], cutoff: u64) -> (r: Result<
        usize,
        Error,
    >)
        requires
            old(self).wf(),
            old(index).wf(),
            coherent(old(self)@, old(index)@),
        ensures
            final(self).wf(),
            final(index).wf(),
            coherent(final(self)@, final(index)@),
            final(self)@ == expire_outcome(old(self)@, old(index)@, group_name@, cutoff).archive,
            final(index)@ == expire_outcome(old(self)@, old(index)@, group_name@, cutoff).groups,
            count_result(r) == expire_outcome(old(self)@, old(index)@, group_name@, cutoff).result,
    {
        proof {
            lemma_expire_preserves(self@, index@, group_name@, cutoff);
        }
        let ghost before = index@;
        let ghost a = self@;
        let gone = match index.expire(group_name, cutoff) {
            Ok(gone) => gone,
            Err(e) => {
                return Err(e);
            },
        };
        let ghost after = index@;
        let ghost lost = listing(before, group_name@).rows.filter(lapsed(cutoff));
        assert(views(gone@).len() == lost.len());
        let orphans = unreferenced(index, &gone);
        proof {
            let p = cited_in(after);
            let q = unlisted(views(orphans@));
            assert forall|j: int| 0 <= j < a.articles.len() implies p(#[trigger] a.articles[j]) == q(
                a.articles[j],
            ) by {
                let id = a.articles[j].message_id;
                lemma_still_cited(a, before, group_name@, cutoff, j);
                if views(orphans@).contains(id) {
                    let x = choose|x: int| 0 <= x < views(orphans@).len() && views(orphans@)[x] == id;
                    assert(!cites(after, views(orphans@)[x]));
                } else if !cites(after, id) {
                    let x = choose|x: int|
                        0 <= x < lost.len() && (#[trigger] lost[x]).message_id == id;
                    assert(views(gone@)[x] == id);
                    assert(views(orphans@).contains(views(gone@)[x]));
                }
            }
            lemma_filter_same(a.articles, p, q);
        }
        self.discard(&orphans);
        Ok(gone.len())
    }

    /// Removes the articles whose identifier is in `ids`.
    fn discard(&mut self, ids: &Vec<Vec<u8>>)
        ensures
            final(self)@ == (Archive {
                articles: old(self)@.articles.filter(unlisted(views(ids@))),
                ..old(self)@
            }),
    {
        let ghost all = self@.articles;
        let ghost p = unlisted(views(ids@));
        if ids.len() == 0 {
            proof {
                assert forall|i: int| 0 <= i < all.len() implies p(#[trigger] all[i]) by {
                    assert(views(ids@).len() == 0);
                }
                lemma_filter_all(all, p);
            }
            return ;
        }
        let mut src: Vec<Article> = Vec::new();
        core::mem::swap(&mut self.articles, &mut src);
        let mut kept: Vec<Article> = Vec::new();
        let mut k: usize = 0;
        proof {
            reveal(Seq::filter);
            assert(all.take(0) =~= Seq::<Record>::empty());
            assert(records_of(kept@) =~= Seq::<Record>::empty());
        }
        while k < src.len()
            invariant
                k <= src.len(),
                src@.len() == all.len(),
                p == unlisted(views(ids@)),
                forall|j: int| k <= j < src@.len() ==> (#[trigger] src@[j])@ == all[j],
                records_of(kept@) == all.take(k as int).filter(p),
            decreases src.len() - k,
        {
            let mut article = Article {
                message_id: Vec::new(),
                headers: Headers::new(),
                body: Vec::new(),
                newsgroups: Vec::new(),
                posted_at: 0,
                poster_identity: Vec::new(),
            };
            src.set_and_swap(k, &mut article);
            proof {
                lemma_filter_step(all, p, k as int);
            }
            if !contains_bytes(ids, article.message_id.as_slice()) {
                assert(records_of(kept@.push(article)) =~= records_of(kept@).push(article@));
                kept.push(article);
            }
            k += 1;
        }
        assert(all.take(all.len() as int) =~= all);
        self.articles = kept;
    }

    /// The article with the given identifier, for an identity that may read
    /// at least one of its groups.
    ///
    /// The identifier may be given with or without angle brackets. An
    /// article that is not stored is reported as not found, and so is a
    /// malformed identifier; an article that is stored but that the identity
    /// may read in none of its groups is reported as denied. The two are
    /// told apart on purpose: a denial reveals that the article exists.
    pub fn fetch(&self, acl: &AccessControl, message_id: &[u8], requester: &[u8]) -> (r: Result<
        &Article,
        Error,
    >)
        requires
            self.wf(),
        ensures
            article_result(r) == fetch_outcome(self@, acl@, message_id@, requester@),
    {
        let id = match crate::ident::normalize_message_id(message_id) {
            Ok(id) => id,
            Err(_) => {
                return Err(Error::ArticleNotFound(copy_bytes(message_id)));
            },
        };
        match self.position(id.as_slice()) {
            None => Err(Error::ArticleNotFound(copy_bytes(message_id))),
            Some(i) => {
                proof {
                    lemma_record(self@, i as int);
                }
                let article = &self.articles[i];
                let ghost names = views(article.newsgroups@);
                let ghost p = readable(acl@, requester@);
                let mut k: usize = 0;
                while k < article.newsgroups.len()
                    invariant
                        k <= article.newsgroups.len(),
                        names == views(article.newsgroups@),
                        p == readable(acl@, requester@),
                        canonical_id(message_id@) == Some(id@),
                        stored(self@, id@),
                        article@ == record(self@, id@),
                        forall|j: int| 0 <= j < k ==> !p(#[trigger] names[j]),
                    decreases article.newsgroups.len() - k,
                {
                    if acl.can_read(requester, article.newsgroups[k].as_slice()) {
                        proof {
                            assert(p(names[k as int]));
                            lemma_first_where(names, p, k as int);
                        }
                        return Ok(article);
                    }
                    k += 1;
                }
                proof {
                    lemma_first_where(names, p, names.len() as int);
                }
                Err(Error::AccessDenied(copy_bytes(message_id)))
            },
        }
    }
}

} // verus!
