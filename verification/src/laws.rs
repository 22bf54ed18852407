//! What holds of the service whatever it is asked to do.
//!
//! Each law is stated over the plain-data description of the operations
//! that their contracts use, and holds of every state that is in order.

use vstd::prelude::*;
use crate::access::{Operation, permits};
use crate::article::{
    acceptance_time, denied, full, lemma_first_where_found, missing, posting_id, Record, stored,
    summary_of,
};
use crate::coherence::{lemma_expire_preserves, lemma_post_preserves, lemma_record_of_member};
use crate::error::{ErrorKind, Fault};
use crate::filters::lemma_filter_none;
use crate::group::{
    allocated, expired, has_group, keeps, lemma_filter_rows, lemma_slot, lemma_window_all, listing,
    Row, slot, window,
};
use crate::header::{Field, target_groups};
use crate::service::{fetch_result, lemma_flags_kept, post_result, posted, swept, World, world_wf};

verus! {

/// The rows that refer to the article with this identifier.
pub open spec fn refers_to(message_id: Seq<u8>) -> spec_fn(Row) -> bool {
    |r: Row| r.message_id == message_id
}

/// The rows that a listing of the whole group shows for an article.
pub open spec fn rows_for(w: World, group: Seq<u8>, message_id: Seq<u8>) -> Seq<Row> {
    window(listing(w.groups, group), 0, u64::MAX).filter(refers_to(message_id))
}

/// Whether a posting stores a new article: it succeeds, and its identifier
/// was not stored before.
pub open spec fn stores_new(
    w: World,
    fields: Seq<Field>,
    body: Seq<u8>,
    identity: Seq<u8>,
    now: u64,
) -> bool {
    post_result(w, fields, body, identity, now) matches Ok(id) && !stored(w.archive, id)
}

/// One request that changes the state.
pub enum Step {
    Post { fields: Seq<Field>, body: Seq<u8>, identity: Seq<u8>, now: u64 },
    Expire { name: Seq<u8>, cutoff: u64 },
}

/// The state after a request.
pub open spec fn step(w: World, s: Step) -> World {
    match s {
        Step::Post { fields, body, identity, now } => posted(w, fields, body, identity, now),
        Step::Expire { name, cutoff } => swept(w, name, cutoff),
    }
}

/// The state after a sequence of requests, served one after the other.
pub open spec fn served(w: World, steps: Seq<Step>) -> World
    decreases steps.len(),
{
    if steps.len() == 0 {
        w
    } else {
        served(step(w, steps[0]), steps.drop_first())
    }
}

/// The article number that a request hands out in a group, if it hands one
/// out there: a posting does when it stores a new article addressed to the
/// group.
pub open spec fn number_given(w: World, s: Step, group: Seq<u8>) -> Option<u64> {
    match s {
        Step::Post { fields, body, identity, now } => if stores_new(w, fields, body, identity, now)
            && target_groups(fields).contains(group) {
            Some((listing(w.groups, group).high + 1) as u64)
        } else {
            None
        },
        Step::Expire { .. } => None,
    }
}

/// The article numbers that a sequence of requests hands out in a group,
/// in the order of the requests.
pub open spec fn numbers_given(w: World, steps: Seq<Step>, group: Seq<u8>) -> Seq<u64>
    decreases steps.len(),
{
    if steps.len() == 0 {
        Seq::empty()
    } else {
        let rest = numbers_given(step(w, steps[0]), steps.drop_first(), group);
        match number_given(w, steps[0], group) {
            Some(n) => seq![n] + rest,
            None => rest,
        }
    }
}

/// Posting leaves the list of groups, their names and their posting flags
/// as they were.
pub proof fn lemma_post_keeps_groups(
    w: World,
    fields: Seq<Field>,
    body: Seq<u8>,
    identity: Seq<u8>,
    now: u64,
)
    ensures
        posted(w, fields, body, identity, now).groups.len() == w.groups.len(),
        forall|i: int|
            0 <= i < w.groups.len() ==> (#[trigger] posted(
                w,
                fields,
                body,
                identity,
                now,
            ).groups[i]).name == w.groups[i].name && posted(
                w,
                fields,
                body,
                identity,
                now,
            ).groups[i].posting_allowed == w.groups[i].posting_allowed,
{
}

/// What a posting that stores a new article does, spelled out: every group
/// it is addressed to exists and has a number left, the article is added at
/// the end of the store, and each of those groups gets its row.
pub proof fn lemma_stores_new(
    w: World,
    fields: Seq<Field>,
    body: Seq<u8>,
    identity: Seq<u8>,
    now: u64,
)
    requires
        stores_new(w, fields, body, identity, now),
    ensures
        target_groups(fields).len() > 0,
        posting_id(w.archive.domain, fields, body, identity) == Ok::<Seq<u8>, Seq<u8>>(
            post_result(w, fields, body, identity, now)->Ok_0,
        ),
        forall|k: int|
            0 <= k < target_groups(fields).len() ==> has_group(
                w.groups,
                #[trigger] target_groups(fields)[k],
            ) && listing(w.groups, target_groups(fields)[k]).high < crate::group::MAX_ARTICLE_NUMBER,
        posted(w, fields, body, identity, now).archive.articles == w.archive.articles.push(
            Record {
                message_id: post_result(w, fields, body, identity, now)->Ok_0,
                headers: fields,
                body,
                newsgroups: target_groups(fields),
                posted_at: acceptance_time(w.archive.clock, now),
                poster: identity,
            },
        ),
        posted(w, fields, body, identity, now).archive.clock == acceptance_time(
            w.archive.clock,
            now,
        ),
        posted(w, fields, body, identity, now).archive.domain == w.archive.domain,
        posted(w, fields, body, identity, now).groups == crate::group::crossposted(
            w.groups,
            target_groups(fields),
            post_result(w, fields, body, identity, now)->Ok_0,
            summary_of(fields, body),
            acceptance_time(w.archive.clock, now),
        ),
{
    let targets = target_groups(fields);
    lemma_first_where_found(targets, missing(w.groups));
    lemma_first_where_found(targets, full(w.groups));
    assert forall|k: int| 0 <= k < targets.len() implies has_group(w.groups, #[trigger] targets[k])
        && listing(w.groups, targets[k]).high < crate::group::MAX_ARTICLE_NUMBER by {
        assert(!missing(w.groups)(targets[k]));
        assert(!full(w.groups)(targets[k]));
    }
}

/// A posting that fails changes nothing.
pub proof fn lemma_failed_posting(
    w: World,
    fields: Seq<Field>,
    body: Seq<u8>,
    identity: Seq<u8>,
    now: u64,
)
    requires
        post_result(w, fields, body, identity, now) is Err,
    ensures
        posted(w, fields, body, identity, now) == w,
{
}

/// A state that is in order is still in order after a request.
pub proof fn law_order_is_kept(w: World, s: Step)
    requires
        world_wf(w),
    ensures
        world_wf(step(w, s)),
{
    match s {
        Step::Post { fields, body, identity, now } => {
            lemma_post_preserves(w.archive, w.groups, w.policy, fields, body, identity, now);
            lemma_post_keeps_groups(w, fields, body, identity, now);
            lemma_flags_kept(w.groups, step(w, s).groups, w.policy);
        },
        Step::Expire { name, cutoff } => {
            lemma_expire_preserves(w.archive, w.groups, name, cutoff);
            lemma_flags_kept(w.groups, step(w, s).groups, w.policy);
        },
    }
}

/// Order is kept throughout: whatever requests are served, one after the
/// other, the state they lead to is in order.
pub proof fn law_order_is_kept_throughout(w: World, steps: Seq<Step>)
    requires
        world_wf(w),
    ensures
        world_wf(served(w, steps)),
    decreases steps.len(),
{
    if steps.len() > 0 {
        law_order_is_kept(w, steps[0]);
        law_order_is_kept_throughout(step(w, steps[0]), steps.drop_first());
    }
}

/// No row refers to an article that is not stored: a listing of any group
/// shows no row for it.
pub proof fn law_unstored_has_no_rows(w: World, group: Seq<u8>, message_id: Seq<u8>)
    requires
        world_wf(w),
        has_group(w.groups, group),
        !stored(w.archive, message_id),
    ensures
        rows_for(w, group, message_id).len() == 0,
{
    let g = listing(w.groups, group);
    let s = slot(w.groups, group);
    lemma_window_all(g);
    assert forall|k: int| 0 <= k < g.rows.len() implies !refers_to(message_id)(
        #[trigger] g.rows[k],
    ) by {
        assert(stored(w.archive, w.groups[s].rows[k].message_id));
    }
    lemma_filter_none(g.rows, refers_to(message_id));
}

/// The articles stored under this identifier.
pub open spec fn with_id(message_id: Seq<u8>) -> spec_fn(Record) -> bool {
    |r: Record| r.message_id == message_id
}

/// One article, one set of rows. Under one identifier the store holds at
/// most one article, exactly one if the identifier is stored, and a listing
/// of a group shows at most one row for it.
pub proof fn law_one_article_one_row_per_group(w: World, group: Seq<u8>, message_id: Seq<u8>)
    requires
        world_wf(w),
    ensures
        w.archive.articles.filter(with_id(message_id)).len() == if stored(w.archive, message_id) {
            1nat
        } else {
            0nat
        },
        has_group(w.groups, group) ==> rows_for(w, group, message_id).len() <= 1,
{
    let p = with_id(message_id);
    let f = w.archive.articles.filter(p);
    crate::coherence::lemma_filter_articles(w.archive.articles, p);
    if f.len() >= 2 {
        assert(p(f[0]) && p(f[1]));
        assert(f[0].message_id != f[1].message_id);
    }
    if stored(w.archive, message_id) {
        let x = choose|x: int|
            0 <= x < w.archive.articles.len() && (#[trigger] w.archive.articles[x]).message_id
                == message_id;
        assert(p(w.archive.articles[x]));
        assert(f.contains(w.archive.articles[x]));
    } else if f.len() >= 1 {
        assert(p(f[0]));
        assert(w.archive.articles.contains(f[0]));
        let x = choose|x: int| 0 <= x < w.archive.articles.len() && w.archive.articles[x] == f[0];
        assert(w.archive.articles[x].message_id == message_id);
    }
    if has_group(w.groups, group) {
        let s = slot(w.groups, group);
        let rows = w.groups[s].rows;
        let q = refers_to(message_id);
        lemma_window_all(w.groups[s]);
        lemma_filter_rows(rows, q);
        let h = rows.filter(q);
        if h.len() >= 2 {
            assert(q(h[0]) && q(h[1]));
            assert(h[0].number < h[1].number);
            assert(rows.contains(h[0]));
            assert(rows.contains(h[1]));
            let a = choose|a: int| 0 <= a < rows.len() && rows[a] == h[0];
            let b = choose|b: int| 0 <= b < rows.len() && rows[b] == h[1];
            assert(w.groups[s].rows[a].message_id != w.groups[s].rows[b].message_id);
        }
    }
}

/// Posting twice is posting once: a posting that was accepted is accepted
/// again under the same identifier, whenever it comes, and the second
/// acceptance changes nothing, so that there is still one article and one
/// set of rows for it.
pub proof fn law_post_is_idempotent(
    w: World,
    fields: Seq<Field>,
    body: Seq<u8>,
    identity: Seq<u8>,
    now: u64,
    later: u64,
)
    requires
        world_wf(w),
        post_result(w, fields, body, identity, now) is Ok,
    ensures
        post_result(posted(w, fields, body, identity, now), fields, body, identity, later)
            == post_result(w, fields, body, identity, now),
        posted(posted(w, fields, body, identity, now), fields, body, identity, later) == posted(
            w,
            fields,
            body,
            identity,
            now,
        ),
{
    let v = posted(w, fields, body, identity, now);
    let id = post_result(w, fields, body, identity, now)->Ok_0;
    assert(posting_id(v.archive.domain, fields, body, identity) == Ok::<Seq<u8>, Seq<u8>>(id));
    if !stored(w.archive, id) {
        let n = w.archive.articles.len() as int;
        assert(v.archive.articles[n].message_id == id);
    }
    assert(stored(v.archive, id));
}

/// A crosspost is all or nothing. After a posting that stores a new
/// article, a listing of each group it is addressed to shows exactly one
/// row for it, and every other group is as before. After a posting that
/// fails, the state is as before, so that no listing shows a row for it.
pub proof fn law_crosspost_is_atomic(
    w: World,
    fields: Seq<Field>,
    body: Seq<u8>,
    identity: Seq<u8>,
    now: u64,
    group: Seq<u8>,
)
    requires
        world_wf(w),
    ensures
        post_result(w, fields, body, identity, now) is Err ==> posted(
            w,
            fields,
            body,
            identity,
            now,
        ) == w,
        stores_new(w, fields, body, identity, now) && target_groups(fields).contains(group)
            ==> has_group(w.groups, group) && has_group(
            posted(w, fields, body, identity, now).groups,
            group,
        ) && rows_for(
            posted(w, fields, body, identity, now),
            group,
            post_result(w, fields, body, identity, now)->Ok_0,
        ).len() == 1,
        stores_new(w, fields, body, identity, now) && !target_groups(fields).contains(group)
            && has_group(w.groups, group) ==> has_group(
            posted(w, fields, body, identity, now).groups,
            group,
        ) && listing(posted(w, fields, body, identity, now).groups, group) == listing(
            w.groups,
            group,
        ),
{
    if post_result(w, fields, body, identity, now) is Err {
        lemma_failed_posting(w, fields, body, identity, now);
    }
    if stores_new(w, fields, body, identity, now) {
        let targets = target_groups(fields);
        if targets.contains(group) {
            lemma_stores_new(w, fields, body, identity, now);
            let k = choose|k: int| 0 <= k < targets.len() && targets[k] == group;
            assert(has_group(w.groups, targets[k]));
        }
        if has_group(w.groups, group) {
            lemma_new_rows(w, fields, body, identity, now, group);
        }
    }
}

/// What a posting that stores a new article does to one group: a group it
/// is addressed to then shows exactly one row for the article, and any
/// other group is as before.
pub proof fn lemma_new_rows(
    w: World,
    fields: Seq<Field>,
    body: Seq<u8>,
    identity: Seq<u8>,
    now: u64,
    g: Seq<u8>,
)
    requires
        world_wf(w),
        stores_new(w, fields, body, identity, now),
        has_group(w.groups, g),
    ensures
        has_group(posted(w, fields, body, identity, now).groups, g),
        target_groups(fields).contains(g) ==> rows_for(
            posted(w, fields, body, identity, now),
            g,
            post_result(w, fields, body, identity, now)->Ok_0,
        ).len() == 1 && listing(posted(w, fields, body, identity, now).groups, g) == allocated(
            listing(w.groups, g),
            post_result(w, fields, body, identity, now)->Ok_0,
            summary_of(fields, body),
            acceptance_time(w.archive.clock, now),
        ),
        !target_groups(fields).contains(g) ==> listing(
            posted(w, fields, body, identity, now).groups,
            g,
        ) == listing(w.groups, g),
{
    let v = posted(w, fields, body, identity, now);
    let id = post_result(w, fields, body, identity, now)->Ok_0;
    let targets = target_groups(fields);
    lemma_stores_new(w, fields, body, identity, now);
    law_order_is_kept(w, Step::Post { fields, body, identity, now });
    let s = slot(w.groups, g);
    assert(v.groups[s].name == g);
    lemma_slot(w.groups, s);
    lemma_slot(v.groups, s);
    if targets.contains(g) {
        let before = w.groups[s].rows;
        let after = v.groups[s].rows;
        lemma_window_all(v.groups[s]);
        assert forall|k: int| 0 <= k < before.len() implies !refers_to(id)(#[trigger] before[k]) by {
            assert(stored(w.archive, w.groups[s].rows[k].message_id));
        }
        lemma_filter_none(before, refers_to(id));
        reveal(Seq::filter);
        assert(after.drop_last() =~= before);
        assert(refers_to(id)(after.last()));
    }
}

/// What a request does to one group: the group stays, its high-water mark
/// does not drop, and if the request hands out a number there, that number
/// is the one after the old mark and is the new mark.
pub proof fn lemma_step_marks(w: World, s: Step, group: Seq<u8>)
    requires
        world_wf(w),
    ensures
        world_wf(step(w, s)),
        has_group(step(w, s).groups, group) == has_group(w.groups, group),
        has_group(w.groups, group) ==> listing(step(w, s).groups, group).high >= listing(
            w.groups,
            group,
        ).high,
        number_given(w, s, group) matches Some(n) ==> has_group(w.groups, group) && n == listing(
            w.groups,
            group,
        ).high + 1 && listing(step(w, s).groups, group).high == n,
{
    law_order_is_kept(w, s);
    let v = step(w, s);
    assert(v.groups.len() == w.groups.len());
    assert forall|i: int| 0 <= i < w.groups.len() implies (#[trigger] v.groups[i]).name
        == w.groups[i].name by {}
    if has_group(w.groups, group) {
        let i = slot(w.groups, group);
        assert(v.groups[i].name == group);
        lemma_slot(w.groups, i);
        lemma_slot(v.groups, i);
    }
    if has_group(v.groups, group) {
        let i = slot(v.groups, group);
        assert(w.groups[i].name == group);
    }
    match s {
        Step::Post { fields, body, identity, now } => {
            if stores_new(w, fields, body, identity, now) {
                lemma_stores_new(w, fields, body, identity, now);
                if target_groups(fields).contains(group) {
                    let k = choose|k: int|
                        0 <= k < target_groups(fields).len() && target_groups(fields)[k] == group;
                    assert(has_group(w.groups, target_groups(fields)[k]));
                }
                if has_group(w.groups, group) {
                    lemma_new_rows(w, fields, body, identity, now, group);
                }
            } else if post_result(w, fields, body, identity, now) is Err {
                lemma_failed_posting(w, fields, body, identity, now);
            }
        },
        Step::Expire { name, cutoff } => {
            if has_group(w.groups, name) && has_group(w.groups, group) {
                lemma_slot(w.groups, slot(w.groups, name));
            }
        },
    }
}

/// Every number that a sequence of requests hands out in a group lies above
/// the group's high-water mark at the start, and each lies above the one
/// handed out before it.
pub proof fn lemma_numbers_given(w: World, steps: Seq<Step>, group: Seq<u8>)
    requires
        world_wf(w),
    ensures
        forall|i: int|
            0 <= i < numbers_given(w, steps, group).len() ==> has_group(w.groups, group) && (
            #[trigger] numbers_given(w, steps, group)[i]) > listing(w.groups, group).high,
        forall|i: int, j: int|
            0 <= i < j < numbers_given(w, steps, group).len() ==> (#[trigger] numbers_given(
                w,
                steps,
                group,
            )[i]) < (#[trigger] numbers_given(w, steps, group)[j]),
    decreases steps.len(),
{
    if steps.len() > 0 {
        let v = step(w, steps[0]);
        let rest = numbers_given(v, steps.drop_first(), group);
        lemma_step_marks(w, steps[0], group);
        lemma_numbers_given(v, steps.drop_first(), group);
        let all = numbers_given(w, steps, group);
        if rest.len() > 0 {
            assert(rest[0] > listing(v.groups, group).high);
            assert(has_group(w.groups, group));
        }
        match number_given(w, steps[0], group) {
            Some(n) => {
                assert(all =~= seq![n] + rest);
                assert(all[0] == n);
                assert forall|i: int| 0 <= i < all.len() implies has_group(w.groups, group) && (
                #[trigger] all[i]) > listing(w.groups, group).high by {
                    if i > 0 {
                        assert(all[i] == rest[i - 1]);
                    }
                }
                assert forall|i: int, j: int| 0 <= i < j < all.len() implies (#[trigger] all[i]) < (
                #[trigger] all[j]) by {
                    assert(all[j] == rest[j - 1]);
                    if i > 0 {
                        assert(all[i] == rest[i - 1]);
                    }
                }
            },
            None => {
                assert(all == rest);
                assert forall|i: int| 0 <= i < all.len() implies has_group(w.groups, group) && (
                #[trigger] all[i]) > listing(w.groups, group).high by {
                    assert(rest[i] > listing(v.groups, group).high);
                }
            },
        }
    }
}

/// Numbering is monotonic. Whatever postings and expiries are served, one
/// after the other, the article numbers handed out in a group are strictly
/// increasing in the order of the postings: no two are equal, and none is
/// handed out again after its row has expired.
pub proof fn law_numbers_strictly_increase(w: World, steps: Seq<Step>, group: Seq<u8>)
    requires
        world_wf(w),
    ensures
        forall|i: int, j: int|
            0 <= i < j < numbers_given(w, steps, group).len() ==> (#[trigger] numbers_given(
                w,
                steps,
                group,
            )[i]) < (#[trigger] numbers_given(w, steps, group)[j]),
{
    lemma_numbers_given(w, steps, group);
}

/// The number a posting hands out in a group is the number of the row that
/// the group then ends with, and that row is the article's.
pub proof fn law_number_given_is_row_number(
    w: World,
    fields: Seq<Field>,
    body: Seq<u8>,
    identity: Seq<u8>,
    now: u64,
    group: Seq<u8>,
)
    requires
        world_wf(w),
        stores_new(w, fields, body, identity, now),
        target_groups(fields).contains(group),
    ensures
        has_group(w.groups, group),
        listing(posted(w, fields, body, identity, now).groups, group).rows == listing(
            w.groups,
            group,
        ).rows.push(
            Row {
                group,
                number: (listing(w.groups, group).high + 1) as u64,
                message_id: post_result(w, fields, body, identity, now)->Ok_0,
                summary: summary_of(fields, body),
                posted_at: acceptance_time(w.archive.clock, now),
            },
        ),
        forall|k: int|
            0 <= k < listing(w.groups, group).rows.len() ==> (#[trigger] listing(
                w.groups,
                group,
            ).rows[k]).number <= listing(w.groups, group).high,
{
    lemma_stores_new(w, fields, body, identity, now);
    let targets = target_groups(fields);
    let k = choose|k: int| 0 <= k < targets.len() && targets[k] == group;
    assert(has_group(w.groups, targets[k]));
    lemma_new_rows(w, fields, body, identity, now, group);
    lemma_slot(w.groups, slot(w.groups, group));
}

/// Expiry renumbers nothing. After an expiry the group holds exactly the
/// rows that were accepted at the cutoff or later, each as it was, number
/// and all, and in the same order; its high-water mark is as before; and
/// every other group is as before.
pub proof fn law_expiry_keeps_numbers(w: World, name: Seq<u8>, cutoff: u64, group: Seq<u8>)
    requires
        world_wf(w),
        has_group(w.groups, name),
        has_group(w.groups, group),
    ensures
        has_group(swept(w, name, cutoff).groups, group),
        listing(swept(w, name, cutoff).groups, group).high == listing(w.groups, group).high,
        group == name ==> listing(swept(w, name, cutoff).groups, group).rows == listing(
            w.groups,
            group,
        ).rows.filter(keeps(cutoff)),
        group != name ==> listing(swept(w, name, cutoff).groups, group) == listing(w.groups, group),
        forall|k: int|
            0 <= k < listing(swept(w, name, cutoff).groups, group).rows.len() ==> listing(
                w.groups,
                group,
            ).rows.contains(#[trigger] listing(swept(w, name, cutoff).groups, group).rows[k]),
        forall|k: int|
            0 <= k < listing(w.groups, group).rows.len() && (group != name || listing(
                w.groups,
                group,
            ).rows[k].posted_at >= cutoff) ==> listing(
                swept(w, name, cutoff).groups,
                group,
            ).rows.contains(#[trigger] listing(w.groups, group).rows[k]),
{
    let v = swept(w, name, cutoff);
    law_order_is_kept(w, Step::Expire { name, cutoff });
    let s = slot(w.groups, group);
    let t = slot(w.groups, name);
    lemma_slot(w.groups, s);
    lemma_slot(w.groups, t);
    assert(v.groups[s].name == group);
    lemma_slot(v.groups, s);
    lemma_filter_rows(w.groups[t].rows, keeps(cutoff));
    if group != name {
        assert(s != t);
        assert forall|k: int| 0 <= k < w.groups[s].rows.len() implies v.groups[s].rows.contains(
            #[trigger] w.groups[s].rows[k],
        ) by {
            assert(v.groups[s].rows[k] == w.groups[s].rows[k]);
        }
        assert forall|k: int| 0 <= k < v.groups[s].rows.len() implies w.groups[s].rows.contains(
            #[trigger] v.groups[s].rows[k],
        ) by {
            assert(v.groups[s].rows[k] == w.groups[s].rows[k]);
        }
    } else {
        assert(s == t);
        assert forall|k: int|
            0 <= k < w.groups[s].rows.len() && w.groups[s].rows[k].posted_at
                >= cutoff implies v.groups[s].rows.contains(#[trigger] w.groups[s].rows[k]) by {
            assert(keeps(cutoff)(w.groups[s].rows[k]));
        }
    }
}

/// Access is enforced on every target. If the identity may not post to one
/// of the groups that a posting with a well-formed identifier is addressed
/// to, the posting is denied, the denial names a group that the identity
/// may not post to, and no article and no row is created: the state is as
/// before.
pub proof fn law_denied_posting_changes_nothing(
    w: World,
    fields: Seq<Field>,
    body: Seq<u8>,
    identity: Seq<u8>,
    now: u64,
    group: Seq<u8>,
)
    requires
        target_groups(fields).contains(group),
        !permits(w.policy, identity, group, Operation::Post),
        posting_id(w.archive.domain, fields, body, identity) is Ok,
    ensures
        post_result(w, fields, body, identity, now) matches Err(f) && f.kind
            == ErrorKind::AccessDenied && target_groups(fields).contains(f.context) && !permits(
            w.policy,
            identity,
            f.context,
            Operation::Post,
        ),
        posted(w, fields, body, identity, now) == w,
{
    let targets = target_groups(fields);
    lemma_first_where_found(targets, denied(w.policy, identity));
    let k = choose|k: int| 0 <= k < targets.len() && targets[k] == group;
    assert(denied(w.policy, identity)(targets[k]));
}

/// What was posted can be fetched. After a posting that stores a new
/// article, an identity that may read one of the groups it is addressed to
/// fetches, under the identifier that the posting returned, the headers and
/// the body as they were posted.
pub proof fn law_posted_article_is_fetched(
    w: World,
    fields: Seq<Field>,
    body: Seq<u8>,
    identity: Seq<u8>,
    now: u64,
    reader: Seq<u8>,
    group: Seq<u8>,
)
    requires
        world_wf(w),
        stores_new(w, fields, body, identity, now),
        target_groups(fields).contains(group),
        permits(w.policy, reader, group, Operation::Read),
    ensures
        fetch_result(
            posted(w, fields, body, identity, now),
            post_result(w, fields, body, identity, now)->Ok_0,
            reader,
        ) == Ok::<Record, Fault>(
            Record {
                message_id: post_result(w, fields, body, identity, now)->Ok_0,
                headers: fields,
                body,
                newsgroups: target_groups(fields),
                posted_at: acceptance_time(w.archive.clock, now),
                poster: identity,
            },
        ),
{
    let v = posted(w, fields, body, identity, now);
    let id = post_result(w, fields, body, identity, now)->Ok_0;
    let targets = target_groups(fields);
    law_order_is_kept(w, Step::Post { fields, body, identity, now });
    crate::coherence::lemma_posting_id(w.archive.domain, fields, body, identity);
    crate::ident::lemma_canonical_is_fixed(id);
    let n = w.archive.articles.len() as int;
    let article = v.archive.articles[n];
    assert(v.archive.articles.contains(article));
    lemma_record_of_member(v.archive, article);
    lemma_first_where_found(targets, crate::article::readable(w.policy, reader));
    let k = choose|k: int| 0 <= k < targets.len() && targets[k] == group;
    assert(crate::article::readable(w.policy, reader)(targets[k]));
}

/// Acceptance times never go back: an article that is stored anew was
/// accepted no earlier than any article stored before it.
pub proof fn law_acceptance_times_never_decrease(
    w: World,
    fields: Seq<Field>,
    body: Seq<u8>,
    identity: Seq<u8>,
    now: u64,
)
    requires
        world_wf(w),
        stores_new(w, fields, body, identity, now),
    ensures
        posted(w, fields, body, identity, now).archive.articles == w.archive.articles.push(
            Record {
                message_id: post_result(w, fields, body, identity, now)->Ok_0,
                headers: fields,
                body,
                newsgroups: target_groups(fields),
                posted_at: acceptance_time(w.archive.clock, now),
                poster: identity,
            },
        ),
        forall|j: int|
            0 <= j < w.archive.articles.len() ==> (#[trigger] w.archive.articles[j]).posted_at
                <= acceptance_time(w.archive.clock, now),
{
}

} // verus!
