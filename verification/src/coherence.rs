//! Proofs that posting and expiring keep store and index in order and in
//! agreement with one another.

use vstd::prelude::*;
use crate::access::Policy;
use crate::article::{
    Archive, archive_wf, cited_in, coherent, expire_outcome, full, lemma_first_where_found, missing,
    post_outcome, posting_id, Record, record, stored,
};
use crate::group::{
    cites, crossposted, expired, has_group, index_wf, keeps, lemma_allocated_wf, lemma_expired_wf,
    lemma_filter_rows, lemma_slot, Listing, listing, listing_wf, MAX_ARTICLE_NUMBER, slot, Summary,
};
use crate::header::{
    Field, first_value, lemma_target_groups_distinct, message_id_name, target_groups,
};
use crate::ident::{is_message_id, lemma_canonical_is_message_id, lemma_derived_is_message_id};

verus! {

/// A stored article is the stored article of its identifier.
pub proof fn lemma_record_of_member(a: Archive, r: Record)
    requires
        archive_wf(a),
        a.articles.contains(r),
    ensures
        stored(a, r.message_id),
        record(a, r.message_id) == r,
{
    let i = choose|i: int| 0 <= i < a.articles.len() && a.articles[i] == r;
    assert(a.articles[i].message_id == r.message_id);
}

/// What a filter keeps of articles with distinct identifiers has distinct
/// identifiers, satisfies the filter and comes from those articles.
pub proof fn lemma_filter_articles(articles: Seq<Record>, p: spec_fn(Record) -> bool)
    requires
        forall|i: int, j: int|
            0 <= i < articles.len() && 0 <= j < articles.len() && i != j ==> (
            #[trigger] articles[i]).message_id != (#[trigger] articles[j]).message_id,
    ensures
        forall|i: int, j: int|
            0 <= i < articles.filter(p).len() && 0 <= j < articles.filter(p).len() && i != j ==> (
            #[trigger] articles.filter(p)[i]).message_id != (
            #[trigger] articles.filter(p)[j]).message_id,
        forall|i: int|
            0 <= i < articles.filter(p).len() ==> p(#[trigger] articles.filter(p)[i])
                && articles.contains(articles.filter(p)[i]),
        forall|i: int|
            0 <= i < articles.len() && p(articles[i]) ==> articles.filter(p).contains(
                #[trigger] articles[i],
            ),
    decreases articles.len(),
{
    reveal(Seq::filter);
    if articles.len() > 0 {
        let front = articles.drop_last();
        let last = articles.last();
        lemma_filter_articles(front, p);
        let f = front.filter(p);
        let g = articles.filter(p);
        assert forall|i: int| 0 <= i < g.len() implies p(#[trigger] g[i]) && articles.contains(
            g[i],
        ) by {
            if i < f.len() {
                assert(g[i] == f[i]);
                assert(front.contains(f[i]));
                let k = choose|k: int| 0 <= k < front.len() && front[k] == f[i];
                assert(articles[k] == f[i]);
            } else {
                assert(articles[articles.len() - 1] == last);
            }
        }
        assert forall|i: int, j: int| 0 <= i < g.len() && 0 <= j < g.len() && i != j implies (
        #[trigger] g[i]).message_id != (#[trigger] g[j]).message_id by {
            if i < f.len() && j < f.len() {
                assert(g[i] == f[i] && g[j] == f[j]);
            } else {
                let (x, y) = if i < f.len() {
                    (i, j)
                } else {
                    (j, i)
                };
                assert(g[y] == last);
                assert(g[x] == f[x]);
                assert(front.contains(f[x]));
                let k = choose|k: int| 0 <= k < front.len() && front[k] == f[x];
                assert(articles[k] == f[x]);
                assert(articles[articles.len() - 1] == last);
            }
        }
        assert forall|i: int| 0 <= i < articles.len() && p(articles[i]) implies g.contains(
            #[trigger] articles[i],
        ) by {
            if i < front.len() {
                assert(front[i] == articles[i]);
                assert(f.contains(front[i]));
                let k = choose|k: int| 0 <= k < f.len() && f[k] == front[i];
                assert(g[k] == articles[i]);
            } else {
                assert(g[g.len() - 1] == articles[i]);
            }
        }
    }
}

/// The identifier a posting is stored under is a valid identifier in stored
/// form.
pub proof fn lemma_posting_id(domain: Seq<u8>, fields: Seq<Field>, body: Seq<u8>, identity: Seq<u8>)
    requires
        crate::ident::is_id_part(domain),
    ensures
        posting_id(domain, fields, body, identity) matches Ok(id) ==> is_message_id(id),
{
    match first_value(fields, message_id_name()) {
        Some(raw) => {
            lemma_canonical_is_message_id(raw);
        },
        None => {
            lemma_derived_is_message_id(
                crate::article::content_digest(fields, body, identity),
                domain,
            );
        },
    }
}

/// Storing a new article with a row in each of its groups keeps store and
/// index in order and in agreement.
pub proof fn lemma_commit_preserves(
    a: Archive,
    groups: Seq<Listing>,
    article: Record,
    summary: Summary,
)
    requires
        archive_wf(a),
        index_wf(groups),
        coherent(a, groups),
        is_message_id(article.message_id),
        !stored(a, article.message_id),
        article.newsgroups.len() > 0,
        article.newsgroups.no_duplicates(),
        article.posted_at >= a.clock,
        forall|k: int|
            0 <= k < article.newsgroups.len() ==> has_group(groups, #[trigger] article.newsgroups[k])
                && listing(groups, article.newsgroups[k]).high < MAX_ARTICLE_NUMBER,
    ensures
        archive_wf(
            Archive { clock: article.posted_at, articles: a.articles.push(article), ..a },
        ),
        index_wf(
            crossposted(groups, article.newsgroups, article.message_id, summary, article.posted_at),
        ),
        coherent(
            Archive { clock: article.posted_at, articles: a.articles.push(article), ..a },
            crossposted(groups, article.newsgroups, article.message_id, summary, article.posted_at),
        ),
{
    let id = article.message_id;
    let at = article.posted_at;
    let targets = article.newsgroups;
    let b = Archive { clock: at, articles: a.articles.push(article), ..a };
    let after = crossposted(groups, targets, id, summary, at);
    let n = a.articles.len() as int;

    assert forall|i: int| 0 <= i < after.len() implies listing_wf(#[trigger] after[i]) by {
        assert(listing_wf(groups[i]));
        if targets.contains(groups[i].name) {
            let k = choose|k: int| 0 <= k < targets.len() && targets[k] == groups[i].name;
            lemma_slot(groups, i);
            assert(listing(groups, targets[k]) == groups[i]);
            lemma_allocated_wf(groups[i], id, summary, at);
        }
    }
    assert forall|i: int, j: int|
        0 <= i < after.len() && 0 <= j < after.len() && i != j implies (#[trigger] after[i]).name != (
    #[trigger] after[j]).name by {
        assert(after[i].name == groups[i].name && after[j].name == groups[j].name);
    }
    assert(index_wf(after));

    assert forall|i: int| 0 <= i < b.articles.len() implies {
        &&& is_message_id((#[trigger] b.articles[i]).message_id)
        &&& b.articles[i].newsgroups.len() > 0
        &&& b.articles[i].newsgroups.no_duplicates()
        &&& b.articles[i].posted_at <= b.clock
    } by {
        if i < n {
            assert(b.articles[i] == a.articles[i]);
        }
    }
    assert forall|i: int, j: int|
        0 <= i < b.articles.len() && 0 <= j < b.articles.len() && i != j implies (
    #[trigger] b.articles[i]).message_id != (#[trigger] b.articles[j]).message_id by {
        if i < n {
            assert(b.articles[i] == a.articles[i]);
        }
        if j < n {
            assert(b.articles[j] == a.articles[j]);
        }
    }
    assert(archive_wf(b));

    assert forall|g: Seq<u8>| stored(a, g) implies stored(b, g) && record(b, g) == record(a, g) by {
        let x = choose|x: int| 0 <= x < a.articles.len() && (#[trigger] a.articles[x]).message_id == g;
        assert(b.articles[x] == a.articles[x]);
        assert(b.articles.contains(a.articles[x]));
        lemma_record_of_member(b, a.articles[x]);
        assert(a.articles.contains(a.articles[x]));
        lemma_record_of_member(a, a.articles[x]);
    }
    assert(b.articles[n] == article);
    assert(b.articles.contains(article));
    lemma_record_of_member(b, article);

    assert forall|i: int, k: int| 0 <= i < after.len() && 0 <= k < after[i].rows.len() implies {
        &&& stored(b, (#[trigger] after[i].rows[k]).message_id)
        &&& record(b, after[i].rows[k].message_id).newsgroups.contains(after[i].name)
        &&& record(b, after[i].rows[k].message_id).posted_at == after[i].rows[k].posted_at
    } by {
        if k < groups[i].rows.len() {
            assert(after[i].rows[k] == groups[i].rows[k]);
            assert(stored(a, groups[i].rows[k].message_id));
        } else {
            assert(targets.contains(groups[i].name));
        }
    }
    assert forall|i: int, k: int, l: int|
        0 <= i < after.len() && 0 <= k < after[i].rows.len() && 0 <= l < after[i].rows.len() && k
            != l implies (#[trigger] after[i].rows[k]).message_id != (
    #[trigger] after[i].rows[l]).message_id by {
        let m = groups[i].rows.len();
        if k < m {
            assert(after[i].rows[k] == groups[i].rows[k]);
            assert(stored(a, groups[i].rows[k].message_id));
        }
        if l < m {
            assert(after[i].rows[l] == groups[i].rows[l]);
            assert(stored(a, groups[i].rows[l].message_id));
        }
    }
    assert forall|j: int| 0 <= j < b.articles.len() implies cites(
        after,
        (#[trigger] b.articles[j]).message_id,
    ) by {
        if j < n {
            assert(b.articles[j] == a.articles[j]);
            let g = a.articles[j].message_id;
            assert(cites(groups, g));
            let (i, k) = choose|i: int, k: int|
                0 <= i < groups.len() && 0 <= k < groups[i].rows.len() && (
                #[trigger] groups[i].rows[k]).message_id == g;
            assert(after[i].rows[k] == groups[i].rows[k]);
        } else {
            assert(has_group(groups, targets[0]));
            let i = slot(groups, targets[0]);
            assert(targets.contains(groups[i].name));
            let m = groups[i].rows.len() as int;
            assert(after[i].rows[m].message_id == id);
        }
    }
}

/// Posting keeps store and index in order and in agreement.
pub proof fn lemma_post_preserves(
    a: Archive,
    groups: Seq<Listing>,
    policy: Policy,
    fields: Seq<Field>,
    body: Seq<u8>,
    identity: Seq<u8>,
    now: u64,
)
    requires
        archive_wf(a),
        index_wf(groups),
        coherent(a, groups),
    ensures
        archive_wf(post_outcome(a, groups, policy, fields, body, identity, now).archive),
        index_wf(post_outcome(a, groups, policy, fields, body, identity, now).groups),
        coherent(
            post_outcome(a, groups, policy, fields, body, identity, now).archive,
            post_outcome(a, groups, policy, fields, body, identity, now).groups,
        ),
{
    let o = post_outcome(a, groups, policy, fields, body, identity, now);
    let targets = target_groups(fields);
    if o.archive != a || o.groups != groups {
        let id = posting_id(a.domain, fields, body, identity)->Ok_0;
        lemma_target_groups_distinct(fields);
        lemma_posting_id(a.domain, fields, body, identity);
        lemma_first_where_found(targets, missing(groups));
        lemma_first_where_found(targets, full(groups));
        let at = crate::article::acceptance_time(a.clock, now);
        let article = Record {
            message_id: id,
            headers: fields,
            body,
            newsgroups: targets,
            posted_at: at,
            poster: identity,
        };
        lemma_commit_preserves(a, groups, article, crate::article::summary_of(fields, body));
    }
}

/// Expiring keeps store and index in order and in agreement.
pub proof fn lemma_expire_preserves(a: Archive, groups: Seq<Listing>, name: Seq<u8>, cutoff: u64)
    requires
        archive_wf(a),
        index_wf(groups),
        coherent(a, groups),
    ensures
        archive_wf(expire_outcome(a, groups, name, cutoff).archive),
        index_wf(expire_outcome(a, groups, name, cutoff).groups),
        coherent(
            expire_outcome(a, groups, name, cutoff).archive,
            expire_outcome(a, groups, name, cutoff).groups,
        ),
{
    if has_group(groups, name) {
        let s = slot(groups, name);
        let old_g = groups[s];
        let after = groups.update(s, expired(old_g, cutoff));
        let p = cited_in(after);
        let b = Archive { articles: a.articles.filter(p), ..a };
        lemma_expired_wf(old_g, cutoff);
        lemma_filter_rows(old_g.rows, keeps(cutoff));
        lemma_filter_articles(a.articles, p);

        assert forall|i: int| 0 <= i < after.len() implies listing_wf(#[trigger] after[i]) by {
            assert(listing_wf(groups[i]));
        }
        assert forall|i: int, j: int|
            0 <= i < after.len() && 0 <= j < after.len() && i != j implies (
        #[trigger] after[i]).name != (#[trigger] after[j]).name by {
            assert(after[i].name == groups[i].name && after[j].name == groups[j].name);
        }
        assert(index_wf(after));

        assert forall|i: int| 0 <= i < b.articles.len() implies {
            &&& is_message_id((#[trigger] b.articles[i]).message_id)
            &&& b.articles[i].newsgroups.len() > 0
            &&& b.articles[i].newsgroups.no_duplicates()
            &&& b.articles[i].posted_at <= b.clock
        } by {
            assert(a.articles.contains(b.articles[i]));
            let x = choose|x: int| 0 <= x < a.articles.len() && a.articles[x] == b.articles[i];
            assert(is_message_id(a.articles[x].message_id));
        }
        assert(archive_wf(b));

        // Every row left is a row that was there.
        assert forall|i: int, k: int|
            0 <= i < after.len() && 0 <= k < after[i].rows.len() implies groups[i].rows.contains(
            #[trigger] after[i].rows[k],
        ) by {
            if i != s {
                assert(groups[i].rows[k] == after[i].rows[k]);
            }
        }
        assert forall|i: int, k: int| 0 <= i < after.len() && 0 <= k < after[i].rows.len() implies {
            &&& stored(b, (#[trigger] after[i].rows[k]).message_id)
            &&& record(b, after[i].rows[k].message_id).newsgroups.contains(after[i].name)
            &&& record(b, after[i].rows[k].message_id).posted_at == after[i].rows[k].posted_at
        } by {
            let row = after[i].rows[k];
            assert(groups[i].rows.contains(row));
            let k0 = choose|k0: int| 0 <= k0 < groups[i].rows.len() && groups[i].rows[k0] == row;
            assert(stored(a, groups[i].rows[k0].message_id));
            let x = choose|x: int|
                0 <= x < a.articles.len() && (#[trigger] a.articles[x]).message_id == row.message_id;
            let r = a.articles[x];
            assert(a.articles.contains(r));
            lemma_record_of_member(a, r);
            assert(cites(after, r.message_id));
            assert(p(r));
            assert(b.articles.contains(r));
            lemma_record_of_member(b, r);
        }
        assert forall|i: int, k: int, l: int|
            0 <= i < after.len() && 0 <= k < after[i].rows.len() && 0 <= l < after[i].rows.len() && k
                != l implies (#[trigger] after[i].rows[k]).message_id != (
        #[trigger] after[i].rows[l]).message_id by {
            if i != s {
                assert(groups[i].rows[k] == after[i].rows[k]);
                assert(groups[i].rows[l] == after[i].rows[l]);
            } else {
                let rk = after[i].rows[k];
                let rl = after[i].rows[l];
                assert(rk.number != rl.number) by {
                    if k < l {
                        assert(after[i].rows[k].number < after[i].rows[l].number);
                    } else {
                        assert(after[i].rows[l].number < after[i].rows[k].number);
                    }
                }
                assert(old_g.rows.contains(rk));
                assert(old_g.rows.contains(rl));
                let k0 = choose|k0: int| 0 <= k0 < old_g.rows.len() && old_g.rows[k0] == rk;
                let l0 = choose|l0: int| 0 <= l0 < old_g.rows.len() && old_g.rows[l0] == rl;
                assert(groups[s].rows[k0].message_id != groups[s].rows[l0].message_id);
            }
        }
        assert forall|j: int| 0 <= j < b.articles.len() implies cites(
            after,
            (#[trigger] b.articles[j]).message_id,
        ) by {
            assert(p(b.articles[j]));
        }
    }
}

} // verus!
