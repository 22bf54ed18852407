//! The service: article store, group index and access policy behind the
//! five operations that a protocol layer calls.
//!
//! The service holds all state as one value. An operation either fails and
//! leaves that value as it was, or succeeds and has taken effect in full.

use vstd::prelude::*;
use crate::access::{AccessControl, lookup, Operation, permits, Policy};
use crate::article::{
    Archive, archive_wf, Article, article_result, ArticleStore, coherent, count_result,
    expire_outcome, fetch_outcome, id_result, post_outcome, Record,
};
use crate::error::{Error, ErrorKind, fails_with, Fault, fault};
use crate::group::{
    fresh, GroupIndex, has_group, index_wf, Listing, listing, MAX_ARTICLE_NUMBER, OverviewRow, Row,
    rows_of, slot, vacant, window,
};
use crate::header::{Field, Headers};
use crate::ident::is_id_part;
use crate::text::copy_bytes;

verus! {

/// The whole state of a service as plain data.
pub struct World {
    pub archive: Archive,
    pub groups: Seq<Listing>,
    pub policy: Policy,
}

/// The service.
#[derive(Clone, Debug, PartialEq, Eq)]
pub struct Service {
    store: ArticleStore,
    index: GroupIndex,
    acl: AccessControl,
}

impl View for Service {
    type V = World;

    closed spec fn view(&self) -> World {
        World { archive: self.store@, groups: self.index@, policy: self.acl@ }
    }
}

/// Whether the policy's rule for posting to each group is the group's own
/// posting flag.
pub open spec fn flags_agree(groups: Seq<Listing>, policy: Policy) -> bool {
    forall|i: int|
        0 <= i < groups.len() ==> lookup(policy.groups, ((#[trigger] groups[i]).name, Operation::Post))
            == Some(groups[i].posting_allowed)
}

/// Whether a state is in order: store and index are, they agree with one
/// another, and the policy agrees with the groups' posting flags.
pub open spec fn world_wf(w: World) -> bool {
    &&& archive_wf(w.archive)
    &&& index_wf(w.groups)
    &&& coherent(w.archive, w.groups)
    &&& flags_agree(w.groups, w.policy)
}

/// The state after a posting.
pub open spec fn posted(
    w: World,
    fields: Seq<Field>,
    body: Seq<u8>,
    identity: Seq<u8>,
    now: u64,
) -> World {
    let o = post_outcome(w.archive, w.groups, w.policy, fields, body, identity, now);
    World { archive: o.archive, groups: o.groups, policy: w.policy }
}

/// What a posting returns.
pub open spec fn post_result(
    w: World,
    fields: Seq<Field>,
    body: Seq<u8>,
    identity: Seq<u8>,
    now: u64,
) -> Result<Seq<u8>, Fault> {
    post_outcome(w.archive, w.groups, w.policy, fields, body, identity, now).result
}

/// What fetching an article returns.
pub open spec fn fetch_result(w: World, message_id: Seq<u8>, identity: Seq<u8>) -> Result<
    Record,
    Fault,
> {
    fetch_outcome(w.archive, w.policy, message_id, identity)
}

/// What listing a group returns: the rows in the range for an identity
/// that may read the group. An identity that may not is denied, whether or
/// not the group exists; a group that does not exist is reported to the
/// others. Either failure carries the group name.
pub open spec fn list_result(w: World, name: Seq<u8>, lo: u64, hi: u64, identity: Seq<u8>) -> Result<
    Seq<Row>,
    Fault,
> {
    if !permits(w.policy, identity, name, Operation::Read) {
        Err(fault(ErrorKind::AccessDenied, name))
    } else if !has_group(w.groups, name) {
        Err(fault(ErrorKind::GroupNotFound, name))
    } else {
        Ok(window(listing(w.groups, name), lo, hi))
    }
}

/// What asking for the watermarks of a group returns: low, then high.
pub open spec fn watermarks_result(w: World, name: Seq<u8>) -> Result<(u64, u64), Fault> {
    if has_group(w.groups, name) {
        Ok((listing(w.groups, name).low, listing(w.groups, name).high))
    } else {
        Err(fault(ErrorKind::GroupNotFound, name))
    }
}

/// The state after an expiry.
pub open spec fn swept(w: World, name: Seq<u8>, cutoff: u64) -> World {
    let o = expire_outcome(w.archive, w.groups, name, cutoff);
    World { archive: o.archive, groups: o.groups, policy: w.policy }
}

/// What an expiry returns: the number of rows it removed.
pub open spec fn expire_result(w: World, name: Seq<u8>, cutoff: u64) -> Result<usize, Fault> {
    expire_outcome(w.archive, w.groups, name, cutoff).result
}

/// The plain content of a result that holds rows.
pub open spec fn rows_result(r: Result<Vec<OverviewRow>, Error>) -> Result<Seq<Row>, Fault> {
    match r {
        Ok(rows) => Ok(rows_of(rows@)),
        Err(e) => Err(e@),
    }
}

/// The plain content of a result that holds two watermarks.
pub open spec fn marks_result(r: Result<(u64, u64), Error>) -> Result<(u64, u64), Fault> {
    match r {
        Ok(m) => Ok(m),
        Err(e) => Err(e@),
    }
}

/// A table of group rules in which the rule for posting to each group is
/// the group's posting flag, and every other rule is as in `table`.
pub open spec fn flagged(table: Map<(Seq<u8>, Operation), bool>, groups: Seq<Listing>) -> Map<
    (Seq<u8>, Operation),
    bool,
>
    decreases groups.len(),
{
    if groups.len() == 0 {
        table
    } else {
        flagged(table, groups.drop_last()).insert(
            (groups.last().name, Operation::Post),
            groups.last().posting_allowed,
        )
    }
}

/// A table made with the groups' flags agrees with them.
pub proof fn lemma_flagged(table: Map<(Seq<u8>, Operation), bool>, groups: Seq<Listing>)
    requires
        index_wf(groups),
    ensures
        forall|i: int|
            0 <= i < groups.len() ==> lookup(
                flagged(table, groups),
                ((#[trigger] groups[i]).name, Operation::Post),
            ) == Some(groups[i].posting_allowed),
    decreases groups.len(),
{
    if groups.len() > 0 {
        let front = groups.drop_last();
        assert forall|i: int| 0 <= i < front.len() implies crate::group::listing_wf(
            #[trigger] front[i],
        ) by {
            assert(front[i] == groups[i]);
        }
        assert forall|i: int, j: int|
            0 <= i < front.len() && 0 <= j < front.len() && i != j implies (
        #[trigger] front[i]).name != (#[trigger] front[j]).name by {
            assert(front[i] == groups[i] && front[j] == groups[j]);
        }
        lemma_flagged(table, front);
        assert forall|i: int| 0 <= i < groups.len() implies lookup(
            flagged(table, groups),
            ((#[trigger] groups[i]).name, Operation::Post),
        ) == Some(groups[i].posting_allowed) by {
            if i < front.len() {
                assert(front[i] == groups[i]);
                assert(groups[i].name != groups[groups.len() - 1].name);
            }
        }
    }
}

/// Posting and expiring leave every group's name and posting flag alone.
pub proof fn lemma_flags_kept(before: Seq<Listing>, after: Seq<Listing>, policy: Policy)
    requires
        flags_agree(before, policy),
        after.len() == before.len(),
        forall|i: int|
            0 <= i < before.len() ==> (#[trigger] after[i]).name == before[i].name
                && after[i].posting_allowed == before[i].posting_allowed,
    ensures
        flags_agree(after, policy),
{
    assert forall|i: int| 0 <= i < after.len() implies lookup(
        policy.groups,
        ((#[trigger] after[i]).name, Operation::Post),
    ) == Some(after[i].posting_allowed) by {
        assert(lookup(policy.groups, (before[i].name, Operation::Post)) == Some(
            before[i].posting_allowed,
        ));
    }
}

impl Service {
    /// Whether the service is in order.
    pub open spec fn wf(&self) -> bool {
        world_wf(self@)
    }

    /// A service without groups and articles, under the given policy, that
    /// derives identifiers on the given domain.
    ///
    /// The domain must be a non-empty run of identifier bytes; any other is
    /// refused as a configuration error that carries it.
    pub fn new(domain: &[u8], acl: AccessControl) -> (r: Result<Service, Error>)
        ensures
            is_id_part(domain@) ==> (r matches Ok(s) && s.wf() && s@ == (World {
                archive: Archive { domain: domain@, clock: 0, articles: Seq::empty() },
                groups: Seq::empty(),
                policy: acl@,
            })),
            !is_id_part(domain@) ==> fails_with(r, ErrorKind::Config, domain@),
    {
        match ArticleStore::new(domain) {
            Ok(store) => {
                let s = Service { store, index: GroupIndex::new(), acl };
                Ok(s)
            },
            Err(e) => Err(e),
        }
    }

    /// The article store.
    pub fn store(&self) -> (s: &ArticleStore)
        ensures
            s@ == self@.archive,
    {
        &self.store
    }

    /// The group index.
    pub fn index(&self) -> (i: &GroupIndex)
        ensures
            i@ == self@.groups,
    {
        &self.index
    }

    /// The access policy.
    pub fn policy(&self) -> (p: &AccessControl)
        ensures
            p@ == self@.policy,
    {
        &self.acl
    }

    /// Creates a group. Its posting flag becomes the policy's rule for
    /// posting to the group.
    ///
    /// The name must not be empty and no group of that name may exist;
    /// otherwise nothing changes and the failure is a configuration error
    /// that carries the name.
    pub fn create_group(&mut self, name: &[u8], posting_allowed: bool) -> (r: Result<(), Error>)
        requires
            old(self).wf(),
        ensures
            final(self).wf(),
            name@.len() > 0 && !has_group(old(self)@.groups, name@) ==> r is Ok && final(self)@ == (
            World {
                groups: old(self)@.groups.push(fresh(name@, posting_allowed)),
                policy: Policy {
                    groups: old(self)@.policy.groups.insert(
                        (name@, Operation::Post),
                        posting_allowed,
                    ),
                    ..old(self)@.policy
                },
                ..old(self)@
            }),
            !(name@.len() > 0 && !has_group(old(self)@.groups, name@)) ==> fails_with(
                r,
                ErrorKind::Config,
                name@,
            ) && final(self)@ == old(self)@,
    {
        self.restore_group(name, posting_allowed, 0)
    }

    /// Creates a group that continues an earlier numbering from the given
    /// high-water mark. Its posting flag becomes the policy's rule for
    /// posting to the group.
    ///
    /// The name must not be empty, no group of that name may exist, and the
    /// mark must not exceed the highest article number; otherwise nothing
    /// changes and the failure is a configuration error that carries the
    /// name.
    pub fn restore_group(&mut self, name: &[u8], posting_allowed: bool, high_water: u64) -> (r:
        Result<(), Error>)
        requires
            old(self).wf(),
        ensures
            final(self).wf(),
            name@.len() > 0 && !has_group(old(self)@.groups, name@) && high_water
                <= MAX_ARTICLE_NUMBER ==> r is Ok && final(self)@ == (World {
                groups: old(self)@.groups.push(vacant(name@, posting_allowed, high_water)),
                policy: Policy {
                    groups: old(self)@.policy.groups.insert(
                        (name@, Operation::Post),
                        posting_allowed,
                    ),
                    ..old(self)@.policy
                },
                ..old(self)@
            }),
            !(name@.len() > 0 && !has_group(old(self)@.groups, name@) && high_water
                <= MAX_ARTICLE_NUMBER) ==> fails_with(r, ErrorKind::Config, name@) && final(self)@
                == old(self)@,
    {
        match self.index.create_from(name, posting_allowed, high_water) {
            Err(e) => Err(e),
            Ok(()) => {
                self.acl.set_group_rule(name, Operation::Post, posting_allowed);
                proof {
                    let before = old(self)@.groups;
                    let after = self@.groups;
                    assert forall|i: int| 0 <= i < after.len() implies lookup(
                        self@.policy.groups,
                        ((#[trigger] after[i]).name, Operation::Post),
                    ) == Some(after[i].posting_allowed) by {
                        if i < before.len() {
                            assert(after[i] == before[i]);
                            assert(before[i].name != name@);
                        }
                    }
                    assert forall|i: int, k: int|
                        0 <= i < after.len() && 0 <= k < after[i].rows.len() implies i
                        < before.len() && (#[trigger] after[i].rows[k]) == before[i].rows[k] by {
                        if i < before.len() {
                            assert(after[i] == before[i]);
                        }
                    }
                    assert forall|j: int| 0 <= j < self@.archive.articles.len() implies crate::group::cites(
                        after,
                        (#[trigger] self@.archive.articles[j]).message_id,
                    ) by {
                        let g = self@.archive.articles[j].message_id;
                        assert(crate::group::cites(before, g));
                        let (i, k) = choose|i: int, k: int|
                            0 <= i < before.len() && 0 <= k < before[i].rows.len() && (
                            #[trigger] before[i].rows[k]).message_id == g;
                        assert(after[i] == before[i]);
                        assert(after[i].rows[k].message_id == g);
                    }
                }
                Ok(())
            },
        }
    }

    /// Sets the posting flag of a group, and with it the policy's rule for
    /// posting to the group.
    pub fn set_posting_allowed(&mut self, name: &[u8], allowed: bool) -> (r: Result<(), Error>)
        requires
            old(self).wf(),
        ensures
            final(self).wf(),
            has_group(old(self)@.groups, name@) ==> r is Ok && final(self)@ == (World {
                groups: old(self)@.groups.update(
                    slot(old(self)@.groups, name@),
                    Listing { posting_allowed: allowed, ..listing(old(self)@.groups, name@) },
                ),
                policy: Policy {
                    groups: old(self)@.policy.groups.insert((name@, Operation::Post), allowed),
                    ..old(self)@.policy
                },
                ..old(self)@
            }),
            !has_group(old(self)@.groups, name@) ==> fails_with(r, ErrorKind::GroupNotFound, name@)
                && final(self)@ == old(self)@,
    {
        match self.index.set_posting_allowed(name, allowed) {
            Err(e) => Err(e),
            Ok(()) => {
                self.acl.set_group_rule(name, Operation::Post, allowed);
                proof {
                    let before = old(self)@.groups;
                    let after = self@.groups;
                    let s = slot(before, name@);
                    assert forall|i: int| 0 <= i < after.len() implies lookup(
                        self@.policy.groups,
                        ((#[trigger] after[i]).name, Operation::Post),
                    ) == Some(after[i].posting_allowed) by {
                        if i != s {
                            assert(after[i] == before[i]);
                            assert(before[i].name != before[s].name);
                        }
                    }
                    assert forall|i: int, k: int|
                        0 <= i < after.len() && 0 <= k < after[i].rows.len() implies (
                    #[trigger] after[i].rows[k]) == before[i].rows[k] && after[i].name
                        == before[i].name by {
                        if i != s {
                            assert(after[i] == before[i]);
                        }
                    }
                    assert forall|j: int| 0 <= j < self@.archive.articles.len() implies crate::group::cites(
                        after,
                        (#[trigger] self@.archive.articles[j]).message_id,
                    ) by {
                        let g = self@.archive.articles[j].message_id;
                        assert(crate::group::cites(before, g));
                        let (i, k) = choose|i: int, k: int|
                            0 <= i < before.len() && 0 <= k < before[i].rows.len() && (
                            #[trigger] before[i].rows[k]).message_id == g;
                        assert(after[i].rows[k].message_id == g);
                    }
                }
                Ok(())
            },
        }
    }

    /// Sets the policy's rule for reading a group, for every identity that
    /// has no rule of its own.
    pub fn set_group_readable(&mut self, name: &[u8], allowed: bool)
        requires
            old(self).wf(),
        ensures
            final(self).wf(),
            final(self)@ == (World {
                policy: Policy {
                    groups: old(self)@.policy.groups.insert((name@, Operation::Read), allowed),
                    ..old(self)@.policy
                },
                ..old(self)@
            }),
    {
        self.acl.set_group_rule(name, Operation::Read, allowed);
    }

    /// Sets the policy's rule for one identity in one group.
    pub fn set_identity_rule(&mut self, identity: &[u8], group: &[u8], op: Operation, allow: bool)
        requires
            old(self).wf(),
        ensures
            final(self).wf(),
            final(self)@ == (World {
                policy: Policy {
                    identities: old(self)@.policy.identities.insert(
                        (identity@, group@, op),
                        allow,
                    ),
                    ..old(self)@.policy
                },
                ..old(self)@
            }),
    {
        self.acl.set_identity_rule(identity, group, op, allow);
    }

    /// Puts a new policy in place of the old one, all at once. The rule for
    /// posting to each group stays the group's posting flag; every other
    /// rule and both defaults are those of the new policy.
    pub fn replace_policy(&mut self, acl: AccessControl)
        requires
            old(self).wf(),
        ensures
            final(self).wf(),
            final(self)@ == (World {
                policy: Policy { groups: flagged(acl@.groups, old(self)@.groups), ..acl@ },
                ..old(self)@
            }),
    {
        let ghost fresh_policy = acl@;
        let ghost groups = self@.groups;
        self.acl = acl;
        let n = self.index.len();
        let mut i: usize = 0;
        assert(groups.take(0) =~= Seq::<Listing>::empty());
        while i < n
            invariant
                i <= n,
                n == groups.len(),
                self@.archive == old(self)@.archive,
                self@.groups == groups,
                self@.policy == (Policy {
                    groups: flagged(fresh_policy.groups, groups.take(i as int)),
                    ..fresh_policy
                }),
            decreases n - i,
        {
            proof {
                assert(groups.take(i as int + 1).drop_last() =~= groups.take(i as int));
                assert(groups.take(i as int + 1).last() == groups[i as int]);
            }
            let group = self.index.group_at(i);
            self.acl.set_group_rule(group.name.as_slice(), Operation::Post, group.posting_allowed);
            i += 1;
        }
        proof {
            assert(groups.take(n as int) =~= groups);
            lemma_flagged(fresh_policy.groups, groups);
        }
    }

    /// Replaces the policy's global defaults.
    pub fn set_defaults(&mut self, read: bool, post: bool)
        requires
            old(self).wf(),
        ensures
            final(self).wf(),
            final(self)@ == (World {
                policy: Policy { default_read: read, default_post: post, ..old(self)@.policy },
                ..old(self)@
            }),
    {
        self.acl.set_defaults(read, post);
    }

    /// Whether the identity may read the group.
    pub fn can_read(&self, identity: &[u8], group: &[u8]) -> (r: bool)
        ensures
            r == permits(self@.policy, identity@, group@, Operation::Read),
    {
        self.acl.can_read(identity, group)
    }

    /// Whether the identity may post to the group.
    pub fn can_post(&self, identity: &[u8], group: &[u8]) -> (r: bool)
        ensures
            r == permits(self@.policy, identity@, group@, Operation::Post),
    {
        self.acl.can_post(identity, group)
    }

    /// Posts an article to all the groups its headers name, or to none, and
    /// returns its identifier. `now` is the time of the posting.
    pub fn post(&mut self, headers: &Headers, body: &[u8], identity: &[u8], now: u64) -> (r: Result<
        Vec<u8>,
        Error,
    >)
        requires
            old(self).wf(),
        ensures
            final(self).wf(),
            final(self)@ == posted(old(self)@, headers@, body@, identity@, now),
            id_result(r) == post_result(old(self)@, headers@, body@, identity@, now),
    {
        let r = self.store.post(&mut self.index, &self.acl, headers, body, identity, now);
        proof {
            crate::laws::lemma_post_keeps_groups(
                old(self)@,
                headers@,
                body@,
                identity@,
                now,
            );
            lemma_flags_kept(old(self)@.groups, self@.groups, self@.policy);
        }
        r
    }

    /// The article with the given identifier, for an identity that may read
    /// at least one of its groups.
    pub fn fetch(&self, message_id: &[u8], identity: &[u8]) -> (r: Result<&Article, Error>)
        requires
            self.wf(),
        ensures
            article_result(r) == fetch_result(self@, message_id@, identity@),
    {
        self.store.fetch(&self.acl, message_id, identity)
    }

    /// The rows of a group numbered from `lo` to `hi`, both included, oldest
    /// first, for an identity that may read the group.
    pub fn list(&self, group_name: &[u8], lo: u64, hi: u64, identity: &[u8]) -> (r: Result<
        Vec<OverviewRow>,
        Error,
    >)
        requires
            self.wf(),
        ensures
            rows_result(r) == list_result(self@, group_name@, lo, hi, identity@),
    {
        if !self.acl.can_read(identity, group_name) {
            return Err(Error::AccessDenied(copy_bytes(group_name)));
        }
        self.index.list(group_name, lo, hi)
    }

    /// The oldest row of a group numbered from `lo` to `hi`, both included,
    /// if there is one, for an identity that may read the group: the first
    /// row of what [`Service::list`] returns for the same range. To walk a
    /// group row by row, ask again from the number after the one received.
    pub fn first_in(&self, group_name: &[u8], lo: u64, hi: u64, identity: &[u8]) -> (r: Result<
        Option<OverviewRow>,
        Error,
    >)
        requires
            self.wf(),
        ensures
            match list_result(self@, group_name@, lo, hi, identity@) {
                Ok(rows) => r matches Ok(found) && match found {
                    Some(row) => rows.len() > 0 && row@ == rows[0],
                    None => rows.len() == 0,
                },
                Err(f) => r matches Err(e) && e@ == f,
            },
    {
        if !self.acl.can_read(identity, group_name) {
            return Err(Error::AccessDenied(copy_bytes(group_name)));
        }
        self.index.first_in(group_name, lo, hi)
    }

    /// The low-water and the high-water mark of a group, in this order.
    pub fn watermarks(&self, group_name: &[u8]) -> (r: Result<(u64, u64), Error>)
        requires
            self.wf(),
        ensures
            marks_result(r) == watermarks_result(self@, group_name@),
    {
        self.index.watermarks(group_name)
    }

    /// Removes from a group the rows accepted before `cutoff`, with every
    /// article that is left without a row, and returns the number of rows
    /// removed.
    pub fn expire(&mut self, group_name: &[u8], cutoff: u64) -> (r: Result<usize, Error>)
        requires
            old(self).wf(),
        ensures
            final(self).wf(),
            final(self)@ == swept(old(self)@, group_name@, cutoff),
            count_result(r) == expire_result(old(self)@, group_name@, cutoff),
    {
        let r = self.store.expire(&mut self.index, group_name, cutoff);
        proof {
            lemma_flags_kept(old(self)@.groups, self@.groups, self@.policy);
        }
        r
    }
}

} // verus!
