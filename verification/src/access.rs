//! The access policy: who may read and who may post, group by group.
//!
//! A decision looks first for a rule about the identity and the group, then
//! for a rule about the group, and falls back on the global default: reading
//! is allowed and posting is denied unless the defaults say otherwise. A
//! policy is a value; a decision reads it and nothing else.

use vstd::prelude::*;
use crate::text::{bytes_eq, copy_bytes};

verus! {

/// What an identity asks to do in a group.
#[derive(Clone, Copy, Debug, PartialEq, Eq, Structural)]
pub enum Operation {
    /// Fetching articles and listing the group.
    Read,
    /// Posting articles to the group.
    Post,
}

/// A rule about one group, for every identity that has no rule of its own.
#[derive(Clone, Debug, PartialEq, Eq)]
pub struct GroupRule {
    pub group: Vec<u8>,
    pub operation: Operation,
    pub allow: bool,
}

/// A rule about one identity in one group.
#[derive(Clone, Debug, PartialEq, Eq)]
pub struct IdentityRule {
    pub identity: Vec<u8>,
    pub group: Vec<u8>,
    pub operation: Operation,
    pub allow: bool,
}

/// A policy as plain data: the two defaults, and the two tables of rules.
pub struct Policy {
    pub default_read: bool,
    pub default_post: bool,
    pub groups: Map<(Seq<u8>, Operation), bool>,
    pub identities: Map<(Seq<u8>, Seq<u8>, Operation), bool>,
}

/// The access policy. Rules are kept in the order they were set; a later
/// rule for the same identity, group and operation replaces an earlier one.
#[derive(Clone, Debug, PartialEq, Eq)]
pub struct AccessControl {
    default_read: bool,
    default_post: bool,
    group_rules: Vec<GroupRule>,
    identity_rules: Vec<IdentityRule>,
}

/// The table that a list of group rules amounts to.
pub open spec fn group_table(rules: Seq<GroupRule>) -> Map<(Seq<u8>, Operation), bool>
    decreases rules.len(),
{
    if rules.len() == 0 {
        Map::empty()
    } else {
        let r = rules.last();
        group_table(rules.drop_last()).insert((r.group@, r.operation), r.allow)
    }
}

/// The table that a list of identity rules amounts to.
pub open spec fn identity_table(rules: Seq<IdentityRule>) -> Map<
    (Seq<u8>, Seq<u8>, Operation),
    bool,
>
    decreases rules.len(),
{
    if rules.len() == 0 {
        Map::empty()
    } else {
        let r = rules.last();
        identity_table(rules.drop_last()).insert((r.identity@, r.group@, r.operation), r.allow)
    }
}

/// What a table says about a key, if anything.
pub open spec fn lookup<K>(table: Map<K, bool>, key: K) -> Option<bool> {
    if table.contains_key(key) {
        Some(table[key])
    } else {
        None
    }
}

/// The global default for an operation.
pub open spec fn default_for(p: Policy, op: Operation) -> bool {
    match op {
        Operation::Read => p.default_read,
        Operation::Post => p.default_post,
    }
}

/// The decision: the rule for the identity in the group if there is one,
/// else the rule for the group if there is one, else the global default.
pub open spec fn permits(p: Policy, identity: Seq<u8>, group: Seq<u8>, op: Operation) -> bool {
    match lookup(p.identities, (identity, group, op)) {
        Some(allow) => allow,
        None => match lookup(p.groups, (group, op)) {
            Some(allow) => allow,
            None => default_for(p, op),
        },
    }
}

impl View for AccessControl {
    type V = Policy;

    closed spec fn view(&self) -> Policy {
        Policy {
            default_read: self.default_read,
            default_post: self.default_post,
            groups: group_table(self.group_rules@),
            identities: identity_table(self.identity_rules@),
        }
    }
}

impl AccessControl {
    /// The policy without rules: everyone may read, nobody may post.
    pub fn new() -> (r: AccessControl)
        ensures
            r@ == (Policy {
                default_read: true,
                default_post: false,
                groups: Map::empty(),
                identities: Map::empty(),
            }),
    {
        AccessControl {
            default_read: true,
            default_post: false,
            group_rules: Vec::new(),
            identity_rules: Vec::new(),
        }
    }

    /// The policy without rules and with the given global defaults.
    pub fn with_defaults(read: bool, post: bool) -> (r: AccessControl)
        ensures
            r@ == (Policy {
                default_read: read,
                default_post: post,
                groups: Map::empty(),
                identities: Map::empty(),
            }),
    {
        AccessControl {
            default_read: read,
            default_post: post,
            group_rules: Vec::new(),
            identity_rules: Vec::new(),
        }
    }

    /// Replaces the global defaults; every rule stays.
    pub fn set_defaults(&mut self, read: bool, post: bool)
        ensures
            final(self)@ == (Policy { default_read: read, default_post: post, ..old(self)@ }),
    {
        self.default_read = read;
        self.default_post = post;
    }

    /// Sets the rule for a group, in place of any earlier rule for the same
    /// group and operation.
    pub fn set_group_rule(&mut self, group: &[u8], op: Operation, allow: bool)
        ensures
            final(self)@ == (Policy {
                groups: old(self)@.groups.insert((group@, op), allow),
                ..old(self)@
            }),
    {
        let rule = GroupRule { group: copy_bytes(group), operation: op, allow };
        let ghost prior = self.group_rules@;
        self.group_rules.push(rule);
        assert(self.group_rules@.drop_last() =~= prior);
    }

    /// Sets the rule for an identity in a group, in place of any earlier
    /// rule for the same identity, group and operation.
    pub fn set_identity_rule(&mut self, identity: &[u8], group: &[u8], op: Operation, allow: bool)
        ensures
            final(self)@ == (Policy {
                identities: old(self)@.identities.insert((identity@, group@, op), allow),
                ..old(self)@
            }),
    {
        let rule = IdentityRule {
            identity: copy_bytes(identity),
            group: copy_bytes(group),
            operation: op,
            allow,
        };
        let ghost prior = self.identity_rules@;
        self.identity_rules.push(rule);
        assert(self.identity_rules@.drop_last() =~= prior);
    }

    /// The rule set for a group and an operation, if any.
    pub fn group_rule(&self, group: &[u8], op: Operation) -> (r: Option<bool>)
        ensures
            r == lookup(self@.groups, (group@, op)),
    {
        let ghost key = (group@, op);
        let mut i: usize = self.group_rules.len();
        assert(self.group_rules@.take(i as int) =~= self.group_rules@);
        while i > 0
            invariant
                i <= self.group_rules.len(),
                key == (group@, op),
                lookup(self@.groups, key) == lookup(
                    group_table(self.group_rules@.take(i as int)),
                    key,
                ),
            decreases i,
        {
            i -= 1;
            let rule = &self.group_rules[i];
            proof {
                let upto = self.group_rules@.take(i as int + 1);
                assert(upto.last() == *rule);
                assert(upto.drop_last() =~= self.group_rules@.take(i as int));
            }
            if rule.operation == op && bytes_eq(rule.group.as_slice(), group) {
                return Some(rule.allow);
            }
        }
        None
    }

    /// The rule set for an identity, a group and an operation, if any.
    pub fn identity_rule(&self, identity: &[u8], group: &[u8], op: Operation) -> (r: Option<bool>)
        ensures
            r == lookup(self@.identities, (identity@, group@, op)),
    {
        let ghost key = (identity@, group@, op);
        let mut i: usize = self.identity_rules.len();
        assert(self.identity_rules@.take(i as int) =~= self.identity_rules@);
        while i > 0
            invariant
                i <= self.identity_rules.len(),
                key == (identity@, group@, op),
                lookup(self@.identities, key) == lookup(
                    identity_table(self.identity_rules@.take(i as int)),
                    key,
                ),
            decreases i,
        {
            i -= 1;
            let rule = &self.identity_rules[i];
            proof {
                let upto = self.identity_rules@.take(i as int + 1);
                assert(upto.last() == *rule);
                assert(upto.drop_last() =~= self.identity_rules@.take(i as int));
            }
            if rule.operation == op && bytes_eq(rule.identity.as_slice(), identity) && bytes_eq(
                rule.group.as_slice(),
                group,
            ) {
                return Some(rule.allow);
            }
        }
        None
    }

    /// Whether the identity may do the operation in the group.
    pub fn allows(&self, identity: &[u8], group: &[u8], op: Operation) -> (r: bool)
        ensures
            r == permits(self@, identity@, group@, op),
    {
        match self.identity_rule(identity, group, op) {
            Some(allow) => allow,
            None => match self.group_rule(group, op) {
                Some(allow) => allow,
                None => match op {
                    Operation::Read => self.default_read,
                    Operation::Post => self.default_post,
                },
            },
        }
    }

    /// Whether the identity may read the group.
    pub fn can_read(&self, identity: &[u8], group: &[u8]) -> (r: bool)
        ensures
            r == permits(self@, identity@, group@, Operation::Read),
    {
        self.allows(identity, group, Operation::Read)
    }

    /// Whether the identity may post to the group.
    pub fn can_post(&self, identity: &[u8], group: &[u8]) -> (r: bool)
        ensures
            r == permits(self@, identity@, group@, Operation::Post),
    {
        self.allows(identity, group, Operation::Post)
    }
}

} // verus!
