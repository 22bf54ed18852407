//! The group index: for every group its watermarks and its overview rows.
//!
//! Within a group, article numbers are handed out in increasing order and
//! never twice: a new row takes the number after the high-water mark, and
//! the mark never goes back, whatever expires. The low-water mark is the
//! number of the oldest row still held, or one past the high-water mark when
//! the group is empty.

use vstd::pervasive::VecAdditionalExecFns;
use vstd::prelude::*;
use crate::error::{Error, ErrorKind, fails_with};
use crate::filters::{lemma_filter_all, lemma_filter_step};
use crate::text::{bytes_eq, copy_bytes, views};

verus! {

/// The highest article number a group hands out.
pub const MAX_ARTICLE_NUMBER: u64 = 0xffff_ffff_ffff_fffe;

/// What a listing shows of an article, as plain data.
pub struct Summary {
    pub subject: Seq<u8>,
    pub from: Seq<u8>,
    pub date: Seq<u8>,
    pub size: usize,
}

/// What a listing shows of an article without fetching it: its subject,
/// author and date headers and the size of its body in bytes. Taken when the
/// article is posted and never changed afterwards.
#[derive(Clone, Debug, PartialEq, Eq)]
pub struct Snapshot {
    pub subject: Vec<u8>,
    pub from: Vec<u8>,
    pub date: Vec<u8>,
    pub size: usize,
}

impl View for Snapshot {
    type V = Summary;

    open spec fn view(&self) -> Summary {
        Summary { subject: self.subject@, from: self.from@, date: self.date@, size: self.size }
    }
}

/// An overview row as plain data.
pub struct Row {
    pub group: Seq<u8>,
    pub number: u64,
    pub message_id: Seq<u8>,
    pub summary: Summary,
    pub posted_at: u64,
}

/// One article in one group: the group and the article's number there,
/// which together identify the row, the identifier of the article, the
/// snapshot for listings and the time the article was accepted.
#[derive(Clone, Debug, PartialEq, Eq)]
pub struct OverviewRow {
    pub group_name: Vec<u8>,
    pub article_number: u64,
    pub message_id: Vec<u8>,
    pub snapshot: Snapshot,
    pub posted_at: u64,
}

impl View for OverviewRow {
    type V = Row;

    open spec fn view(&self) -> Row {
        Row {
            group: self.group_name@,
            number: self.article_number,
            message_id: self.message_id@,
            summary: self.snapshot@,
            posted_at: self.posted_at,
        }
    }
}

/// A group with its rows, as plain data.
pub struct Listing {
    pub name: Seq<u8>,
    pub low: u64,
    pub high: u64,
    pub posting_allowed: bool,
    pub rows: Seq<Row>,
}

/// A group: its name, its two watermarks and whether posting to it is
/// allowed to identities that have no rule of their own.
#[derive(Clone, Debug, PartialEq, Eq)]
pub struct Group {
    pub name: Vec<u8>,
    pub low_water: u64,
    pub high_water: u64,
    pub posting_allowed: bool,
}

/// A group and the rows it holds, oldest first.
#[derive(Clone, Debug, PartialEq, Eq)]
struct Shelf {
    group: Group,
    rows: Vec<OverviewRow>,
}

/// The index of all groups, in the order they were created.
#[derive(Clone, Debug, PartialEq, Eq)]
pub struct GroupIndex {
    shelves: Vec<Shelf>,
}

/// The plain data of a list of rows.
pub open spec fn rows_of(rows: Seq<OverviewRow>) -> Seq<Row> {
    Seq::new(rows.len(), |i: int| rows[i]@)
}

/// The identifiers that a list of rows refers to, in order.
pub open spec fn ids_of(rows: Seq<Row>) -> Seq<Seq<u8>> {
    Seq::new(rows.len(), |i: int| rows[i].message_id)
}

impl View for Shelf {
    type V = Listing;

    closed spec fn view(&self) -> Listing {
        Listing {
            name: self.group.name@,
            low: self.group.low_water,
            high: self.group.high_water,
            posting_allowed: self.group.posting_allowed,
            rows: rows_of(self.rows@),
        }
    }
}

impl View for GroupIndex {
    type V = Seq<Listing>;

    closed spec fn view(&self) -> Seq<Listing> {
        Seq::new(self.shelves@.len(), |i: int| self.shelves@[i]@)
    }
}

/// Whether a group is in order: it has a name, its rows carry that name,
/// its watermarks bracket its rows, and its rows carry strictly increasing
/// numbers.
pub open spec fn listing_wf(g: Listing) -> bool {
    &&& g.name.len() > 0
    &&& forall|i: int| 0 <= i < g.rows.len() ==> (#[trigger] g.rows[i]).group == g.name
    &&& 1 <= g.low <= g.high + 1
    &&& g.high <= MAX_ARTICLE_NUMBER
    &&& forall|i: int| 0 <= i < g.rows.len() ==> g.low <= (#[trigger] g.rows[i]).number <= g.high
    &&& forall|i: int, j: int|
        0 <= i < j < g.rows.len() ==> (#[trigger] g.rows[i]).number < (#[trigger] g.rows[j]).number
}

/// Whether an index is in order: every group is, and no two share a name.
pub open spec fn index_wf(groups: Seq<Listing>) -> bool {
    &&& forall|i: int| 0 <= i < groups.len() ==> listing_wf(#[trigger] groups[i])
    &&& forall|i: int, j: int|
        0 <= i < groups.len() && 0 <= j < groups.len() && i != j ==> (#[trigger] groups[i]).name
            != (#[trigger] groups[j]).name
}

/// Whether a group of this name exists.
pub open spec fn has_group(groups: Seq<Listing>, name: Seq<u8>) -> bool {
    exists|i: int| 0 <= i < groups.len() && (#[trigger] groups[i]).name == name
}

/// The position of the group of this name.
pub open spec fn slot(groups: Seq<Listing>, name: Seq<u8>) -> int {
    choose|i: int| 0 <= i < groups.len() && (#[trigger] groups[i]).name == name
}

/// The group of this name.
pub open spec fn listing(groups: Seq<Listing>, name: Seq<u8>) -> Listing {
    groups[slot(groups, name)]
}

/// A group without rows that has handed out the numbers up to `high`: its
/// low-water mark is one past its high-water mark.
pub open spec fn vacant(name: Seq<u8>, posting_allowed: bool, high: u64) -> Listing {
    Listing { name, low: (high + 1) as u64, high, posting_allowed, rows: Seq::empty() }
}

/// A new group: no rows, low-water mark 1, high-water mark 0.
pub open spec fn fresh(name: Seq<u8>, posting_allowed: bool) -> Listing {
    vacant(name, posting_allowed, 0)
}

/// The row that the next article posted to `g` gets.
pub open spec fn next_row(g: Listing, message_id: Seq<u8>, summary: Summary, posted_at: u64) -> Row {
    Row { group: g.name, number: (g.high + 1) as u64, message_id, summary, posted_at }
}

/// `g` after one more article was posted to it: the row is added at the end
/// under the number after the high-water mark, and the mark moves up to it.
pub open spec fn allocated(
    g: Listing,
    message_id: Seq<u8>,
    summary: Summary,
    posted_at: u64,
) -> Listing {
    Listing {
        high: (g.high + 1) as u64,
        rows: g.rows.push(next_row(g, message_id, summary, posted_at)),
        ..g
    }
}

/// The index after one article was posted to each of the groups `names`:
/// each of those groups has the new row, every other group is as it was.
pub open spec fn crossposted(
    groups: Seq<Listing>,
    names: Seq<Seq<u8>>,
    message_id: Seq<u8>,
    summary: Summary,
    posted_at: u64,
) -> Seq<Listing> {
    Seq::new(
        groups.len(),
        |i: int|
            if names.contains(groups[i].name) {
                allocated(groups[i], message_id, summary, posted_at)
            } else {
                groups[i]
            },
    )
}

/// The rows accepted at `cutoff` or later: those that an expiry with this
/// cutoff keeps.
pub open spec fn keeps(cutoff: u64) -> spec_fn(Row) -> bool {
    |r: Row| r.posted_at >= cutoff
}

/// The rows accepted before `cutoff`: those that an expiry with this cutoff
/// removes.
pub open spec fn lapsed(cutoff: u64) -> spec_fn(Row) -> bool {
    |r: Row| r.posted_at < cutoff
}

/// The rows numbered from `lo` to `hi`, both included.
pub open spec fn numbered(lo: u64, hi: u64) -> spec_fn(Row) -> bool {
    |r: Row| lo <= r.number <= hi
}

/// The low-water mark of a group that holds `rows` and has the high-water
/// mark `high`.
pub open spec fn low_mark(rows: Seq<Row>, high: u64) -> u64 {
    if rows.len() > 0 {
        rows[0].number
    } else {
        (high + 1) as u64
    }
}

/// `g` after an expiry with the given cutoff: the rows accepted before the
/// cutoff are gone, the others keep their numbers and their order, the
/// low-water mark moves up to the oldest row left, and the high-water mark
/// stays.
pub open spec fn expired(g: Listing, cutoff: u64) -> Listing {
    let kept = g.rows.filter(keeps(cutoff));
    Listing { low: low_mark(kept, g.high), rows: kept, ..g }
}

/// What a listing of `g` over the numbers `lo` to `hi` shows: the rows of
/// the group whose number lies in that range and between the watermarks,
/// oldest first.
pub open spec fn window(g: Listing, lo: u64, hi: u64) -> Seq<Row> {
    g.rows.filter(numbered(if lo < g.low { g.low } else { lo }, if hi > g.high { g.high } else { hi }))
}

/// Whether some row of some group refers to the identifier.
pub open spec fn cites(groups: Seq<Listing>, message_id: Seq<u8>) -> bool {
    exists|i: int, k: int|
        0 <= i < groups.len() && 0 <= k < groups[i].rows.len() && (#[trigger] groups[i].rows[k]).message_id
            == message_id
}

/// What a filter keeps of rows in increasing order is in increasing order,
/// satisfies the filter and comes from the rows.
pub proof fn lemma_filter_rows(rows: Seq<Row>, p: spec_fn(Row) -> bool)
    requires
        forall|i: int, j: int|
            0 <= i < j < rows.len() ==> (#[trigger] rows[i]).number < (#[trigger] rows[j]).number,
    ensures
        forall|i: int, j: int|
            0 <= i < j < rows.filter(p).len() ==> (#[trigger] rows.filter(p)[i]).number < (
            #[trigger] rows.filter(p)[j]).number,
        forall|i: int|
            0 <= i < rows.filter(p).len() ==> p(#[trigger] rows.filter(p)[i]) && rows.contains(
                rows.filter(p)[i],
            ),
        forall|i: int| 0 <= i < rows.len() && p(rows[i]) ==> rows.filter(p).contains(#[trigger] rows[i]),
    decreases rows.len(),
{
    reveal(Seq::filter);
    if rows.len() > 0 {
        let front = rows.drop_last();
        let last = rows.last();
        lemma_filter_rows(front, p);
        let f = front.filter(p);
        let g = rows.filter(p);
        assert forall|i: int| 0 <= i < g.len() implies p(#[trigger] g[i]) && rows.contains(g[i]) by {
            if i < f.len() {
                assert(g[i] == f[i]);
                assert(front.contains(f[i]));
                let k = choose|k: int| 0 <= k < front.len() && front[k] == f[i];
                assert(rows[k] == f[i]);
            } else {
                assert(g[i] == last);
                assert(rows[rows.len() - 1] == last);
            }
        }
        assert forall|i: int, j: int| 0 <= i < j < g.len() implies (#[trigger] g[i]).number < (
        #[trigger] g[j]).number by {
            if j < f.len() {
                assert(g[i] == f[i] && g[j] == f[j]);
            } else {
                assert(g[j] == last);
                assert(g[i] == f[i]);
                assert(front.contains(f[i]));
                let k = choose|k: int| 0 <= k < front.len() && front[k] == f[i];
                assert(rows[k] == f[i]);
                assert(rows[rows.len() - 1] == last);
            }
        }
        assert forall|i: int| 0 <= i < rows.len() && p(rows[i]) implies g.contains(
            #[trigger] rows[i],
        ) by {
            if i < front.len() {
                assert(front[i] == rows[i]);
                assert(f.contains(front[i]));
                let k = choose|k: int| 0 <= k < f.len() && f[k] == front[i];
                assert(g[k] == rows[i]);
            } else {
                assert(g[g.len() - 1] == rows[i]);
            }
        }
    }
}

/// A listing of the whole range of numbers shows every row of the group.
pub proof fn lemma_window_all(g: Listing)
    requires
        listing_wf(g),
    ensures
        window(g, 0, u64::MAX) == g.rows,
{
    lemma_filter_all(g.rows, numbered(g.low, g.high));
}

/// The group found at a position is the group of its name.
pub proof fn lemma_slot(groups: Seq<Listing>, i: int)
    requires
        index_wf(groups),
        0 <= i < groups.len(),
    ensures
        has_group(groups, groups[i].name),
        slot(groups, groups[i].name) == i,
        listing(groups, groups[i].name) == groups[i],
{
}

/// A group stays in order when an article is posted to it, as long as a
/// number is left.
pub proof fn lemma_allocated_wf(g: Listing, message_id: Seq<u8>, summary: Summary, posted_at: u64)
    requires
        listing_wf(g),
        g.high < MAX_ARTICLE_NUMBER,
    ensures
        listing_wf(allocated(g, message_id, summary, posted_at)),
{
}

/// A group stays in order through an expiry.
pub proof fn lemma_expired_wf(g: Listing, cutoff: u64)
    requires
        listing_wf(g),
    ensures
        listing_wf(expired(g, cutoff)),
{
    lemma_filter_rows(g.rows, keeps(cutoff));
    let kept = g.rows.filter(keeps(cutoff));
    assert forall|i: int| 0 <= i < kept.len() implies low_mark(kept, g.high) <= (
    #[trigger] kept[i]).number <= g.high by {
        assert(g.rows.contains(kept[i]));
        if i > 0 {
            assert(kept[0].number < kept[i].number);
        }
    }
    if kept.len() > 0 {
        assert(g.rows.contains(kept[0]));
    }
}

impl Snapshot {
    /// A copy of this snapshot.
    pub fn duplicate(&self) -> (r: Snapshot)
        ensures
            r@ == self@,
    {
        Snapshot {
            subject: copy_bytes(self.subject.as_slice()),
            from: copy_bytes(self.from.as_slice()),
            date: copy_bytes(self.date.as_slice()),
            size: self.size,
        }
    }
}

impl OverviewRow {
    /// A copy of this row.
    pub fn duplicate(&self) -> (r: OverviewRow)
        ensures
            r@ == self@,
    {
        OverviewRow {
            group_name: copy_bytes(self.group_name.as_slice()),
            article_number: self.article_number,
            message_id: copy_bytes(self.message_id.as_slice()),
            snapshot: self.snapshot.duplicate(),
            posted_at: self.posted_at,
        }
    }
}

impl GroupIndex {
    /// Whether the index is in order.
    pub open spec fn wf(&self) -> bool {
        index_wf(self@)
    }

    /// An index without groups.
    pub fn new() -> (r: GroupIndex)
        ensures
            r@ == Seq::<Listing>::empty(),
            r.wf(),
    {
        let r = GroupIndex { shelves: Vec::new() };
        assert(r@ =~= Seq::<Listing>::empty());
        r
    }

    /// How many groups there are.
    pub fn len(&self) -> (n: usize)
        ensures
            n == self@.len(),
    {
        self.shelves.len()
    }

    /// The group at position `i`, counted from zero in order of creation.
    pub fn group_at(&self, i: usize) -> (g: &Group)
        requires
            i < self@.len(),
        ensures
            g.name@ == self@[i as int].name,
            g.low_water == self@[i as int].low,
            g.high_water == self@[i as int].high,
            g.posting_allowed == self@[i as int].posting_allowed,
    {
        &self.shelves[i].group
    }

    /// Where the group of this name stands, if it exists.
    pub fn position(&self, name: &[u8]) -> (r: Option<usize>)
        ensures
            match r {
                Some(i) => i < self@.len() && self@[i as int].name == name@,
                None => !has_group(self@, name@),
            },
    {
        let mut i: usize = 0;
        while i < self.shelves.len()
            invariant
                i <= self.shelves.len(),
                forall|k: int| 0 <= k < i ==> (#[trigger] self@[k]).name != name@,
            decreases self.shelves.len() - i,
        {
            if bytes_eq(self.shelves[i].group.name.as_slice(), name) {
                return Some(i);
            }
            i += 1;
        }
        None
    }

    /// Whether a group of this name exists.
    pub fn contains(&self, name: &[u8]) -> (r: bool)
        requires
            self.wf(),
        ensures
            r == has_group(self@, name@),
    {
        self.position(name).is_some()
    }

    /// Creates a group without rows, with low-water mark 1 and high-water
    /// mark 0.
    ///
    /// The name must not be empty and no group of that name may exist;
    /// otherwise the index is unchanged and the failure is a configuration
    /// error that carries the name.
    pub fn create(&mut self, name: &[u8], posting_allowed: bool) -> (r: Result<(), Error>)
        requires
            old(self).wf(),
        ensures
            final(self).wf(),
            name@.len() > 0 && !has_group(old(self)@, name@) ==> r is Ok && final(self)@ == old(
                self,
            )@.push(fresh(name@, posting_allowed)),
            !(name@.len() > 0 && !has_group(old(self)@, name@)) ==> fails_with(
                r,
                ErrorKind::Config,
                name@,
            ) && final(self)@ == old(self)@,
    {
        self.create_from(name, posting_allowed, 0)
    }

    /// Creates a group without rows that continues an earlier numbering: it
    /// has the given high-water mark, so that its first article gets the
    /// number after it. This is how a group is brought back whose numbers
    /// must not be handed out again.
    ///
    /// The name must not be empty, no group of that name may exist, and the
    /// mark must not exceed [`MAX_ARTICLE_NUMBER`]; otherwise the index is
    /// unchanged and the failure is a configuration error that carries the
    /// name.
    pub fn create_from(&mut self, name: &[u8], posting_allowed: bool, high_water: u64) -> (r:
        Result<(), Error>)
        requires
            old(self).wf(),
        ensures
            final(self).wf(),
            name@.len() > 0 && !has_group(old(self)@, name@) && high_water <= MAX_ARTICLE_NUMBER
                ==> r is Ok && final(self)@ == old(self)@.push(
                vacant(name@, posting_allowed, high_water),
            ),
            !(name@.len() > 0 && !has_group(old(self)@, name@) && high_water
                <= MAX_ARTICLE_NUMBER) ==> fails_with(r, ErrorKind::Config, name@) && final(self)@
                == old(self)@,
    {
        if name.len() == 0 || high_water > MAX_ARTICLE_NUMBER || self.position(name).is_some() {
            return Err(Error::Config(copy_bytes(name)));
        }
        let shelf = Shelf {
            group: Group {
                name: copy_bytes(name),
                low_water: high_water + 1,
                high_water,
                posting_allowed,
            },
            rows: Vec::new(),
        };
        assert(shelf@ =~= vacant(name@, posting_allowed, high_water)) by {
            assert(rows_of(shelf.rows@) =~= Seq::<Row>::empty());
        }
        self.shelves.push(shelf);
        assert(self@ =~= old(self)@.push(vacant(name@, posting_allowed, high_water)));
        Ok(())
    }

    /// Adds a row at the end of the group at position `i` and returns its
    /// number, the one after the group's high-water mark.
    pub fn allocate_at(
        &mut self,
        i: usize,
        message_id: &[u8],
        snapshot: Snapshot,
        posted_at: u64,
    ) -> (n: u64)
        requires
            old(self).wf(),
            i < old(self)@.len(),
            old(self)@[i as int].high < MAX_ARTICLE_NUMBER,
        ensures
            final(self).wf(),
            n == old(self)@[i as int].high + 1,
            final(self)@ == old(self)@.update(
                i as int,
                allocated(old(self)@[i as int], message_id@, snapshot@, posted_at),
            ),
    {
        let ghost before = self@[i as int];
        let n = self.shelves[i].group.high_water + 1;
        let row = OverviewRow {
            group_name: copy_bytes(self.shelves[i].group.name.as_slice()),
            article_number: n,
            message_id: copy_bytes(message_id),
            snapshot,
            posted_at,
        };
        let ghost prior_rows = self.shelves@[i as int].rows@;
        self.shelves[i].rows.push(row);
        self.shelves[i].group.high_water = n;
        proof {
            assert(rows_of(self.shelves@[i as int].rows@) =~= rows_of(prior_rows).push(row@));
            lemma_allocated_wf(before, message_id@, snapshot@, posted_at);
            assert(self@ =~= old(self)@.update(
                i as int,
                allocated(before, message_id@, snapshot@, posted_at),
            ));
        }
        n
    }

    /// Gives the article the next number of the group and records its row.
    ///
    /// Fails without any change if no group of that name exists, or if the
    /// group has handed out its last number, [`MAX_ARTICLE_NUMBER`].
    pub fn allocate(
        &mut self,
        group_name: &[u8],
        message_id: &[u8],
        snapshot: Snapshot,
        posted_at: u64,
    ) -> (r: Result<u64, Error>)
        requires
            old(self).wf(),
        ensures
            final(self).wf(),
            !has_group(old(self)@, group_name@) ==> fails_with(
                r,
                ErrorKind::GroupNotFound,
                group_name@,
            ) && final(self)@ == old(self)@,
            has_group(old(self)@, group_name@) && listing(old(self)@, group_name@).high
                >= MAX_ARTICLE_NUMBER ==> fails_with(
                r,
                ErrorKind::BackendUnavailable,
                group_name@,
            ) && final(self)@ == old(self)@,
            has_group(old(self)@, group_name@) && listing(old(self)@, group_name@).high
                < MAX_ARTICLE_NUMBER ==> r == Ok::<u64, Error>(
                (listing(old(self)@, group_name@).high + 1) as u64,
            ) && final(self)@ == old(self)@.update(
                slot(old(self)@, group_name@),
                allocated(listing(old(self)@, group_name@), message_id@, snapshot@, posted_at),
            ),
    {
        match self.position(group_name) {
            None => Err(Error::GroupNotFound(copy_bytes(group_name))),
            Some(i) => {
                proof {
                    lemma_slot(self@, i as int);
                }
                if self.shelves[i].group.high_water >= MAX_ARTICLE_NUMBER {
                    Err(Error::BackendUnavailable(copy_bytes(group_name)))
                } else {
                    Ok(self.allocate_at(i, message_id, snapshot, posted_at))
                }
            },
        }
    }

    /// The low-water and the high-water mark of a group, in this order.
    pub fn watermarks(&self, group_name: &[u8]) -> (r: Result<(u64, u64), Error>)
        requires
            self.wf(),
        ensures
            has_group(self@, group_name@) ==> r == Ok::<(u64, u64), Error>(
                (listing(self@, group_name@).low, listing(self@, group_name@).high),
            ),
            !has_group(self@, group_name@) ==> fails_with(r, ErrorKind::GroupNotFound, group_name@),
    {
        match self.position(group_name) {
            None => Err(Error::GroupNotFound(copy_bytes(group_name))),
            Some(i) => {
                proof {
                    lemma_slot(self@, i as int);
                }
                Ok((self.shelves[i].group.low_water, self.shelves[i].group.high_water))
            },
        }
    }

    /// The rows of a group numbered from `lo` to `hi`, both included, oldest
    /// first. Each call starts afresh; nothing is kept between calls.
    pub fn list(&self, group_name: &[u8], lo: u64, hi: u64) -> (r: Result<Vec<OverviewRow>, Error>)
        requires
            self.wf(),
        ensures
            has_group(self@, group_name@) ==> (r matches Ok(rows) && rows_of(rows@) == window(
                listing(self@, group_name@),
                lo,
                hi,
            )),
            !has_group(self@, group_name@) ==> fails_with(r, ErrorKind::GroupNotFound, group_name@),
    {
        match self.position(group_name) {
            None => Err(Error::GroupNotFound(copy_bytes(group_name))),
            Some(i) => {
                proof {
                    lemma_slot(self@, i as int);
                }
                let shelf = &self.shelves[i];
                let from = if lo < shelf.group.low_water {
                    shelf.group.low_water
                } else {
                    lo
                };
                let to = if hi > shelf.group.high_water {
                    shelf.group.high_water
                } else {
                    hi
                };
                let ghost all = rows_of(shelf.rows@);
                let ghost p = numbered(from, to);
                let mut out: Vec<OverviewRow> = Vec::new();
                let mut k: usize = 0;
                proof {
                    reveal(Seq::filter);
                    assert(all.take(0) =~= Seq::<Row>::empty());
                    assert(rows_of(out@) =~= Seq::<Row>::empty());
                }
                while k < shelf.rows.len()
                    invariant
                        k <= shelf.rows.len(),
                        all == rows_of(shelf.rows@),
                        p == numbered(from, to),
                        rows_of(out@) == all.take(k as int).filter(p),
                    decreases shelf.rows.len() - k,
                {
                    let row = &shelf.rows[k];
                    proof {
                        lemma_filter_step(all, p, k as int);
                    }
                    if from <= row.article_number && row.article_number <= to {
                        let copy = row.duplicate();
                        assert(rows_of(out@.push(copy)) =~= rows_of(out@).push(copy@));
                        out.push(copy);
                    }
                    k += 1;
                }
                assert(all.take(all.len() as int) =~= all);
                Ok(out)
            },
        }
    }

    /// The oldest row of a group numbered from `lo` to `hi`, both included,
    /// if there is one.
    ///
    /// This is the step of a lazy walk through a group: ask for the oldest
    /// row in the range, then again from the number after the one received.
    /// The index keeps no cursor between the calls.
    pub fn first_in(&self, group_name: &[u8], lo: u64, hi: u64) -> (r: Result<
        Option<OverviewRow>,
        Error,
    >)
        requires
            self.wf(),
        ensures
            has_group(self@, group_name@) ==> (r matches Ok(found) && match found {
                Some(row) => window(listing(self@, group_name@), lo, hi).len() > 0 && row@
                    == window(listing(self@, group_name@), lo, hi)[0],
                None => window(listing(self@, group_name@), lo, hi).len() == 0,
            }),
            !has_group(self@, group_name@) ==> fails_with(r, ErrorKind::GroupNotFound, group_name@),
    {
        match self.position(group_name) {
            None => Err(Error::GroupNotFound(copy_bytes(group_name))),
            Some(i) => {
                proof {
                    lemma_slot(self@, i as int);
                }
                let shelf = &self.shelves[i];
                let from = if lo < shelf.group.low_water {
                    shelf.group.low_water
                } else {
                    lo
                };
                let to = if hi > shelf.group.high_water {
                    shelf.group.high_water
                } else {
                    hi
                };
                let ghost all = rows_of(shelf.rows@);
                let ghost p = numbered(from, to);
                let mut k: usize = 0;
                proof {
                    reveal(Seq::filter);
                    assert(all.take(0) =~= Seq::<Row>::empty());
                }
                while k < shelf.rows.len()
                    invariant
                        k <= shelf.rows.len(),
                        all == rows_of(shelf.rows@),
                        p == numbered(from, to),
                        has_group(self@, group_name@),
                        window(listing(self@, group_name@), lo, hi) == all.filter(p),
                        all.take(k as int).filter(p).len() == 0,
                    decreases shelf.rows.len() - k,
                {
                    let row = &shelf.rows[k];
                    proof {
                        lemma_filter_step(all, p, k as int);
                    }
                    if from <= row.article_number && row.article_number <= to {
                        proof {
                            let head = all.take(k as int + 1);
                            let tail = all.skip(k as int + 1);
                            assert(head + tail =~= all);
                            Seq::filter_distributes_over_add(head, tail, p);
                            assert(head.filter(p)[0] == all[k as int]);
                        }
                        return Ok(Some(row.duplicate()));
                    }
                    k += 1;
                }
                assert(all.take(all.len() as int) =~= all);
                Ok(None)
            },
        }
    }

    /// Removes from a group the rows accepted before `cutoff` and returns
    /// the identifiers they referred to, oldest first.
    ///
    /// The rows that stay keep their numbers; the low-water mark moves up to
    /// the oldest of them, or one past the high-water mark if none stays.
    /// Every other group is untouched.
    pub fn expire(&mut self, group_name: &[u8], cutoff: u64) -> (r: Result<Vec<Vec<u8>>, Error>)
        requires
            old(self).wf(),
        ensures
            final(self).wf(),
            has_group(old(self)@, group_name@) ==> (r matches Ok(gone) && views(gone@) == ids_of(
                listing(old(self)@, group_name@).rows.filter(lapsed(cutoff)),
            ) && final(self)@ == old(self)@.update(
                slot(old(self)@, group_name@),
                expired(listing(old(self)@, group_name@), cutoff),
            )),
            !has_group(old(self)@, group_name@) ==> fails_with(
                r,
                ErrorKind::GroupNotFound,
                group_name@,
            ) && final(self)@ == old(self)@,
    {
        match self.position(group_name) {
            None => Err(Error::GroupNotFound(copy_bytes(group_name))),
            Some(i) => {
                proof {
                    lemma_slot(self@, i as int);
                }
                let ghost before = self@[i as int];
                let ghost all = before.rows;
                let mut src: Vec<OverviewRow> = Vec::new();
                core::mem::swap(&mut self.shelves[i].rows, &mut src);
                let ghost mid = self.shelves@;
                let mut kept: Vec<OverviewRow> = Vec::new();
                let mut gone: Vec<Vec<u8>> = Vec::new();
                let mut k: usize = 0;
                proof {
                    reveal(Seq::filter);
                    assert(all.take(0) =~= Seq::<Row>::empty());
                    assert(rows_of(kept@) =~= Seq::<Row>::empty());
                    assert(views(gone@) =~= ids_of(Seq::<Row>::empty()));
                }
                while k < src.len()
                    invariant
                        k <= src.len(),
                        src@.len() == all.len(),
                        forall|j: int| k <= j < src@.len() ==> (#[trigger] src@[j])@ == all[j],
                        rows_of(kept@) == all.take(k as int).filter(keeps(cutoff)),
                        views(gone@) == ids_of(all.take(k as int).filter(lapsed(cutoff))),
                    decreases src.len() - k,
                {
                    let mut row = OverviewRow {
                        group_name: Vec::new(),
                        article_number: 0,
                        message_id: Vec::new(),
                        snapshot: Snapshot {
                            subject: Vec::new(),
                            from: Vec::new(),
                            date: Vec::new(),
                            size: 0,
                        },
                        posted_at: 0,
                    };
                    src.set_and_swap(k, &mut row);
                    proof {
                        lemma_filter_step(all, keeps(cutoff), k as int);
                        lemma_filter_step(all, lapsed(cutoff), k as int);
                    }
                    if row.posted_at >= cutoff {
                        assert(rows_of(kept@.push(row)) =~= rows_of(kept@).push(row@));
                        kept.push(row);
                    } else {
                        let ghost prior = all.take(k as int).filter(lapsed(cutoff));
                        assert(views(gone@).len() == ids_of(prior).len());
                        assert forall|j: int| 0 <= j < gone@.len() implies views(
                            gone@.push(row.message_id),
                        )[j] == ids_of(prior.push(row@))[j] by {
                            assert(views(gone@)[j] == ids_of(prior)[j]);
                        }
                        assert(views(gone@.push(row.message_id)) =~= ids_of(prior.push(row@)));
                        gone.push(row.message_id);
                    }
                    k += 1;
                }
                proof {
                    assert(all.take(all.len() as int) =~= all);
                    lemma_expired_wf(before, cutoff);
                }
                let low = if kept.len() > 0 {
                    kept[0].article_number
                } else {
                    self.shelves[i].group.high_water + 1
                };
                assert(low == low_mark(rows_of(kept@), before.high)) by {
                    if kept@.len() > 0 {
                        assert(rows_of(kept@)[0] == kept@[0]@);
                    }
                }
                self.shelves[i].rows = kept;
                self.shelves[i].group.low_water = low;
                assert(self@ =~= old(self)@.update(i as int, expired(before, cutoff)));
                Ok(gone)
            },
        }
    }

    /// Whether some row of some group refers to the identifier.
    pub fn references(&self, message_id: &[u8]) -> (r: bool)
        ensures
            r == cites(self@, message_id@),
    {
        let mut i: usize = 0;
        while i < self.shelves.len()
            invariant
                i <= self.shelves.len(),
                forall|a: int, b: int|
                    0 <= a < i && 0 <= b < self@[a].rows.len() ==> (#[trigger] self@[a].rows[b]).message_id
                        != message_id@,
            decreases self.shelves.len() - i,
        {
            let shelf = &self.shelves[i];
            let mut k: usize = 0;
            while k < shelf.rows.len()
                invariant
                    k <= shelf.rows.len(),
                    i < self.shelves.len(),
                    shelf == &self.shelves@[i as int],
                    forall|b: int|
                        0 <= b < k ==> (#[trigger] self@[i as int].rows[b]).message_id != message_id@,
                decreases shelf.rows.len() - k,
            {
                if bytes_eq(shelf.rows[k].message_id.as_slice(), message_id) {
                    assert(self@[i as int].rows[k as int].message_id == message_id@);
                    return true;
                }
                k += 1;
            }
            i += 1;
        }
        false
    }

    /// Sets whether posting to the group is allowed by default.
    pub fn set_posting_allowed(&mut self, group_name: &[u8], allowed: bool) -> (r: Result<(), Error>)
        requires
            old(self).wf(),
        ensures
            final(self).wf(),
            has_group(old(self)@, group_name@) ==> r is Ok && final(self)@ == old(self)@.update(
                slot(old(self)@, group_name@),
                Listing { posting_allowed: allowed, ..listing(old(self)@, group_name@) },
            ),
            !has_group(old(self)@, group_name@) ==> fails_with(
                r,
                ErrorKind::GroupNotFound,
                group_name@,
            ) && final(self)@ == old(self)@,
    {
        match self.position(group_name) {
            None => Err(Error::GroupNotFound(copy_bytes(group_name))),
            Some(i) => {
                proof {
                    lemma_slot(self@, i as int);
                }
                self.shelves[i].group.posting_allowed = allowed;
                assert(self@ =~= old(self)@.update(
                    i as int,
                    Listing { posting_allowed: allowed, ..old(self)@[i as int] },
                ));
                Ok(())
            },
        }
    }
}

} // verus!
