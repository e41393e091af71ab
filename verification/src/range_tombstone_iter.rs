//! Read-side range tombstone filtering.
//!
//! [`RangeTombstoneIterator`] holds the source of a merged point stream and a
//! side collection of [`RangeTombstone`]s. A point entry is yielded only when
//! no tombstone in the side collection hides it. Neither test looks at other
//! entries, so ascending and descending scans are filtered alike.

use crate::buffer;
use crate::bytes_range::interval_lt;
use crate::range_tombstone;
use crate::range_tombstone::RangeTombstone;
use crate::sorting;
use crate::sorting::{reversed, stable_sort, SortKey};
use crate::types::{IterationOrder, RowEntry};
use crate::wire;
use crate::wire::Tombstone;
use vstd::prelude::*;

verus! {

/// A source of rows, with the tombstones that filter them.
pub struct RangeTombstoneIterator<I> {
    /// Where the rows come from.
    pub inner: I,
    /// All visible tombstones, sorted by descending sequence number.
    tombstones: Vec<RangeTombstone>,
}

/// What to do with what the source of rows handed out.
pub enum ScanStep<E> {
    /// End the call with this result.
    Return(Result<Option<RowEntry>, E>),
    /// Ask the source for another row.
    PullAgain,
}

/// True iff one of the tombstones hides a write to `key` at sequence number
/// `seq`.
pub open spec fn hidden(ts: Seq<Tombstone>, key: Seq<u8>, seq: u64) -> bool {
    exists|i: int| 0 <= i < ts.len() && range_tombstone::covers(#[trigger] ts[i], key, seq)
}

/// True iff a scan with these tombstones yields `entry`.
pub open spec fn visible(ts: Seq<Tombstone>, entry: RowEntry) -> bool {
    !(entry.value is RangeTombstone) && !hidden(ts, buffer::content(entry.key), entry.seq)
}

/// What a scan with these tombstones does with what its source handed out:
/// errors and the end of the stream are passed on, and so are the rows that
/// are visible.
pub open spec fn step<E>(ts: Seq<Tombstone>, pulled: Result<Option<RowEntry>, E>) -> ScanStep<E> {
    match pulled {
        Ok(Some(entry)) => if visible(ts, entry) {
            ScanStep::Return(pulled)
        } else {
            ScanStep::PullAgain
        },
        _ => ScanStep::Return(pulled),
    }
}

impl<I> RangeTombstoneIterator<I> {
    /// Where the rows come from.
    pub closed spec fn source(&self) -> I {
        self.inner
    }

    /// The side collection.
    pub closed spec fn side(&self) -> Seq<RangeTombstone> {
        self.tombstones@
    }

    /// The side collection is sorted by descending sequence number.
    pub open spec fn wf(&self) -> bool {
        sorting::sorted(SortKey::BySeq, self.side())
    }

    /// A scan of `inner`, filtered by `tombstones`.
    pub fn new(inner: I, tombstones: Vec<RangeTombstone>, _order: IterationOrder) -> (r: Self)
        ensures
            r.source() == inner,
            sorting::is_stable_sort(SortKey::BySeq, tombstones@, r.side()),
            r.wf(),
            r.side().to_multiset() == tombstones@.to_multiset(),
            forall|i: int, j: int|
                0 <= i < j < r.side().len() ==> (#[trigger] r.side()[i]).seq >= (#[trigger]
                r.side()[j]).seq,
    {
        let tombstones = stable_sort(SortKey::BySeq, tombstones);
        Self { inner, tombstones }
    }

    /// The side collection, largest sequence number first.
    pub fn tombstones(&self) -> (r: &Vec<RangeTombstone>)
        ensures
            r@ == self.side(),
    {
        &self.tombstones
    }

    /// True iff the scan yields `entry`: it is not itself a range tombstone,
    /// and no tombstone of the side collection hides it.
    pub fn is_visible(&self, entry: &RowEntry) -> (r: bool)
        ensures
            r == visible(wire::views(self.side()), *entry),
            entry.value is RangeTombstone ==> !r,
            forall|k: int|
                0 <= k < self.side().len() && entry.seq < (#[trigger] self.side()[k]).seq
                    && self.side()[k].range@.contains(buffer::content(entry.key)) ==> !r,
            !r ==> entry.value is RangeTombstone || exists|k: int|
                0 <= k < self.side().len() && entry.seq < (#[trigger] self.side()[k]).seq
                    && self.side()[k].range@.contains(buffer::content(entry.key)),
    {
        if entry.is_range_tombstone() {
            return false;
        }
        let ghost ts = wire::views(self.side());
        let mut i: usize = 0;
        while i < self.tombstones.len()
            invariant
                i <= self.tombstones@.len(),
                ts == wire::views(self.tombstones@),
                ts == wire::views(self.side()),
                !(entry.value is RangeTombstone),
                forall|j: int|
                    0 <= j < i ==> !range_tombstone::covers(
                        #[trigger] ts[j],
                        buffer::content(entry.key),
                        entry.seq,
                    ),
            decreases self.tombstones@.len() - i,
        {
            if self.tombstones[i].covers_entry(entry) {
                assert(range_tombstone::covers(
                    ts[i as int],
                    buffer::content(entry.key),
                    entry.seq,
                ));
                return false;
            }
            i += 1;
        }
        assert forall|k: int| 0 <= k < self.side().len() implies !(entry.seq < (#[trigger]
        self.side()[k]).seq && self.side()[k].range@.contains(buffer::content(entry.key))) by {
            assert(!range_tombstone::covers(ts[k], buffer::content(entry.key), entry.seq));
        }
        true
    }

    /// Decides what to do with what `inner` handed out.
    pub fn next_step<E>(&self, pulled: Result<Option<RowEntry>, E>) -> (r: ScanStep<E>)
        ensures
            r == step(wire::views(self.side()), pulled),
            !(r is PullAgain) ==> r == ScanStep::Return(pulled),
            !(pulled matches Ok(Some(_))) ==> !(r is PullAgain),
            pulled matches Ok(Some(entry)) ==> (r is PullAgain <==> entry.value is RangeTombstone
                || exists|k: int|
                0 <= k < self.side().len() && entry.seq < (#[trigger] self.side()[k]).seq
                    && self.side()[k].range@.contains(buffer::content(entry.key))),
    {
        match pulled {
            Ok(Some(entry)) => {
                if self.is_visible(&entry) {
                    ScanStep::Return(Ok(Some(entry)))
                } else {
                    ScanStep::PullAgain
                }
            },
            Ok(None) => ScanStep::Return(Ok(None)),
            Err(e) => ScanStep::Return(Err(e)),
        }
    }
}

/// True iff one of the collections holds the tombstone.
pub open spec fn offered(collections: Seq<Vec<RangeTombstone>>, t: Tombstone) -> bool {
    exists|c: int|
        0 <= c < collections.len() && wire::views((#[trigger] collections[c])@).contains(t)
}

/// True iff each tombstone must stand before all that follow: by descending
/// sequence number, then by descending interval, with none twice.
pub open spec fn strictly_sorted(ts: Seq<Tombstone>) -> bool {
    forall|i: int, j: int|
        0 <= i < j < ts.len() ==> sorting::precedes(
            SortKey::BySeqThenRange,
            #[trigger] ts[i],
            #[trigger] ts[j],
        )
}

/// All tombstones of the collections, one collection after another.
fn flatten(collections: Vec<Vec<RangeTombstone>>) -> (r: Vec<RangeTombstone>)
    ensures
        forall|t: Tombstone| #[trigger]
            wire::views(r@).contains(t) <==> offered(collections@, t),
{
    let mut queue = reversed(collections);
    let mut merged: Vec<RangeTombstone> = Vec::new();
    proof {
        assert forall|t: Tombstone| #[trigger]
            offered(queue@, t) <==> offered(collections@, t) by {
            let n = collections@.len() as int;
            if offered(queue@, t) {
                let c = choose|c: int|
                    0 <= c < n && wire::views((#[trigger] queue@[c])@).contains(t);
                assert(collections@[n - 1 - c] == queue@[c]);
            }
            if offered(collections@, t) {
                let c = choose|c: int|
                    0 <= c < n && wire::views((#[trigger] collections@[c])@).contains(t);
                assert(queue@[n - 1 - c] == collections@[c]);
            }
        }
    }
    while queue.len() > 0
        invariant
            forall|t: Tombstone| #[trigger]
                offered(collections@, t) <==> offered(queue@, t) || wire::views(
                    merged@,
                ).contains(t),
        decreases queue@.len(),
    {
        let ghost (q, m) = (queue@, merged@);
        if let Some(collection) = queue.pop() {
            let mut collection = collection;
            let ghost taken = collection@;
            merged.append(&mut collection);
            proof {
                assert(q =~= queue@.push(q.last()));
                assert forall|t: Tombstone| #[trigger]
                    offered(collections@, t) <==> offered(queue@, t) || wire::views(
                        merged@,
                    ).contains(t) by {
                    lemma_offered_push(queue@, q.last(), t);
                    lemma_views_concat(m, taken, t);
                }
            }
        }
    }
    merged
}

/// What a collection more adds to what is offered.
proof fn lemma_offered_push(
    collections: Seq<Vec<RangeTombstone>>,
    last: Vec<RangeTombstone>,
    t: Tombstone,
)
    ensures
        offered(collections.push(last), t) <==> offered(collections, t) || wire::views(
            last@,
        ).contains(t),
{
    let all = collections.push(last);
    if offered(collections, t) {
        let c = choose|c: int|
            0 <= c < collections.len() && wire::views((#[trigger] collections[c])@).contains(t);
        assert(all[c] == collections[c]);
    }
    if wire::views(last@).contains(t) {
        assert(all[collections.len() as int] == last);
    }
    if offered(all, t) {
        let c = choose|c: int|
            0 <= c < all.len() && wire::views((#[trigger] all[c])@).contains(t);
        if c < collections.len() {
            assert(all[c] == collections[c]);
        }
    }
}

/// What stands in two lists, one after the other.
proof fn lemma_views_concat(a: Seq<RangeTombstone>, b: Seq<RangeTombstone>, t: Tombstone)
    ensures
        wire::views(a + b).contains(t) <==> wire::views(a).contains(t) || wire::views(
            b,
        ).contains(t),
{
    assert(wire::views(a + b) =~= wire::views(a) + wire::views(b));
    if wire::views(a).contains(t) {
        let i = choose|i: int| 0 <= i < a.len() && wire::views(a)[i] == t;
        assert(wire::views(a + b)[i] == t);
    }
    if wire::views(b).contains(t) {
        let i = choose|i: int| 0 <= i < b.len() && wire::views(b)[i] == t;
        assert(wire::views(a + b)[a.len() + i] == t);
    }
}

/// Drops from a sorted list each tombstone that equals the one before it.
fn dedup(tombstones: Vec<RangeTombstone>) -> (r: Vec<RangeTombstone>)
    requires
        sorting::sorted(SortKey::BySeqThenRange, tombstones@),
    ensures
        strictly_sorted(wire::views(r@)),
        forall|t: Tombstone| #[trigger]
            wire::views(r@).contains(t) <==> wire::views(tombstones@).contains(t),
{
    let ghost all = wire::views(tombstones@);
    let ghost mut done: int = 0;
    let mut rest = reversed(tombstones);
    let mut kept: Vec<RangeTombstone> = Vec::new();
    while rest.len() > 0
        invariant
            sorting::sorted(SortKey::BySeqThenRange, tombstones@),
            all == wire::views(tombstones@),
            0 <= done,
            done + rest@.len() == tombstones@.len(),
            rest@ == tombstones@.reverse().take(rest@.len() as int),
            strictly_sorted(wire::views(kept@)),
            done == 0 ==> kept@.len() == 0,
            done > 0 ==> kept@.len() > 0 && kept@.last()@ == all[done - 1],
            forall|t: Tombstone| #[trigger]
                wire::views(kept@).contains(t) <==> all.take(done).contains(t),
        decreases rest@.len(),
    {
        let ghost before = kept@;
        if let Some(tombstone) = rest.pop() {
            assert(tombstone == tombstones@[done]);
            let repeated = kept.len() > 0 && tombstone == kept[kept.len() - 1];
            if !repeated {
                kept.push(tombstone);
            }
            proof {
                let t = all[done];
                assert(all.take(done + 1) =~= all.take(done).push(t));
                if repeated {
                    assert(wire::views(before)[before.len() - 1] == t);
                    assert forall|u: Tombstone| #[trigger]
                        wire::views(kept@).contains(u) <==> all.take(done + 1).contains(u) by {
                        lemma_contains_push(all.take(done), t, u);
                    }
                } else {
                    assert(wire::views(kept@) =~= wire::views(before).push(t));
                    assert forall|u: Tombstone| #[trigger]
                        wire::views(kept@).contains(u) <==> all.take(done + 1).contains(u) by {
                        lemma_contains_push(all.take(done), t, u);
                        lemma_contains_push(wire::views(before), t, u);
                    }
                    if done > 0 {
                        let last = all[done - 1];
                        assert(!sorting::precedes(
                            SortKey::BySeqThenRange,
                            tombstones@[done]@,
                            tombstones@[done - 1]@,
                        ));
                        assert(last != t);
                        sorting::lemma_distinct_precede(last, t);
                        assert forall|i: int| 0 <= i < before.len() implies sorting::precedes(
                            SortKey::BySeqThenRange,
                            #[trigger] wire::views(before)[i],
                            t,
                        ) by {
                            assert(wire::views(before)[before.len() - 1] == last);
                            sorting::lemma_precedes_chain(
                                SortKey::BySeqThenRange,
                                wire::views(before)[i],
                                last,
                                t,
                            );
                            sorting::lemma_precedes_chain(SortKey::BySeqThenRange, t, last, t);
                        }
                    }
                }
                done = done + 1;
            }
        }
    }
    assert(all.take(done) =~= all);
    kept
}

/// What stands in a list that one element was appended to.
proof fn lemma_contains_push<A>(s: Seq<A>, last: A, a: A)
    ensures
        s.push(last).contains(a) <==> s.contains(a) || a == last,
{
    if s.contains(a) {
        let i = choose|i: int| 0 <= i < s.len() && s[i] == a;
        assert(s.push(last)[i] == a);
    }
    assert(s.push(last)[s.len() as int] == last);
}

/// Merge several tombstone collections (write batch, memtables, on-disk SSTs)
/// into one de-duplicated, descending-sequence list. De-duplication matters on
/// the flush/compaction boundary, where the same interval may briefly be
/// visible from a memtable and from an L0 SST.
pub fn merge_tombstone_collections(collections: Vec<Vec<RangeTombstone>>) -> (r: Vec<
    RangeTombstone,
>)
    ensures
        strictly_sorted(wire::views(r@)),
        forall|t: Tombstone| #[trigger]
            wire::views(r@).contains(t) <==> offered(collections@, t),
        forall|i: int, j: int|
            0 <= i < j < r@.len() ==> (#[trigger] r@[i]).seq > (#[trigger] r@[j]).seq || (r@[i].seq
                == r@[j].seq && interval_lt(r@[j].range@, r@[i].range@)),
        forall|i: int|
            #![trigger r@[i]]
            0 <= i < r@.len() ==> exists|c: int, k: int|
                #![trigger collections@[c]@[k]]
                0 <= c < collections@.len() && 0 <= k < collections@[c]@.len()
                    && collections@[c]@[k].seq == r@[i].seq && collections@[c]@[k].range@
                    == r@[i].range@,
        forall|c: int, k: int|
            0 <= c < collections@.len() && 0 <= k < collections@[c]@.len() ==> exists|i: int|
                0 <= i < r@.len() && (#[trigger] r@[i]).seq == (#[trigger]
                collections@[c]@[k]).seq && r@[i].range@ == collections@[c]@[k].range@,
{
    let merged = flatten(collections);
    let ghost flat = merged@;
    let merged = stable_sort(SortKey::BySeqThenRange, merged);
    proof {
        sorting::lemma_stable_sort_keeps(SortKey::BySeqThenRange, flat, merged@);
        assert forall|t: Tombstone| #[trigger]
            wire::views(merged@).contains(t) <==> wire::views(flat).contains(t) by {
            sorting::lemma_views_follow(merged@, flat, t);
            sorting::lemma_views_follow(flat, merged@, t);
        }
    }
    let merged = dedup(merged);
    proof {
        let ts = wire::views(merged@);
        assert forall|i: int, j: int| 0 <= i < j < merged@.len() implies (#[trigger]
        merged@[i]).seq > (#[trigger] merged@[j]).seq || (merged@[i].seq == merged@[j].seq
            && interval_lt(merged@[j].range@, merged@[i].range@)) by {
            assert(sorting::precedes(SortKey::BySeqThenRange, ts[i], ts[j]));
        }
        assert forall|i: int|
            #![trigger merged@[i]]
            0 <= i < merged@.len() implies exists|c: int, k: int|
            #![trigger collections@[c]@[k]]
            0 <= c < collections@.len() && 0 <= k < collections@[c]@.len()
                && collections@[c]@[k].seq == merged@[i].seq && collections@[c]@[k].range@
                == merged@[i].range@ by {
            assert(ts.contains(ts[i]));
            let c = choose|c: int|
                0 <= c < collections@.len() && wire::views((#[trigger] collections@[c])@).contains(
                    ts[i],
                );
            let k = choose|k: int|
                0 <= k < collections@[c]@.len() && wire::views(collections@[c]@)[k] == ts[i];
            assert(collections@[c]@[k]@ == merged@[i]@);
            assert(collections@[c]@[k].range@ == merged@[i].range@);
        }
        assert forall|c: int, k: int|
            0 <= c < collections@.len() && 0 <= k < collections@[c]@.len() implies exists|i: int|
            0 <= i < merged@.len() && (#[trigger] merged@[i]).seq == (#[trigger]
            collections@[c]@[k]).seq && merged@[i].range@ == collections@[c]@[k].range@ by {
            let t = collections@[c]@[k]@;
            assert(wire::views(collections@[c]@)[k] == t);
            assert(offered(collections@, t));
            assert(ts.contains(t));
            let i = choose|i: int| 0 <= i < ts.len() && ts[i] == t;
            assert(merged@[i]@ == t);
        }
    }
    merged
}

} // verus!
