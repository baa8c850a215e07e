//! A partition of records keyed by identifier, newest first, and the two
//! reads that pagination asks of it.
//!
//! [`Partition`] is a snapshot of the records that belong to one owner. It
//! never changes a payload: it only places records by their identifiers and
//! hands them out again.

use crate::identifier::Identifier;
use vstd::prelude::*;

verus! {

/// A record and the identifier under which it is stored.
#[derive(Debug, Clone, PartialEq, Eq)]
pub struct OrderedItem<T> {
    /// The record's key, which is also its place in time.
    pub id: Identifier,
    /// Whatever the owner stores. Nothing here reads it.
    pub payload: T,
}

/// The least and the greatest identifier present in a partition.
#[derive(Debug, Clone, Copy, PartialEq, Eq, Structural)]
pub struct Bounds {
    /// The identifier of the oldest record.
    pub min_id: Identifier,
    /// The identifier of the newest record.
    pub max_id: Identifier,
}

/// Whether `id` lies under an exclusive upper bound. No bound admits every identifier.
pub open spec fn below(bound: Option<Identifier>, id: Identifier) -> bool {
    bound matches Some(limit) ==> id < limit
}

/// Whether the identifiers strictly fall from each record to the next, so
/// that the newest record comes first and no identifier occurs twice.
pub open spec fn descending<T>(items: Seq<OrderedItem<T>>) -> bool {
    forall|i: int, j: int| 0 <= i < j < items.len() ==> items[i].id > items[j].id
}

/// Whether some record of `items` is stored under `id`.
pub open spec fn holds<T>(items: Seq<OrderedItem<T>>, id: Identifier) -> bool {
    exists|i: int| 0 <= i < items.len() && #[trigger] items[i].id == id
}

/// The records of `items` that lie under `bound`, in their order.
pub open spec fn older_than<T>(items: Seq<OrderedItem<T>>, bound: Option<Identifier>) -> Seq<
    OrderedItem<T>,
> {
    items.filter(|item: OrderedItem<T>| below(bound, item.id))
}

/// The records of `items` with an identifier greater than `id`, in their order.
pub open spec fn newer_than<T>(items: Seq<OrderedItem<T>>, id: Identifier) -> Seq<OrderedItem<T>> {
    items.filter(|item: OrderedItem<T>| item.id > id)
}

/// The first `limit` records of `items` that lie under `bound`, or all of
/// them where there are fewer.
pub open spec fn window_of<T>(
    items: Seq<OrderedItem<T>>,
    bound: Option<Identifier>,
    limit: nat,
) -> Seq<OrderedItem<T>> {
    let admitted = older_than(items, bound);
    if limit < admitted.len() {
        admitted.take(limit as int)
    } else {
        admitted
    }
}

/// `items` with `item` put between the records that are newer than it and
/// those that are older.
pub open spec fn placed<T>(items: Seq<OrderedItem<T>>, item: OrderedItem<T>) -> Seq<
    OrderedItem<T>,
> {
    newer_than(items, item.id).push(item) + older_than(items, Some(item.id))
}

/// The least identifier among `items`, which must not be empty.
pub open spec fn least_id<T>(items: Seq<OrderedItem<T>>) -> Identifier
    recommends
        items.len() > 0,
    decreases items.len(),
{
    if items.len() <= 1 {
        items[0].id
    } else {
        let rest = least_id(items.drop_last());
        if items.last().id < rest {
            items.last().id
        } else {
            rest
        }
    }
}

/// The greatest identifier among `items`, which must not be empty.
pub open spec fn greatest_id<T>(items: Seq<OrderedItem<T>>) -> Identifier
    recommends
        items.len() > 0,
    decreases items.len(),
{
    if items.len() <= 1 {
        items[0].id
    } else {
        let rest = greatest_id(items.drop_last());
        if items.last().id > rest {
            items.last().id
        } else {
            rest
        }
    }
}

/// The bounds of `items`: none where there is no record.
pub open spec fn bounds_of<T>(items: Seq<OrderedItem<T>>) -> Option<Bounds> {
    if items.len() == 0 {
        None
    } else {
        Some(Bounds { min_id: least_id(items), max_id: greatest_id(items) })
    }
}

/// The least identifier belongs to a record, and no record has a lesser one.
pub proof fn lemma_least_id<T>(items: Seq<OrderedItem<T>>)
    requires
        items.len() > 0,
    ensures
        holds(items, least_id(items)),
        forall|i: int| 0 <= i < items.len() ==> least_id(items) <= #[trigger] items[i].id,
    decreases items.len(),
{
    if items.len() <= 1 {
        assert(items[0].id == least_id(items));
    } else {
        let front = items.drop_last();
        lemma_least_id(front);
        let k = choose|k: int| 0 <= k < front.len() && #[trigger] front[k].id == least_id(front);
        assert(items[k] == front[k]);
        assert(items[items.len() - 1].id == items.last().id);
        assert forall|i: int| 0 <= i < items.len() implies least_id(items) <= #[trigger] items[i].id by {
            if i < front.len() {
                assert(items[i] == front[i]);
            }
        }
    }
}

/// The greatest identifier belongs to a record, and no record has a greater one.
pub proof fn lemma_greatest_id<T>(items: Seq<OrderedItem<T>>)
    requires
        items.len() > 0,
    ensures
        holds(items, greatest_id(items)),
        forall|i: int| 0 <= i < items.len() ==> greatest_id(items) >= #[trigger] items[i].id,
    decreases items.len(),
{
    if items.len() <= 1 {
        assert(items[0].id == greatest_id(items));
    } else {
        let front = items.drop_last();
        lemma_greatest_id(front);
        let k = choose|k: int| 0 <= k < front.len() && #[trigger] front[k].id == greatest_id(front);
        assert(items[k] == front[k]);
        assert(items[items.len() - 1].id == items.last().id);
        assert forall|i: int| 0 <= i < items.len() implies greatest_id(items) >= #[trigger] items[i].id by {
            if i < front.len() {
                assert(items[i] == front[i]);
            }
        }
    }
}

/// In a descending sequence the oldest record is the last and the newest the first.
pub proof fn lemma_bounds_of_descending<T>(items: Seq<OrderedItem<T>>)
    requires
        descending(items),
        items.len() > 0,
    ensures
        least_id(items) == items.last().id,
        greatest_id(items) == items.first().id,
{
    lemma_least_id(items);
    lemma_greatest_id(items);
    assert(least_id(items) <= items[items.len() - 1].id);
    assert(greatest_id(items) >= items[0].id);
}

/// A filter keeps a sequence whole where every element passes.
pub proof fn lemma_filter_keeps_all<A>(s: Seq<A>, pred: spec_fn(A) -> bool)
    requires
        forall|i: int| 0 <= i < s.len() ==> pred(#[trigger] s[i]),
    ensures
        s.filter(pred) == s,
    decreases s.len(),
{
    reveal(Seq::filter);
    if s.len() > 0 {
        let front = s.drop_last();
        assert forall|i: int| 0 <= i < front.len() implies pred(#[trigger] front[i]) by {
            assert(front[i] == s[i]);
        }
        lemma_filter_keeps_all(front, pred);
        assert(pred(s[s.len() - 1]));
        assert(front.push(s.last()) =~= s);
    }
}

/// A filter leaves nothing where no element passes.
pub proof fn lemma_filter_drops_all<A>(s: Seq<A>, pred: spec_fn(A) -> bool)
    requires
        forall|i: int| 0 <= i < s.len() ==> !pred(#[trigger] s[i]),
    ensures
        s.filter(pred) == Seq::<A>::empty(),
    decreases s.len(),
{
    reveal(Seq::filter);
    if s.len() > 0 {
        let front = s.drop_last();
        assert forall|i: int| 0 <= i < front.len() implies !pred(#[trigger] front[i]) by {
            assert(front[i] == s[i]);
        }
        lemma_filter_drops_all(front, pred);
        assert(!pred(s[s.len() - 1]));
    } else {
        assert(s =~= Seq::<A>::empty());
    }
}

/// Where exactly the elements from index `k` on pass, the filter keeps that tail.
pub proof fn lemma_filter_keeps_tail<A>(s: Seq<A>, pred: spec_fn(A) -> bool, k: int)
    requires
        0 <= k <= s.len(),
        forall|i: int| 0 <= i < k ==> !pred(#[trigger] s[i]),
        forall|i: int| k <= i < s.len() ==> pred(#[trigger] s[i]),
    ensures
        s.filter(pred) == s.skip(k),
{
    let head = s.take(k);
    let tail = s.skip(k);
    assert(head + tail =~= s);
    lemma_filter_drops_all(head, pred);
    lemma_filter_keeps_all(tail, pred);
    Seq::filter_distributes_over_add(head, tail, pred);
    assert(Seq::<A>::empty() + tail =~= tail);
}

/// Where exactly the elements before index `k` pass, the filter keeps that head.
pub proof fn lemma_filter_keeps_head<A>(s: Seq<A>, pred: spec_fn(A) -> bool, k: int)
    requires
        0 <= k <= s.len(),
        forall|i: int| 0 <= i < k ==> pred(#[trigger] s[i]),
        forall|i: int| k <= i < s.len() ==> !pred(#[trigger] s[i]),
    ensures
        s.filter(pred) == s.take(k),
{
    let head = s.take(k);
    let tail = s.skip(k);
    assert(head + tail =~= s);
    lemma_filter_keeps_all(head, pred);
    lemma_filter_drops_all(tail, pred);
    Seq::filter_distributes_over_add(head, tail, pred);
    assert(head + Seq::<A>::empty() =~= head);
}

/// In a descending sequence the records under a bound are a tail: the one
/// that starts at the first record under the bound.
pub proof fn lemma_older_than_is_tail<T>(items: Seq<OrderedItem<T>>, bound: Identifier, k: int)
    requires
        0 <= k <= items.len(),
        forall|i: int| 0 <= i < k ==> (#[trigger] items[i]).id >= bound,
        forall|i: int| k <= i < items.len() ==> (#[trigger] items[i]).id < bound,
    ensures
        older_than(items, Some(bound)) == items.skip(k),
{
    lemma_filter_keeps_tail(items, |item: OrderedItem<T>| below(Some(bound), item.id), k);
}

/// Without a bound every record is admitted.
pub proof fn lemma_older_than_unbounded<T>(items: Seq<OrderedItem<T>>)
    ensures
        older_than(items, None) == items,
{
    lemma_filter_keeps_all(items, |item: OrderedItem<T>| below(None, item.id));
}

/// The number of records at the head of `items` that do not lie under `bound`.
pub open spec fn skipped<T>(items: Seq<OrderedItem<T>>, bound: Option<Identifier>) -> nat {
    (items.len() - older_than(items, bound).len()) as nat
}

/// In a descending sequence the records under a bound are those that follow
/// the first [`skipped`] records.
pub proof fn lemma_older_than_skips<T>(items: Seq<OrderedItem<T>>, bound: Option<Identifier>)
    requires
        descending(items),
    ensures
        skipped(items, bound) <= items.len(),
        older_than(items, bound) == items.skip(skipped(items, bound) as int),
        forall|i: int| 0 <= i < skipped(items, bound) ==> !below(bound, (#[trigger] items[i]).id),
        forall|i: int|
            skipped(items, bound) <= i < items.len() ==> below(bound, (#[trigger] items[i]).id),
{
    match bound {
        None => {
            lemma_older_than_unbounded(items);
        },
        Some(limit) => {
            let k = lemma_first_below(items, limit);
            lemma_older_than_is_tail(items, limit, k);
        },
    }
}

/// A descending sequence splits at some index into the records that are not
/// under `bound` and those that are.
proof fn lemma_first_below<T>(items: Seq<OrderedItem<T>>, bound: Identifier) -> (k: int)
    requires
        descending(items),
    ensures
        0 <= k <= items.len(),
        forall|i: int| 0 <= i < k ==> (#[trigger] items[i]).id >= bound,
        forall|i: int| k <= i < items.len() ==> (#[trigger] items[i]).id < bound,
    decreases items.len(),
{
    if items.len() == 0 || items[0].id < bound {
        assert forall|i: int| 0 <= i < items.len() implies (#[trigger] items[i]).id < bound by {
            if i > 0 {
                assert(items[0].id > items[i].id);
            }
        }
        0
    } else {
        let rest = items.drop_first();
        assert forall|i: int, j: int| 0 <= i < j < rest.len() implies rest[i].id > rest[j].id by {
            assert(rest[i] == items[i + 1] && rest[j] == items[j + 1]);
        }
        let k = lemma_first_below(rest, bound);
        assert forall|i: int| 0 <= i < k + 1 implies (#[trigger] items[i]).id >= bound by {
            if i > 0 {
                assert(items[i] == rest[i - 1]);
            }
        }
        assert forall|i: int| k + 1 <= i < items.len() implies (#[trigger] items[i]).id < bound by {
            assert(items[i] == rest[i - 1]);
        }
        k + 1
    }
}

/// The window that a descending sequence yields is a run of it: the records
/// that follow the skipped ones, cut off at `limit`.
pub proof fn lemma_window_is_run<T>(
    items: Seq<OrderedItem<T>>,
    bound: Option<Identifier>,
    limit: nat,
)
    requires
        descending(items),
    ensures
        ({
            let start = skipped(items, bound) as int;
            let rest = items.len() - start;
            let length = if limit < rest { limit as int } else { rest };
            &&& 0 <= start <= items.len()
            &&& window_of(items, bound, limit) == items.subrange(start, start + length)
        }),
        descending(window_of(items, bound, limit)),
{
    lemma_older_than_skips(items, bound);
    let start = skipped(items, bound) as int;
    let rest = items.len() - start;
    let length = if limit < rest { limit as int } else { rest };
    assert(items.skip(start).len() == rest);
    assert(window_of(items, bound, limit) =~= items.subrange(start, start + length));
}

/// A snapshot of the records of one owner, newest first, no identifier twice.
pub struct Partition<T> {
    items: Vec<OrderedItem<T>>,
}

impl<T> View for Partition<T> {
    type V = Seq<OrderedItem<T>>;

    /// The records, newest first.
    closed spec fn view(&self) -> Seq<OrderedItem<T>> {
        self.items@
    }
}

impl<T> Partition<T> {
    #[verifier::type_invariant]
    spec fn ordered(&self) -> bool {
        descending(self.items@)
    }

    /// A partition without records.
    pub fn new() -> (partition: Self)
        ensures
            partition@ == Seq::<OrderedItem<T>>::empty(),
    {
        Partition { items: Vec::new() }
    }

    /// The number of records.
    pub fn len(&self) -> (n: usize)
        ensures
            n == self@.len(),
    {
        self.items.len()
    }

    /// The records, newest first.
    pub fn as_slice(&self) -> (items: &[OrderedItem<T>])
        ensures
            items@ == self@,
            descending(items@),
    {
        proof {
            use_type_invariant(self);
        }
        self.items.as_slice()
    }

    /// The number of records with an identifier greater than `id`: the
    /// index at which a record stored under `id` stands or would stand.
    fn rank(&self, id: Identifier) -> (k: usize)
        ensures
            k <= self@.len(),
            forall|i: int| 0 <= i < k ==> (#[trigger] self@[i]).id > id,
            forall|i: int| k <= i < self@.len() ==> (#[trigger] self@[i]).id <= id,
    {
        proof {
            use_type_invariant(self);
        }
        let mut lo: usize = 0;
        let mut hi: usize = self.items.len();
        while lo < hi
            invariant
                lo <= hi <= self.items.len(),
                descending(self.items@),
                forall|i: int| 0 <= i < lo ==> (#[trigger] self.items@[i]).id > id,
                forall|i: int| hi <= i < self.items.len() ==> (#[trigger] self.items@[i]).id <= id,
            decreases hi - lo,
        {
            let mid: usize = lo + (hi - lo) / 2;
            if self.items[mid].id > id {
                lo = mid + 1;
            } else {
                hi = mid;
            }
        }
        lo
    }

    /// The index of the first record with an identifier under `bound`, which
    /// is the number of records that are not under it.
    fn first_below(&self, bound: Identifier) -> (k: usize)
        ensures
            k <= self@.len(),
            forall|i: int| 0 <= i < k ==> (#[trigger] self@[i]).id >= bound,
            forall|i: int| k <= i < self@.len() ==> (#[trigger] self@[i]).id < bound,
    {
        if bound == 0 {
            self.items.len()
        } else {
            self.rank(bound - 1)
        }
    }

    /// The record stored under `id`, if there is one.
    pub fn get(&self, id: Identifier) -> (found: Option<&OrderedItem<T>>)
        ensures
            found is Some <==> holds(self@, id),
            found matches Some(item) ==> item.id == id && self@.contains(*item),
    {
        proof {
            use_type_invariant(self);
        }
        let k: usize = self.rank(id);
        if k < self.items.len() && self.items[k].id == id {
            assert(self@[k as int].id == id);
            Some(&self.items[k])
        } else {
            assert forall|i: int| 0 <= i < self@.len() implies (#[trigger] self@[i]).id != id by {
                if i > k {
                    assert(self@[k as int].id > self@[i].id);
                }
            }
            None
        }
    }

    /// Stores `item` at its place in time. Where a record is already stored
    /// under its identifier, nothing changes and `item` comes back.
    pub fn insert(&mut self, item: OrderedItem<T>) -> (rejected: Result<(), OrderedItem<T>>)
        ensures
            holds(old(self)@, item.id) ==> rejected == Err::<(), OrderedItem<T>>(item) && final(self)@
                == old(self)@,
            !holds(old(self)@, item.id) ==> rejected is Ok && final(self)@ == placed(
                old(self)@,
                item,
            ),
            descending(final(self)@),
    {
        proof {
            use_type_invariant(&*self);
        }
        let id: Identifier = item.id;
        let k: usize = self.rank(id);
        if k < self.items.len() && self.items[k].id == id {
            assert(old(self)@[k as int].id == id);
            return Err(item);
        }
        proof {
            let before = old(self)@;
            assert forall|i: int| k <= i < before.len() implies (#[trigger] before[i]).id < id by {
                if i > k {
                    assert(before[k as int].id > before[i].id);
                }
            }
            lemma_filter_keeps_head(before, |other: OrderedItem<T>| other.id > id, k as int);
            lemma_older_than_is_tail(before, id, k as int);
            assert(before.insert(k as int, item) =~= placed(before, item));
            lemma_placed_is_descending(before, item, k as int);
        }
        // The vector leaves the partition while it changes, so that the
        // partition is in order at every moment.
        let mut items: Vec<OrderedItem<T>> = Vec::new();
        core::mem::swap(&mut self.items, &mut items);
        items.insert(k, item);
        self.items = items;
        Ok(())
    }

    /// At most `limit` records with an identifier under
    /// `upper_bound_exclusive`, the newest of them, newest first. Without a
    /// bound they are the newest records of the partition.
    pub fn read_ordered(&self, upper_bound_exclusive: Option<Identifier>, limit: u32) -> (items: &[OrderedItem<T>])
        ensures
            items@ == window_of(self@, upper_bound_exclusive, limit as nat),
            descending(self@),
    {
        proof {
            use_type_invariant(self);
        }
        let start: usize = match upper_bound_exclusive {
            Some(bound) => {
                let k = self.first_below(bound);
                proof {
                    lemma_older_than_is_tail(self@, bound, k as int);
                }
                k
            },
            None => {
                proof {
                    lemma_older_than_unbounded(self@);
                    assert(self@.skip(0) =~= self@);
                }
                0
            },
        };
        let total: usize = self.items.len();
        let rest: usize = total - start;
        let end: usize = if (limit as usize) < rest {
            start + limit as usize
        } else {
            total
        };
        assert(self@.skip(start as int).take(end - start) =~= self@.subrange(start as int, end as int));
        assert(self@.skip(start as int) =~= self@.subrange(start as int, total as int));
        vstd::slice::slice_subrange(self.items.as_slice(), start, end)
    }

    /// The identifiers of the oldest and of the newest record, or nothing
    /// where the partition is empty.
    pub fn read_bounds(&self) -> (bounds: Option<Bounds>)
        ensures
            bounds == bounds_of(self@),
            descending(self@),
    {
        proof {
            use_type_invariant(self);
        }
        let n: usize = self.items.len();
        if n == 0 {
            None
        } else {
            proof {
                lemma_bounds_of_descending(self@);
            }
            Some(Bounds { min_id: self.items[n - 1].id, max_id: self.items[0].id })
        }
    }
}

/// Storing a record under a fresh identifier keeps the records descending
/// and adds exactly that record.
pub proof fn lemma_placed_keeps_order<T>(items: Seq<OrderedItem<T>>, item: OrderedItem<T>)
    requires
        descending(items),
        !holds(items, item.id),
    ensures
        descending(placed(items, item)),
        placed(items, item).len() == items.len() + 1,
        placed(items, item) == items.insert(skipped(items, Some(item.id)) as int, item),
{
    lemma_older_than_skips(items, Some(item.id));
    let k = skipped(items, Some(item.id)) as int;
    assert forall|i: int| 0 <= i < k implies (#[trigger] items[i]).id > item.id by {
        assert(items[i].id != item.id);
    }
    lemma_filter_keeps_head(items, |other: OrderedItem<T>| other.id > item.id, k);
    assert(items.insert(k, item) =~= placed(items, item));
    lemma_placed_is_descending(items, item, k);
}

/// Putting a record with a fresh identifier at its place keeps the sequence descending.
proof fn lemma_placed_is_descending<T>(items: Seq<OrderedItem<T>>, item: OrderedItem<T>, k: int)
    requires
        descending(items),
        0 <= k <= items.len(),
        forall|i: int| 0 <= i < k ==> (#[trigger] items[i]).id > item.id,
        forall|i: int| k <= i < items.len() ==> (#[trigger] items[i]).id < item.id,
    ensures
        descending(items.insert(k, item)),
{
    let after = items.insert(k, item);
    assert forall|i: int, j: int| 0 <= i < j < after.len() implies after[i].id > after[j].id by {
        if i < k {
            assert(after[i] == items[i]);
        } else if i > k {
            assert(after[i] == items[i - 1]);
        }
        if j < k {
            assert(after[j] == items[j]);
        } else if j > k {
            assert(after[j] == items[j - 1]);
        }
    }
}

} // verus!
