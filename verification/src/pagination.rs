//! Walking a partition backward in windows of a fixed size.
//!
//! A page is the newest records under a cursor, at most as many as the page
//! size. Whether older records remain is not read off the size of the
//! window: a full window may well be the last. It is decided by holding the
//! oldest record of the window against the oldest record of the whole
//! partition, which costs one more read of the partition's bounds.
//!
//! [`PaginationCursor::page`] does all of this on a [`Partition`]. Where the
//! records live in a store that is read by other means, the caller makes the
//! two reads and [`PaginationCursor::settle`] decides on what they answered.

use crate::identifier::Identifier;
use crate::partition::{
    below, bounds_of, descending, least_id, lemma_greatest_id, lemma_least_id,
    lemma_window_is_run, skipped, window_of, Bounds, OrderedItem, Partition,
};
use vstd::prelude::*;

verus! {

/// Why a page could not be produced.
#[derive(Debug, Clone, Copy, PartialEq, Eq, Structural)]
pub enum PageError {
    /// The store could not be read. Nothing is retried here.
    StorageUnavailable,
}

/// One page: its records, newest first, and the cursor of the next older page.
pub struct Window<'a, T> {
    /// The records of the page, newest first.
    pub items: &'a [OrderedItem<T>],
    /// The cursor that yields the next older page, or nothing where this
    /// page already holds the oldest record.
    pub previous_page_id: Option<Identifier>,
}

/// The cursor of the page that follows `window`, given the bounds of the
/// partition it was read from: the oldest identifier of the window, unless
/// that is the oldest of the partition, or the window is empty.
pub open spec fn previous_page_id_of<T>(
    window: Seq<OrderedItem<T>>,
    bounds: Option<Bounds>,
) -> Option<Identifier> {
    if window.len() > 0 && bounds is Some && least_id(window) != bounds->0.min_id {
        Some(least_id(window))
    } else {
        None
    }
}

/// The page that a partition holding `items` yields for the cursor `max_id`
/// and the page size `page_size`: the window and the cursor that follows it.
pub open spec fn page_of<T>(
    items: Seq<OrderedItem<T>>,
    max_id: Option<Identifier>,
    page_size: nat,
) -> (Seq<OrderedItem<T>>, Option<Identifier>) {
    let window = window_of(items, max_id, page_size);
    (window, previous_page_id_of(window, bounds_of(items)))
}

/// What the store owes to a read of at most `limit` records under `bound`,
/// as far as the answer alone can show it: the records fall strictly, each
/// lies under the bound, and they are no more than asked for.
pub open spec fn answers_read<T>(
    items: Seq<OrderedItem<T>>,
    bound: Option<Identifier>,
    limit: nat,
) -> bool {
    &&& descending(items)
    &&& items.len() <= limit
    &&& forall|i: int| 0 <= i < items.len() ==> below(bound, (#[trigger] items[i]).id)
}

/// Whether `bounds` can be the bounds of a partition that `window` was read
/// from: a window with records needs bounds, and none of its records lies
/// outside them.
pub open spec fn encloses<T>(bounds: Option<Bounds>, window: Seq<OrderedItem<T>>) -> bool {
    window.len() > 0 ==> bounds is Some && forall|i: int|
        0 <= i < window.len() ==> bounds->0.min_id <= (#[trigger] window[i]).id
            <= bounds->0.max_id
}

/// The pagination engine. It keeps nothing between calls.
pub struct PaginationCursor;

impl PaginationCursor {
    /// The page of `partition` under the cursor `max_id`: the newest
    /// `page_size` records with an identifier below `max_id` (the newest of
    /// all where there is no cursor), and the cursor of the next older page.
    ///
    /// The window is empty, and no page follows, where no record lies under
    /// the cursor; that is so in particular for an empty partition.
    pub fn page<'a, T>(
        partition: &'a Partition<T>,
        max_id: Option<Identifier>,
        page_size: u32,
    ) -> (window: Window<'a, T>)
        ensures
            (window.items@, window.previous_page_id) == page_of(
                partition@,
                max_id,
                page_size as nat,
            ),
            descending(window.items@),
            partition@.len() == 0 ==> window.items@.len() == 0 && window.previous_page_id is None,
    {
        let items = partition.read_ordered(max_id, page_size);
        proof {
            lemma_window_is_run(partition@, max_id, page_size as nat);
        }
        if Self::needs_bounds(items) {
            let bounds = partition.read_bounds();
            proof {
                lemma_bounds_enclose_window(partition@, max_id, page_size as nat);
            }
            Self::window(items, bounds)
        } else {
            Window { items, previous_page_id: None }
        }
    }

    /// Whether the bounds of the partition must be read to settle the page
    /// whose records are `items`: they must, unless the window is empty.
    pub fn needs_bounds<T>(items: &[OrderedItem<T>]) -> (needed: bool)
        ensures
            needed <==> items@.len() > 0,
    {
        items.len() > 0
    }

    /// The page made of the records `items` read from a partition whose
    /// bounds are `bounds`.
    ///
    /// The bounds must enclose the records. Bounds that leave out a record
    /// that was read, or no bounds beside a record, mean that the store is
    /// corrupt, and no page can be made of that: see [`Self::agree`].
    pub fn window<'a, T>(items: &'a [OrderedItem<T>], bounds: Option<Bounds>) -> (window: Window<
        'a,
        T,
    >)
        requires
            encloses(bounds, items@),
        ensures
            window.items@ == items@,
            window.previous_page_id == previous_page_id_of(items@, bounds),
    {
        let previous_page_id = match bounds {
            Some(limits) => {
                if items.len() > 0 {
                    let oldest = Self::oldest(items);
                    if oldest != limits.min_id {
                        Some(oldest)
                    } else {
                        None
                    }
                } else {
                    None
                }
            },
            None => None,
        };
        Window { items, previous_page_id }
    }

    /// Decides a page on what the store answered to the two reads: `items`
    /// for the records under the cursor, `bounds` for the bounds of the
    /// partition.
    ///
    /// A failed read of the records fails the page. The bounds count only
    /// beside a window with records: there a failed read of them fails the
    /// page too, and beside an empty window `bounds` is not looked at.
    pub fn settle<'a, T>(
        items: Result<&'a [OrderedItem<T>], PageError>,
        bounds: Result<Option<Bounds>, PageError>,
    ) -> (page: Result<Window<'a, T>, PageError>)
        requires
            items is Ok && bounds is Ok ==> encloses(bounds->Ok_0, items->Ok_0@),
        ensures
            page is Err <==> items is Err || (items->Ok_0@.len() > 0 && bounds is Err),
            page is Err ==> page->Err_0 == (if items is Err {
                items->Err_0
            } else {
                bounds->Err_0
            }),
            page matches Ok(window) ==> {
                &&& window.items@ == items->Ok_0@
                &&& window.previous_page_id == if window.items@.len() == 0 {
                    None
                } else {
                    previous_page_id_of(items->Ok_0@, bounds->Ok_0)
                }
            },
    {
        match items {
            Err(e) => Err(e),
            Ok(records) => {
                if Self::needs_bounds(records) {
                    match bounds {
                        Err(e) => Err(e),
                        Ok(limits) => Ok(Self::window(records, limits)),
                    }
                } else {
                    Ok(Window { items: records, previous_page_id: None })
                }
            },
        }
    }

    /// Whether `items` is an answer that a read of at most `limit` records
    /// under `bound` may give.
    pub fn accepts<T>(items: &[OrderedItem<T>], bound: Option<Identifier>, limit: u32) -> (ok: bool)
        ensures
            ok <==> answers_read(items@, bound, limit as nat),
    {
        let n: usize = items.len();
        if n > limit as usize {
            return false;
        }
        let mut i: usize = 0;
        while i < n
            invariant
                i <= n,
                n == items@.len(),
                forall|j: int| 0 <= j < i ==> below(bound, (#[trigger] items@[j]).id),
                forall|j: int| 0 < j < i ==> items@[j - 1].id > (#[trigger] items@[j]).id,
            decreases n - i,
        {
            let id: Identifier = items[i].id;
            let under: bool = match bound {
                Some(b) => id < b,
                None => true,
            };
            if !under {
                return false;
            }
            if i > 0 && items[i - 1].id <= id {
                assert(!descending(items@)) by {
                    assert(items@[i - 1].id <= items@[i as int].id);
                }
                return false;
            }
            i = i + 1;
        }
        proof {
            lemma_falling_steps(items@);
        }
        true
    }

    /// Whether `bounds` enclose the records `items`, as [`Self::window`] and
    /// [`Self::settle`] need it.
    pub fn agree<T>(bounds: Option<Bounds>, items: &[OrderedItem<T>]) -> (ok: bool)
        ensures
            ok <==> encloses(bounds, items@),
    {
        let n: usize = items.len();
        if n == 0 {
            return true;
        }
        match bounds {
            None => false,
            Some(limits) => {
                let mut i: usize = 0;
                while i < n
                    invariant
                        i <= n,
                        n == items@.len(),
                        bounds == Some(limits),
                        forall|j: int|
                            0 <= j < i ==> limits.min_id <= (#[trigger] items@[j]).id
                                <= limits.max_id,
                    decreases n - i,
                {
                    let id: Identifier = items[i].id;
                    if id < limits.min_id || id > limits.max_id {
                        assert(!(limits.min_id <= items@[i as int].id <= limits.max_id));
                        return false;
                    }
                    i = i + 1;
                }
                true
            },
        }
    }

    /// The least identifier among `items`.
    fn oldest<T>(items: &[OrderedItem<T>]) -> (id: Identifier)
        requires
            items@.len() > 0,
        ensures
            id == least_id(items@),
    {
        let mut least: Identifier = items[0].id;
        let mut i: usize = 1;
        assert(items@.take(1).len() == 1);
        while i < items.len()
            invariant
                1 <= i <= items@.len(),
                least == least_id(items@.take(i as int)),
            decreases items@.len() - i,
        {
            proof {
                let wider = items@.take(i + 1);
                assert(wider.drop_last() =~= items@.take(i as int));
                assert(wider.last() == items@[i as int]);
            }
            if items[i].id < least {
                least = items[i].id;
            }
            i = i + 1;
        }
        assert(items@.take(i as int) =~= items@);
        least
    }
}

/// The bounds of a descending sequence enclose every window read from it.
pub proof fn lemma_bounds_enclose_window<T>(
    items: Seq<OrderedItem<T>>,
    bound: Option<Identifier>,
    limit: nat,
)
    requires
        descending(items),
    ensures
        encloses(bounds_of(items), window_of(items, bound, limit)),
{
    let window = window_of(items, bound, limit);
    lemma_window_is_run(items, bound, limit);
    if window.len() > 0 {
        lemma_least_id(items);
        lemma_greatest_id(items);
        let start = skipped(items, bound) as int;
        assert forall|i: int| 0 <= i < window.len() implies bounds_of(items)->0.min_id <= (
        #[trigger] window[i]).id <= bounds_of(items)->0.max_id by {
            assert(window[i] == items[start + i]);
        }
    }
}

/// A sequence in which each record is older than the one before it is descending.
proof fn lemma_falling_steps<T>(items: Seq<OrderedItem<T>>)
    requires
        forall|j: int| 0 < j < items.len() ==> items[j - 1].id > (#[trigger] items[j]).id,
    ensures
        descending(items),
{
    assert forall|i: int, j: int| 0 <= i < j < items.len() implies items[i].id > items[j].id by {
        lemma_falls_between(items, i, j);
    }
}

proof fn lemma_falls_between<T>(items: Seq<OrderedItem<T>>, i: int, j: int)
    requires
        forall|j: int| 0 < j < items.len() ==> items[j - 1].id > (#[trigger] items[j]).id,
        0 <= i < j < items.len(),
    ensures
        items[i].id > items[j].id,
    decreases j - i,
{
    if i + 1 < j {
        lemma_falls_between(items, i, j - 1);
    }
    assert(items[j - 1].id > items[j].id);
}

} // verus!
