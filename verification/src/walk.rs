//! What holds of a whole walk through a partition, page after page.
//!
//! A walk starts without a cursor and hands each page's
//! `previous_page_id` to the next call. The statements here are about the
//! pages that [`page_of`] describes, which are the pages that
//! [`crate::pagination::PaginationCursor::page`] returns.

use crate::identifier::Identifier;
use crate::pagination::page_of;
use crate::partition::{
    below, descending, holds, lemma_bounds_of_descending, lemma_older_than_is_tail,
    lemma_older_than_skips, lemma_older_than_unbounded, lemma_placed_keeps_order,
    lemma_window_is_run, older_than, placed, skipped, window_of, OrderedItem,
};
use vstd::prelude::*;

verus! {

/// The cursor of the call number `k` of a walk, the first call being number
/// 0: none for the first call, and for each later one the
/// `previous_page_id` of the page before.
pub open spec fn cursor_of_call<T>(items: Seq<OrderedItem<T>>, page_size: nat, k: nat) -> Option<
    Identifier,
>
    decreases k,
{
    if k == 0 {
        None
    } else {
        page_of(items, cursor_of_call(items, page_size, (k - 1) as nat), page_size).1
    }
}

/// The page that call number `k` of a walk returns.
pub open spec fn page_of_call<T>(items: Seq<OrderedItem<T>>, page_size: nat, k: nat) -> (
    Seq<OrderedItem<T>>,
    Option<Identifier>,
) {
    page_of(items, cursor_of_call(items, page_size, k), page_size)
}

/// The records that the first `calls` calls of a walk return, in the order
/// in which they come.
pub open spec fn walked<T>(items: Seq<OrderedItem<T>>, page_size: nat, calls: nat) -> Seq<
    OrderedItem<T>,
>
    decreases calls,
{
    if calls == 0 {
        Seq::empty()
    } else {
        walked(items, page_size, (calls - 1) as nat) + page_of_call(
            items,
            page_size,
            (calls - 1) as nat,
        ).0
    }
}

/// The number of pages of `page_size` records that `len` records fill,
/// the last of them perhaps in part: `len / page_size`, rounded up.
pub open spec fn pages_needed(len: nat, page_size: nat) -> nat
    recommends
        page_size > 0,
{
    ((len + page_size - 1) / (page_size as int)) as nat
}

/// The end of page number `k`: the index behind its last record.
pub open spec fn end_of_page(len: nat, page_size: nat, k: nat) -> int {
    if (k + 1) * page_size < len {
        ((k + 1) * page_size) as int
    } else {
        len as int
    }
}

/// Page number `k` starts within `len` records exactly when `k` is below
/// the number of pages needed.
pub proof fn lemma_pages_needed(len: nat, page_size: nat, k: nat)
    requires
        page_size > 0,
    ensures
        k * page_size < len <==> k < pages_needed(len, page_size),
        len > 0 ==> pages_needed(len, page_size) > 0,
        len % page_size == 0 ==> pages_needed(len, page_size) * page_size == len,
{
    let n = page_size as int;
    let total = len + page_size - 1;
    let q = total / n;
    let r = total % n;
    assert(total == n * q + r && 0 <= r < n) by {
        vstd::arithmetic::div_mod::lemma_fundamental_div_mod(total, n);
        vstd::arithmetic::div_mod::lemma_mod_bound(total, n);
    }
    assert(q >= 0) by (nonlinear_arith)
        requires
            total == n * q + r,
            0 <= r < n,
            total >= 0,
    {
    }
    assert(len > 0 ==> q > 0) by (nonlinear_arith)
        requires
            total == n * q + r,
            0 <= r < n,
            total == len + n - 1,
    {
    }
    assert(k < q ==> k * n < len) by (nonlinear_arith)
        requires
            total == n * q + r,
            0 <= r < n,
            total == len + n - 1,
            k >= 0,
    {
    }
    assert(k >= q ==> k * n >= len) by (nonlinear_arith)
        requires
            total == n * q + r,
            0 <= r < n,
            total == len + n - 1,
            k >= 0,
    {
    }
    if len % page_size == 0 {
        let d = len as int / n;
        assert(len == n * d) by {
            vstd::arithmetic::div_mod::lemma_fundamental_div_mod(len as int, n);
        }
        assert(q == d) by (nonlinear_arith)
            requires
                total == n * q + r,
                0 <= r < n,
                total == len + n - 1,
                len == n * d,
        {
        }
        assert(q * n == len) by (nonlinear_arith)
            requires
                q == d,
                len == n * d,
        {
        }
    }
}

/// The page under the cursor that is the identifier of the record at index
/// `start - 1`, or under no cursor where `start` is 0: its window is the
/// `page_size` records from index `start` on, or what is left of them, and
/// it names a next cursor exactly where records are left behind the window.
pub proof fn lemma_page_from_index<T>(
    items: Seq<OrderedItem<T>>,
    page_size: nat,
    start: int,
    cursor: Option<Identifier>,
)
    requires
        descending(items),
        page_size > 0,
        0 <= start < items.len(),
        start == 0 ==> cursor is None,
        start > 0 ==> cursor == Some(items[start - 1].id),
    ensures
        ({
            let end = if start + page_size < items.len() {
                start + page_size
            } else {
                items.len() as int
            };
            let (window, next) = page_of(items, cursor, page_size);
            &&& window == items.subrange(start, end)
            &&& window.len() > 0
            &&& end < items.len() ==> next == Some(items[end - 1].id)
            &&& end == items.len() ==> next is None
        }),
{
    let end = if start + page_size < items.len() {
        start + page_size
    } else {
        items.len() as int
    };
    if start == 0 {
        lemma_older_than_unbounded(items);
    } else {
        let bound = items[start - 1].id;
        assert forall|i: int| 0 <= i < start implies (#[trigger] items[i]).id >= bound by {
            if i < start - 1 {
                assert(items[i].id > items[start - 1].id);
            }
        }
        assert forall|i: int| start <= i < items.len() implies (#[trigger] items[i]).id < bound by {
            assert(items[start - 1].id > items[i].id);
        }
        lemma_older_than_is_tail(items, bound, start);
    }
    assert(skipped(items, cursor) == start);
    lemma_window_is_run(items, cursor, page_size);
    let window = window_of(items, cursor, page_size);
    assert(window == items.subrange(start, end));
    lemma_bounds_of_descending(items);
    lemma_bounds_of_descending(window);
    assert(window.last() == items[end - 1]);
    if end < items.len() {
        assert(items[end - 1].id > items[items.len() - 1].id);
    }
}

/// A walk through `items` returns them chunk by chunk: call number `k`,
/// as long as records are left for it, returns the records from index
/// `k * page_size` on, a full page of them or all that are left, and names
/// a next cursor exactly where records are left behind its window.
pub proof fn lemma_page_of_call<T>(items: Seq<OrderedItem<T>>, page_size: nat, k: nat)
    requires
        descending(items),
        page_size > 0,
        k * page_size < items.len(),
    ensures
        ({
            let (window, next) = page_of_call(items, page_size, k);
            let end = end_of_page(items.len(), page_size, k);
            &&& window == items.subrange((k * page_size) as int, end)
            &&& window.len() > 0
            &&& next is None <==> end == items.len()
            &&& next is Some ==> next == Some(items[end - 1].id)
        }),
    decreases k,
{
    let start = (k * page_size) as int;
    assert((k + 1) * page_size == start + page_size) by (nonlinear_arith)
        requires
            start == k * page_size,
    {
    }
    if k == 0 {
        lemma_page_from_index(items, page_size, 0, None);
    } else {
        let before = (k - 1) as nat;
        assert(before * page_size == start - page_size) by (nonlinear_arith)
            requires
                start == k * page_size,
                before == k - 1,
        {
        }
        lemma_page_of_call(items, page_size, before);
        assert(end_of_page(items.len(), page_size, before) == start);
        lemma_page_from_index(items, page_size, start, cursor_of_call(items, page_size, k));
    }
}

/// The first `calls` calls of a walk return the first `calls` pages' worth
/// of records, each once and in the order of the partition.
pub proof fn lemma_walked_is_prefix<T>(items: Seq<OrderedItem<T>>, page_size: nat, calls: nat)
    requires
        descending(items),
        page_size > 0,
        calls <= pages_needed(items.len(), page_size),
    ensures
        calls == 0 ==> walked(items, page_size, calls) == Seq::<OrderedItem<T>>::empty(),
        calls > 0 ==> walked(items, page_size, calls) == items.take(
            end_of_page(items.len(), page_size, (calls - 1) as nat),
        ),
    decreases calls,
{
    if calls > 0 {
        let k = (calls - 1) as nat;
        lemma_pages_needed(items.len(), page_size, k);
        lemma_walked_is_prefix(items, page_size, k);
        lemma_page_of_call(items, page_size, k);
        let start = (k * page_size) as int;
        let end = end_of_page(items.len(), page_size, k);
        assert((k + 1) * page_size == start + page_size) by (nonlinear_arith)
            requires
                start == k * page_size,
        {
        }
        if k > 0 {
            let before = (k - 1) as nat;
            assert(before * page_size == start - page_size) by (nonlinear_arith)
                requires
                    start == k * page_size,
                    before == k - 1,
            {
            }
            assert(end_of_page(items.len(), page_size, before) == start);
        }
        assert(walked(items, page_size, k) =~= items.take(start));
        assert(items.take(start) + items.subrange(start, end) =~= items.take(end));
    }
}

/// Pagination is complete. A walk through a partition of `M` records with
/// pages of `N` takes `M / N` calls, rounded up, as long as there is a record
/// at all. Together the calls return the whole partition, each record once,
/// newest first. Each call but the last returns a full page and names the
/// cursor of the next one; the last names none.
pub proof fn lemma_walk_is_complete<T>(items: Seq<OrderedItem<T>>, page_size: nat)
    requires
        descending(items),
        page_size > 0,
    ensures
        walked(items, page_size, pages_needed(items.len(), page_size)) == items,
        forall|k: nat|
            k < pages_needed(items.len(), page_size) ==> {
                let (window, next) = #[trigger] page_of_call(items, page_size, k);
                &&& window.len() > 0
                &&& next is None <==> k + 1 == pages_needed(items.len(), page_size)
                &&& next is Some ==> window.len() == page_size
            },
{
    let len = items.len();
    let calls = pages_needed(len, page_size);
    lemma_walked_is_prefix(items, page_size, calls);
    if calls > 0 {
        let last = (calls - 1) as nat;
        lemma_pages_needed(len, page_size, last);
        lemma_pages_needed(len, page_size, calls);
        assert(calls * page_size == last * page_size + page_size) by (nonlinear_arith)
            requires
                last == calls - 1,
        {
        }
        assert(end_of_page(len, page_size, last) == len);
        assert(items.take(len as int) =~= items);
    } else {
        lemma_pages_needed(len, page_size, 0);
        assert(items =~= Seq::<OrderedItem<T>>::empty());
    }
    assert forall|k: nat| k < pages_needed(len, page_size) implies ({
        let (window, next) = #[trigger] page_of_call(items, page_size, k);
        &&& window.len() > 0
        &&& next is None <==> k + 1 == pages_needed(len, page_size)
        &&& next is Some ==> window.len() == page_size
    }) by {
        lemma_pages_needed(len, page_size, k);
        lemma_pages_needed(len, page_size, k + 1);
        lemma_page_of_call(items, page_size, k);
        assert((k + 1) * page_size == k * page_size + page_size) by (nonlinear_arith);
    }
}

/// Where the records fill their pages exactly, the last page is full and
/// names no next cursor: a full window alone does not promise older records.
pub proof fn lemma_exact_multiple_ends_walk<T>(items: Seq<OrderedItem<T>>, page_size: nat)
    requires
        descending(items),
        page_size > 0,
        items.len() > 0,
        items.len() % page_size == 0,
    ensures
        pages_needed(items.len(), page_size) * page_size == items.len(),
        ({
            let last = (pages_needed(items.len(), page_size) - 1) as nat;
            let (window, next) = page_of_call(items, page_size, last);
            &&& window == items.subrange(items.len() - page_size, items.len() as int)
            &&& window.len() == page_size
            &&& next is None
        }),
{
    let len = items.len();
    let calls = pages_needed(len, page_size);
    lemma_pages_needed(len, page_size, 0);
    let last = (calls - 1) as nat;
    lemma_pages_needed(len, page_size, last);
    assert(last * page_size == len - page_size) by (nonlinear_arith)
        requires
            calls * page_size == len,
            last == calls - 1,
    {
    }
    assert((last + 1) * page_size == len) by (nonlinear_arith)
        requires
            calls * page_size == len,
            last == calls - 1,
    {
    }
    lemma_page_of_call(items, page_size, last);
}

/// An empty partition yields an empty page without a next cursor, whatever
/// the cursor and the page size.
pub proof fn lemma_empty_partition_has_no_page<T>(
    items: Seq<OrderedItem<T>>,
    max_id: Option<Identifier>,
    page_size: nat,
)
    requires
        items.len() == 0,
    ensures
        page_of(items, max_id, page_size) == (Seq::<OrderedItem<T>>::empty(), None::<Identifier>),
{
    items.lemma_filter_len(|item: OrderedItem<T>| below(max_id, item.id));
    assert(window_of(items, max_id, page_size) =~= Seq::<OrderedItem<T>>::empty());
}

/// Paging is stable under the arrival of newer records: a record stored
/// with an identifier that is not under the cursor changes no page under
/// that cursor, neither its window nor whether an older page follows.
pub proof fn lemma_newer_record_keeps_page<T>(
    items: Seq<OrderedItem<T>>,
    item: OrderedItem<T>,
    cursor: Identifier,
    page_size: nat,
)
    requires
        descending(items),
        !holds(items, item.id),
        item.id >= cursor,
    ensures
        page_of(placed(items, item), Some(cursor), page_size) == page_of(
            items,
            Some(cursor),
            page_size,
        ),
{
    lemma_placed_keeps_order(items, item);
    lemma_older_than_skips(items, Some(item.id));
    lemma_older_than_skips(items, Some(cursor));
    let after = placed(items, item);
    let k = skipped(items, Some(item.id)) as int;
    let s = skipped(items, Some(cursor)) as int;
    // The new record comes to stand before every record under the cursor.
    if k > s {
        assert(items[s].id >= item.id);
        assert(items[s].id < cursor);
    }
    assert forall|i: int| 0 <= i < s + 1 implies (#[trigger] after[i]).id >= cursor by {
        if i < k {
            assert(after[i] == items[i]);
        } else if i > k {
            assert(after[i] == items[i - 1]);
        }
    }
    assert forall|i: int| s + 1 <= i < after.len() implies (#[trigger] after[i]).id < cursor by {
        assert(after[i] == items[i - 1]);
    }
    lemma_older_than_is_tail(after, cursor, s + 1);
    assert(after.skip(s + 1) =~= items.skip(s));
    assert(older_than(after, Some(cursor)) == older_than(items, Some(cursor)));
    // Where the window holds a record, the oldest record of the partition is still the same.
    if window_of(items, Some(cursor), page_size).len() > 0 {
        assert(s < items.len());
        assert(after[after.len() - 1] == items[items.len() - 1]);
        lemma_bounds_of_descending(items);
        lemma_bounds_of_descending(after);
    }
}

} // verus!
