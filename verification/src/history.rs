//! Paging through the redaction history, newest first.

use vstd::prelude::*;

verus! {

/// Rows to fetch for a page of `limit` entries: one more than the page
/// holds, to learn whether older entries remain.
pub fn fetch_limit(limit: u32) -> (n: u32)
    requires
        limit < u32::MAX,
    ensures
        n == limit + 1,
{
    limit + 1
}

/// Cuts fetched rows down to a page of at most `limit` entries, and tells
/// whether more rows were there.
pub fn split_page<T>(rows: Vec<T>, limit: u32) -> (page: (Vec<T>, bool))
    ensures
        page.1 == (rows@.len() > limit),
        page.0@ == if page.1 {
            rows@.take(limit as int)
        } else {
            rows@
        },
{
    let mut rows = rows;
    let has_more = rows.len() > limit as usize;
    if has_more {
        rows.truncate(limit as usize);
    }
    (rows, has_more)
}

/// A page never holds more than `limit` entries, and holds the newest
/// `min(limit, rows)` of the fetched rows in their order.
pub proof fn lemma_page_bounded<T>(rows: Seq<T>, limit: u32)
    ensures
        ({
            let has_more = rows.len() > limit;
            let page = if has_more {
                rows.take(limit as int)
            } else {
                rows
            };
            &&& page.len() <= limit
            &&& page.len() == if has_more { limit as nat } else { rows.len() }
            &&& forall|i: int| 0 <= i < page.len() ==> page[i] == rows[i]
        }),
{
}

} // verus!
