//! A window of a list, whole or cut into pages.

use vstd::prelude::*;

verus! {

/// A window of a list: as it is, or cut into pages.
#[derive(Clone, Debug, PartialEq, Eq)]
pub enum Pages {
    Flat(Vec<String>),
    Split(Vec<Vec<String>>),
}

/// The smaller of two numbers.
pub open spec fn least(a: int, b: int) -> int {
    if a < b {
        a
    } else {
        b
    }
}

/// The items from `offset` on, `limit` of them at most.
pub open spec fn window(items: Seq<Seq<char>>, offset: int, limit: int) -> Seq<Seq<char>> {
    let from = least(offset, items.len() as int);
    items.subrange(from, least(from + limit, items.len() as int))
}

/// The number of pages that `limit` items fill when a page holds `size`.
pub open spec fn page_count(limit: int, size: int) -> int {
    if limit % size == 0 {
        limit / size
    } else {
        limit / size + 1
    }
}

/// The page with the number `j`, counted from 0, of pages that hold
/// `size` items each: empty once the items have run out.
pub open spec fn page(items: Seq<Seq<char>>, size: int, j: int) -> Seq<Seq<char>> {
    items.subrange(least(j * size, items.len() as int), least((j + 1) * size, items.len() as int))
}

/// What `paginate` answers, for a limit that is given.
pub open spec fn is_paged(
    pages: Pages,
    items: Seq<Seq<char>>,
    offset: int,
    limit: int,
    split: Option<usize>,
) -> bool {
    match split {
        None => pages matches Pages::Flat(list) && list.deep_view() == window(
            items,
            offset,
            limit,
        ),
        Some(size) => pages matches Pages::Split(list) && list.len() == page_count(
            limit,
            size as int,
        ) && forall|j: int|
            0 <= j < list.len() ==> (#[trigger] list[j]).deep_view() == page(
                window(items, offset, limit),
                size as int,
                j,
            ),
    }
}

/// Copies the items from `from` up to `to`.
fn copy_range(items: &Vec<String>, from: usize, to: usize) -> (out: Vec<String>)
    requires
        from <= to <= items.len(),
    ensures
        out.deep_view() == items.deep_view().subrange(from as int, to as int),
{
    let mut out: Vec<String> = Vec::new();
    let mut i = from;
    while i < to
        invariant
            from <= i <= to <= items.len(),
            out.len() == i - from,
            forall|j: int| 0 <= j < out.len() ==> (#[trigger] out[j])@ == items[from + j]@,
        decreases to - i,
    {
        out.push(items[i].clone());
        i = i + 1;
    }
    assert(out.deep_view() =~= items.deep_view().subrange(from as int, to as int));
    out
}

/// Takes the items from `offset` on, `limit` of them at most and all of
/// them without a limit, and cuts them into pages of `split` items where
/// a split is given.
///
/// The number of pages goes by the limit, not by the items that are
/// there: pages behind the last item are empty.
pub fn paginate(
    items: &Vec<String>,
    offset: usize,
    limit: Option<usize>,
    split: Option<usize>,
) -> (pages: Pages)
    requires
        split != Some(0usize),
    ensures
        is_paged(
            pages,
            items.deep_view(),
            offset as int,
            match limit {
                Some(l) => l as int,
                None => items.len() as int,
            },
            split,
        ),
{
    let n = items.len();
    let limit = match limit {
        Some(l) => l,
        None => n,
    };
    let from = if offset < n {
        offset
    } else {
        n
    };
    let to = if limit < n - from {
        from + limit
    } else {
        n
    };
    let ghost shown = window(items.deep_view(), offset as int, limit as int);
    assert(shown == items.deep_view().subrange(from as int, to as int));
    match split {
        None => Pages::Flat(copy_range(items, from, to)),
        Some(size) => {
            let count = if limit % size == 0 {
                limit / size
            } else {
                assert(limit / size < limit) by (nonlinear_arith)
                    requires
                        size > 0,
                        limit >= 0,
                        limit % size != 0,
                ;
                limit / size + 1
            };
            let mut list: Vec<Vec<String>> = Vec::new();
            let mut at = from;
            let mut j: usize = 0;
            while j < count
                invariant
                    j <= count,
                    size > 0,
                    from <= at <= to <= items.len(),
                    shown == items.deep_view().subrange(from as int, to as int),
                    at - from == least(j * size, to - from),
                    list.len() == j,
                    forall|m: int|
                        0 <= m < list.len() ==> (#[trigger] list[m]).deep_view() == page(
                            shown,
                            size as int,
                            m,
                        ),
                decreases count - j,
            {
                let end = if size < to - at {
                    at + size
                } else {
                    to
                };
                let part = copy_range(items, at, end);
                proof {
                    assert((j + 1) * size == j * size + size) by (nonlinear_arith);
                    assert(j * size >= 0) by (nonlinear_arith)
                        requires
                            j >= 0,
                            size > 0,
                    ;
                    assert(part.deep_view() =~= page(shown, size as int, j as int));
                }
                list.push(part);
                at = end;
                j = j + 1;
            }
            Pages::Split(list)
        },
    }
}

} // verus!
