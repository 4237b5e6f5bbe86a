//! Pages of the applicant list.

use vstd::prelude::*;
use crate::models::{PaginationMeta, PaginationQuery};

verus! {

/// The page that a query asks for: the first where it names none.
pub open spec fn asked_page(query: PaginationQuery) -> usize {
    match query.page {
        Some(page) => page,
        None => 1,
    }
}

/// The page size that a query asks for: 50 where it names none.
pub open spec fn asked_limit(query: PaginationQuery) -> usize {
    match query.limit {
        Some(limit) => limit,
        None => 50,
    }
}

/// `pages` is the number of pages of `limit` items that `total_items` items
/// fill: the least number of pages that hold them all. With a page size of
/// zero no number of pages holds an item: the count is then the largest
/// there is, and zero where there is no item.
pub open spec fn is_page_count(total_items: usize, limit: usize, pages: usize) -> bool {
    if limit > 0 {
        pages * limit >= total_items && (pages > 0 ==> (pages - 1) * limit < total_items)
    } else if total_items == 0 {
        pages == 0
    } else {
        pages == usize::MAX
    }
}

/// The number of pages of `limit` items that `total_items` items fill.
pub fn total_pages(total_items: usize, limit: usize) -> (pages: usize)
    ensures
        is_page_count(total_items, limit, pages),
{
    if limit == 0 {
        if total_items == 0 {
            0
        } else {
            usize::MAX
        }
    } else {
        let whole = total_items / limit;
        let rest = total_items % limit;
        assert(total_items == whole * limit + rest) by (nonlinear_arith)
            requires
                limit > 0,
                whole == total_items / limit,
                rest == total_items % limit,
        ;
        if rest == 0 {
            assert(whole > 0 ==> (whole - 1) * limit < total_items) by (nonlinear_arith)
                requires
                    total_items == whole * limit + rest,
                    rest == 0,
                    limit > 0,
            ;
            whole
        } else {
            assert(whole < usize::MAX) by (nonlinear_arith)
                requires
                    total_items == whole * limit + rest,
                    rest > 0,
                    limit > 0,
                    total_items <= usize::MAX,
                    whole >= 0,
            ;
            assert((whole + 1) * limit >= total_items) by (nonlinear_arith)
                requires
                    total_items == whole * limit + rest,
                    rest < limit,
            ;
            whole + 1
        }
    }
}

/// The number of items that stand before the page `page` of `limit` items,
/// the first page being page 1; `None` for page 0 and where the number is
/// beyond `i32::MAX`.
pub fn page_offset(page: usize, limit: usize) -> (offset: Option<usize>)
    ensures
        offset.is_some() <==> page >= 1 && (page - 1) * limit <= i32::MAX,
        offset.is_some() ==> offset.unwrap() == (page - 1) * limit,
{
    if page == 0 {
        return None;
    }
    let before = page - 1;
    if limit == 0 || before == 0 {
        assert(before * limit == 0) by (nonlinear_arith)
            requires
                limit == 0 || before == 0,
        ;
        return Some(0);
    }
    let bound: usize = 2147483647;
    if before > bound / limit {
        assert(before * limit > bound) by (nonlinear_arith)
            requires
                before > bound / limit,
                limit > 0,
                bound >= 0,
        ;
        None
    } else {
        assert(before * limit <= bound) by (nonlinear_arith)
            requires
                before <= bound / limit,
                limit > 0,
                bound >= 0,
                before >= 0,
        ;
        Some(before * limit)
    }
}

/// Where the page that `query` asks for stands in a list of `total_items`.
pub fn page_meta(query: &PaginationQuery, total_items: usize) -> (meta: PaginationMeta)
    ensures
        meta.total_items == total_items,
        meta.current_page == asked_page(*query),
        is_page_count(total_items, asked_limit(*query), meta.total_pages),
{
    let page = match query.page {
        Some(page) => page,
        None => 1,
    };
    let limit = match query.limit {
        Some(limit) => limit,
        None => 50,
    };
    PaginationMeta { total_items, current_page: page, total_pages: total_pages(total_items, limit) }
}

} // verus!
