//! Lists shown page by page.
use vstd::arithmetic::div_mod::lemma_fundamental_div_mod;
use vstd::prelude::*;

verus! {

/// How many fields a review page shows.
pub const PAGE_SIZE: i64 = 500;

/// How many paths a comparison page shows.
pub const COMPARE_PAGE_SIZE: i64 = 200;

/// The page to show when `page` is asked for.
pub open spec fn shown_page(page: Option<i64>) -> int {
    match page {
        Some(p) => if p > 0 {
            p as int
        } else {
            0
        },
        None => 0,
    }
}

/// The quotient of two integers, rounded towards zero.
pub open spec fn quotient(a: int, b: int) -> int
    recommends
        b > 0,
{
    if a >= 0 {
        a / b
    } else {
        -((-a) / b)
    }
}

/// The number of pages of `size` items that `total` items take.
pub open spec fn page_count(total: int, size: int) -> int {
    quotient(total + size - 1, size)
}

/// The items on a page.
pub open spec fn page_of<T>(items: Seq<T>, page: int, size: int) -> Seq<T> {
    let from = page * size;
    let to = from + size;
    if from >= items.len() {
        Seq::empty()
    } else if to >= items.len() {
        items.skip(from)
    } else {
        items.subrange(from, to)
    }
}

/// Every item stands on a page: the one that its position divided by the page size
/// names, and that page is one of those counted.
pub proof fn law_every_item_on_a_page<T>(items: Seq<T>, i: int, size: int)
    requires
        0 <= i < items.len(),
        size > 0,
    ensures
        0 <= i / size < page_count(items.len() as int, size),
        page_of(items, i / size, size).len() > i % size,
        page_of(items, i / size, size)[i % size] == items[i],
{
    let p = i / size;
    lemma_fundamental_div_mod(i, size);
    assert(i == size * p + i % size);
    assert(size * p == p * size) by (nonlinear_arith);
    assert(0 <= i % size < size) by (nonlinear_arith)
        requires
            size > 0,
    ;
    assert(p >= 0) by (nonlinear_arith)
        requires
            p == i / size,
            i >= 0,
            size > 0,
    ;
    assert(p < (items.len() + size - 1) / size) by (nonlinear_arith)
        requires
            p * size <= i,
            i < items.len(),
            size > 0,
    ;
}

/// No page shows more than its size, and a page past the last one is empty.
pub proof fn law_page_bounds<T>(items: Seq<T>, page: int, size: int)
    requires
        size > 0,
        page >= 0,
    ensures
        page_of(items, page, size).len() <= size,
        page >= page_count(items.len() as int, size) ==> page_of(items, page, size).len() == 0,
{
    if page >= page_count(items.len() as int, size) {
        let n = items.len() as int;
        assert(page * size >= n) by (nonlinear_arith)
            requires
                page >= (n + size - 1) / size,
                size > 0,
                n >= 0,
        ;
    }
    assert(page * size >= 0) by (nonlinear_arith)
        requires
            page >= 0,
            size > 0,
    ;
}

/// The page to show when `page` is asked for: the first where none is, and no page
/// before the first.
pub fn current_page(page: Option<i64>) -> (r: i64)
    ensures
        r == shown_page(page),
        r >= 0,
{
    match page {
        Some(p) => if p > 0 {
            p
        } else {
            0
        },
        None => 0,
    }
}

/// The quotient of two integers, rounded towards zero.
pub fn divide(a: i64, b: i64) -> (r: i64)
    requires
        b > 0,
    ensures
        r == quotient(a as int, b as int),
{
    proof {
        assert(a >= 0 ==> 0 <= a as int / b as int <= a) by (nonlinear_arith)
            requires
                b > 0,
        ;
        assert(a < 0 ==> 0 <= (-(a as int)) / b as int <= -(a as int)) by (nonlinear_arith)
            requires
                b > 0,
        ;
    }
    if a >= 0 {
        (a as u64 / b as u64) as i64
    } else {
        let n: u128 = (-(a as i128)) as u128;
        let q: i128 = (n / b as u128) as i128;
        (-q) as i64
    }
}

/// The number of pages that `total` items take.
pub fn total_pages(total: i64, size: i64) -> (r: i64)
    requires
        size > 0,
        total + size - 1 <= i64::MAX,
    ensures
        r == page_count(total as int, size as int),
{
    divide(total + (size - 1), size)
}

/// A page shows the items that follow those of the pages before it, in their order; the
/// page that is asked for is shown, and the first one where none is asked for or there is
/// no such page before the first.
pub proof fn law_page_shows_what_follows<T>(items: Seq<T>, page: int, size: int, k: int, asked: i64)
    requires
        size > 0,
        page >= 0,
        0 <= k < size,
    ensures
        page * size + k < items.len() ==> k < page_of(items, page, size).len() && page_of(items, page, size)[k]
            == items[page * size + k],
        page * size + k >= items.len() ==> page_of(items, page, size).len() <= k,
        shown_page(None) == 0,
        asked >= 0 ==> shown_page(Some(asked)) == asked,
        asked < 0 ==> shown_page(Some(asked)) == 0,
{
    assert(page * size >= 0) by (nonlinear_arith)
        requires
            page >= 0,
            size > 0,
    ;
}

/// The pages that are counted are just enough: all but the last one are full, and the last
/// one is not empty.
pub proof fn law_pages_are_just_enough(total: int, size: int)
    requires
        total >= 0,
        size > 0,
    ensures
        total <= page_count(total, size) * size,
        total > 0 ==> (page_count(total, size) - 1) * size < total,
        total == 0 ==> page_count(total, size) == 0,
{
    let q = (total + size - 1) / size;
    assert(total <= q * size) by (nonlinear_arith)
        requires
            q == (total + size - 1) / size,
            size > 0,
            total >= 0,
    ;
    if total == 0 {
        assert((size - 1) / size == 0) by (nonlinear_arith)
            requires
                size > 0,
        ;
    } else {
        assert((q - 1) * size < total) by (nonlinear_arith)
            requires
                q == (total + size - 1) / size,
                size > 0,
                total >= 1,
        ;
    }
}

/// A review page shows up to five hundred fields, a comparison page up to two hundred
/// paths.
pub proof fn law_page_sizes<T>(items: Seq<T>)
    ensures
        page_of(items, 0, PAGE_SIZE as int) == (if items.len() > 500 {
            items.take(500)
        } else {
            items
        }),
        page_of(items, 0, COMPARE_PAGE_SIZE as int) == (if items.len() > 200 {
            items.take(200)
        } else {
            items
        }),
{
    assert(items.skip(0) =~= items);
    assert(items.len() > 500 ==> items.subrange(0, 500) =~= items.take(500));
    assert(items.len() > 200 ==> items.subrange(0, 200) =~= items.take(200));
    if items.len() == 500 {
        assert(items.take(500) =~= items);
    }
    if items.len() == 200 {
        assert(items.take(200) =~= items);
    }
}

} // verus!
