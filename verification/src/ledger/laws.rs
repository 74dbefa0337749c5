//! What holds of the ledger and of its queries on every input.

use crate::ledger::model::{
    best_sellers, by_gift_in, by_region, labels, leads_sales, lists_totals, name_orders,
    name_quantity, namesake_orders, namesake_quantity, orders_under, outsells, quantity_under,
    region_ids, region_name, region_orders, region_quantity, region_row, regions_total, tallies,
    top_gifts, top_list, LedgerView,
};
use crate::ledger::records::{
    OrderView, Region, RegionTopGiftsView, RegionTotal, RegionTotalView, RegionView, Tally,
    TallyView,
};
use crate::ledger::tally::{lemma_labels_distinct, lemma_region_name_at, lemma_unlisted_label};
use crate::rank::{key_order, lemma_key_order_total, lemma_sort_by_listing, Ranked};
use crate::text::str_le;
use vstd::prelude::*;
use vstd::relations::sorted_by;

verus! {

/// A reset leaves the empty ledger, whatever was in it; so a second reset
/// changes nothing.
pub proof fn lemma_reset_idempotent(ledger: LedgerView)
    ensures
        ledger.reset() == LedgerView::empty(),
        ledger.reset().reset() == ledger.reset(),
        ledger.reset().well_formed(),
{
}

/// The rows of the totals query stand by region name without a name twice;
/// a name has a row exactly where an order refers to a region of that name;
/// and the total of a row is the sum of the quantities of those orders.
pub proof fn lemma_regions_total_listing(ledger: LedgerView)
    ensures
        lists_totals(ledger, regions_total(ledger)),
{
    let rows = regions_total(ledger);
    let named = by_region(ledger.regions);
    let names = labels(ledger.orders, named);
    let order = key_order::<RegionTotal>();
    let sorted = names.sort_by(order);
    lemma_key_order_total::<RegionTotal>();
    lemma_sort_by_listing(names, order);
    lemma_labels_distinct(ledger.orders, named);
    assert forall|i: int, j: int| 0 <= i < j < rows.len() implies str_le(
        (#[trigger] rows[i]).region,
        (#[trigger] rows[j]).region,
    ) && rows[i].region != rows[j].region by {
        assert(order(sorted[i], sorted[j]));
    }
    assert forall|name: Seq<char>|
        (exists|i: int| 0 <= i < rows.len() && (#[trigger] rows[i]).region == name)
            <==> #[trigger] orders_under(ledger.orders, named, name) > 0 by {
        lemma_unlisted_label(ledger.orders, named, name);
        if orders_under(ledger.orders, named, name) > 0 {
            assert(sorted.contains(name));
            let i = choose|i: int| 0 <= i < sorted.len() && sorted[i] == name;
            assert(rows[i].region == name);
        }
        if exists|i: int| 0 <= i < rows.len() && (#[trigger] rows[i]).region == name {
            let i = choose|i: int| 0 <= i < rows.len() && (#[trigger] rows[i]).region == name;
            assert(sorted[i] == name);
            assert(sorted.contains(name));
        }
    }
}

/// The answer of the totals query is the only list of rows that stands by
/// region name without a name twice, has a row for exactly the names that
/// orders refer to, and gives each name its sum.
pub proof fn lemma_regions_total_unique(ledger: LedgerView, rows: Seq<RegionTotalView>)
    requires
        lists_totals(ledger, rows),
    ensures
        rows == regions_total(ledger),
{
    broadcast use vstd::seq_lib::group_to_multiset_ensures;

    let answer = regions_total(ledger);
    let named = by_region(ledger.regions);
    let order = key_order::<RegionTotal>();
    lemma_key_order_total::<RegionTotal>();
    lemma_regions_total_listing(ledger);
    let given = rows.map_values(|row: RegionTotalView| row.region);
    let wanted = answer.map_values(|row: RegionTotalView| row.region);
    assert(sorted_by(given, order)) by {
        assert forall|i: int, j: int| 0 <= i < j < given.len() implies #[trigger] order(
            given[i],
            given[j],
        ) by {
            assert(str_le(rows[i].region, rows[j].region));
        }
    }
    assert(sorted_by(wanted, order)) by {
        assert forall|i: int, j: int| 0 <= i < j < wanted.len() implies #[trigger] order(
            wanted[i],
            wanted[j],
        ) by {
            assert(str_le(answer[i].region, answer[j].region));
        }
    }
    assert(given.no_duplicates()) by {
        assert forall|i: int, j: int|
            0 <= i < given.len() && 0 <= j < given.len() && i != j implies given[i]
            != given[j] by {
            if i < j {
                assert(rows[i].region != rows[j].region);
            } else {
                assert(rows[j].region != rows[i].region);
            }
        }
    }
    assert(wanted.no_duplicates()) by {
        assert forall|i: int, j: int|
            0 <= i < wanted.len() && 0 <= j < wanted.len() && i != j implies wanted[i]
            != wanted[j] by {
            if i < j {
                assert(answer[i].region != answer[j].region);
            } else {
                assert(answer[j].region != answer[i].region);
            }
        }
    }
    given.lemma_multiset_has_no_duplicates();
    wanted.lemma_multiset_has_no_duplicates();
    assert forall|name: Seq<char>| given.to_multiset().count(name) == wanted.to_multiset().count(
        name,
    ) by {
        if given.contains(name) {
            let i = choose|i: int| 0 <= i < given.len() && given[i] == name;
            assert(rows[i].region == name);
            assert(orders_under(ledger.orders, named, name) > 0);
            let j = choose|j: int| 0 <= j < answer.len() && (#[trigger] answer[j]).region == name;
            assert(wanted[j] == name);
            assert(wanted.contains(name));
        }
        if wanted.contains(name) {
            let j = choose|j: int| 0 <= j < wanted.len() && wanted[j] == name;
            assert(answer[j].region == name);
            assert(orders_under(ledger.orders, named, name) > 0);
            let i = choose|i: int| 0 <= i < rows.len() && (#[trigger] rows[i]).region == name;
            assert(given[i] == name);
            assert(given.contains(name));
        }
    }
    assert(given.to_multiset() =~= wanted.to_multiset());
    vstd::seq_lib::lemma_sorted_unique(given, wanted, order);
    assert(rows.len() == answer.len());
    assert forall|i: int| 0 <= i < rows.len() implies rows[i] == answer[i] by {
        assert(given[i] == wanted[i]);
    }
    assert(rows =~= answer);
}

/// With one more region, an id names what it named before, or the new
/// region where it is the new region's id.
proof fn lemma_region_name_push(front: Seq<RegionView>, region: RegionView, id: int)
    requires
        region_ids(front.push(region)).no_duplicates(),
    ensures
        region_name(front.push(region), id) == if id == region.id {
            Some(region.name)
        } else {
            region_name(front, id)
        },
        id == region.id ==> region_name(front, id) is None,
{
    let all = front.push(region);
    let last = front.len() as int;
    assert(all[last] == region);
    assert forall|j: int| 0 <= j < front.len() implies front[j].id != region.id by {
        assert(all[j] == front[j]);
        assert(region_ids(all)[j] != region_ids(all)[last]);
    }
    assert(region_ids(front).no_duplicates()) by {
        assert forall|i: int, j: int|
            0 <= i < front.len() && 0 <= j < front.len() && i != j implies region_ids(front)[i]
            != region_ids(front)[j] by {
            assert(region_ids(all)[i] == region_ids(front)[i]);
            assert(region_ids(all)[j] == region_ids(front)[j]);
        }
    }
    if id == region.id {
        lemma_region_name_at(all, last);
    } else if exists|j: int| 0 <= j < front.len() && front[j].id == id {
        let j = choose|j: int| 0 <= j < front.len() && front[j].id == id;
        assert(all[j] == front[j]);
        lemma_region_name_at(front, j);
        lemma_region_name_at(all, j);
    } else {
        assert forall|j: int| 0 <= j < all.len() implies all[j].id != id by {
            if j < front.len() {
                assert(all[j] == front[j]);
            }
        }
    }
}

/// With one more region, the orders counted under a name are those
/// counted before and, where the new region bears the name, those that
/// refer to it.
proof fn lemma_one_more_region(
    orders: Seq<OrderView>,
    front: Seq<RegionView>,
    region: RegionView,
    name: Seq<char>,
)
    requires
        region_ids(front.push(region)).no_duplicates(),
    ensures
        quantity_under(orders, by_region(front.push(region)), name) == quantity_under(
            orders,
            by_region(front),
            name,
        ) + if region.name == name {
            region_quantity(orders, region.id)
        } else {
            0
        },
        orders_under(orders, by_region(front.push(region)), name) == orders_under(
            orders,
            by_region(front),
            name,
        ) + if region.name == name {
            region_orders(orders, region.id)
        } else {
            0
        },
    decreases orders.len(),
{
    if orders.len() > 0 {
        lemma_one_more_region(orders.drop_last(), front, region, name);
        lemma_region_name_push(front, region, orders.last().region_id);
    }
}

/// Without regions no order is counted under any name.
proof fn lemma_no_region(orders: Seq<OrderView>, name: Seq<char>)
    ensures
        quantity_under(orders, by_region(Seq::empty()), name) == 0,
        orders_under(orders, by_region(Seq::empty()), name) == 0,
    decreases orders.len(),
{
    if orders.len() > 0 {
        lemma_no_region(orders.drop_last(), name);
    }
}

/// What the totals query counts under a name is what the regions of that
/// name have, taken together.
pub proof fn lemma_totals_by_name(
    regions: Seq<RegionView>,
    orders: Seq<OrderView>,
    name: Seq<char>,
)
    requires
        region_ids(regions).no_duplicates(),
    ensures
        quantity_under(orders, by_region(regions), name) == name_quantity(regions, orders, name),
        orders_under(orders, by_region(regions), name) == name_orders(regions, orders, name),
    decreases regions.len(),
{
    if regions.len() == 0 {
        assert(regions =~= Seq::empty());
        lemma_no_region(orders, name);
    } else {
        let front = regions.drop_last();
        assert(front.push(regions.last()) =~= regions);
        assert(region_ids(front).no_duplicates()) by {
            assert forall|i: int, j: int|
                0 <= i < front.len() && 0 <= j < front.len() && i != j implies region_ids(
                front,
            )[i] != region_ids(front)[j] by {
                assert(region_ids(regions)[i] == region_ids(front)[i]);
                assert(region_ids(regions)[j] == region_ids(front)[j]);
            }
        }
        lemma_totals_by_name(front, orders, name);
        lemma_one_more_region(orders, front, regions.last(), name);
    }
}

/// What the regions of one name have together is what one of them has and
/// what its namesakes have.
pub proof fn lemma_namesakes(regions: Seq<RegionView>, orders: Seq<OrderView>, region: RegionView)
    requires
        region_ids(regions).no_duplicates(),
        regions.contains(region),
    ensures
        name_quantity(regions, orders, region.name) == region_quantity(orders, region.id)
            + namesake_quantity(regions, orders, region),
        name_orders(regions, orders, region.name) == region_orders(orders, region.id)
            + namesake_orders(regions, orders, region),
    decreases regions.len(),
{
    let front = regions.drop_last();
    let last = regions.len() - 1;
    assert forall|j: int| 0 <= j < front.len() implies front[j].id != regions[last].id by {
        assert(region_ids(regions)[j] != region_ids(regions)[last]);
    }
    if regions.last() == region {
        lemma_no_namesake_here(front, orders, region);
    } else {
        let at = choose|at: int| 0 <= at < regions.len() && regions[at] == region;
        assert(front[at] == region);
        assert(region_ids(front).no_duplicates()) by {
            assert forall|i: int, j: int|
                0 <= i < front.len() && 0 <= j < front.len() && i != j implies region_ids(
                front,
            )[i] != region_ids(front)[j] by {
                assert(region_ids(regions)[i] == region_ids(front)[i]);
                assert(region_ids(regions)[j] == region_ids(front)[j]);
            }
        }
        lemma_namesakes(front, orders, region);
    }
}

/// Among regions that do not have the id of `region`, those of its name
/// are all its namesakes.
proof fn lemma_no_namesake_here(
    regions: Seq<RegionView>,
    orders: Seq<OrderView>,
    region: RegionView,
)
    requires
        forall|j: int| 0 <= j < regions.len() ==> regions[j].id != region.id,
    ensures
        name_quantity(regions, orders, region.name) == namesake_quantity(regions, orders, region),
        name_orders(regions, orders, region.name) == namesake_orders(regions, orders, region),
    decreases regions.len(),
{
    if regions.len() > 0 {
        let front = regions.drop_last();
        assert forall|j: int| 0 <= j < front.len() implies front[j].id != region.id by {
            assert(front[j] == regions[j]);
        }
        lemma_no_namesake_here(front, orders, region);
        assert(regions.last() == regions[regions.len() - 1]);
    }
}

/// The total of a region in the totals query is the sum of the quantities
/// of the orders that refer to the region's id, and a region without such
/// orders has no row.
///
/// Rows go by name, so regions that share a name share a row. The law is
/// stated for the regions whose row is theirs alone: where the region has
/// orders, the quantities of its namesakes add up to nothing, and where it
/// has none, its namesakes have none either.
pub proof fn lemma_regions_total_correct(ledger: LedgerView, region: RegionView)
    requires
        ledger.well_formed(),
        ledger.regions.contains(region),
        region_orders(ledger.orders, region.id) > 0 ==> namesake_quantity(
            ledger.regions,
            ledger.orders,
            region,
        ) == 0,
        region_orders(ledger.orders, region.id) == 0 ==> namesake_orders(
            ledger.regions,
            ledger.orders,
            region,
        ) == 0,
    ensures
        region_orders(ledger.orders, region.id) > 0 ==> regions_total(ledger).contains(
            RegionTotalView {
                region: region.name,
                total: region_quantity(ledger.orders, region.id),
            },
        ),
        region_orders(ledger.orders, region.id) == 0 ==> forall|i: int|
            0 <= i < regions_total(ledger).len() ==> (#[trigger] regions_total(ledger)[i]).region
                != region.name,
        forall|i: int|
            0 <= i < regions_total(ledger).len() && (#[trigger] regions_total(ledger)[i]).region
                == region.name ==> regions_total(ledger)[i].total == region_quantity(
                ledger.orders,
                region.id,
            ),
{
    let rows = regions_total(ledger);
    let named = by_region(ledger.regions);
    let orders = ledger.orders;
    lemma_totals_by_name(ledger.regions, orders, region.name);
    lemma_namesakes(ledger.regions, orders, region);
    lemma_regions_total_listing(ledger);
    if region_orders(orders, region.id) > 0 {
        assert(orders_under(orders, named, region.name) > 0);
        let i = choose|i: int| 0 <= i < rows.len() && (#[trigger] rows[i]).region == region.name;
        assert(rows[i] == RegionTotalView {
            region: region.name,
            total: region_quantity(orders, region.id),
        });
    } else {
        assert(orders_under(orders, named, region.name) == 0);
    }
}

/// The best sellers hold the `k` best-selling labels, best first; for a
/// `k` under 0 they hold none.
pub proof fn lemma_best_sellers_ranked(
    orders: Seq<OrderView>,
    label: spec_fn(OrderView) -> Option<Seq<char>>,
    k: int,
)
    ensures
        k >= 0 ==> leads_sales(orders, label, k, best_sellers(orders, label, k)),
        k < 0 ==> best_sellers(orders, label, k).len() == 0,
{
    let best = best_sellers(orders, label, k);
    let names = labels(orders, label);
    let sums = tallies(orders, label);
    let order = key_order::<Tally>();
    lemma_key_order_total::<Tally>();
    let ranked = sums.sort_by(order);
    lemma_labels_distinct(orders, label);
    assert(sums.no_duplicates()) by {
        assert forall|i: int, j: int|
            0 <= i < sums.len() && 0 <= j < sums.len() && i != j implies sums[i] != sums[j] by {
            assert(sums[i].label == names[i]);
            assert(sums[j].label == names[j]);
        }
    }
    lemma_sort_by_listing(sums, order);
    // every ranked tally is the tally of a label that orders bear
    assert forall|i: int| 0 <= i < ranked.len() implies (#[trigger] ranked[i]).total
        == quantity_under(orders, label, ranked[i].label) && orders_under(
        orders,
        label,
        ranked[i].label,
    ) > 0 by {
        assert(ranked.contains(ranked[i]));
        assert(sums.contains(ranked[i]));
        let m = choose|m: int| 0 <= m < sums.len() && sums[m] == ranked[i];
        assert(names[m] == ranked[i].label);
        lemma_unlisted_label(orders, label, names[m]);
    }
    assert forall|i: int, j: int| 0 <= i < j < ranked.len() implies outsells(
        orders,
        label,
        (#[trigger] ranked[i]).label,
        (#[trigger] ranked[j]).label,
    ) by {
        assert(order(ranked[i], ranked[j]));
        if ranked[i].label == ranked[j].label {
            assert(ranked[i] == ranked[j]);
        }
    }
    assert forall|i: int| 0 <= i < best.len() implies orders_under(
        orders,
        label,
        #[trigger] best[i],
    ) > 0 by {
        assert(best[i] == ranked[i].label);
    }
    assert forall|i: int, j: int| 0 <= i < j < best.len() implies outsells(
        orders,
        label,
        #[trigger] best[i],
        #[trigger] best[j],
    ) by {
        assert(best[i] == ranked[i].label);
        assert(best[j] == ranked[j].label);
    }
    assert forall|l: Seq<char>|
        #![trigger best.contains(l)]
        orders_under(orders, label, l) > 0 && !best.contains(l) implies (k >= 0 ==> best.len()
            == k) && forall|i: int|
        0 <= i < best.len() ==> outsells(orders, label, #[trigger] best[i], l) by {
        lemma_unlisted_label(orders, label, l);
        let m = choose|m: int| 0 <= m < names.len() && names[m] == l;
        assert(sums[m] == TallyView { label: l, total: quantity_under(orders, label, l) });
        assert(sums.contains(sums[m]));
        assert(ranked.contains(sums[m]));
        let p = choose|p: int| 0 <= p < ranked.len() && ranked[p] == sums[m];
        if p < best.len() {
            assert(best[p] == l);
        }
        assert forall|i: int| 0 <= i < best.len() implies outsells(
            orders,
            label,
            #[trigger] best[i],
            l,
        ) by {
            assert(best[i] == ranked[i].label);
            assert(ranked[p].label == l);
        }
    }
}

/// Of two labels neither outsells the other only where they are the same
/// label, and never do both outsell each other.
proof fn lemma_outsells_orders(
    orders: Seq<OrderView>,
    label: spec_fn(OrderView) -> Option<Seq<char>>,
    a: Seq<char>,
    b: Seq<char>,
)
    ensures
        !(outsells(orders, label, a, b) && outsells(orders, label, b, a)),
        a != b ==> outsells(orders, label, a, b) || outsells(orders, label, b, a),
{
    crate::text::lemma_str_le_connected(a, b);
    if str_le(a, b) && str_le(b, a) {
        crate::text::lemma_str_le_antisymmetric(a, b);
    }
}

/// Two lists of best sellers for the same `k` agree in their first places.
proof fn lemma_best_sellers_agree(
    orders: Seq<OrderView>,
    label: spec_fn(OrderView) -> Option<Seq<char>>,
    k: int,
    a: Seq<Seq<char>>,
    b: Seq<Seq<char>>,
    n: int,
)
    requires
        leads_sales(orders, label, k, a),
        leads_sales(orders, label, k, b),
        0 <= n <= a.len(),
        n <= b.len(),
    ensures
        forall|i: int| 0 <= i < n ==> a[i] == b[i],
    decreases n,
{
    if n > 0 {
        lemma_best_sellers_agree(orders, label, k, a, b, n - 1);
        let at = n - 1;
        let x = a[at];
        let y = b[at];
        if x != y {
            lemma_outsells_orders(orders, label, x, y);
            if outsells(orders, label, x, y) {
                lemma_outsold_is_listed(orders, label, k, a, b, at);
            } else {
                lemma_outsold_is_listed(orders, label, k, b, a, at);
            }
        }
    }
}

/// Where two lists of best sellers agree before a place, what the one has
/// at that place does not outsell what the other has there.
proof fn lemma_outsold_is_listed(
    orders: Seq<OrderView>,
    label: spec_fn(OrderView) -> Option<Seq<char>>,
    k: int,
    a: Seq<Seq<char>>,
    b: Seq<Seq<char>>,
    at: int,
)
    requires
        leads_sales(orders, label, k, a),
        leads_sales(orders, label, k, b),
        0 <= at < a.len(),
        at < b.len(),
        forall|i: int| 0 <= i < at ==> a[i] == b[i],
        a[at] != b[at],
    ensures
        !outsells(orders, label, a[at], b[at]),
{
    let x = a[at];
    let y = b[at];
    if outsells(orders, label, x, y) {
        lemma_outsells_orders(orders, label, x, y);
        if b.contains(x) {
            let p = choose|p: int| 0 <= p < b.len() && b[p] == x;
            if p < at {
                assert(a[p] == x);
                assert(outsells(orders, label, a[p], a[at]));
            } else {
                assert(outsells(orders, label, b[at], b[p]));
            }
        } else {
            assert(orders_under(orders, label, x) > 0);
            assert(outsells(orders, label, b[at], x));
        }
    }
}

/// The best sellers are the only list that holds the `k` best-selling
/// labels, best first.
pub proof fn lemma_best_sellers_unique(
    orders: Seq<OrderView>,
    label: spec_fn(OrderView) -> Option<Seq<char>>,
    k: int,
    list: Seq<Seq<char>>,
)
    requires
        leads_sales(orders, label, k, list),
    ensures
        list == best_sellers(orders, label, k),
{
    let best = best_sellers(orders, label, k);
    lemma_best_sellers_ranked(orders, label, k);
    let n = if list.len() < best.len() {
        list.len() as int
    } else {
        best.len() as int
    };
    lemma_best_sellers_agree(orders, label, k, list, best, n);
    if list.len() <= best.len() {
        lemma_same_length(orders, label, k, list, best);
    } else {
        lemma_same_length(orders, label, k, best, list);
    }
    assert(list =~= best);
}

/// Two lists of best sellers that agree as far as the shorter goes are of
/// one length.
proof fn lemma_same_length(
    orders: Seq<OrderView>,
    label: spec_fn(OrderView) -> Option<Seq<char>>,
    k: int,
    short: Seq<Seq<char>>,
    long: Seq<Seq<char>>,
)
    requires
        leads_sales(orders, label, k, short),
        leads_sales(orders, label, k, long),
        short.len() <= long.len(),
        forall|i: int| 0 <= i < short.len() ==> short[i] == long[i],
    ensures
        short.len() == long.len(),
{
    if short.len() < long.len() {
        let next = long[short.len() as int];
        assert(orders_under(orders, label, next) > 0);
        if short.contains(next) {
            let p = choose|p: int| 0 <= p < short.len() && short[p] == next;
            assert(long[p] == next);
            assert(outsells(orders, label, long[p], long[short.len() as int]));
            lemma_outsells_orders(orders, label, next, next);
        }
    }
}

/// Within the top gifts of a region, a gift with a larger ordered quantity
/// stands before one with a smaller, and of two gifts with the same
/// quantity the earlier name stands first. For a `k` of 1 or more the list
/// holds the `k` best-selling gifts of the region.
pub proof fn lemma_top_gifts_ranked(orders: Seq<OrderView>, region_id: int, k: int)
    ensures
        ({
            let gifts = top_gifts(orders, region_id, k);
            let sold = by_gift_in(region_id);
            &&& forall|i: int, j: int|
                0 <= i < j < gifts.len() ==> {
                    let more = quantity_under(orders, sold, #[trigger] gifts[i]);
                    let less = quantity_under(orders, sold, #[trigger] gifts[j]);
                    more > less || (more == less && str_le(gifts[i], gifts[j]) && gifts[i]
                        != gifts[j])
                }
            &&& k >= 1 ==> leads_sales(orders, sold, k, gifts)
            &&& k < 1 ==> gifts.len() == 0
        }),
{
    if k >= 1 {
        lemma_best_sellers_ranked(orders, by_gift_in(region_id), k);
    }
    let gifts = top_gifts(orders, region_id, k);
    let sold = by_gift_in(region_id);
    assert forall|i: int, j: int| 0 <= i < j < gifts.len() implies {
        let more = quantity_under(orders, sold, #[trigger] gifts[i]);
        let less = quantity_under(orders, sold, #[trigger] gifts[j]);
        more > less || (more == less && str_le(gifts[i], gifts[j]) && gifts[i] != gifts[j])
    } by {
        assert(outsells(orders, sold, gifts[i], gifts[j]));
    }
}

/// The ranking query answers with one row for each region of the ledger,
/// whether the region has orders or not, and the rows stand by region name.
pub proof fn lemma_top_list_complete(ledger: LedgerView, k: int)
    requires
        ledger.well_formed(),
    ensures
        ({
            let rows = top_list(ledger, k);
            let listed = ledger.regions.sort_by(key_order::<Region>());
            &&& rows.len() == ledger.regions.len()
            &&& listed.len() == rows.len()
            &&& listed.to_multiset() == ledger.regions.to_multiset()
            &&& listed.no_duplicates()
            &&& forall|i: int|
                0 <= i < rows.len() ==> #[trigger] rows[i] == region_row(
                    ledger.orders,
                    listed[i],
                    k,
                )
            &&& forall|i: int, j: int|
                0 <= i < j < rows.len() ==> str_le(
                    (#[trigger] rows[i]).region,
                    (#[trigger] rows[j]).region,
                )
            &&& forall|region: RegionView|
                #![trigger ledger.regions.contains(region)]
                ledger.regions.contains(region) ==> rows.contains(
                    region_row(ledger.orders, region, k),
                )
        }),
{
    let rows = top_list(ledger, k);
    let order = key_order::<Region>();
    let listed = ledger.regions.sort_by(order);
    lemma_key_order_total::<Region>();
    lemma_sort_by_listing(ledger.regions, order);
    assert(ledger.regions.no_duplicates()) by {
        assert forall|i: int, j: int|
            0 <= i < ledger.regions.len() && 0 <= j < ledger.regions.len() && i
                != j implies ledger.regions[i] != ledger.regions[j] by {
            assert(region_ids(ledger.regions)[i] != region_ids(ledger.regions)[j]);
        }
    }
    assert forall|i: int, j: int| 0 <= i < j < rows.len() implies str_le(
        (#[trigger] rows[i]).region,
        (#[trigger] rows[j]).region,
    ) by {
        assert(order(listed[i], listed[j]));
        crate::text::lemma_str_le_reflexive(listed[i].name);
    }
    assert forall|region: RegionView|
        #![trigger ledger.regions.contains(region)]
        ledger.regions.contains(region) implies rows.contains(
        region_row(ledger.orders, region, k),
    ) by {
        assert(listed.contains(region));
        let i = choose|i: int| 0 <= i < listed.len() && listed[i] == region;
        assert(rows[i] == region_row(ledger.orders, region, k));
    }
}

/// The answer of the ranking query is the only list of rows that has a row
/// for each region, as often as the ledger has the region, with the rows
/// standing by region name and rows of one name by region id.
pub proof fn lemma_top_list_unique(ledger: LedgerView, k: int, listed: Seq<RegionView>)
    requires
        listed.to_multiset() == ledger.regions.to_multiset(),
        forall|i: int, j: int|
            0 <= i < j < listed.len() ==> Region::key_le(
                #[trigger] listed[i],
                #[trigger] listed[j],
            ),
    ensures
        listed.map_values(|r: RegionView| region_row(ledger.orders, r, k)) == top_list(ledger, k),
{
    let order = key_order::<Region>();
    lemma_key_order_total::<Region>();
    lemma_sort_by_listing(ledger.regions, order);
    assert(sorted_by(listed, order)) by {
        assert forall|i: int, j: int| 0 <= i < j < listed.len() implies #[trigger] order(
            listed[i],
            listed[j],
        ) by {
            assert(Region::key_le(listed[i], listed[j]));
        }
    }
    vstd::seq_lib::lemma_sorted_unique(listed, ledger.regions.sort_by(order), order);
    assert(listed.map_values(|r: RegionView| region_row(ledger.orders, r, k)) =~= top_list(
        ledger,
        k,
    ));
}

/// With `k` under 1 the ranking query has a row for every region and lists
/// no gift in any row, and its answer is the same whatever the orders are.
pub proof fn lemma_top_list_degenerate(ledger: LedgerView, orders: Seq<OrderView>, k: int)
    requires
        k < 1,
    ensures
        top_list(ledger, k).len() == ledger.regions.len(),
        forall|i: int|
            0 <= i < top_list(ledger, k).len() ==> (#[trigger] top_list(ledger, k)[i]).top_gifts
                == Seq::<Seq<char>>::empty(),
        forall|region: RegionView|
            #![trigger ledger.regions.contains(region)]
            ledger.regions.contains(region) ==> top_list(ledger, k).contains(
                RegionTopGiftsView { region: region.name, top_gifts: Seq::empty() },
            ),
        top_list(ledger, k) == top_list(LedgerView { regions: ledger.regions, orders }, k),
{
    let rows = top_list(ledger, k);
    let order = key_order::<Region>();
    let listed = ledger.regions.sort_by(order);
    lemma_key_order_total::<Region>();
    lemma_sort_by_listing(ledger.regions, order);
    assert forall|region: RegionView|
        #![trigger ledger.regions.contains(region)]
        ledger.regions.contains(region) implies rows.contains(
        RegionTopGiftsView { region: region.name, top_gifts: Seq::empty() },
    ) by {
        assert(listed.contains(region));
        let i = choose|i: int| 0 <= i < listed.len() && listed[i] == region;
        assert(rows[i] == RegionTopGiftsView { region: region.name, top_gifts: Seq::empty() });
    }
    assert(rows =~= top_list(LedgerView { regions: ledger.regions, orders }, k));
}

/// An order that refers to no region of the ledger changes the answer of
/// neither query.
pub proof fn lemma_unmatched_order(ledger: LedgerView, order: OrderView, k: int)
    requires
        region_name(ledger.regions, order.region_id) is None,
    ensures
        regions_total(ledger.with_orders(seq![order])) == regions_total(ledger),
        top_list(ledger.with_orders(seq![order]), k) == top_list(ledger, k),
{
    let after = ledger.with_orders(seq![order]);
    let named = by_region(ledger.regions);
    assert(after.orders =~= ledger.orders.push(order));
    assert(after.orders.drop_last() =~= ledger.orders);
    assert(named(order) is None);
    assert(labels(after.orders, named) == labels(ledger.orders, named));
    assert(regions_total(after) =~= regions_total(ledger));
    let listed = ledger.regions.sort_by(key_order::<Region>());
    lemma_key_order_total::<Region>();
    lemma_sort_by_listing(ledger.regions, key_order::<Region>());
    assert forall|i: int| 0 <= i < listed.len() implies region_row(after.orders, listed[i], k)
        == region_row(ledger.orders, listed[i], k) by {
        let region = listed[i];
        assert(listed.contains(region));
        assert(ledger.regions.contains(region));
        let sold = by_gift_in(region.id);
        assert(sold(order) is None);
        assert(labels(after.orders, sold) == labels(ledger.orders, sold));
        assert(tallies(after.orders, sold) =~= tallies(ledger.orders, sold));
    }
    assert(top_list(after, k) =~= top_list(ledger, k));
}

} // verus!
