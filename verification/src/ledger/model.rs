//! What the ledger is and what its queries answer, as mathematics.

use crate::ledger::records::{
    OrderView, Region, RegionTopGiftsView, RegionTotal, RegionTotalView, RegionView, Tally,
    TallyView,
};
use crate::rank::key_order;
use crate::text::str_le;
use vstd::prelude::*;

verus! {

/// The state of a ledger: its regions and its orders, each in the order in
/// which they were inserted.
pub struct LedgerView {
    pub regions: Seq<RegionView>,
    pub orders: Seq<OrderView>,
}

/// The ids of a sequence of regions, in the same positions.
pub open spec fn region_ids(regions: Seq<RegionView>) -> Seq<int> {
    regions.map_values(|r: RegionView| r.id)
}

/// The ids of a sequence of orders, in the same positions.
pub open spec fn order_ids(orders: Seq<OrderView>) -> Seq<int> {
    orders.map_values(|o: OrderView| o.id)
}

impl LedgerView {
    /// The ledger without records.
    pub open spec fn empty() -> LedgerView {
        LedgerView { regions: Seq::empty(), orders: Seq::empty() }
    }

    /// No two regions share an id, and no two orders do.
    pub open spec fn well_formed(self) -> bool {
        &&& region_ids(self.regions).no_duplicates()
        &&& order_ids(self.orders).no_duplicates()
    }

    /// The ledger after a reset: nothing is kept.
    pub open spec fn reset(self) -> LedgerView {
        LedgerView::empty()
    }

    /// The ledger after a reset of its orders alone.
    pub open spec fn reset_orders(self) -> LedgerView {
        LedgerView { regions: self.regions, orders: Seq::empty() }
    }

    /// The ledger with `batch` behind its regions.
    pub open spec fn with_regions(self, batch: Seq<RegionView>) -> LedgerView {
        LedgerView { regions: self.regions + batch, orders: self.orders }
    }

    /// The ledger with `batch` behind its orders.
    pub open spec fn with_orders(self, batch: Seq<OrderView>) -> LedgerView {
        LedgerView { regions: self.regions, orders: self.orders + batch }
    }
}

/// The id that makes a batch unacceptable: that of the first record of
/// `batch` whose id is in `present` or on an earlier record of the batch.
/// `None` where every id of the batch is new.
pub open spec fn first_clash(present: Seq<int>, batch: Seq<int>) -> Option<int>
    decreases batch.len(),
{
    if batch.len() == 0 {
        None
    } else if present.contains(batch[0]) {
        Some(batch[0])
    } else {
        first_clash(present.push(batch[0]), batch.drop_first())
    }
}

/// The name of the region that bears `id`, if there is such a region.
pub open spec fn region_name(regions: Seq<RegionView>, id: int) -> Option<Seq<char>> {
    if exists|i: int| 0 <= i < regions.len() && regions[i].id == id {
        Some(regions[choose|i: int| 0 <= i < regions.len() && regions[i].id == id].name)
    } else {
        None
    }
}

/// The sum of the quantities of the orders that refer to the region with
/// this id.
pub open spec fn region_quantity(orders: Seq<OrderView>, region_id: int) -> int
    decreases orders.len(),
{
    if orders.len() == 0 {
        0
    } else {
        region_quantity(orders.drop_last(), region_id) + if orders.last().region_id == region_id {
            orders.last().quantity
        } else {
            0
        }
    }
}

/// The number of orders that refer to the region with this id.
pub open spec fn region_orders(orders: Seq<OrderView>, region_id: int) -> nat
    decreases orders.len(),
{
    if orders.len() == 0 {
        0
    } else {
        region_orders(orders.drop_last(), region_id) + if orders.last().region_id == region_id {
            1nat
        } else {
            0nat
        }
    }
}

/// The sum of the quantities of the orders that refer to a region called
/// `name`, taken region by region.
pub open spec fn name_quantity(
    regions: Seq<RegionView>,
    orders: Seq<OrderView>,
    name: Seq<char>,
) -> int
    decreases regions.len(),
{
    if regions.len() == 0 {
        0
    } else {
        name_quantity(regions.drop_last(), orders, name) + if regions.last().name == name {
            region_quantity(orders, regions.last().id)
        } else {
            0
        }
    }
}

/// The number of orders that refer to a region called `name`, taken
/// region by region.
pub open spec fn name_orders(
    regions: Seq<RegionView>,
    orders: Seq<OrderView>,
    name: Seq<char>,
) -> nat
    decreases regions.len(),
{
    if regions.len() == 0 {
        0
    } else {
        name_orders(regions.drop_last(), orders, name) + if regions.last().name == name {
            region_orders(orders, regions.last().id)
        } else {
            0
        }
    }
}

/// The sum of the quantities of the orders that refer to another region
/// of the same name as `region`.
pub open spec fn namesake_quantity(
    regions: Seq<RegionView>,
    orders: Seq<OrderView>,
    region: RegionView,
) -> int
    decreases regions.len(),
{
    if regions.len() == 0 {
        0
    } else {
        namesake_quantity(regions.drop_last(), orders, region) + if regions.last().name
            == region.name && regions.last().id != region.id {
            region_quantity(orders, regions.last().id)
        } else {
            0
        }
    }
}

/// The number of orders that refer to another region of the same name as
/// `region`.
pub open spec fn namesake_orders(
    regions: Seq<RegionView>,
    orders: Seq<OrderView>,
    region: RegionView,
) -> nat
    decreases regions.len(),
{
    if regions.len() == 0 {
        0
    } else {
        namesake_orders(regions.drop_last(), orders, region) + if regions.last().name
            == region.name && regions.last().id != region.id {
            region_orders(orders, regions.last().id)
        } else {
            0
        }
    }
}

/// The ways in which a query puts orders into groups.
#[derive(Clone, Copy, Debug, PartialEq, Eq)]
pub enum Grouping {
    /// By the name of the region that the order refers to; orders that
    /// refer to no region are left out.
    ByRegion,
    /// By gift, over the orders that refer to the region with this id.
    ByGiftIn(i32),
    /// By gift, over all orders.
    ByGift,
}

/// Orders counted under the name of the region that they refer to; an
/// order that refers to no region is left out.
pub open spec fn by_region(regions: Seq<RegionView>) -> spec_fn(OrderView) -> Option<Seq<char>> {
    |o: OrderView| region_name(regions, o.region_id)
}

/// Orders of the region with this id counted under their gift; the orders
/// of other regions are left out.
pub open spec fn by_gift_in(region_id: int) -> spec_fn(OrderView) -> Option<Seq<char>> {
    |o: OrderView|
        if o.region_id == region_id {
            Some(o.gift_name)
        } else {
            None
        }
}

/// Every order counted under its gift.
pub open spec fn by_gift() -> spec_fn(OrderView) -> Option<Seq<char>> {
    |o: OrderView| Some(o.gift_name)
}

/// The label under which `grouping` counts an order, or `None` where it
/// leaves the order out.
pub open spec fn labelling(regions: Seq<RegionView>, grouping: Grouping) -> spec_fn(
    OrderView,
) -> Option<Seq<char>> {
    match grouping {
        Grouping::ByRegion => by_region(regions),
        Grouping::ByGiftIn(id) => by_gift_in(id as int),
        Grouping::ByGift => by_gift(),
    }
}

/// The labels that occur among `orders`, each once, in the order of their
/// first occurrence.
pub open spec fn labels(
    orders: Seq<OrderView>,
    label: spec_fn(OrderView) -> Option<Seq<char>>,
) -> Seq<Seq<char>>
    decreases orders.len(),
{
    if orders.len() == 0 {
        Seq::empty()
    } else {
        let earlier = labels(orders.drop_last(), label);
        match label(orders.last()) {
            Some(l) => if earlier.contains(l) {
                earlier
            } else {
                earlier.push(l)
            },
            None => earlier,
        }
    }
}

/// The sum of the quantities of the orders that bear the label `l`.
pub open spec fn quantity_under(
    orders: Seq<OrderView>,
    label: spec_fn(OrderView) -> Option<Seq<char>>,
    l: Seq<char>,
) -> int
    decreases orders.len(),
{
    if orders.len() == 0 {
        0
    } else {
        quantity_under(orders.drop_last(), label, l) + if label(orders.last()) == Some(l) {
            orders.last().quantity
        } else {
            0
        }
    }
}

/// The number of orders that bear the label `l`.
pub open spec fn orders_under(
    orders: Seq<OrderView>,
    label: spec_fn(OrderView) -> Option<Seq<char>>,
    l: Seq<char>,
) -> nat
    decreases orders.len(),
{
    if orders.len() == 0 {
        0
    } else {
        orders_under(orders.drop_last(), label, l) + if label(orders.last()) == Some(l) {
            1nat
        } else {
            0nat
        }
    }
}

/// One tally for each label that occurs, in the order of first occurrence.
pub open spec fn tallies(
    orders: Seq<OrderView>,
    label: spec_fn(OrderView) -> Option<Seq<char>>,
) -> Seq<TallyView> {
    labels(orders, label).map_values(
        |l: Seq<char>| TallyView { label: l, total: quantity_under(orders, label, l) },
    )
}

/// Under `a` more was ordered than under `b`, or as much and `a` is the
/// earlier label of the two.
pub open spec fn outsells(
    orders: Seq<OrderView>,
    label: spec_fn(OrderView) -> Option<Seq<char>>,
    a: Seq<char>,
    b: Seq<char>,
) -> bool {
    let sold_a = quantity_under(orders, label, a);
    let sold_b = quantity_under(orders, label, b);
    sold_a > sold_b || (sold_a == sold_b && str_le(a, b) && a != b)
}

/// `list` holds the `k` best-selling labels, best first: labels that orders
/// bear, at most `k` of them, each outselling the ones behind it, and a
/// label that orders bear and that is not listed is outsold by all `k` that
/// are.
pub open spec fn leads_sales(
    orders: Seq<OrderView>,
    label: spec_fn(OrderView) -> Option<Seq<char>>,
    k: int,
    list: Seq<Seq<char>>,
) -> bool {
    &&& list.len() <= k
    &&& forall|i: int| 0 <= i < list.len() ==> orders_under(orders, label, #[trigger] list[i]) > 0
    &&& forall|i: int, j: int|
        0 <= i < j < list.len() ==> outsells(orders, label, #[trigger] list[i], #[trigger] list[j])
    &&& forall|l: Seq<char>|
        #![trigger list.contains(l)]
        orders_under(orders, label, l) > 0 && !list.contains(l) ==> list.len() == k && forall|
            i: int,
        |
            0 <= i < list.len() ==> outsells(orders, label, #[trigger] list[i], l)
}

/// The first `k` labels when the tallies are listed from the largest total
/// down, tallies of one total by label; all of them where there are fewer.
pub open spec fn best_sellers(
    orders: Seq<OrderView>,
    label: spec_fn(OrderView) -> Option<Seq<char>>,
    k: int,
) -> Seq<Seq<char>> {
    let ranked = tallies(orders, label).sort_by(key_order::<Tally>());
    let kept = if k < 0 {
        0
    } else if k < ranked.len() {
        k
    } else {
        ranked.len() as int
    };
    ranked.take(kept).map_values(|t: TallyView| t.label)
}

/// The sum of the quantities of all orders; `None` where there is no order
/// to sum.
pub open spec fn total(orders: Seq<OrderView>) -> Option<int> {
    if orders.len() == 0 {
        None
    } else {
        Some(quantity_sum(orders))
    }
}

/// The sum of the quantities of these orders.
pub open spec fn quantity_sum(orders: Seq<OrderView>) -> int
    decreases orders.len(),
{
    if orders.len() == 0 {
        0
    } else {
        quantity_sum(orders.drop_last()) + orders.last().quantity
    }
}

/// The gift with the largest ordered quantity over all regions, the first
/// by name among several; `None` where there is no order.
pub open spec fn popular(orders: Seq<OrderView>) -> Option<Seq<char>> {
    let best = best_sellers(orders, by_gift(), 1);
    if best.len() == 0 {
        None
    } else {
        Some(best[0])
    }
}

/// The answer of the totals query: one row for each region name that orders
/// refer to, by name, with the quantity ordered under that name.
pub open spec fn regions_total(ledger: LedgerView) -> Seq<RegionTotalView> {
    let named = by_region(ledger.regions);
    labels(ledger.orders, named).sort_by(key_order::<RegionTotal>()).map_values(
        |name: Seq<char>|
            RegionTotalView { region: name, total: quantity_under(ledger.orders, named, name) },
    )
}

/// `rows` stand by region name without a name twice; a name has a row
/// exactly where an order refers to a region of that name; and the total
/// of a row is the sum of the quantities of those orders.
pub open spec fn lists_totals(ledger: LedgerView, rows: Seq<RegionTotalView>) -> bool {
    let named = by_region(ledger.regions);
    &&& forall|i: int, j: int|
        0 <= i < j < rows.len() ==> str_le((#[trigger] rows[i]).region, (#[trigger] rows[j]).region)
            && rows[i].region != rows[j].region
    &&& forall|i: int|
        0 <= i < rows.len() ==> (#[trigger] rows[i]).total == quantity_under(
            ledger.orders,
            named,
            rows[i].region,
        )
    &&& forall|name: Seq<char>|
        (exists|i: int| 0 <= i < rows.len() && (#[trigger] rows[i]).region == name)
            <==> #[trigger] orders_under(ledger.orders, named, name) > 0
}

/// The gifts that the ranking query lists for the region with this id:
/// none where `k` is under 1, else its `k` best sellers.
pub open spec fn top_gifts(orders: Seq<OrderView>, region_id: int, k: int) -> Seq<Seq<char>> {
    if k < 1 {
        Seq::empty()
    } else {
        best_sellers(orders, by_gift_in(region_id), k)
    }
}

/// The row of the ranking query for one region.
pub open spec fn region_row(
    orders: Seq<OrderView>,
    region: RegionView,
    k: int,
) -> RegionTopGiftsView {
    RegionTopGiftsView { region: region.name, top_gifts: top_gifts(orders, region.id, k) }
}

/// The answer of the ranking query: one row for each region, regions by
/// name and regions of one name by id, each with its top gifts.
pub open spec fn top_list(ledger: LedgerView, k: int) -> Seq<RegionTopGiftsView> {
    ledger.regions.sort_by(key_order::<Region>()).map_values(
        |r: RegionView| region_row(ledger.orders, r, k),
    )
}

} // verus!
