//! The ledger itself: what it holds and how records get into it.

use crate::ledger::keys::{find_clash, keys_in, lemma_first_clash_none};
use crate::ledger::model::{
    first_clash, order_ids, popular, quantity_sum, region_ids, regions_total, top_list, total,
    Grouping, LedgerView,
};
use crate::ledger::query::{top_rows, top_sellers, total_rows};
use crate::ledger::records::{LedgerError, Order, Region, RegionTopGifts, RegionTotal};
use vstd::prelude::*;

verus! {

/// A ledger of regions and orders.
///
/// Within a ledger no two regions share an id and no two orders do; an
/// order may refer to a region that the ledger does not have.
pub struct Ledger {
    regions: Vec<Region>,
    orders: Vec<Order>,
}

impl View for Ledger {
    type V = LedgerView;

    closed spec fn view(&self) -> LedgerView {
        LedgerView { regions: self.regions.deep_view(), orders: self.orders.deep_view() }
    }
}

impl Ledger {
    #[verifier::type_invariant]
    spec fn ids_are_distinct(self) -> bool {
        self@.well_formed()
    }

    /// A ledger without records.
    pub fn new() -> (ledger: Ledger)
        ensures
            ledger@ == LedgerView::empty(),
            ledger@.well_formed(),
    {
        let ledger = Ledger { regions: Vec::new(), orders: Vec::new() };
        assert(ledger@ =~= LedgerView::empty()) by {
            assert(ledger.regions.deep_view() =~= Seq::empty());
            assert(ledger.orders.deep_view() =~= Seq::empty());
        }
        ledger
    }

    /// Discards every region and every order.
    pub fn reset(&mut self)
        ensures
            final(self)@ == old(self)@.reset(),
            final(self)@.well_formed(),
    {
        *self = Ledger::new();
    }

    /// Discards every order and keeps the regions.
    pub fn reset_orders(&mut self)
        ensures
            final(self)@ == old(self)@.reset_orders(),
            final(self)@.well_formed(),
    {
        proof {
            use_type_invariant(&*self);
        }
        let orders: Vec<Order> = Vec::new();
        assert(orders.deep_view() =~= Seq::empty());
        self.orders = orders;
    }

    /// The regions, in the order in which they were inserted.
    pub fn regions(&self) -> (regions: &Vec<Region>)
        ensures
            regions.deep_view() == self@.regions,
    {
        &self.regions
    }

    /// The orders, in the order in which they were inserted.
    pub fn orders(&self) -> (orders: &Vec<Order>)
        ensures
            orders.deep_view() == self@.orders,
    {
        &self.orders
    }

    /// Inserts a batch of regions, all of them or none.
    ///
    /// The batch is turned away where one of its ids is already on a region
    /// of the ledger or on an earlier region of the batch; the error names
    /// the first such id, and the ledger stays as it was.
    pub fn insert_regions(&mut self, batch: Vec<Region>) -> (r: Result<(), LedgerError>)
        ensures
            final(self)@.well_formed(),
            match first_clash(region_ids(old(self)@.regions), region_ids(batch.deep_view())) {
                Some(id) => {
                    &&& r matches Err(LedgerError::DuplicateKey(k)) && k == id
                    &&& final(self)@ == old(self)@
                },
                None => {
                    &&& r is Ok
                    &&& final(self)@ == old(self)@.with_regions(batch.deep_view())
                },
            },
    {
        proof {
            use_type_invariant(&*self);
        }
        let ghost present = self.regions.deep_view();
        let ghost added = batch.deep_view();
        proof {
            assert(keys_in(self.regions@) =~= region_ids(present));
            assert(keys_in(batch@) =~= region_ids(added));
        }
        match find_clash(&self.regions, &batch) {
            Some(id) => Err(LedgerError::DuplicateKey(id)),
            None => {
                let mut batch = batch;
                let mut regions: Vec<Region> = Vec::new();
                proof {
                    lemma_first_clash_none(region_ids(present), region_ids(added));
                    assert(region_ids(present + added) =~= region_ids(present) + region_ids(added));
                    assert(regions.deep_view() =~= Seq::empty());
                }
                core::mem::swap(&mut self.regions, &mut regions);
                regions.append(&mut batch);
                proof {
                    assert(regions.deep_view() =~= present + added);
                }
                self.regions = regions;
                Ok(())
            },
        }
    }

    /// Inserts a batch of orders, all of them or none.
    ///
    /// The batch is turned away where one of its ids is already on an order
    /// of the ledger or on an earlier order of the batch; the error names
    /// the first such id, and the ledger stays as it was. Whether the
    /// regions that the orders refer to exist is not looked at.
    pub fn insert_orders(&mut self, batch: Vec<Order>) -> (r: Result<(), LedgerError>)
        ensures
            final(self)@.well_formed(),
            match first_clash(order_ids(old(self)@.orders), order_ids(batch.deep_view())) {
                Some(id) => {
                    &&& r matches Err(LedgerError::DuplicateKey(k)) && k == id
                    &&& final(self)@ == old(self)@
                },
                None => {
                    &&& r is Ok
                    &&& final(self)@ == old(self)@.with_orders(batch.deep_view())
                },
            },
    {
        proof {
            use_type_invariant(&*self);
        }
        let ghost present = self.orders.deep_view();
        let ghost added = batch.deep_view();
        proof {
            assert(keys_in(self.orders@) =~= order_ids(present));
            assert(keys_in(batch@) =~= order_ids(added));
        }
        match find_clash(&self.orders, &batch) {
            Some(id) => Err(LedgerError::DuplicateKey(id)),
            None => {
                let mut batch = batch;
                let mut orders: Vec<Order> = Vec::new();
                proof {
                    lemma_first_clash_none(order_ids(present), order_ids(added));
                    assert(order_ids(present + added) =~= order_ids(present) + order_ids(added));
                    assert(orders.deep_view() =~= Seq::empty());
                }
                core::mem::swap(&mut self.orders, &mut orders);
                orders.append(&mut batch);
                proof {
                    assert(orders.deep_view() =~= present + added);
                }
                self.orders = orders;
                Ok(())
            },
        }
    }

    /// The quantity ordered under each region name: one row for each name
    /// that an order refers to through its region, rows by name.
    ///
    /// Regions without orders get no row, and orders that refer to no
    /// region count nowhere.
    pub fn regions_total(&self) -> (rows: Vec<RegionTotal>)
        ensures
            rows.deep_view() == regions_total(self@),
            self@.well_formed(),
    {
        proof {
            use_type_invariant(self);
        }
        total_rows(&self.regions, &self.orders)
    }

    /// The `k` best-selling gifts of each region: one row for each region,
    /// rows by region name, the gifts of a row from the largest ordered
    /// quantity down and gifts of one quantity by name.
    ///
    /// With `k` under 1 every row has an empty list, whatever was ordered.
    pub fn top_list(&self, k: i32) -> (rows: Vec<RegionTopGifts>)
        ensures
            rows.deep_view() == top_list(self@, k as int),
            self@.well_formed(),
    {
        proof {
            use_type_invariant(self);
        }
        top_rows(&self.regions, &self.orders, k)
    }

    /// The sum of the quantities of all orders, or `None` where the ledger
    /// has no order.
    pub fn total(&self) -> (sum: Option<i128>)
        ensures
            match total(self@.orders) {
                Some(s) => sum == Some(s as i128) && i128::MIN <= s <= i128::MAX,
                None => sum is None,
            },
    {
        if self.orders.len() == 0 {
            return None;
        }
        let ghost all = self.orders.deep_view();
        let mut sum: i128 = 0;
        let mut i: usize = 0;
        while i < self.orders.len()
            invariant
                i <= self.orders.len(),
                all == self.orders.deep_view(),
                sum == quantity_sum(all.take(i as int)),
                -(i * 0x8000_0000) <= sum <= i * 0x8000_0000,
            decreases self.orders.len() - i,
        {
            proof {
                assert(all.take(i + 1).drop_last() =~= all.take(i as int));
            }
            sum = sum + self.orders[i].quantity as i128;
            i = i + 1;
        }
        proof {
            assert(all.take(i as int) =~= all);
        }
        Some(sum)
    }

    /// The gift with the largest ordered quantity over all regions, the
    /// first by name among several; `None` where the ledger has no order.
    pub fn popular(&self) -> (gift: Option<String>)
        ensures
            match popular(self@.orders) {
                Some(name) => gift matches Some(g) && g@ == name,
                None => gift is None,
            },
    {
        proof {
            use_type_invariant(self);
        }
        let mut best = top_sellers(&self.regions, &self.orders, Grouping::ByGift, 1);
        let ghost found = best.deep_view();
        match best.pop() {
            Some(g) => {
                assert(found.len() == 1);
                assert(found[0] == g@);
                Some(g)
            },
            None => None,
        }
    }
}

} // verus!
