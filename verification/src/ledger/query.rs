//! The two queries, computed from the records.

use crate::ledger::model::{
    best_sellers, by_region, labelling, labels, quantity_under, region_ids, regions_total,
    tallies, top_gifts, top_list, Grouping, LedgerView,
};
use crate::ledger::records::{Order, Region, RegionTopGifts, RegionTotal};
use crate::ledger::tally::tally_orders;
use crate::rank::{keys_of, sort_ranked};
use vstd::prelude::*;

verus! {

/// The rows of the totals query over these records.
pub(crate) fn total_rows(regions: &Vec<Region>, orders: &Vec<Order>) -> (rows: Vec<RegionTotal>)
    requires
        region_ids(regions.deep_view()).no_duplicates(),
    ensures
        rows.deep_view() == regions_total(
            LedgerView { regions: regions.deep_view(), orders: orders.deep_view() },
        ),
{
    let ghost named = by_region(regions.deep_view());
    let ghost names = labels(orders.deep_view(), named);
    let sums = tally_orders(regions, orders, Grouping::ByRegion);
    let mut rows: Vec<RegionTotal> = Vec::new();
    let mut i: usize = 0;
    while i < sums.len()
        invariant
            i <= sums.len(),
            rows.len() == i,
            forall|j: int|
                0 <= j < i ==> (#[trigger] rows[j]).region@ == sums[j].label@ && rows[j].total
                    == sums[j].total,
        decreases sums.len() - i,
    {
        rows.push(RegionTotal { region: sums[i].label.clone(), total: sums[i].total });
        i = i + 1;
    }
    let ghost unsorted = rows@;
    let sorted = sort_ranked(rows);
    proof {
        broadcast use vstd::seq_lib::group_to_multiset_ensures;

        let model_sums = tallies(orders.deep_view(), named);
        assert(sums.deep_view() == model_sums);
        assert forall|j: int| 0 <= j < unsorted.len() implies #[trigger] unsorted[j].region@
            == names[j] && unsorted[j].total == quantity_under(
            orders.deep_view(),
            named,
            names[j],
        ) by {
            assert(sums.deep_view()[j] == model_sums[j]);
        }
        assert(keys_of(unsorted) =~= names);
        let want = regions_total(
            LedgerView { regions: regions.deep_view(), orders: orders.deep_view() },
        );
        assert(sorted.deep_view().len() == want.len());
        assert forall|j: int| 0 <= j < sorted.len() implies sorted.deep_view()[j] == want[j] by {
            let row = sorted@[j];
            assert(keys_of(sorted@)[j] == row.region@);
            assert(sorted@.to_multiset().count(row) > 0);
            assert(unsorted.contains(row));
            let m = choose|m: int| 0 <= m < unsorted.len() && unsorted[m] == row;
            assert(unsorted[m].region@ == names[m]);
        }
        assert(sorted.deep_view() =~= want);
    }
    sorted
}

/// The labels of the `k` groups with the largest sums, largest first.
pub(crate) fn top_sellers(
    regions: &Vec<Region>,
    orders: &Vec<Order>,
    grouping: Grouping,
    k: usize,
) -> (out: Vec<String>)
    requires
        region_ids(regions.deep_view()).no_duplicates(),
    ensures
        out.deep_view() == best_sellers(
            orders.deep_view(),
            labelling(regions.deep_view(), grouping),
            k as int,
        ),
{
    let sums = tally_orders(regions, orders, grouping);
    let ghost unsorted = sums@;
    let ranked = sort_ranked(sums);
    let ghost want = best_sellers(
        orders.deep_view(),
        labelling(regions.deep_view(), grouping),
        k as int,
    );
    proof {
        assert(keys_of(unsorted) =~= tallies(
            orders.deep_view(),
            labelling(regions.deep_view(), grouping),
        ));
        assert(keys_of(ranked@) =~= ranked.deep_view());
    }
    let kept = if k < ranked.len() {
        k
    } else {
        ranked.len()
    };
    let mut out: Vec<String> = Vec::new();
    let mut i: usize = 0;
    while i < kept
        invariant
            i <= kept <= ranked.len(),
            out.len() == i,
            forall|j: int| 0 <= j < i ==> (#[trigger] out[j])@ == ranked[j].label@,
        decreases kept - i,
    {
        out.push(ranked[i].label.clone());
        i = i + 1;
    }
    proof {
        assert(want.len() == kept);
        assert forall|j: int| 0 <= j < out.len() implies out.deep_view()[j] == want[j] by {
            assert(ranked.deep_view()[j].label == ranked[j].label@);
        }
        assert(out.deep_view() =~= want);
    }
    out
}

/// The rows of the ranking query over these records.
pub(crate) fn top_rows(regions: &Vec<Region>, orders: &Vec<Order>, k: i32) -> (rows: Vec<
    RegionTopGifts,
>)
    requires
        region_ids(regions.deep_view()).no_duplicates(),
    ensures
        rows.deep_view() == top_list(
            LedgerView { regions: regions.deep_view(), orders: orders.deep_view() },
            k as int,
        ),
{
    let mut copies: Vec<Region> = Vec::new();
    let mut i: usize = 0;
    while i < regions.len()
        invariant
            i <= regions.len(),
            copies.len() == i,
            forall|j: int| 0 <= j < i ==> (#[trigger] copies[j])@ == regions[j]@,
        decreases regions.len() - i,
    {
        copies.push(Region { id: regions[i].id, name: regions[i].name.clone() });
        i = i + 1;
    }
    proof {
        assert(keys_of(copies@) =~= regions.deep_view());
    }
    let listed = sort_ranked(copies);
    let ghost order = keys_of(listed@);
    let ghost want = top_list(
        LedgerView { regions: regions.deep_view(), orders: orders.deep_view() },
        k as int,
    );
    let mut rows: Vec<RegionTopGifts> = Vec::new();
    let mut n: usize = 0;
    while n < listed.len()
        invariant
            n <= listed.len(),
            rows.len() == n,
            region_ids(regions.deep_view()).no_duplicates(),
            order == keys_of(listed@),
            forall|j: int|
                0 <= j < n ==> (#[trigger] rows[j]).region@ == order[j].name
                    && rows[j].top_gifts.deep_view() == top_gifts(
                    orders.deep_view(),
                    order[j].id,
                    k as int,
                ),
        decreases listed.len() - n,
    {
        let region = &listed[n];
        let gifts = if k < 1 {
            let none: Vec<String> = Vec::new();
            assert(none.deep_view() =~= Seq::empty());
            none
        } else {
            top_sellers(regions, orders, Grouping::ByGiftIn(region.id), k as usize)
        };
        rows.push(RegionTopGifts { region: region.name.clone(), top_gifts: gifts });
        n = n + 1;
    }
    proof {
        assert(want.len() == rows.len());
        assert forall|j: int| 0 <= j < rows.len() implies rows.deep_view()[j] == want[j] by {
            assert(rows[j].region@ == order[j].name);
        }
        assert(rows.deep_view() =~= want);
    }
    rows
}

} // verus!
