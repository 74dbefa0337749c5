//! Grouping of orders under labels, with the sum of each group.

use crate::ledger::model::{
    labelling, labels, orders_under, quantity_under, region_ids, region_name, tallies, Grouping,
};
use crate::ledger::records::{Order, OrderView, Region, RegionView, Tally, TallyView};
use vstd::prelude::*;

verus! {

/// The tallies after one more quantity was counted under `l`: the tally of
/// that label grows by `q`, or a new tally is put behind the others.
pub open spec fn credited(t: Seq<TallyView>, l: Seq<char>, q: int) -> Seq<TallyView> {
    if exists|j: int| 0 <= j < t.len() && t[j].label == l {
        let j = choose|j: int| 0 <= j < t.len() && t[j].label == l;
        t.update(j, TallyView { label: l, total: t[j].total + q })
    } else {
        t.push(TallyView { label: l, total: q })
    }
}

/// No label is listed twice.
pub proof fn lemma_labels_distinct(
    orders: Seq<OrderView>,
    label: spec_fn(OrderView) -> Option<Seq<char>>,
)
    ensures
        labels(orders, label).no_duplicates(),
    decreases orders.len(),
{
    if orders.len() > 0 {
        lemma_labels_distinct(orders.drop_last(), label);
    }
}

/// A label is listed exactly where an order bears it, and under a label
/// that is not listed nothing was ordered.
pub proof fn lemma_unlisted_label(
    orders: Seq<OrderView>,
    label: spec_fn(OrderView) -> Option<Seq<char>>,
    l: Seq<char>,
)
    ensures
        labels(orders, label).contains(l) <==> orders_under(orders, label, l) > 0,
        !labels(orders, label).contains(l) ==> quantity_under(orders, label, l) == 0,
    decreases orders.len(),
{
    if orders.len() > 0 {
        let front = orders.drop_last();
        lemma_unlisted_label(front, label, l);
        let earlier = labels(front, label);
        let now = labels(orders, label);
        if earlier.contains(l) {
            if now != earlier {
                assert(now[earlier.index_of(l)] == l);
            }
        }
        if label(orders.last()) == Some(l) {
            if !earlier.contains(l) {
                assert(now[earlier.len() as int] == l);
            }
        } else if now.contains(l) {
            let j = choose|j: int| 0 <= j < now.len() && now[j] == l;
            if j < earlier.len() {
                assert(earlier[j] == l);
            }
        }
    }
}

/// Counting one more order changes the tallies as `credited` says, or not at
/// all where the order bears no label.
pub proof fn lemma_tallies_extend(
    orders: Seq<OrderView>,
    label: spec_fn(OrderView) -> Option<Seq<char>>,
)
    requires
        orders.len() > 0,
    ensures
        tallies(orders, label) == match label(orders.last()) {
            Some(l) => credited(tallies(orders.drop_last(), label), l, orders.last().quantity),
            None => tallies(orders.drop_last(), label),
        },
{
    let front = orders.drop_last();
    let before = tallies(front, label);
    let earlier = labels(front, label);
    lemma_labels_distinct(front, label);
    match label(orders.last()) {
        Some(l) => {
            let q = orders.last().quantity;
            lemma_unlisted_label(front, label, l);
            if earlier.contains(l) {
                let w = earlier.index_of(l);
                assert(before[w].label == l);
                let j = choose|j: int| 0 <= j < before.len() && before[j].label == l;
                assert(earlier[j] == l);
                assert(j == w);
                assert(tallies(orders, label) =~= before.update(
                    j,
                    TallyView { label: l, total: before[j].total + q },
                ));
            } else {
                if exists|j: int| 0 <= j < before.len() && before[j].label == l {
                    let j = choose|j: int| 0 <= j < before.len() && before[j].label == l;
                    assert(earlier[j] == l);
                }
                assert(tallies(orders, label) =~= before.push(TallyView { label: l, total: q }));
            }
        },
        None => {
            assert(tallies(orders, label) =~= before);
        },
    }
}

/// Where the ids of the regions are distinct, the region at a position is
/// the one that its id names.
pub proof fn lemma_region_name_at(regions: Seq<RegionView>, i: int)
    requires
        region_ids(regions).no_duplicates(),
        0 <= i < regions.len(),
    ensures
        region_name(regions, regions[i].id) == Some(regions[i].name),
{
    let id = regions[i].id;
    let c = choose|c: int| 0 <= c < regions.len() && regions[c].id == id;
    assert(region_ids(regions)[c] == region_ids(regions)[i]);
}

/// Looks for the region that bears `id`.
fn find_region(regions: &Vec<Region>, id: i32) -> (r: Option<usize>)
    ensures
        match r {
            Some(i) => i < regions.len() && regions[i as int].id == id,
            None => forall|j: int| 0 <= j < regions.len() ==> regions[j].id != id,
        },
{
    let mut i: usize = 0;
    while i < regions.len()
        invariant
            i <= regions.len(),
            forall|j: int| 0 <= j < i ==> regions[j].id != id,
        decreases regions.len() - i,
    {
        if regions[i].id == id {
            return Some(i);
        }
        i = i + 1;
    }
    None
}

/// Counts `quantity` under `label`.
fn credit(tallies: &mut Vec<Tally>, label: &String, quantity: i32)
    requires
        forall|i: int, j: int|
            0 <= i < j < old(tallies).len() ==> old(tallies)[i].label@ != old(tallies)[j].label@,
        forall|j: int|
            0 <= j < old(tallies).len() ==> i128::MIN <= (#[trigger] old(tallies)[j]).total
                + quantity <= i128::MAX,
    ensures
        final(tallies).deep_view() == credited(old(tallies).deep_view(), label@, quantity as int),
{
    let ghost before = tallies.deep_view();
    let mut j: usize = 0;
    while j < tallies.len()
        invariant
            j <= tallies.len(),
            tallies.deep_view() == before,
            tallies@ == old(tallies)@,
            forall|a: int, b: int|
                0 <= a < b < tallies.len() ==> tallies[a].label@ != tallies[b].label@,
            forall|m: int|
                0 <= m < tallies.len() ==> i128::MIN <= (#[trigger] tallies[m]).total + quantity
                    <= i128::MAX,
            forall|m: int| 0 <= m < j ==> before[m].label != label@,
        decreases tallies.len() - j,
    {
        if tallies[j].label == *label {
            let grown = tallies[j].total + quantity as i128;
            tallies[j].total = grown;
            proof {
                assert(before[j as int].label == label@);
                let c = choose|c: int| 0 <= c < before.len() && before[c].label == label@;
                assert(before[c].label == old(tallies)[c].label@);
                assert(c == j);
                assert(tallies.deep_view() =~= credited(before, label@, quantity as int));
            }
            return ;
        }
        j = j + 1;
    }
    tallies.push(Tally { label: label.clone(), total: quantity as i128 });
    proof {
        assert(tallies.deep_view() =~= credited(before, label@, quantity as int));
    }
}

/// Puts the orders into the groups of `grouping` and sums the quantities of
/// each group.
pub(crate) fn tally_orders(
    regions: &Vec<Region>,
    orders: &Vec<Order>,
    grouping: Grouping,
) -> (out: Vec<Tally>)
    requires
        region_ids(regions.deep_view()).no_duplicates(),
    ensures
        out.deep_view() == tallies(
            orders.deep_view(),
            labelling(regions.deep_view(), grouping),
        ),
{
    let ghost label = labelling(regions.deep_view(), grouping);
    let ghost all = orders.deep_view();
    let mut out: Vec<Tally> = Vec::new();
    let mut i: usize = 0;
    proof {
        assert(out.deep_view() =~= tallies(all.take(0), label));
    }
    while i < orders.len()
        invariant
            i <= orders.len(),
            all == orders.deep_view(),
            label == labelling(regions.deep_view(), grouping),
            region_ids(regions.deep_view()).no_duplicates(),
            out.deep_view() == tallies(all.take(i as int), label),
            forall|j: int|
                0 <= j < out.len() ==> -(i * 0x8000_0000) <= (#[trigger] out[j]).total <= i
                    * 0x8000_0000,
        decreases orders.len() - i,
    {
        let order = &orders[i];
        let ghost before = out.deep_view();
        let ghost counted = all.take(i as int);
        let ghost next = all.take(i + 1);
        proof {
            assert(next.drop_last() =~= counted);
            assert(next.last() == order@);
            lemma_tallies_extend(next, label);
            lemma_labels_distinct(counted, label);
            assert forall|a: int, b: int| 0 <= a < b < out.len() implies out[a].label@
                != out[b].label@ by {
                assert(before[a].label == labels(counted, label)[a]);
                assert(before[b].label == labels(counted, label)[b]);
            }
            assert forall|j: int| 0 <= j < out.len() implies i128::MIN <= (#[trigger] out[j]).total
                + order.quantity <= i128::MAX by {
                assert(-(i * 0x8000_0000) <= out[j].total <= i * 0x8000_0000);
            }
        }
        match grouping {
            Grouping::ByRegion => {
                match find_region(regions, order.region_id) {
                    Some(at) => {
                        proof {
                            lemma_region_name_at(regions.deep_view(), at as int);
                        }
                        credit(&mut out, &regions[at].name, order.quantity);
                    },
                    None => {
                        assert(label(order@) is None);
                    },
                }
            },
            Grouping::ByGiftIn(id) => {
                if order.region_id == id {
                    credit(&mut out, &order.gift_name, order.quantity);
                }
            },
            Grouping::ByGift => {
                credit(&mut out, &order.gift_name, order.quantity);
            },
        }
        proof {
            assert(out.deep_view() == tallies(next, label));
            assert forall|j: int| 0 <= j < out.len() implies -((i + 1) * 0x8000_0000) <= (
            #[trigger] out[j]).total <= (i + 1) * 0x8000_0000 by {
                let now = out.deep_view();
                assert(now[j].total == out[j].total);
            }
        }
        i = i + 1;
    }
    proof {
        assert(all.take(i as int) =~= all);
    }
    out
}

} // verus!
