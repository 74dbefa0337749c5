use north_pole::ledger::records::{LedgerError, Order, Region, RegionTopGifts, RegionTotal};
use north_pole::ledger::store::Ledger;

fn region(id: i32, name: &str) -> Region {
    Region { id, name: name.to_string() }
}

fn order(id: i32, region_id: i32, gift_name: &str, quantity: i32) -> Order {
    Order { id, region_id, gift_name: gift_name.to_string(), quantity }
}

fn total(region: &str, total: i128) -> RegionTotal {
    RegionTotal { region: region.to_string(), total }
}

fn top(region: &str, gifts: &[&str]) -> RegionTopGifts {
    RegionTopGifts {
        region: region.to_string(),
        top_gifts: gifts.iter().map(|g| g.to_string()).collect(),
    }
}

#[test]
fn day_13_task2() {
    let mut ledger = Ledger::new();
    ledger.reset_orders();
    ledger
        .insert_orders(vec![
            order(1, 2, "Toy Train", 5),
            order(2, 2, "Doll", 8),
            order(3, 3, "Action Figure", 12),
            order(4, 4, "Board Game", 10),
            order(5, 2, "Teddy Bear", 6),
            order(6, 3, "Toy Train", 3),
        ])
        .unwrap();
    assert_eq!(ledger.total(), Some(44));
}

#[test]
fn day_13_task3() {
    let mut ledger = Ledger::new();
    ledger.reset_orders();
    assert_eq!(ledger.popular(), None);
    ledger
        .insert_orders(vec![
            order(1, 2, "Toy Train", 5),
            order(2, 2, "Doll", 8),
            order(3, 3, "Toy Train", 4),
        ])
        .unwrap();
    assert_eq!(ledger.popular(), Some("Toy Train".to_string()));
}

#[test]
fn day_18_task1() {
    let mut ledger = Ledger::new();
    ledger.reset();
    ledger
        .insert_regions(vec![
            region(1, "North Pole"),
            region(2, "Europe"),
            region(3, "North America"),
            region(4, "South America"),
            region(5, "Africa"),
            region(6, "Asia"),
            region(7, "Oceania"),
        ])
        .unwrap();
    ledger
        .insert_orders(vec![
            order(1, 2, "Board Game", 5),
            order(2, 2, "Origami Set", 8),
            order(3, 3, "Action Figure", 12),
            order(4, 4, "Teddy Bear", 10),
            order(5, 2, "Yarn Ball", 6),
            order(6, 3, "Art Set", 3),
            order(7, 5, "Robot Lego Kit", 5),
            order(8, 6, "Drone", 9),
        ])
        .unwrap();
    assert_eq!(
        ledger.regions_total(),
        vec![
            total("Africa", 5),
            total("Asia", 9),
            total("Europe", 19),
            total("North America", 15),
            total("South America", 10),
        ]
    );
}

#[test]
fn day_18_task2() {
    let mut ledger = Ledger::new();
    ledger.reset();
    ledger
        .insert_regions(vec![
            region(1, "North Pole"),
            region(2, "South Pole"),
            region(3, "Kiribati"),
            region(4, "Baker Island"),
        ])
        .unwrap();
    ledger
        .insert_orders(vec![
            order(1, 2, "Toy Train", 5),
            order(2, 2, "Toy Train", 3),
            order(3, 2, "Doll", 8),
            order(4, 3, "Toy Train", 3),
            order(5, 2, "Teddy Bear", 6),
            order(6, 3, "Action Figure", 12),
            order(7, 4, "Board Game", 10),
            order(8, 3, "Teddy Bear", 1),
            order(9, 3, "Teddy Bear", 2),
        ])
        .unwrap();
    assert_eq!(
        ledger.top_list(2),
        vec![
            top("Baker Island", &["Board Game"]),
            top("Kiribati", &["Action Figure", "Teddy Bear"]),
            top("North Pole", &[]),
            top("South Pole", &["Doll", "Toy Train"]),
        ]
    );
}

#[test]
fn totals_omit_regions_without_orders() {
    let mut ledger = Ledger::new();
    ledger.insert_regions(vec![region(2, "Europe"), region(3, "North America")]).unwrap();
    ledger
        .insert_orders(vec![order(1, 2, "Board Game", 5), order(2, 2, "Origami Set", 8)])
        .unwrap();
    assert_eq!(ledger.regions_total(), vec![total("Europe", 13)]);
}

#[test]
fn top_gifts_break_ties_by_name() {
    let mut ledger = Ledger::new();
    ledger
        .insert_regions(vec![
            region(1, "North Pole"),
            region(2, "South Pole"),
            region(3, "Kiribati"),
        ])
        .unwrap();
    ledger
        .insert_orders(vec![
            order(1, 2, "Toy Train", 5),
            order(2, 2, "Toy Train", 3),
            order(3, 2, "Doll", 8),
            order(4, 2, "Teddy Bear", 6),
            order(5, 3, "Action Figure", 12),
            order(6, 3, "Teddy Bear", 3),
        ])
        .unwrap();
    assert_eq!(
        ledger.top_list(2),
        vec![
            top("Kiribati", &["Action Figure", "Teddy Bear"]),
            top("North Pole", &[]),
            top("South Pole", &["Doll", "Toy Train"]),
        ]
    );
}

#[test]
fn unmatched_order_counts_nowhere() {
    let mut ledger = Ledger::new();
    ledger.insert_regions(vec![region(1, "Asia"), region(2, "Europe")]).unwrap();
    ledger.insert_orders(vec![order(1, 1, "Drone", 4), order(2, 2, "Doll", 1)]).unwrap();
    let totals = ledger.regions_total();
    let tops = ledger.top_list(3);
    ledger.insert_orders(vec![order(3, 99, "Drone", 1000)]).unwrap();
    assert_eq!(ledger.regions_total(), totals);
    assert_eq!(ledger.top_list(3), tops);
    assert_eq!(totals, vec![total("Asia", 4), total("Europe", 1)]);
    assert_eq!(tops, vec![top("Asia", &["Drone"]), top("Europe", &["Doll"])]);
    assert_eq!(ledger.total(), Some(1005));
}

#[test]
fn duplicate_region_in_batch_is_rejected_whole() {
    let mut ledger = Ledger::new();
    let r = ledger.insert_regions(vec![region(7, "Oceania"), region(7, "Asia")]);
    assert_eq!(r, Err(LedgerError::DuplicateKey(7)));
    assert!(ledger.regions().is_empty());
    assert_eq!(ledger.top_list(1), vec![]);
}

#[test]
fn duplicate_of_present_region_is_rejected() {
    let mut ledger = Ledger::new();
    ledger.insert_regions(vec![region(1, "Asia")]).unwrap();
    let r = ledger.insert_regions(vec![region(2, "Europe"), region(1, "Africa"), region(2, "x")]);
    assert_eq!(r, Err(LedgerError::DuplicateKey(1)));
    assert_eq!(ledger.regions(), &vec![region(1, "Asia")]);
}

#[test]
fn duplicate_order_is_rejected_whole() {
    let mut ledger = Ledger::new();
    ledger.insert_orders(vec![order(1, 1, "Doll", 2)]).unwrap();
    let r = ledger.insert_orders(vec![order(2, 1, "Doll", 3), order(3, 1, "Kite", 1), order(3, 2, "Kite", 1)]);
    assert_eq!(r, Err(LedgerError::DuplicateKey(3)));
    assert_eq!(ledger.orders(), &vec![order(1, 1, "Doll", 2)]);
    assert_eq!(ledger.total(), Some(2));
}

#[test]
fn reset_twice_is_reset_once() {
    let mut once = Ledger::new();
    once.insert_regions(vec![region(1, "Asia")]).unwrap();
    once.insert_orders(vec![order(1, 1, "Doll", 2)]).unwrap();
    once.reset();
    let mut twice = Ledger::new();
    twice.insert_regions(vec![region(5, "Africa")]).unwrap();
    twice.reset();
    twice.reset();
    assert!(once.regions().is_empty() && once.orders().is_empty());
    assert!(twice.regions().is_empty() && twice.orders().is_empty());
    assert_eq!(once.regions_total(), twice.regions_total());
    assert_eq!(twice.top_list(2), vec![]);
    // ids are free again after a reset
    twice.insert_regions(vec![region(5, "Africa")]).unwrap();
    assert_eq!(twice.regions().len(), 1);
}

#[test]
fn reset_orders_keeps_regions() {
    let mut ledger = Ledger::new();
    ledger.insert_regions(vec![region(1, "Asia")]).unwrap();
    ledger.insert_orders(vec![order(1, 1, "Doll", 2)]).unwrap();
    ledger.reset_orders();
    assert_eq!(ledger.regions(), &vec![region(1, "Asia")]);
    assert!(ledger.orders().is_empty());
    assert_eq!(ledger.total(), None);
    assert_eq!(ledger.top_list(2), vec![top("Asia", &[])]);
}

#[test]
fn degenerate_k_lists_every_region_without_gifts() {
    let mut ledger = Ledger::new();
    ledger.insert_regions(vec![region(2, "Europe"), region(1, "Asia")]).unwrap();
    ledger.insert_orders(vec![order(1, 1, "Doll", 2), order(2, 2, "Kite", 9)]).unwrap();
    let want = vec![top("Asia", &[]), top("Europe", &[])];
    assert_eq!(ledger.top_list(0), want);
    assert_eq!(ledger.top_list(-1), want);
    assert_eq!(ledger.top_list(i32::MIN), want);
    ledger.reset_orders();
    assert_eq!(ledger.top_list(0), want);
}

#[test]
fn large_k_lists_all_gifts_in_rank_order() {
    let mut ledger = Ledger::new();
    ledger.insert_regions(vec![region(1, "Asia")]).unwrap();
    ledger
        .insert_orders(vec![
            order(1, 1, "b", 2),
            order(2, 1, "a", 2),
            order(3, 1, "c", 5),
            order(4, 1, "d", 1),
            order(5, 1, "d", 1),
        ])
        .unwrap();
    assert_eq!(ledger.top_list(1), vec![top("Asia", &["c"])]);
    assert_eq!(ledger.top_list(3), vec![top("Asia", &["c", "a", "b"])]);
    assert_eq!(ledger.top_list(i32::MAX), vec![top("Asia", &["c", "a", "b", "d"])]);
}

#[test]
fn regions_of_one_name_share_a_total_and_are_listed_by_id() {
    let mut ledger = Ledger::new();
    ledger.insert_regions(vec![region(9, "Asia"), region(3, "Asia"), region(5, "Africa")]).unwrap();
    ledger
        .insert_orders(vec![order(1, 9, "Doll", 2), order(2, 3, "Kite", 4), order(3, 3, "Doll", 1)])
        .unwrap();
    assert_eq!(ledger.regions_total(), vec![total("Asia", 7)]);
    assert_eq!(
        ledger.top_list(5),
        vec![top("Africa", &[]), top("Asia", &["Kite", "Doll"]), top("Asia", &["Doll"])]
    );
}

#[test]
fn negative_quantities_enter_the_sums_as_they_are() {
    let mut ledger = Ledger::new();
    ledger.insert_regions(vec![region(1, "Asia")]).unwrap();
    ledger
        .insert_orders(vec![
            order(1, 1, "Doll", -5),
            order(2, 1, "Kite", i32::MIN),
            order(3, 1, "Doll", 2),
            order(4, 1, "Ball", i32::MAX),
            order(5, 1, "Ball", i32::MAX),
        ])
        .unwrap();
    assert_eq!(
        ledger.regions_total(),
        vec![total("Asia", 2 * (i32::MAX as i128) + (i32::MIN as i128) - 3)]
    );
    assert_eq!(ledger.top_list(3), vec![top("Asia", &["Ball", "Doll", "Kite"])]);
    assert_eq!(ledger.popular(), Some("Ball".to_string()));
}

#[test]
fn names_are_ordered_by_code_point() {
    let mut ledger = Ledger::new();
    ledger
        .insert_regions(vec![
            region(1, "b"),
            region(2, "B"),
            region(3, "a"),
            region(4, ""),
            region(5, "ab"),
            region(6, "é"),
            region(7, "z"),
        ])
        .unwrap();
    let names: Vec<String> = ledger.top_list(0).into_iter().map(|r| r.region).collect();
    assert_eq!(names, vec!["", "B", "a", "ab", "b", "z", "é"]);
}

#[test]
fn popular_breaks_ties_by_name() {
    let mut ledger = Ledger::new();
    ledger
        .insert_orders(vec![order(1, 1, "Kite", 4), order(2, 2, "Doll", 3), order(3, 5, "Doll", 1)])
        .unwrap();
    assert_eq!(ledger.popular(), Some("Doll".to_string()));
}
