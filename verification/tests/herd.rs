use north_pole::herd::{contest, push_decimal, strength, winners, ContestOutput, Reindeer, Winners};

fn deer(
    name: &str,
    strength: i64,
    height: i64,
    antler_width: i64,
    snow_magic_power: i64,
    favorite_food: &str,
    candies: i64,
) -> Reindeer {
    Reindeer {
        name: name.to_string(),
        strength,
        height,
        antler_width,
        snow_magic_power,
        favorite_food: favorite_food.to_string(),
        candies,
    }
}

fn herd() -> Vec<Reindeer> {
    vec![
        deer("Dasher", 5, 80, 36, 9001, "hay", 2),
        deer("Dancer", 6, 120, 24, 4004, "grass", 5),
        deer("Prancer", 7, 120, 30, 9001, "oats", 5),
    ]
}

#[test]
fn strengths_are_added_up() {
    assert_eq!(strength(&herd()), Some(18));
    assert_eq!(strength(&vec![]), Some(0));
    let big = vec![
        deer("a", i64::MAX, 0, 0, 0, "", 0),
        deer("b", 1, 0, 0, 0, "", 0),
        deer("c", -5, 0, 0, 0, "", 0),
    ];
    assert_eq!(strength(&big), Some(i64::MAX - 4));
    assert_eq!(strength(&big[..2].to_vec()), None);
    let low = vec![deer("a", i64::MIN, 0, 0, 0, "", 0), deer("b", -1, 0, 0, 0, "", 0)];
    assert_eq!(strength(&low), None);
}

#[test]
fn the_first_of_the_largest_wins() {
    assert_eq!(winners(&herd()), Some(Winners { tallest: 1, magician: 0, consumer: 1 }));
    assert_eq!(winners(&vec![]), None);
    assert_eq!(
        winners(&vec![deer("x", 0, -3, 0, -9, "", i64::MIN)]),
        Some(Winners { tallest: 0, magician: 0, consumer: 0 })
    );
}

#[test]
fn the_contest_is_told_in_four_lines() {
    let out = contest(&herd(), 2);
    assert_eq!(
        out,
        ContestOutput {
            fastest: "Speeding past the finish line with a strength of 7 is Prancer".to_string(),
            tallest: "Dancer is standing tall with his 24 cm wide antlers".to_string(),
            magician: "Dasher could blast you away with a snow magic power of 9001".to_string(),
            consumer: "Dancer ate lots of candies, but also some grass".to_string(),
        }
    );
}

#[test]
fn an_empty_herd_has_nothing_to_tell() {
    let out = contest(&vec![], 0);
    assert_eq!(
        out,
        ContestOutput {
            fastest: String::new(),
            tallest: String::new(),
            magician: String::new(),
            consumer: String::new(),
        }
    );
}

#[test]
fn numbers_are_written_in_decimal() {
    for n in [0, 1, 9, 10, 11, 99, 100, 1234567890, -1, -10, -999, i64::MAX, i64::MIN, i64::MIN + 1] {
        let mut out = String::from("n=");
        push_decimal(&mut out, n);
        assert_eq!(out, format!("n={}", n));
    }
}
