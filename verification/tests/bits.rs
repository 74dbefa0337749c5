use north_pole::bits::{cube, gifts, integers, numbers, xor_all, xor_all_unsigned, xor_cubed};

#[test]
fn day_22_task1() {
    let body = "888
        77
        888
        22
        77";
    assert_eq!(integers(body), 22);
    assert_eq!(gifts(integers(body) as usize), "🎁🎁🎁🎁🎁🎁🎁🎁🎁🎁🎁🎁🎁🎁🎁🎁🎁🎁🎁🎁🎁🎁");
}

#[test]
fn values_are_folded_with_exclusive_or() {
    assert_eq!(xor_all(&vec![]), 0);
    assert_eq!(xor_all(&vec![4, 8]), 12);
    assert_eq!(xor_all(&vec![4, 5, 8, 10]), 3);
    assert_eq!(xor_all(&vec![-1, 1]), -2);
    assert_eq!(xor_all(&vec![i64::MIN, i64::MAX]), -1);
    assert_eq!(xor_all_unsigned(&vec![]), 0);
    assert_eq!(xor_all_unsigned(&vec![888, 77, 888, 22, 77]), 22);
    assert_eq!(xor_all_unsigned(&vec![u64::MAX, 1]), u64::MAX - 1);
}

#[test]
fn the_fold_is_raised_to_the_third_power() {
    assert_eq!(xor_cubed(&vec![4, 8]), Some(1728));
    assert_eq!(xor_cubed(&vec![10]), Some(1000));
    assert_eq!(xor_cubed(&vec![4, 5, 8, 10]), Some(27));
    assert_eq!(xor_cubed(&vec![]), Some(0));
    assert_eq!(xor_cubed(&vec![-1, 1]), Some(-8));
}

#[test]
fn a_power_that_does_not_fit_gives_none() {
    assert_eq!(cube(2097151), Some(9223358842721533951));
    assert_eq!(cube(2097152), None);
    assert_eq!(cube(-2097152), Some(i64::MIN));
    assert_eq!(cube(-2097153), None);
    assert_eq!(cube(i64::MAX), None);
    assert_eq!(cube(i64::MIN), None);
    assert_eq!(xor_cubed(&vec![2097152, 0]), None);
    assert_eq!(numbers("2097152"), None);
    assert_eq!(numbers("-2097152"), Some(i64::MIN));
}

#[test]
fn numbers_are_read_from_a_path() {
    assert_eq!(numbers("4/8"), Some(1728));
    assert_eq!(numbers("10"), Some(1000));
    assert_eq!(numbers("4/5/8/10"), Some(27));
    assert_eq!(numbers("4/5/8/10/"), Some(27));
    assert_eq!(numbers("4/5/8/10///"), Some(27));
    assert_eq!(numbers("+4/-5"), Some(-1));
    assert_eq!(numbers("-1/1"), Some(-8));
    assert_eq!(numbers("007"), Some(343));
}

#[test]
fn a_part_that_is_no_number_gives_none() {
    assert_eq!(numbers(""), None);
    assert_eq!(numbers("/"), None);
    assert_eq!(numbers("/4"), None);
    assert_eq!(numbers("4//8"), None);
    assert_eq!(numbers("4/x"), None);
    assert_eq!(numbers("4/ 8"), None);
    assert_eq!(numbers("4/8.0"), None);
    assert_eq!(numbers("4/-"), None);
    assert_eq!(numbers("4/+"), None);
    assert_eq!(numbers("4/--8"), None);
    assert_eq!(numbers("9223372036854775808"), None);
    assert_eq!(numbers("٣"), None);
}

#[test]
fn lines_without_a_number_are_passed_over() {
    assert_eq!(integers(""), 0);
    assert_eq!(integers("\n\n"), 0);
    assert_eq!(integers("5"), 5);
    assert_eq!(integers("5\n"), 5);
    assert_eq!(integers("5\r\n6\r\n"), 3);
    assert_eq!(integers(" \t5\u{a0}\n\u{3000}6 "), 3);
    assert_eq!(integers("5\nsix\n7"), 2);
    assert_eq!(integers("5\n-6\n7"), 2);
    assert_eq!(integers("5\n+6\n7"), 4);
    assert_eq!(integers("5\n6 7\n8"), 13);
    assert_eq!(integers("18446744073709551615\n1"), u64::MAX - 1);
    assert_eq!(integers("18446744073709551616\n1"), 1);
    assert_eq!(integers("5\r6"), 0);
}

#[test]
fn lines_are_read_as_std_reads_them() {
    let bodies = [
        "888\n 77\n888\n22\n77",
        "1\n\n2\n \n3\n",
        "+1\n-1\n 00012 \n1_000\n0x10\n１２",
        "a\rb\n4\r\n\r5\r\n",
        "\u{2028}7\n8\u{85}\n\u{b}9\u{c}\n\u{200b}10",
    ];
    for body in bodies {
        let mut want = 0u64;
        for line in body.lines() {
            if let Ok(n) = line.trim().parse::<u64>() {
                want ^= n;
            }
        }
        assert_eq!(integers(body), want, "{:?}", body);
    }
}

#[test]
fn gifts_stand_in_a_row() {
    assert_eq!(gifts(0), "");
    assert_eq!(gifts(1), "🎁");
    assert_eq!(gifts(3), "🎁🎁🎁");
}
