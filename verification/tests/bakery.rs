use north_pole::bakery::{bake, BakingResult, Ingredient, Recipe};

fn item(name: &str, amount: usize) -> Ingredient {
    Ingredient { name: name.to_string(), amount }
}

fn shelf(items: Vec<Ingredient>) -> Recipe {
    Recipe::new(items).unwrap()
}

fn baked(cookies: usize, pantry: Vec<Ingredient>) -> BakingResult {
    BakingResult { cookies, pantry: shelf(pantry) }
}

#[test]
fn cookies_are_baked_until_an_ingredient_runs_short() {
    let recipe = shelf(vec![
        item("flour", 95),
        item("sugar", 50),
        item("butter", 30),
        item("baking powder", 10),
        item("chocolate chips", 50),
    ]);
    let pantry = shelf(vec![
        item("flour", 385),
        item("sugar", 507),
        item("butter", 2122),
        item("baking powder", 865),
        item("chocolate chips", 457),
    ]);
    assert_eq!(
        bake(&recipe, pantry),
        baked(
            4,
            vec![
                item("flour", 5),
                item("sugar", 307),
                item("butter", 2002),
                item("baking powder", 825),
                item("chocolate chips", 257),
            ]
        )
    );
}

#[test]
fn a_short_ingredient_leaves_the_pantry_alone() {
    let recipe = shelf(vec![item("flour", 10), item("sugar", 3)]);
    let pantry = vec![item("sugar", 2), item("flour", 100)];
    assert_eq!(bake(&recipe, shelf(pantry.clone())), baked(0, pantry));
}

#[test]
fn what_the_pantry_does_not_know_is_not_looked_at() {
    let recipe = shelf(vec![item("slime", 9), item("cocoa", 5), item("air", 0)]);
    let pantry = shelf(vec![item("cocoa", 12), item("air", 3), item("milk", 7)]);
    assert_eq!(
        bake(&recipe, pantry),
        baked(2, vec![item("cocoa", 2), item("air", 3), item("milk", 7)])
    );
}

#[test]
fn where_nothing_is_needed_the_number_is_the_largest() {
    let pantry = vec![item("cocoa", 12)];
    assert_eq!(bake(&shelf(vec![]), shelf(pantry.clone())), baked(usize::MAX, pantry.clone()));
    assert_eq!(
        bake(&shelf(vec![item("slime", 1), item("cocoa", 0)]), shelf(pantry.clone())),
        baked(usize::MAX, pantry)
    );
    assert_eq!(bake(&shelf(vec![item("a", 1)]), shelf(vec![])), baked(usize::MAX, vec![]));
}

#[test]
fn large_amounts_do_not_overflow() {
    let recipe = shelf(vec![item("a", 1), item("b", usize::MAX)]);
    let pantry = shelf(vec![item("a", usize::MAX), item("b", usize::MAX)]);
    assert_eq!(bake(&recipe, pantry), baked(1, vec![item("a", usize::MAX - 1), item("b", 0)]));
}

#[test]
fn a_name_cannot_stand_twice() {
    assert_eq!(Recipe::new(vec![item("a", 2), item("a", 3)]), None);
    assert_eq!(Recipe::new(vec![item("a", 2), item("b", 3), item("c", 1), item("b", 3)]), None);
    assert_eq!(Recipe::new(vec![item("a", 2), item("b", 3), item("a", 2)]), None);
    assert!(Recipe::new(vec![]).is_some());
    assert!(Recipe::new(vec![item("a", 2), item("A", 2), item("", 2)]).is_some());
}

#[test]
fn entries_keep_their_order() {
    let items = vec![item("b", 1), item("a", 2), item("c", 0)];
    let recipe = shelf(items.clone());
    assert_eq!(recipe.items(), &items);
    assert_eq!(recipe.into_items(), items);
}
