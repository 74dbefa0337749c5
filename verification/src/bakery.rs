//! How many cookies a pantry yields for a recipe, and what it leaves.

use vstd::prelude::*;

verus! {

/// An amount of something, in a recipe or in a pantry.
#[derive(Clone, Debug, PartialEq, Eq)]
pub struct Ingredient {
    pub name: String,
    pub amount: usize,
}

/// An ingredient as a mathematical value.
pub struct IngredientView {
    pub name: Seq<char>,
    pub amount: int,
}

impl View for Ingredient {
    type V = IngredientView;

    open spec fn view(&self) -> IngredientView {
        IngredientView { name: self.name@, amount: self.amount as int }
    }
}

impl DeepView for Ingredient {
    type V = IngredientView;

    open spec fn deep_view(&self) -> IngredientView {
        self@
    }
}

/// No two entries bear the same name.
pub open spec fn names_differ(items: Seq<IngredientView>) -> bool {
    forall|i: int, j: int| 0 <= i < j < items.len() ==> items[i].name != items[j].name
}

/// Amounts by name, for what a recipe asks and for what a pantry holds:
/// no name occurs twice.
#[derive(Debug, PartialEq, Eq)]
pub struct Recipe {
    items: Vec<Ingredient>,
}

impl View for Recipe {
    type V = Seq<IngredientView>;

    closed spec fn view(&self) -> Seq<IngredientView> {
        self.items.deep_view()
    }
}

impl Recipe {
    #[verifier::type_invariant]
    spec fn no_name_twice(self) -> bool {
        names_differ(self.items.deep_view())
    }

    /// Takes the entries as they are; `None` where a name occurs twice.
    pub fn new(items: Vec<Ingredient>) -> (r: Option<Recipe>)
        ensures
            r is Some <==> names_differ(items.deep_view()),
            r matches Some(recipe) ==> recipe@ == items.deep_view(),
    {
        let ghost entries = items.deep_view();
        let mut j: usize = 0;
        while j < items.len()
            invariant
                j <= items.len(),
                entries == items.deep_view(),
                forall|a: int, b: int| 0 <= a < b < j ==> entries[a].name != entries[b].name,
            decreases items.len() - j,
        {
            let mut i: usize = 0;
            while i < j
                invariant
                    i <= j < items.len(),
                    entries == items.deep_view(),
                    forall|a: int| 0 <= a < i ==> entries[a].name != entries[j as int].name,
                decreases j - i,
            {
                if items[i].name == items[j].name {
                    assert(entries[i as int].name == entries[j as int].name);
                    return None;
                }
                i = i + 1;
            }
            j = j + 1;
        }
        Some(Recipe { items })
    }

    /// The entries, in the order in which they were given.
    pub fn items(&self) -> (items: &Vec<Ingredient>)
        ensures
            items.deep_view() == self@,
            names_differ(self@),
    {
        proof {
            use_type_invariant(self);
        }
        &self.items
    }

    /// The entries, in the order in which they were given.
    pub fn into_items(self) -> (items: Vec<Ingredient>)
        ensures
            items.deep_view() == self@,
            names_differ(self@),
    {
        proof {
            use_type_invariant(&self);
        }
        self.items
    }
}

/// What baking gives: the number of cookies, and the pantry afterwards.
#[derive(Debug, PartialEq, Eq)]
pub struct BakingResult {
    pub cookies: usize,
    pub pantry: Recipe,
}

/// The place of the first entry of the pantry that bears `name`.
pub open spec fn place_of(pantry: Seq<IngredientView>, name: Seq<char>) -> Option<int>
    decreases pantry.len(),
{
    if pantry.len() == 0 {
        None
    } else {
        match place_of(pantry.drop_last(), name) {
            Some(i) => Some(i),
            None => if pantry.last().name == name {
                Some(pantry.len() - 1)
            } else {
                None
            },
        }
    }
}

/// The place of a name is the first at which it stands, and there is none
/// where it stands nowhere.
pub proof fn lemma_place_of(pantry: Seq<IngredientView>, name: Seq<char>)
    ensures
        match place_of(pantry, name) {
            Some(i) => 0 <= i < pantry.len() && pantry[i].name == name && forall|j: int|
                0 <= j < i ==> pantry[j].name != name,
            None => forall|j: int| 0 <= j < pantry.len() ==> pantry[j].name != name,
        },
    decreases pantry.len(),
{
    if pantry.len() > 0 {
        let front = pantry.drop_last();
        lemma_place_of(front, name);
        match place_of(front, name) {
            Some(i) => {
                assert(front[i] == pantry[i]);
                assert forall|j: int| 0 <= j < i implies pantry[j].name != name by {
                    assert(front[j] == pantry[j]);
                }
            },
            None => {
                assert forall|j: int| 0 <= j < pantry.len() - 1 implies pantry[j].name
                    != name by {
                    assert(front[j] == pantry[j]);
                }
            },
        }
    }
}

/// The place of a name goes by the names in the pantry alone.
proof fn lemma_place_by_names(a: Seq<IngredientView>, b: Seq<IngredientView>, name: Seq<char>)
    requires
        a.len() == b.len(),
        forall|i: int| 0 <= i < a.len() ==> a[i].name == b[i].name,
    ensures
        place_of(a, name) == place_of(b, name),
    decreases a.len(),
{
    if a.len() > 0 {
        assert forall|i: int| 0 <= i < a.len() - 1 implies a.drop_last()[i].name
            == b.drop_last()[i].name by {
            assert(a.drop_last()[i] == a[i]);
            assert(b.drop_last()[i] == b[i]);
        }
        lemma_place_by_names(a.drop_last(), b.drop_last(), name);
    }
}

/// The recipe asks for this ingredient and the pantry knows it.
pub open spec fn is_needed(pantry: Seq<IngredientView>, item: IngredientView) -> bool {
    item.amount > 0 && place_of(pantry, item.name) is Some
}

/// The pantry has less of a needed ingredient than one cookie takes.
pub open spec fn is_short(pantry: Seq<IngredientView>, recipe: Seq<IngredientView>) -> bool {
    exists|i: int|
        0 <= i < recipe.len() && is_needed(pantry, #[trigger] recipe[i]) && pantry[place_of(
            pantry,
            recipe[i].name,
        )->0].amount < recipe[i].amount
}

/// The number of cookies that the pantry is good for: for each needed
/// ingredient the pantry's amount divided by the recipe's, and of these
/// the smallest; `usize::MAX` where nothing is needed.
pub open spec fn batches(pantry: Seq<IngredientView>, recipe: Seq<IngredientView>) -> int
    decreases recipe.len(),
{
    if recipe.len() == 0 {
        usize::MAX as int
    } else {
        let so_far = batches(pantry, recipe.drop_last());
        let item = recipe.last();
        if is_needed(pantry, item) {
            let yields = pantry[place_of(pantry, item.name)->0].amount / item.amount;
            if yields < so_far {
                yields
            } else {
                so_far
            }
        } else {
            so_far
        }
    }
}

/// The pantry after `used` of the ingredient `name` was taken from its
/// first entry of that name, as far as there was any; the same pantry
/// where it has no such entry.
pub open spec fn spent(pantry: Seq<IngredientView>, name: Seq<char>, used: int) -> Seq<
    IngredientView,
> {
    match place_of(pantry, name) {
        Some(i) => pantry.update(
            i,
            IngredientView {
                name: pantry[i].name,
                amount: if pantry[i].amount > used {
                    pantry[i].amount - used
                } else {
                    0
                },
            },
        ),
        None => pantry,
    }
}

/// The pantry after `cookies` cookies were baked by the recipe, one
/// ingredient of the recipe after the other.
pub open spec fn served(
    pantry: Seq<IngredientView>,
    recipe: Seq<IngredientView>,
    cookies: int,
) -> Seq<IngredientView>
    decreases recipe.len(),
{
    if recipe.len() == 0 {
        pantry
    } else {
        spent(
            served(pantry, recipe.drop_last(), cookies),
            recipe.last().name,
            cookies * recipe.last().amount,
        )
    }
}

/// Looks for the first entry of the pantry that bears `name`.
fn find(pantry: &Vec<Ingredient>, name: &String) -> (r: Option<usize>)
    ensures
        match r {
            Some(i) => place_of(pantry.deep_view(), name@) == Some(i as int) && i < pantry.len(),
            None => place_of(pantry.deep_view(), name@) is None,
        },
{
    let ghost items = pantry.deep_view();
    let mut i: usize = 0;
    while i < pantry.len()
        invariant
            i <= pantry.len(),
            items == pantry.deep_view(),
            forall|j: int| 0 <= j < i ==> items[j].name != name@,
        decreases pantry.len() - i,
    {
        if pantry[i].name == *name {
            proof {
                assert(items[i as int].name == name@);
                lemma_place_of(items, name@);
            }
            return Some(i);
        }
        i = i + 1;
    }
    proof {
        lemma_place_of(items, name@);
    }
    None
}

/// Taking from the pantry changes no name and leaves every entry in its
/// place.
proof fn lemma_spent_keeps_names(pantry: Seq<IngredientView>, name: Seq<char>, used: int)
    ensures
        spent(pantry, name, used).len() == pantry.len(),
        forall|i: int|
            0 <= i < pantry.len() ==> (#[trigger] spent(pantry, name, used)[i]).name
                == pantry[i].name,
        forall|other: Seq<char>|
            #![trigger place_of(spent(pantry, name, used), other)]
            place_of(spent(pantry, name, used), other) == place_of(pantry, other),
{
    let after = spent(pantry, name, used);
    lemma_place_of(pantry, name);
    assert forall|other: Seq<char>|
        #![trigger place_of(after, other)]
        place_of(after, other) == place_of(pantry, other) by {
        lemma_place_by_names(after, pantry, other);
    }
}

/// Baking changes no name in the pantry and leaves every entry in its
/// place.
proof fn lemma_served_keeps_names(
    pantry: Seq<IngredientView>,
    recipe: Seq<IngredientView>,
    cookies: int,
)
    ensures
        served(pantry, recipe, cookies).len() == pantry.len(),
        forall|i: int|
            0 <= i < pantry.len() ==> (#[trigger] served(pantry, recipe, cookies)[i]).name
                == pantry[i].name,
        forall|other: Seq<char>|
            #![trigger place_of(served(pantry, recipe, cookies), other)]
            place_of(served(pantry, recipe, cookies), other) == place_of(pantry, other),
    decreases recipe.len(),
{
    if recipe.len() > 0 {
        let before = served(pantry, recipe.drop_last(), cookies);
        lemma_served_keeps_names(pantry, recipe.drop_last(), cookies);
        lemma_spent_keeps_names(before, recipe.last().name, cookies * recipe.last().amount);
        assert forall|i: int| 0 <= i < pantry.len() implies (#[trigger] served(
            pantry,
            recipe,
            cookies,
        )[i]).name == pantry[i].name by {
            assert(before[i].name == pantry[i].name);
        }
        assert forall|other: Seq<char>|
            #![trigger place_of(served(pantry, recipe, cookies), other)]
            place_of(served(pantry, recipe, cookies), other) == place_of(pantry, other) by {
            assert(place_of(before, other) == place_of(pantry, other));
        }
    }
}

/// The pantry is good for no more cookies than any needed ingredient
/// allows, and for no more than `usize::MAX`.
proof fn lemma_batches_bound(pantry: Seq<IngredientView>, recipe: Seq<IngredientView>, i: int)
    requires
        0 <= i < recipe.len(),
        is_needed(pantry, recipe[i]),
    ensures
        batches(pantry, recipe) <= pantry[place_of(pantry, recipe[i].name)->0].amount
            / recipe[i].amount,
    decreases recipe.len(),
{
    if i < recipe.len() - 1 {
        assert(recipe.drop_last()[i] == recipe[i]);
        lemma_batches_bound(pantry, recipe.drop_last(), i);
    }
}

/// The amount that stands under a name, or 0 where the name is not known.
pub open spec fn amount_of(items: Seq<IngredientView>, name: Seq<char>) -> int {
    match place_of(items, name) {
        Some(i) => items[i].amount,
        None => 0,
    }
}

/// Amounts are not negative.
pub open spec fn amounts_are_natural(items: Seq<IngredientView>) -> bool {
    forall|i: int| 0 <= i < items.len() ==> (#[trigger] items[i]).amount >= 0
}

/// What is left of an amount after `used` was taken, as far as there was
/// any.
pub open spec fn left_of(amount: int, used: int) -> int {
    if amount > used {
        amount - used
    } else {
        0
    }
}

/// Where no name stands twice, baking takes from each entry of the pantry
/// what the cookies need of the ingredient of its name, as far as there
/// is any.
proof fn lemma_served_by_name(
    pantry: Seq<IngredientView>,
    recipe: Seq<IngredientView>,
    cookies: int,
    i: int,
)
    requires
        names_differ(pantry),
        names_differ(recipe),
        amounts_are_natural(pantry),
        0 <= i < pantry.len(),
    ensures
        served(pantry, recipe, cookies)[i].name == pantry[i].name,
        place_of(recipe, pantry[i].name) is Some ==> served(pantry, recipe, cookies)[i].amount
            == left_of(pantry[i].amount, cookies * amount_of(recipe, pantry[i].name)),
        place_of(recipe, pantry[i].name) is None ==> served(pantry, recipe, cookies)[i].amount
            == pantry[i].amount,
    decreases recipe.len(),
{
    let name = pantry[i].name;
    lemma_served_keeps_names(pantry, recipe, cookies);
    if recipe.len() > 0 {
        let front = recipe.drop_last();
        let last = recipe.last();
        let before = served(pantry, front, cookies);
        assert(names_differ(front)) by {
            assert forall|a: int, b: int| 0 <= a < b < front.len() implies front[a].name
                != front[b].name by {
                assert(front[a] == recipe[a]);
                assert(front[b] == recipe[b]);
            }
        }
        lemma_served_by_name(pantry, front, cookies, i);
        lemma_served_keeps_names(pantry, front, cookies);
        lemma_place_of(pantry, last.name);
        lemma_place_of(front, name);
        lemma_place_of(recipe, name);
        assert(place_of(before, last.name) == place_of(pantry, last.name));
        if last.name == name {
            // the one entry of the recipe that bears the name
            assert forall|a: int| 0 <= a < front.len() implies front[a].name != name by {
                assert(front[a] == recipe[a]);
                assert(recipe[a].name != recipe[recipe.len() - 1].name);
            }
            assert(place_of(front, name) is None);
            assert(place_of(recipe, name) == Some(recipe.len() - 1));
            let at = place_of(pantry, name)->0;
            assert(at == i) by {
                if at < i {
                    assert(pantry[at].name != pantry[i].name);
                }
            }
        } else {
            assert(place_of(recipe, name) == place_of(front, name));
            if place_of(pantry, last.name) is Some {
                assert(place_of(pantry, last.name)->0 != i);
            }
        }
    } else {
        assert(place_of(recipe, name) is None);
    }
}

/// Where no name stands twice and nothing is short, the pantry after the
/// baking holds under each name what it held, less what the cookies took
/// of it: the number of cookies times the amount that the recipe asks
/// under that name. No entry is taken below nothing.
pub proof fn lemma_baked_by_name(
    pantry: Seq<IngredientView>,
    recipe: Seq<IngredientView>,
    i: int,
)
    requires
        names_differ(pantry),
        names_differ(recipe),
        amounts_are_natural(pantry),
        amounts_are_natural(recipe),
        !is_short(pantry, recipe),
        0 <= i < pantry.len(),
    ensures
        ({
            let cookies = batches(pantry, recipe);
            let after = served(pantry, recipe, cookies);
            &&& after.len() == pantry.len()
            &&& after[i].name == pantry[i].name
            &&& after[i].amount == pantry[i].amount - cookies * amount_of(recipe, pantry[i].name)
            &&& after[i].amount >= 0
        }),
{
    let cookies = batches(pantry, recipe);
    let name = pantry[i].name;
    lemma_served_keeps_names(pantry, recipe, cookies);
    lemma_served_by_name(pantry, recipe, cookies, i);
    lemma_place_of(recipe, name);
    lemma_place_of(pantry, name);
    lemma_batches_natural(pantry, recipe);
    let at = place_of(pantry, name)->0;
    assert(at == i) by {
        if at < i {
            assert(pantry[at].name != pantry[i].name);
        }
    }
    match place_of(recipe, name) {
        Some(k) => {
            let asked = recipe[k].amount;
            let held = pantry[i].amount;
            if asked > 0 {
                assert(is_needed(pantry, recipe[k]));
                lemma_batches_bound(pantry, recipe, k);
                assert(cookies * asked <= held) by (nonlinear_arith)
                    requires
                        0 <= cookies <= held / asked,
                        asked > 0,
                        held >= 0,
                ;
            } else {
                assert(cookies * asked == 0) by (nonlinear_arith)
                    requires
                        asked == 0,
                ;
            }
        },
        None => {
            assert(cookies * 0 == 0) by (nonlinear_arith);
        },
    }
}

/// The number of cookies that a pantry is good for is not negative.
proof fn lemma_batches_natural(pantry: Seq<IngredientView>, recipe: Seq<IngredientView>)
    requires
        amounts_are_natural(pantry),
        amounts_are_natural(recipe),
    ensures
        batches(pantry, recipe) >= 0,
    decreases recipe.len(),
{
    if recipe.len() > 0 {
        let front = recipe.drop_last();
        assert(amounts_are_natural(front)) by {
            assert forall|a: int| 0 <= a < front.len() implies (#[trigger] front[a]).amount
                >= 0 by {
                assert(front[a] == recipe[a]);
            }
        }
        lemma_batches_natural(pantry, front);
        let item = recipe.last();
        assert(item == recipe[recipe.len() - 1]);
        if is_needed(pantry, item) {
            lemma_place_of(pantry, item.name);
            let held = pantry[place_of(pantry, item.name)->0].amount;
            assert(held / item.amount >= 0) by (nonlinear_arith)
                requires
                    held >= 0,
                    item.amount > 0,
            ;
        }
    }
}

/// Bakes on the entries of a recipe and of a pantry.
fn bake_items(recipe: &Vec<Ingredient>, pantry: Vec<Ingredient>) -> (r: (usize, Vec<Ingredient>))
    ensures
        is_short(pantry.deep_view(), recipe.deep_view()) ==> r.0 == 0 && r.1.deep_view()
            == pantry.deep_view(),
        !is_short(pantry.deep_view(), recipe.deep_view()) ==> r.0 == batches(
            pantry.deep_view(),
            recipe.deep_view(),
        ) && r.1.deep_view() == served(pantry.deep_view(), recipe.deep_view(), r.0 as int),
{
    let ghost stock = pantry.deep_view();
    let ghost asked = recipe.deep_view();
    let mut cookies = usize::MAX;
    let mut i: usize = 0;
    while i < recipe.len()
        invariant
            i <= recipe.len(),
            stock == pantry.deep_view(),
            asked == recipe.deep_view(),
            cookies == batches(stock, asked.take(i as int)),
            forall|j: int|
                0 <= j < i ==> !(is_needed(stock, #[trigger] asked[j]) && stock[place_of(
                    stock,
                    asked[j].name,
                )->0].amount < asked[j].amount),
        decreases recipe.len() - i,
    {
        let item = &recipe[i];
        proof {
            assert(asked.take(i + 1).drop_last() =~= asked.take(i as int));
            assert(asked.take(i + 1).last() == asked[i as int]);
            assert(asked[i as int] == item@);
        }
        if item.amount != 0 {
            match find(&pantry, &item.name) {
                Some(at) => {
                    if pantry[at].amount < item.amount {
                        assert(is_needed(stock, asked[i as int]));
                        return (0, pantry);
                    }
                    let yields = pantry[at].amount / item.amount;
                    if yields < cookies {
                        cookies = yields;
                    }
                },
                None => {},
            }
        }
        i = i + 1;
    }
    proof {
        assert(asked.take(i as int) =~= asked);
    }
    let mut pantry = pantry;
    let mut n: usize = 0;
    while n < recipe.len()
        invariant
            n <= recipe.len(),
            asked == recipe.deep_view(),
            stock.len() == pantry.len(),
            cookies == batches(stock, asked),
            forall|j: int| 0 <= j < stock.len() ==> 0 <= (#[trigger] stock[j]).amount <= usize::MAX,
            pantry.deep_view() == served(stock, asked.take(n as int), cookies as int),
        decreases recipe.len() - n,
    {
        let item = &recipe[n];
        let ghost before = pantry.deep_view();
        proof {
            assert(asked.take(n + 1).drop_last() =~= asked.take(n as int));
            assert(asked.take(n + 1).last() == asked[n as int]);
            assert(asked[n as int] == item@);
            lemma_served_keeps_names(stock, asked.take(n as int), cookies as int);
        }
        match find(&pantry, &item.name) {
            Some(at) => {
                proof {
                    assert(place_of(before, item.name@) == place_of(stock, item.name@));
                    lemma_place_of(stock, item.name@);
                    if item.amount > 0 {
                        lemma_batches_bound(stock, asked, n as int);
                        let has = stock[at as int].amount;
                        let per = item.amount as int;
                        assert(cookies * per <= has) by (nonlinear_arith)
                            requires
                                0 <= cookies <= has / per,
                                per > 0,
                                has >= 0,
                        ;
                    } else {
                        assert(cookies * item.amount == 0) by (nonlinear_arith)
                            requires
                                item.amount == 0,
                        ;
                    }
                }
                let used = cookies * item.amount;
                let left = if pantry[at].amount > used {
                    pantry[at].amount - used
                } else {
                    0
                };
                pantry[at].amount = left;
                proof {
                    assert(pantry.deep_view() =~= spent(before, item.name@, used as int));
                }
            },
            None => {},
        }
        n = n + 1;
    }
    proof {
        assert(asked.take(n as int) =~= asked);
    }
    (cookies, pantry)
}

/// Bakes as many cookies as the pantry is good for.
///
/// Where the pantry has less of an ingredient than one cookie takes, no
/// cookie is baked and the pantry stays as it is. Otherwise the pantry
/// gives for each ingredient of the recipe what the cookies take of it;
/// what the pantry does not know is not looked at.
pub fn bake(recipe: &Recipe, pantry: Recipe) -> (r: BakingResult)
    ensures
        is_short(pantry@, recipe@) ==> r.cookies == 0 && r.pantry@ == pantry@,
        !is_short(pantry@, recipe@) ==> r.cookies == batches(pantry@, recipe@) && r.pantry@
            == served(pantry@, recipe@, r.cookies as int),
{
    let ghost stock = pantry@;
    let had = pantry.into_items();
    let (cookies, left) = bake_items(recipe.items(), had);
    proof {
        lemma_served_keeps_names(stock, recipe@, cookies as int);
        assert(names_differ(left.deep_view())) by {
            assert forall|i: int, j: int| 0 <= i < j < left.len() implies left.deep_view()[i].name
                != left.deep_view()[j].name by {
                assert(stock[i].name != stock[j].name);
            }
        }
    }
    BakingResult { cookies, pantry: Recipe { items: left } }
}

} // verus!
