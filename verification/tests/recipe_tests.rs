use fmad::init::{read_available_ingredients, RankedRecipe, Recipe};
use fmad::rank::{order_by_rank, rank_recipes_by_available_ingredients};

fn strings(items: &[&str]) -> Vec<String> {
    items.iter().map(|s| s.to_string()).collect()
}

fn recipe(name: &str, instructions: &str, ingredients: &[&str]) -> Recipe {
    Recipe {
        recipe: name.to_string(),
        instructions: instructions.to_string(),
        ingredients: strings(ingredients),
    }
}

#[test]
fn recipe_text_lists_everything() {
    let r = recipe("Pancakes", "Mix and fry.", &["egg", "milk", "flour"]);
    assert_eq!(
        r.to_string(),
        "Recipe: Pancakes\nInstructions: \nMix and fry.\n ingredients: \negg, milk, flour"
    );
}

#[test]
fn recipe_text_without_ingredients() {
    let r = recipe("Water", "Pour.", &[]);
    assert_eq!(r.to_string(), "Recipe: Water\nInstructions: \nPour.\n ingredients: \n");
}

#[test]
fn ranked_recipe_text_starts_with_rank() {
    let r = RankedRecipe {
        recipe: recipe("Toast", "Toast it.", &["bread"]),
        rank: 12,
        available_ingredients: strings(&["bread"]),
    };
    assert_eq!(
        r.to_string(),
        "Rank: 12\n\nRecipe: Toast\nInstructions: \nToast it.\n ingredients: \nbread"
    );
}

#[test]
fn clone_copies_every_field() {
    let r = recipe("Soup", "Boil.", &["water", "salt"]);
    let c = r.clone();
    assert_eq!(c.recipe, "Soup");
    assert_eq!(c.instructions, "Boil.");
    assert_eq!(c.ingredients, strings(&["water", "salt"]));
}

#[test]
fn rank_counts_ingredients_at_hand() {
    let ranked = rank_recipes_by_available_ingredients(
        strings(&["egg", "milk", "bread"]),
        vec![
            recipe("Pancakes", "Fry.", &["egg", "milk", "flour"]),
            recipe("Toast", "Toast.", &["bread", "butter"]),
            recipe("Salad", "Toss.", &["lettuce"]),
        ],
    );
    assert_eq!(ranked.len(), 3);
    assert_eq!(ranked[0].rank, 2);
    assert_eq!(ranked[0].available_ingredients, strings(&["egg", "milk"]));
    assert_eq!(ranked[0].recipe.recipe, "Pancakes");
    assert_eq!(ranked[1].rank, 1);
    assert_eq!(ranked[1].available_ingredients, strings(&["bread"]));
    assert_eq!(ranked[2].rank, 0);
    assert!(ranked[2].available_ingredients.is_empty());
}

#[test]
fn rank_keeps_the_order_of_the_ingredients_at_hand_and_their_repeats() {
    let ranked = rank_recipes_by_available_ingredients(
        strings(&["milk", "egg", "milk"]),
        vec![recipe("Pancakes", "Fry.", &["egg", "milk"])],
    );
    assert_eq!(ranked[0].rank, 3);
    assert_eq!(ranked[0].available_ingredients, strings(&["milk", "egg", "milk"]));
}

#[test]
fn rank_of_no_recipes_is_empty() {
    let ranked = rank_recipes_by_available_ingredients(strings(&["egg"]), vec![]);
    assert!(ranked.is_empty());
}

#[test]
fn rank_never_exceeds_ingredients_at_hand() {
    let available = strings(&["a", "b"]);
    let ranked = rank_recipes_by_available_ingredients(
        available.clone(),
        vec![recipe("X", "", &["a", "b", "c", "a"])],
    );
    assert!(ranked[0].rank <= available.len());
    assert_eq!(ranked[0].rank, 2);
}

fn ranked(name: &str, rank: usize) -> RankedRecipe {
    RankedRecipe { recipe: recipe(name, "", &[]), rank, available_ingredients: vec![] }
}

#[test]
fn order_puts_highest_rank_first() {
    let ordered = order_by_rank(vec![ranked("a", 1), ranked("b", 3), ranked("c", 2)]);
    let names: Vec<&str> = ordered.iter().map(|r| r.recipe.recipe.as_str()).collect();
    assert_eq!(names, vec!["b", "c", "a"]);
}

#[test]
fn order_puts_later_recipe_first_among_equal_ranks() {
    let ordered =
        order_by_rank(vec![ranked("a", 1), ranked("b", 2), ranked("c", 1), ranked("d", 2)]);
    let names: Vec<&str> = ordered.iter().map(|r| r.recipe.recipe.as_str()).collect();
    assert_eq!(names, vec!["d", "b", "c", "a"]);
}

#[test]
fn order_matches_stable_sort_then_reverse() {
    let ranks = [3usize, 1, 4, 1, 5, 9, 2, 6, 5, 3, 5];
    let input: Vec<RankedRecipe> =
        ranks.iter().enumerate().map(|(i, r)| ranked(&i.to_string(), *r)).collect();
    let mut expected: Vec<(usize, usize)> = ranks.iter().cloned().enumerate().collect();
    expected.sort_by_key(|(_, r)| *r);
    expected.reverse();
    let ordered = order_by_rank(input);
    let got: Vec<(usize, usize)> =
        ordered.iter().map(|r| (r.recipe.recipe.parse().unwrap(), r.rank)).collect();
    assert_eq!(got, expected);
}

#[test]
fn ingredient_file_is_read_one_per_record_after_the_header() {
    let got = read_available_ingredients(b"ingredient\negg\nsour cream\nmilk\n");
    assert_eq!(got, Some(strings(&["egg", "sour cream", "milk"])));
}

#[test]
fn ingredient_file_with_only_a_header_has_no_ingredients() {
    assert_eq!(read_available_ingredients(b"ingredient\n"), Some(vec![]));
    assert_eq!(read_available_ingredients(b""), Some(vec![]));
}

#[test]
fn ingredient_file_with_quoted_field_is_unquoted() {
    let got = read_available_ingredients(b"ingredient\n\"salt, coarse\"\n");
    assert_eq!(got, Some(strings(&["salt, coarse"])));
}

#[test]
fn ingredient_file_that_is_not_utf8_is_refused() {
    assert_eq!(read_available_ingredients(b"ingredient\n\xff\xfe\n"), None);
}

#[test]
fn ranks_grow_with_more_at_hand_and_more_needed() {
    let small = rank_recipes_by_available_ingredients(
        strings(&["egg", "milk"]),
        vec![recipe("Pancakes", "", &["egg"])],
    );
    let large = rank_recipes_by_available_ingredients(
        strings(&["flour", "egg", "salt", "milk"]),
        vec![recipe("Pancakes", "", &["egg", "milk"])],
    );
    assert_eq!(small[0].rank, 1);
    assert_eq!(large[0].rank, 2);
    assert!(small[0].rank <= large[0].rank);
}
