//! The `fmad` ("find me a dish") command: one recipe card per recipe, best
//! match first.

use vstd::prelude::*;
use crate::card::{
    Card, CardField, CardFieldView, CardView, CommandSpec, CommandSpecView, card_views,
    colour_from_rgb, field, rgb,
};
use crate::init::{RankedRecipe, RankedRecipeView, Recipe, RecipeView};
use crate::rank::{
    at_hand_count, is_index_permutation, law_by_rank_descending_indices,
    law_by_rank_descending_is_sorted, law_rank_is_at_hand_count, lemma_present_contains,
    rank_non_increasing, by_rank_descending, contains_string, order_by_rank, rank_recipes_by_available_ingredients,
    ranked, ranked_views,
};
use crate::text::{decimal, decimal_string, join, join_strings, lemma_views_push, views};

verus! {

/// The items of `s` without repeats, each where it first occurs.
pub open spec fn distinct(s: Seq<Seq<char>>) -> Seq<Seq<char>>
    decreases s.len(),
{
    if s.len() == 0 {
        s
    } else {
        let d = distinct(s.drop_last());
        if d.contains(s.last()) {
            d
        } else {
            d.push(s.last())
        }
    }
}

/// The items of `s`, in order, that `other` does not hold.
pub open spec fn absent(s: Seq<Seq<char>>, other: Seq<Seq<char>>) -> Seq<Seq<char>>
    decreases s.len(),
{
    if s.len() == 0 {
        s
    } else {
        let rest = absent(s.drop_last(), other);
        if other.contains(s.last()) {
            rest
        } else {
            rest.push(s.last())
        }
    }
}

/// `x` in bold: `**x**`.
pub open spec fn bold(x: Seq<char>) -> Seq<char> {
    "**"@ + x + "**"@
}

/// The ingredient list of a recipe card: the ingredients at hand in bold,
/// then those missing, each once.
pub open spec fn ingredient_entries(r: RankedRecipeView) -> Seq<Seq<char>> {
    distinct(r.available_ingredients).map_values(|x: Seq<char>| bold(x)) + absent(
        distinct(r.recipe.ingredients),
        r.available_ingredients,
    )
}

/// The footer of page `page` of `pages`.
pub open spec fn page_footer(page: nat, pages: nat) -> Seq<char> {
    "Page "@ + decimal(page) + "/"@ + decimal(pages) + "\n Click on 👈 👉 to navigate\n"@
}

/// The card of a ranked recipe shown as page `page` of `pages`.
pub open spec fn recipe_card(r: RankedRecipeView, page: nat, pages: nat) -> CardView {
    CardView {
        title: "Recipe Card"@,
        description: r.recipe.name,
        colour: rgb(245, 239, 66),
        fields: seq![
            CardFieldView {
                name: "Number of Available Ingredients"@,
                value: decimal(r.rank) + "/"@ + decimal(r.recipe.ingredients.len()),
                inline: false,
            },
            CardFieldView {
                name: "Recipe Ingredients"@,
                value: join(ingredient_entries(r), ", "@),
                inline: false,
            },
            CardFieldView { name: "Recipe Instruction"@, value: r.recipe.instructions, inline: false },
        ],
        footer: Some(page_footer(page, pages)),
    }
}

/// The views of a list of recipes.
pub open spec fn recipe_views(s: Seq<Recipe>) -> Seq<RecipeView> {
    s.map_values(|r: Recipe| r@)
}

/// The recipe cards for the recipes against the ingredients at hand: the
/// recipes ranked, best first, one card per recipe, numbered from 1.
pub open spec fn recipe_cards(available: Seq<Seq<char>>, recipes: Seq<RecipeView>) -> Seq<
    CardView,
> {
    let ordered = by_rank_descending(recipes.map_values(|r: RecipeView| ranked(available, r)));
    Seq::new(ordered.len(), |i: int| recipe_card(ordered[i], (i + 1) as nat, ordered.len()))
}

proof fn lemma_distinct_contains(s: Seq<Seq<char>>, x: Seq<char>)
    ensures
        distinct(s).contains(x) <==> s.contains(x),
    decreases s.len(),
{
    if s.len() > 0 {
        let init = s.drop_last();
        lemma_distinct_contains(init, x);
        let d = distinct(init);
        assert(s[s.len() - 1] == s.last());
        if init.contains(x) {
            let k = choose|k: int| 0 <= k < init.len() && init[k] == x;
            assert(s[k] == x);
        }
        if s.contains(x) && x != s.last() {
            let k = choose|k: int| 0 <= k < s.len() && s[k] == x;
            assert(init[k] == x);
        }
        if !d.contains(s.last()) {
            let p = d.push(s.last());
            assert(p[d.len() as int] == s.last());
            if d.contains(x) {
                let k = choose|k: int| 0 <= k < d.len() && d[k] == x;
                assert(p[k] == x);
            }
            if p.contains(x) && x != s.last() {
                let k = choose|k: int| 0 <= k < p.len() && p[k] == x;
                assert(d[k] == x);
            }
        }
    }
}

proof fn lemma_absent_contains(s: Seq<Seq<char>>, other: Seq<Seq<char>>, x: Seq<char>)
    ensures
        absent(s, other).contains(x) <==> s.contains(x) && !other.contains(x),
    decreases s.len(),
{
    if s.len() > 0 {
        let init = s.drop_last();
        lemma_absent_contains(init, other, x);
        let a = absent(init, other);
        assert(s[s.len() - 1] == s.last());
        if init.contains(x) {
            let k = choose|k: int| 0 <= k < init.len() && init[k] == x;
            assert(s[k] == x);
        }
        if s.contains(x) && x != s.last() {
            let k = choose|k: int| 0 <= k < s.len() && s[k] == x;
            assert(init[k] == x);
        }
        if !other.contains(s.last()) {
            let p = a.push(s.last());
            assert(p[a.len() as int] == s.last());
            if a.contains(x) {
                let k = choose|k: int| 0 <= k < a.len() && a[k] == x;
                assert(p[k] == x);
            }
            if p.contains(x) && x != s.last() {
                let k = choose|k: int| 0 <= k < p.len() && p[k] == x;
                assert(a[k] == x);
            }
        }
    }
}

/// Law: a recipe card lists every ingredient of its recipe: in bold when it
/// is at hand, plainly when it is missing.
pub proof fn law_card_lists_every_ingredient(
    available: Seq<Seq<char>>,
    r: RecipeView,
    x: Seq<char>,
)
    requires
        r.ingredients.contains(x),
    ensures
        available.contains(x) ==> ingredient_entries(ranked(available, r)).contains(bold(x)),
        !available.contains(x) ==> ingredient_entries(ranked(available, r)).contains(x),
{
    let rr = ranked(available, r);
    crate::rank::law_rank_counts_needed_ingredients_at_hand(available, r);
    assert(rr.available_ingredients.contains(x) == available.contains(x));
    let d = distinct(rr.available_ingredients);
    let bolded = d.map_values(|y: Seq<char>| bold(y));
    let missing = absent(distinct(r.ingredients), rr.available_ingredients);
    let e = ingredient_entries(rr);
    assert(e == bolded + missing);
    if available.contains(x) {
        lemma_distinct_contains(rr.available_ingredients, x);
        let k = choose|k: int| 0 <= k < d.len() && d[k] == x;
        assert(bolded[k] == bold(x));
        assert(e[k] == bold(x));
    } else {
        lemma_distinct_contains(r.ingredients, x);
        lemma_absent_contains(distinct(r.ingredients), rr.available_ingredients, x);
        let k = choose|k: int| 0 <= k < missing.len() && missing[k] == x;
        assert(e[bolded.len() + k] == x);
    }
}

/// The items of `v` without repeats, each where it first occurs.
pub fn distinct_strings(v: &Vec<String>) -> (r: Vec<String>)
    ensures
        views(r@) == distinct(views(v@)),
{
    let mut r: Vec<String> = Vec::new();
    let ghost all = views(v@);
    let mut i: usize = 0;
    assert(all.take(0) =~= Seq::<Seq<char>>::empty());
    while i < v.len()
        invariant
            0 <= i <= v.len(),
            all == views(v@),
            views(r@) == distinct(all.take(i as int)),
        decreases v.len() - i,
    {
        assert(all.take(i + 1).drop_last() =~= all.take(i as int));
        assert(all.take(i + 1).last() == v@[i as int]@);
        if !contains_string(&r, &v[i]) {
            let item = v[i].clone();
            proof {
                lemma_views_push(r@, item);
            }
            r.push(item);
        }
        i = i + 1;
    }
    assert(all.take(v.len() as int) =~= all);
    r
}

/// Appends to `out` the items of `v`, in order, that `other` does not hold.
pub fn push_absent(out: &mut Vec<String>, v: &Vec<String>, other: &Vec<String>)
    ensures
        views(final(out)@) == views(old(out)@) + absent(views(v@), views(other@)),
{
    let ghost start = views(out@);
    let ghost all = views(v@);
    let mut i: usize = 0;
    assert(all.take(0) =~= Seq::<Seq<char>>::empty());
    assert(views(out@) =~= start + absent(all.take(0), views(other@)));
    while i < v.len()
        invariant
            0 <= i <= v.len(),
            all == views(v@),
            views(out@) == start + absent(all.take(i as int), views(other@)),
        decreases v.len() - i,
    {
        assert(all.take(i + 1).drop_last() =~= all.take(i as int));
        assert(all.take(i + 1).last() == v@[i as int]@);
        if !contains_string(other, &v[i]) {
            let item = v[i].clone();
            proof {
                lemma_views_push(out@, item);
            }
            out.push(item);
            assert(views(out@) =~= start + absent(all.take(i + 1), views(other@)));
        }
        i = i + 1;
    }
    assert(all.take(v.len() as int) =~= all);
}

/// `x` in bold: `**x**`.
pub fn bold_string(x: &String) -> (r: String)
    ensures
        r@ == bold(x@),
{
    let mut r = String::from_str("**");
    r.append(x.as_str());
    r.append("**");
    r
}

/// The ingredient list of a recipe card.
pub fn ingredient_list(r: &RankedRecipe) -> (s: String)
    ensures
        s@ == join(ingredient_entries(r@), ", "@),
{
    let have = distinct_strings(&r.available_ingredients);
    let mut entries: Vec<String> = Vec::new();
    let ghost bolded = views(have@).map_values(|x: Seq<char>| bold(x));
    let mut i: usize = 0;
    while i < have.len()
        invariant
            0 <= i <= have.len(),
            bolded == views(have@).map_values(|x: Seq<char>| bold(x)),
            views(entries@) == bolded.take(i as int),
        decreases have.len() - i,
    {
        let b = bold_string(&have[i]);
        proof {
            lemma_views_push(entries@, b);
        }
        entries.push(b);
        i = i + 1;
        assert(views(entries@) =~= bolded.take(i as int));
    }
    assert(bolded.take(have.len() as int) =~= bolded);
    let need = distinct_strings(&r.recipe.ingredients);
    push_absent(&mut entries, &need, &r.available_ingredients);
    join_strings(&entries, ", ")
}

/// The card of a ranked recipe shown as page `page` of `pages`.
pub fn card_for(r: &RankedRecipe, page: usize, pages: usize) -> (c: Card)
    ensures
        c@ == recipe_card(r@, page as nat, pages as nat),
{
    let mut count = decimal_string(r.rank);
    count.append("/");
    let total = decimal_string(r.recipe.ingredients.len());
    count.append(total.as_str());
    let mut footer = String::from_str("Page ");
    let p = decimal_string(page);
    footer.append(p.as_str());
    footer.append("/");
    let n = decimal_string(pages);
    footer.append(n.as_str());
    footer.append("\n Click on 👈 👉 to navigate\n");
    let mut fields: Vec<CardField> = Vec::new();
    fields.push(field("Number of Available Ingredients", count, false));
    fields.push(field("Recipe Ingredients", ingredient_list(r), false));
    fields.push(field("Recipe Instruction", r.recipe.instructions.clone(), false));
    let c = Card {
        title: String::from_str("Recipe Card"),
        description: r.recipe.recipe.clone(),
        colour: colour_from_rgb(245, 239, 66),
        fields,
        footer: Some(footer),
    };
    assert(c@.fields =~= recipe_card(r@, page as nat, pages as nat).fields);
    c
}

proof fn lemma_by_rank_len(s: Seq<RankedRecipeView>)
    ensures
        by_rank_descending(s).len() == s.len(),
{
    broadcast use vstd::seq_lib::group_to_multiset_ensures;

    crate::rank::law_by_rank_descending_is_permutation(s);
    assert(by_rank_descending(s).to_multiset().len() == s.to_multiset().len());
}

/// Law: there is one recipe card per recipe, and card `i` (from 0) is page
/// `i + 1` of as many pages as there are recipes.
pub proof fn law_one_card_per_recipe(available: Seq<Seq<char>>, recipes: Seq<RecipeView>)
    ensures
        recipe_cards(available, recipes).len() == recipes.len(),
        forall|i: int|
            0 <= i < recipes.len() ==> (#[trigger] recipe_cards(available, recipes)[i]).footer
                == Some(page_footer((i + 1) as nat, recipes.len())),
{
    lemma_by_rank_len(recipes.map_values(|r: RecipeView| ranked(available, r)));
}

/// Whether no item of `s` occurs twice.
pub open spec fn no_repeats(s: Seq<Seq<char>>) -> bool {
    forall|i: int, j: int| 0 <= i < j < s.len() ==> #[trigger] s[i] != #[trigger] s[j]
}

/// Whether `e` lists the ingredients `needed` each once: first, in bold,
/// every ingredient for which `at_hand` holds, then, plainly, every needed
/// ingredient for which it does not.
pub open spec fn lists_each_once(
    e: Seq<Seq<char>>,
    needed: Seq<Seq<char>>,
    at_hand: spec_fn(Seq<char>) -> bool,
) -> bool {
    exists|b: Seq<Seq<char>>, m: Seq<Seq<char>>|
        {
            &&& e == b.map_values(|x: Seq<char>| "**"@ + x + "**"@) + m
            &&& no_repeats(b)
            &&& no_repeats(m)
            &&& forall|x: Seq<char>| #[trigger] b.contains(x) <==> at_hand(x)
            &&& forall|x: Seq<char>| #[trigger] m.contains(x) <==> needed.contains(x) && !at_hand(x)
        }
}

/// Whether card `c` shows recipe `r` as page `page` of `pages`, against the
/// ingredients `available`: its name, how many of the items at hand it
/// needs out of its ingredients, each ingredient once (in bold when at
/// hand), its instructions whole, and the page footer.
pub open spec fn shows_recipe(
    c: CardView,
    available: Seq<Seq<char>>,
    r: RecipeView,
    page: nat,
    pages: nat,
) -> bool {
    &&& c.title == "Recipe Card"@
    &&& c.description == r.name
    &&& c.colour == 0xF5EF42
    &&& c.fields.len() == 3
    &&& c.fields[0] == CardFieldView {
        name: "Number of Available Ingredients"@,
        value: decimal(at_hand_count(available, r.ingredients)) + "/"@ + decimal(
            r.ingredients.len(),
        ),
        inline: false,
    }
    &&& c.fields[1].name == "Recipe Ingredients"@
    &&& !c.fields[1].inline
    &&& exists|e: Seq<Seq<char>>|
        #![trigger join(e, ", "@)]
        c.fields[1].value == join(e, ", "@) && lists_each_once(
            e,
            r.ingredients,
            |x: Seq<char>| available.contains(x) && r.ingredients.contains(x),
        )
    &&& c.fields[2] == CardFieldView { name: "Recipe Instruction"@, value: r.instructions, inline: false }
    &&& c.footer == Some(
        "Page "@ + decimal(page) + "/"@ + decimal(pages) + "\n Click on 👈 👉 to navigate\n"@,
    )
}

proof fn lemma_distinct_no_repeats(s: Seq<Seq<char>>)
    ensures
        no_repeats(distinct(s)),
    decreases s.len(),
{
    if s.len() > 0 {
        lemma_distinct_no_repeats(s.drop_last());
        let d = distinct(s.drop_last());
        if !d.contains(s.last()) {
            let e = d.push(s.last());
            assert forall|i: int, j: int| 0 <= i < j < e.len() implies #[trigger] e[i] != #[trigger] e[j] by {
                if j == d.len() {
                    assert(e[i] == d[i]);
                } else {
                    assert(e[i] == d[i] && e[j] == d[j]);
                }
            }
        }
    }
}

proof fn lemma_absent_no_repeats(s: Seq<Seq<char>>, other: Seq<Seq<char>>)
    requires
        no_repeats(s),
    ensures
        no_repeats(absent(s, other)),
    decreases s.len(),
{
    if s.len() > 0 {
        let init = s.drop_last();
        assert(no_repeats(init)) by {
            assert forall|i: int, j: int| 0 <= i < j < init.len() implies #[trigger] init[i] != #[trigger] init[j] by {
                assert(init[i] == s[i] && init[j] == s[j]);
            }
        }
        lemma_absent_no_repeats(init, other);
        let a = absent(init, other);
        if !other.contains(s.last()) {
            let e = a.push(s.last());
            assert(!a.contains(s.last())) by {
                lemma_absent_contains(init, other, s.last());
                if init.contains(s.last()) {
                    let k = choose|k: int| 0 <= k < init.len() && init[k] == s.last();
                    assert(s[k] == s[s.len() - 1]);
                }
            }
            assert forall|i: int, j: int| 0 <= i < j < e.len() implies #[trigger] e[i] != #[trigger] e[j] by {
                if j == a.len() {
                    assert(e[i] == a[i]);
                } else {
                    assert(e[i] == a[i] && e[j] == a[j]);
                }
            }
        }
    }
}

/// The two parts of a card's ingredient list, and what they hold.
proof fn lemma_entries_parts(r: RankedRecipeView)
    ensures
        ingredient_entries(r) == distinct(r.available_ingredients).map_values(
            |x: Seq<char>| "**"@ + x + "**"@,
        ) + absent(distinct(r.recipe.ingredients), r.available_ingredients),
        no_repeats(distinct(r.available_ingredients)),
        no_repeats(absent(distinct(r.recipe.ingredients), r.available_ingredients)),
        forall|x: Seq<char>|
            #[trigger] distinct(r.available_ingredients).contains(x)
                <==> r.available_ingredients.contains(x),
        forall|x: Seq<char>|
            #[trigger] absent(distinct(r.recipe.ingredients), r.available_ingredients).contains(x)
                <==> r.recipe.ingredients.contains(x) && !r.available_ingredients.contains(x),
{
    let b = distinct(r.available_ingredients);
    assert(b.map_values(|x: Seq<char>| bold(x)) =~= b.map_values(|x: Seq<char>| "**"@ + x + "**"@));
    lemma_distinct_no_repeats(r.available_ingredients);
    lemma_distinct_no_repeats(r.recipe.ingredients);
    lemma_absent_no_repeats(distinct(r.recipe.ingredients), r.available_ingredients);
    assert forall|x: Seq<char>|
        #[trigger] distinct(r.available_ingredients).contains(x) <==> r.available_ingredients.contains(x) by {
        lemma_distinct_contains(r.available_ingredients, x);
    }
    assert forall|x: Seq<char>|
        #[trigger] absent(distinct(r.recipe.ingredients), r.available_ingredients).contains(x)
            <==> r.recipe.ingredients.contains(x) && !r.available_ingredients.contains(x) by {
        lemma_distinct_contains(r.recipe.ingredients, x);
        lemma_absent_contains(distinct(r.recipe.ingredients), r.available_ingredients, x);
    }
}

/// Law: a card's ingredient list holds, in bold, each ingredient listed as
/// at hand, once, and then, plainly, each needed ingredient not at hand,
/// once.
pub proof fn law_ingredient_entries_each_once(r: RankedRecipeView)
    ensures
        lists_each_once(
            ingredient_entries(r),
            r.recipe.ingredients,
            |x: Seq<char>| r.available_ingredients.contains(x),
        ),
{
    lemma_entries_parts(r);
    let b = distinct(r.available_ingredients);
    let m = absent(distinct(r.recipe.ingredients), r.available_ingredients);
    let at_hand = |x: Seq<char>| r.available_ingredients.contains(x);
    assert forall|x: Seq<char>| #[trigger] b.contains(x) <==> at_hand(x) by {}
    assert forall|x: Seq<char>| #[trigger] m.contains(x) <==> r.recipe.ingredients.contains(x) && !at_hand(x) by {}
}

/// Law: the card of a ranked recipe shows the recipe's name, its rank out
/// of its number of ingredients, each ingredient once (in bold when listed
/// as at hand), its instructions whole, and the page footer.
pub proof fn law_recipe_card_contents(r: RankedRecipeView, page: nat, pages: nat)
    ensures
        recipe_card(r, page, pages).title == "Recipe Card"@,
        recipe_card(r, page, pages).description == r.recipe.name,
        recipe_card(r, page, pages).colour == 0xF5EF42,
        recipe_card(r, page, pages).fields.len() == 3,
        recipe_card(r, page, pages).fields[0].value == decimal(r.rank) + "/"@ + decimal(
            r.recipe.ingredients.len(),
        ),
        exists|e: Seq<Seq<char>>|
            #![trigger join(e, ", "@)]
            recipe_card(r, page, pages).fields[1].value == join(e, ", "@) && lists_each_once(
                e,
                r.recipe.ingredients,
                |x: Seq<char>| r.available_ingredients.contains(x),
            ),
        recipe_card(r, page, pages).fields[2].value == r.recipe.instructions,
        recipe_card(r, page, pages).footer == Some(
            "Page "@ + decimal(page) + "/"@ + decimal(pages) + "\n Click on 👈 👉 to navigate\n"@,
        ),
{
    law_ingredient_entries_each_once(r);
    assert(0xF5EF42u32 == rgb(245, 239, 66));
}

/// Law: the recipe cards show every recipe once, best match first: card `i`
/// shows recipe `p[i]` for a reordering `p` of the recipes, as page `i + 1`
/// of as many pages as recipes; a card never shows a recipe with fewer of
/// its ingredients at hand before one with more; and of two recipes with as
/// many at hand, the later in the list comes first.
pub proof fn law_cards_best_match_first(available: Seq<Seq<char>>, recipes: Seq<RecipeView>)
    ensures
        recipe_cards(available, recipes).len() == recipes.len(),
        exists|p: Seq<int>|
            {
                &&& is_index_permutation(p, recipes.len() as int)
                &&& forall|i: int|
                    0 <= i < recipes.len() ==> shows_recipe(
                        #[trigger] recipe_cards(available, recipes)[i],
                        available,
                        recipes[p[i]],
                        (i + 1) as nat,
                        recipes.len(),
                    )
                &&& forall|i: int, j: int|
                    0 <= i < j < recipes.len() ==> at_hand_count(
                        available,
                        #[trigger] recipes[p[i]].ingredients,
                    ) >= at_hand_count(available, #[trigger] recipes[p[j]].ingredients)
                &&& forall|i: int, j: int|
                    0 <= i < j < recipes.len() && at_hand_count(
                        available,
                        #[trigger] recipes[p[i]].ingredients,
                    ) == at_hand_count(available, #[trigger] recipes[p[j]].ingredients) ==> p[i]
                        > p[j]
            },
{
    let s = recipes.map_values(|r: RecipeView| ranked(available, r));
    let p = law_by_rank_descending_indices(s);
    law_by_rank_descending_is_sorted(s);
    let ord = by_rank_descending(s);
    let cards = recipe_cards(available, recipes);
    let n = recipes.len();
    assert forall|i: int| 0 <= i < n implies ord[i] == ranked(available, recipes[p[i]])
        && ord[i].rank == at_hand_count(available, recipes[p[i]].ingredients) by {
        assert(ord[i] == s[p[i]]);
        law_rank_is_at_hand_count(available, recipes[p[i]]);
    }
    assert forall|i: int| 0 <= i < n implies shows_recipe(
        #[trigger] cards[i],
        available,
        recipes[p[i]],
        (i + 1) as nat,
        n,
    ) by {
        let r = recipes[p[i]];
        let rr = ord[i];
        assert(cards[i] == recipe_card(rr, (i + 1) as nat, n));
        law_recipe_card_contents(rr, (i + 1) as nat, n);
        lemma_entries_parts(rr);
        let b = distinct(rr.available_ingredients);
        let m = absent(distinct(r.ingredients), rr.available_ingredients);
        let e = ingredient_entries(rr);
        let at_hand = |x: Seq<char>| available.contains(x) && r.ingredients.contains(x);
        assert forall|x: Seq<char>| #[trigger] b.contains(x) <==> at_hand(x) by {
            lemma_present_contains(available, r.ingredients, x);
        }
        assert forall|x: Seq<char>| #[trigger] m.contains(x) <==> r.ingredients.contains(x) && !at_hand(x) by {
            lemma_present_contains(available, r.ingredients, x);
        }
        assert(lists_each_once(e, r.ingredients, at_hand));
        assert(cards[i].fields[1].value == join(e, ", "@));
        assert(0xF5EF42u32 == rgb(245, 239, 66));
    }
    assert forall|i: int, j: int| 0 <= i < j < n implies at_hand_count(
        available,
        #[trigger] recipes[p[i]].ingredients,
    ) >= at_hand_count(available, #[trigger] recipes[p[j]].ingredients) by {
        assert(ord[i].rank >= ord[j].rank);
    }
    assert forall|i: int, j: int|
        0 <= i < j < n && at_hand_count(available, #[trigger] recipes[p[i]].ingredients)
            == at_hand_count(available, #[trigger] recipes[p[j]].ingredients) implies p[i] > p[j] by {
        assert(ord[i].rank == ord[j].rank);
    }
}

/// The recipe cards: the recipes ranked against the ingredients at hand,
/// best match first, one card per recipe, numbered from 1.
pub fn run(available_ingredients: Vec<String>, recipes: Vec<Recipe>) -> (cards: Vec<Card>)
    ensures
        card_views(cards@) == recipe_cards(views(available_ingredients@), recipe_views(recipes@)),
{
    let ghost avail = views(available_ingredients@);
    let ghost rv = recipe_views(recipes@);
    let ranked_list = rank_recipes_by_available_ingredients(available_ingredients, recipes);
    assert(ranked_views(ranked_list@) =~= rv.map_values(|r: RecipeView| ranked(avail, r)));
    let ordered = order_by_rank(ranked_list);
    let ghost ov = ranked_views(ordered@);
    proof {
        lemma_by_rank_len(rv.map_values(|r: RecipeView| ranked(avail, r)));
    }
    let n = ordered.len();
    let mut cards: Vec<Card> = Vec::new();
    let mut i: usize = 0;
    while i < n
        invariant
            0 <= i <= n,
            n == ordered@.len(),
            ov == ranked_views(ordered@),
            cards@.len() == i,
            forall|j: int|
                0 <= j < i ==> #[trigger] cards@[j]@ == recipe_card(ov[j], (j + 1) as nat, n as nat),
        decreases n - i,
    {
        let c = card_for(&ordered[i], i + 1, n);
        cards.push(c);
        i = i + 1;
    }
    let ghost want = recipe_cards(avail, rv);
    assert(card_views(cards@) =~= want);
    cards
}

/// The `fmad` slash command.
pub fn register() -> (c: CommandSpec)
    ensures
        c@ == (CommandSpecView {
            name: "fmad"@,
            description: "Find me a dish pwetty pweeeezz 🥺"@,
        }),
{
    CommandSpec {
        name: String::from_str("fmad"),
        description: String::from_str("Find me a dish pwetty pweeeezz 🥺"),
    }
}

} // verus!
