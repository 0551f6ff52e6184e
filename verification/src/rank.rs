//! Ranking recipes by how many of their ingredients are at hand.

use vstd::prelude::*;
use crate::init::{RankedRecipe, RankedRecipeView, Recipe, RecipeView, copy_strings};
use crate::text::{lemma_views_push, views};

verus! {

/// The items of `available`, in order and with repeats, that occur in
/// `required`.
pub open spec fn present(available: Seq<Seq<char>>, required: Seq<Seq<char>>) -> Seq<Seq<char>>
    decreases available.len(),
{
    if available.len() == 0 {
        Seq::<Seq<char>>::empty()
    } else {
        let rest = present(available.drop_last(), required);
        if required.contains(available.last()) {
            rest.push(available.last())
        } else {
            rest
        }
    }
}

/// A recipe ranked against the ingredients at hand: the rank is the number
/// of items of `available` that the recipe needs.
pub open spec fn ranked(available: Seq<Seq<char>>, r: RecipeView) -> RankedRecipeView {
    RankedRecipeView {
        recipe: r,
        rank: present(available, r.ingredients).len(),
        available_ingredients: present(available, r.ingredients),
    }
}

/// Whether `x` occurs in `v`.
pub fn contains_string(v: &Vec<String>, x: &String) -> (b: bool)
    ensures
        b == views(v@).contains(x@),
{
    let mut i: usize = 0;
    while i < v.len()
        invariant
            0 <= i <= v.len(),
            forall|j: int| 0 <= j < i ==> v@[j]@ != x@,
        decreases v.len() - i,
    {
        if v[i] == *x {
            assert(views(v@)[i as int] == x@);
            return true;
        }
        i = i + 1;
    }
    proof {
        if views(v@).contains(x@) {
            let k = choose|k: int| 0 <= k < views(v@).len() && views(v@)[k] == x@;
            assert(v@[k]@ == x@);
        }
    }
    false
}

/// An item is among those present exactly when `available` and `required`
/// both hold it.
pub proof fn lemma_present_contains(
    available: Seq<Seq<char>>,
    required: Seq<Seq<char>>,
    x: Seq<char>,
)
    ensures
        present(available, required).contains(x) <==> available.contains(x) && required.contains(x),
    decreases available.len(),
{
    if available.len() > 0 {
        let init = available.drop_last();
        lemma_present_contains(init, required, x);
        assert(available =~= init.push(available.last()));
        if init.contains(x) {
            let k = choose|k: int| 0 <= k < init.len() && init[k] == x;
            assert(available[k] == x);
        }
        if available.contains(x) && x != available.last() {
            let k = choose|k: int| 0 <= k < available.len() && available[k] == x;
            assert(k < init.len());
            assert(init[k] == x);
        }
        let rest = present(init, required);
        if rest.contains(x) {
            let k = choose|k: int| 0 <= k < rest.len() && rest[k] == x;
            assert(rest.push(available.last())[k] == x);
        }
        if required.contains(available.last()) {
            let p = rest.push(available.last());
            assert(p[rest.len() as int] == available.last());
            if p.contains(x) && x != available.last() {
                let k = choose|k: int| 0 <= k < p.len() && p[k] == x;
                assert(rest[k] == x);
            }
        }
        assert(available[available.len() - 1] == available.last());
    }
}

proof fn lemma_present_len(available: Seq<Seq<char>>, required: Seq<Seq<char>>)
    ensures
        present(available, required).len() <= available.len(),
    decreases available.len(),
{
    if available.len() > 0 {
        lemma_present_len(available.drop_last(), required);
    }
}

/// The items of `available` that `required` holds, in the order of
/// `available`.
pub fn present_ingredients(available: &Vec<String>, required: &Vec<String>) -> (r: Vec<String>)
    ensures
        views(r@) == present(views(available@), views(required@)),
        r@.len() <= available@.len(),
{
    let mut r: Vec<String> = Vec::new();
    let ghost all = views(available@);
    let mut i: usize = 0;
    assert(all.take(0) =~= Seq::<Seq<char>>::empty());
    while i < available.len()
        invariant
            0 <= i <= available.len(),
            all == views(available@),
            views(r@) == present(all.take(i as int), views(required@)),
        decreases available.len() - i,
    {
        assert(all.take(i + 1).drop_last() =~= all.take(i as int));
        assert(all.take(i + 1).last() == available@[i as int]@);
        if contains_string(required, &available[i]) {
            let item = available[i].clone();
            proof {
                lemma_views_push(r@, item);
            }
            r.push(item);
        }
        i = i + 1;
    }
    assert(all.take(available.len() as int) =~= all);
    proof {
        lemma_present_len(all, views(required@));
        assert(r@.len() == views(r@).len());
    }
    r
}

/// Law: a recipe's rank is at most the number of ingredients at hand, and
/// the ingredients it lists as at hand are exactly those at hand that it
/// needs.
pub proof fn law_rank_counts_needed_ingredients_at_hand(
    available: Seq<Seq<char>>,
    r: RecipeView,
)
    ensures
        ranked(available, r).rank == ranked(available, r).available_ingredients.len(),
        ranked(available, r).rank <= available.len(),
        forall|x: Seq<char>|
            #[trigger] ranked(available, r).available_ingredients.contains(x) <==> available.contains(
                x,
            ) && r.ingredients.contains(x),
{
    lemma_present_len(available, r.ingredients);
    assert forall|x: Seq<char>|
        #[trigger] ranked(available, r).available_ingredients.contains(x) <==> available.contains(
            x,
        ) && r.ingredients.contains(x) by {
        lemma_present_contains(available, r.ingredients, x);
    }
}

/// Whether `a` is a subsequence of `b`: `b` with some items left out.
pub open spec fn is_subsequence(a: Seq<Seq<char>>, b: Seq<Seq<char>>) -> bool
    decreases b.len(),
{
    if a.len() == 0 {
        true
    } else if b.len() == 0 {
        false
    } else if a.last() == b.last() {
        is_subsequence(a.drop_last(), b.drop_last()) || is_subsequence(a, b.drop_last())
    } else {
        is_subsequence(a, b.drop_last())
    }
}

proof fn lemma_present_grows(
    a: Seq<Seq<char>>,
    b: Seq<Seq<char>>,
    req: Seq<Seq<char>>,
    req2: Seq<Seq<char>>,
)
    requires
        is_subsequence(a, b),
        forall|x: Seq<char>| #[trigger] req.contains(x) ==> req2.contains(x),
    ensures
        present(a, req).len() <= present(b, req2).len(),
    decreases b.len(),
{
    if a.len() == 0 {
    } else if a.last() == b.last() && is_subsequence(a.drop_last(), b.drop_last()) {
        lemma_present_grows(a.drop_last(), b.drop_last(), req, req2);
    } else {
        lemma_present_grows(a, b.drop_last(), req, req2);
    }
}

/// Law: more ingredients at hand, or a recipe that needs more of them,
/// never lowers a rank. When the list at hand is a subsequence of another
/// and every ingredient of a recipe is one of another recipe's, the first
/// rank is at most the second.
pub proof fn law_rank_monotone(
    available: Seq<Seq<char>>,
    more_available: Seq<Seq<char>>,
    r: RecipeView,
    r2: RecipeView,
)
    requires
        is_subsequence(available, more_available),
        forall|x: Seq<char>| #[trigger] r.ingredients.contains(x) ==> r2.ingredients.contains(x),
    ensures
        ranked(available, r).rank <= ranked(more_available, r2).rank,
{
    lemma_present_grows(available, more_available, r.ingredients, r2.ingredients);
}

/// Law: the same over whole recipe lists, as `rank_recipes_by_available_ingredients`
/// ranks them: recipe by recipe, no rank is lower with more at hand and
/// recipes that need more.
pub proof fn law_ranks_monotone(
    available: Seq<Seq<char>>,
    more_available: Seq<Seq<char>>,
    recipes: Seq<RecipeView>,
    more_recipes: Seq<RecipeView>,
)
    requires
        is_subsequence(available, more_available),
        recipes.len() == more_recipes.len(),
        forall|i: int, x: Seq<char>|
            0 <= i < recipes.len() && #[trigger] recipes[i].ingredients.contains(x)
                ==> more_recipes[i].ingredients.contains(x),
    ensures
        forall|i: int|
            0 <= i < recipes.len() ==> #[trigger] ranked(available, recipes[i]).rank <= ranked(
                more_available,
                more_recipes[i],
            ).rank,
{
    assert forall|i: int| 0 <= i < recipes.len() implies #[trigger] ranked(
        available,
        recipes[i],
    ).rank <= ranked(more_available, more_recipes[i]).rank by {
        assert forall|x: Seq<char>| #[trigger] recipes[i].ingredients.contains(x) implies more_recipes[i].ingredients.contains(x) by {}
        law_rank_monotone(available, more_available, recipes[i], more_recipes[i]);
    }
}

/// Ranks every recipe against the ingredients at hand, keeping the order of
/// `recipes`.
pub fn rank_recipes_by_available_ingredients(
    available_ingredients: Vec<String>,
    recipes: Vec<Recipe>,
) -> (ranked_recipes: Vec<RankedRecipe>)
    ensures
        ranked_recipes@.len() == recipes@.len(),
        forall|i: int|
            0 <= i < recipes@.len() ==> #[trigger] ranked_recipes@[i]@ == ranked(
                views(available_ingredients@),
                recipes@[i]@,
            ),
{
    let mut ranked_recipes: Vec<RankedRecipe> = Vec::new();
    let mut i: usize = 0;
    while i < recipes.len()
        invariant
            0 <= i <= recipes.len(),
            ranked_recipes@.len() == i,
            forall|j: int|
                0 <= j < i ==> #[trigger] ranked_recipes@[j]@ == ranked(
                    views(available_ingredients@),
                    recipes@[j]@,
                ),
        decreases recipes.len() - i,
    {
        let recipe = &recipes[i];
        let available = present_ingredients(&available_ingredients, &recipe.ingredients);
        let entry = RankedRecipe {
            recipe: recipe.clone(),
            rank: available.len(),
            available_ingredients: copy_strings(&available),
        };
        ranked_recipes.push(entry);
        i = i + 1;
    }
    ranked_recipes
}

/// The views of a list of ranked recipes.
pub open spec fn ranked_views(s: Seq<RankedRecipe>) -> Seq<RankedRecipeView> {
    s.map_values(|r: RankedRecipe| r@)
}

/// `x` placed into `s` before the first entry whose rank is at most that of
/// `x`.
pub open spec fn insert_by_rank(s: Seq<RankedRecipeView>, x: RankedRecipeView) -> Seq<
    RankedRecipeView,
>
    decreases s.len(),
{
    if s.len() == 0 {
        seq![x]
    } else if s[0].rank <= x.rank {
        seq![x] + s
    } else {
        seq![s[0]] + insert_by_rank(s.drop_first(), x)
    }
}

/// `s` sorted by rank, highest first; among equal ranks the later entry of
/// `s` comes first. This is the order that a stable ascending sort by rank
/// followed by a reversal gives.
pub open spec fn by_rank_descending(s: Seq<RankedRecipeView>) -> Seq<RankedRecipeView>
    decreases s.len(),
{
    if s.len() == 0 {
        s
    } else {
        insert_by_rank(by_rank_descending(s.drop_last()), s.last())
    }
}

/// The place at which `insert_by_rank` puts an entry of rank `rank`.
pub open spec fn insert_position(s: Seq<RankedRecipeView>, rank: nat) -> int
    decreases s.len(),
{
    if s.len() == 0 || s[0].rank <= rank {
        0
    } else {
        1 + insert_position(s.drop_first(), rank)
    }
}

proof fn lemma_insert_by_rank(s: Seq<RankedRecipeView>, x: RankedRecipeView)
    ensures
        0 <= insert_position(s, x.rank) <= s.len(),
        insert_by_rank(s, x) == s.insert(insert_position(s, x.rank), x),
        forall|j: int| 0 <= j < insert_position(s, x.rank) ==> s[j].rank > x.rank,
        insert_position(s, x.rank) < s.len() ==> s[insert_position(s, x.rank)].rank <= x.rank,
    decreases s.len(),
{
    if s.len() == 0 {
        assert(s.insert(0, x) =~= seq![x]);
    } else if s[0].rank <= x.rank {
        assert(s.insert(0, x) =~= seq![x] + s);
    } else {
        let t = s.drop_first();
        lemma_insert_by_rank(t, x);
        let k = insert_position(t, x.rank);
        assert(insert_by_rank(s, x) =~= s.insert(k + 1, x));
        assert forall|j: int| 0 <= j < k + 1 implies s[j].rank > x.rank by {
            if j > 0 {
                assert(s[j] == t[j - 1]);
            }
        }
        if k < t.len() {
            assert(s[k + 1] == t[k]);
        }
    }
}

/// Whether the ranks in `s` never increase.
pub open spec fn rank_non_increasing(s: Seq<RankedRecipeView>) -> bool {
    forall|i: int, j: int| 0 <= i < j < s.len() ==> #[trigger] s[i].rank >= #[trigger] s[j].rank
}

proof fn lemma_insert_keeps_order(s: Seq<RankedRecipeView>, x: RankedRecipeView)
    requires
        rank_non_increasing(s),
    ensures
        rank_non_increasing(insert_by_rank(s, x)),
{
    lemma_insert_by_rank(s, x);
    let p = insert_position(s, x.rank);
    let t = s.insert(p, x);
    assert forall|i: int, j: int| 0 <= i < j < t.len() implies #[trigger] t[i].rank >= #[trigger] t[j].rank by {
        if j < p {
            assert(t[i] == s[i] && t[j] == s[j]);
        } else if j == p {
            assert(t[i] == s[i]);
        } else if i < p {
            assert(t[i] == s[i] && t[j] == s[j - 1]);
        } else if i == p {
            assert(t[j] == s[j - 1]);
            assert(s[p].rank >= s[j - 1].rank || p == j - 1);
        } else {
            assert(t[i] == s[i - 1] && t[j] == s[j - 1]);
        }
    }
}

proof fn lemma_insert_multiset(s: Seq<RankedRecipeView>, x: RankedRecipeView)
    ensures
        insert_by_rank(s, x).to_multiset() == s.to_multiset().insert(x),
{
    broadcast use vstd::seq_lib::group_to_multiset_ensures;

    lemma_insert_by_rank(s, x);
    let p = insert_position(s, x.rank);
    let t = s.insert(p, x);
    assert(t.remove(p) =~= s);
    assert(t[p] == x);
    assert(t.to_multiset().remove(x) == s.to_multiset());
    assert(t.contains(x));
    assert(t.to_multiset().count(x) > 0);
    assert(t.to_multiset() =~= s.to_multiset().insert(x));
}

/// Law: the recipe cards come rank by rank, never a higher rank after a
/// lower one.
pub proof fn law_by_rank_descending_is_sorted(s: Seq<RankedRecipeView>)
    ensures
        rank_non_increasing(by_rank_descending(s)),
    decreases s.len(),
{
    if s.len() > 0 {
        law_by_rank_descending_is_sorted(s.drop_last());
        lemma_insert_keeps_order(by_rank_descending(s.drop_last()), s.last());
    }
}

/// Law: ordering the ranked recipes neither loses nor adds nor repeats one.
pub proof fn law_by_rank_descending_is_permutation(s: Seq<RankedRecipeView>)
    ensures
        by_rank_descending(s).to_multiset() == s.to_multiset(),
    decreases s.len(),
{
    broadcast use vstd::seq_lib::group_to_multiset_ensures;

    if s.len() == 0 {
        assert(by_rank_descending(s) == s);
    } else {
        law_by_rank_descending_is_permutation(s.drop_last());
        lemma_insert_multiset(by_rank_descending(s.drop_last()), s.last());
        assert(s.drop_last().push(s.last()) =~= s);
    }
}

/// Whether `p` lists each of the indices `0..n` exactly once.
pub open spec fn is_index_permutation(p: Seq<int>, n: int) -> bool {
    &&& p.len() == n
    &&& forall|i: int| 0 <= i < n ==> 0 <= #[trigger] p[i] < n
    &&& forall|i: int, j: int| 0 <= i < j < n ==> #[trigger] p[i] != #[trigger] p[j]
}

/// Law: ordering by rank moves every entry of `s` to one place: entry `i`
/// of the result is entry `p[i]` of `s` for a reordering `p` of the indices,
/// and of two entries of equal rank the one later in `s` comes first.
pub proof fn law_by_rank_descending_indices(s: Seq<RankedRecipeView>) -> (p: Seq<int>)
    ensures
        by_rank_descending(s).len() == s.len(),
        is_index_permutation(p, s.len() as int),
        forall|i: int| 0 <= i < s.len() ==> #[trigger] by_rank_descending(s)[i] == s[p[i]],
        forall|i: int, j: int|
            0 <= i < j < s.len() && (#[trigger] by_rank_descending(s)[i]).rank == (
            #[trigger] by_rank_descending(s)[j]).rank ==> p[i] > p[j],
    decreases s.len(),
{
    if s.len() == 0 {
        Seq::<int>::empty()
    } else {
        let init = s.drop_last();
        let x = s.last();
        let q = law_by_rank_descending_indices(init);
        let t = by_rank_descending(init);
        lemma_insert_by_rank(t, x);
        let pos = insert_position(t, x.rank);
        let n = s.len() as int;
        let u = by_rank_descending(s);
        assert(u == t.insert(pos, x));
        let p = q.insert(pos, n - 1);
        assert forall|i: int| 0 <= i < n implies 0 <= #[trigger] p[i] < n by {
            if i > pos {
                assert(p[i] == q[i - 1]);
            } else if i < pos {
                assert(p[i] == q[i]);
            }
        }
        assert forall|i: int, j: int| 0 <= i < j < n implies #[trigger] p[i] != #[trigger] p[j] by {
            if j < pos {
                assert(p[i] == q[i] && p[j] == q[j]);
            } else if j == pos {
                assert(p[i] == q[i]);
            } else if i < pos {
                assert(p[i] == q[i] && p[j] == q[j - 1]);
            } else if i == pos {
                assert(p[j] == q[j - 1]);
            } else {
                assert(p[i] == q[i - 1] && p[j] == q[j - 1]);
            }
        }
        assert forall|i: int| 0 <= i < n implies #[trigger] u[i] == s[p[i]] by {
            if i < pos {
                assert(u[i] == t[i] && p[i] == q[i]);
                assert(init[q[i]] == s[q[i]]);
            } else if i == pos {
                assert(u[i] == x);
            } else {
                assert(u[i] == t[i - 1] && p[i] == q[i - 1]);
                assert(init[q[i - 1]] == s[q[i - 1]]);
            }
        }
        assert forall|i: int, j: int|
            0 <= i < j < n && (#[trigger] u[i]).rank == (#[trigger] u[j]).rank implies p[i] > p[j] by {
            if j < pos {
                assert(u[i] == t[i] && u[j] == t[j]);
                assert(p[i] == q[i] && p[j] == q[j]);
            } else if j == pos {
                assert(u[i] == t[i]);
                assert(t[i].rank > x.rank);
            } else if i < pos {
                assert(u[i] == t[i] && u[j] == t[j - 1]);
                assert(p[i] == q[i] && p[j] == q[j - 1]);
            } else if i == pos {
                assert(p[j] == q[j - 1]);
            } else {
                assert(u[i] == t[i - 1] && u[j] == t[j - 1]);
                assert(p[i] == q[i - 1] && p[j] == q[j - 1]);
            }
        }
        p
    }
}

/// The number of items of `available`, counted with repeats, that `needed`
/// holds.
pub open spec fn at_hand_count(available: Seq<Seq<char>>, needed: Seq<Seq<char>>) -> nat
    decreases available.len(),
{
    if available.len() == 0 {
        0
    } else {
        at_hand_count(available.drop_last(), needed) + if needed.contains(available.last()) {
            1nat
        } else {
            0nat
        }
    }
}

/// Law: a recipe's rank is the number of items of the list at hand, with
/// repeats, that the recipe needs.
pub proof fn law_rank_is_at_hand_count(available: Seq<Seq<char>>, r: RecipeView)
    ensures
        ranked(available, r).rank == at_hand_count(available, r.ingredients),
    decreases available.len(),
{
    if available.len() > 0 {
        law_rank_is_at_hand_count(available.drop_last(), r);
    }
}

/// Ranked recipes in the order the recipe cards show them: rank by rank,
/// highest first, and among equal ranks the later recipe first.
pub fn order_by_rank(ranked_recipes: Vec<RankedRecipe>) -> (r: Vec<RankedRecipe>)
    ensures
        ranked_views(r@) == by_rank_descending(ranked_views(ranked_recipes@)),
{
    let ghost orig = ranked_views(ranked_recipes@);
    let mut rest = ranked_recipes;
    let mut r: Vec<RankedRecipe> = Vec::new();
    let ghost mut i: int = 0;
    assert(orig.take(0) =~= Seq::<RankedRecipeView>::empty());
    assert(ranked_views(rest@) =~= orig.skip(0));
    while rest.len() > 0
        invariant
            0 <= i <= orig.len(),
            ranked_views(rest@) == orig.skip(i),
            ranked_views(r@) == by_rank_descending(orig.take(i)),
        decreases rest.len(),
    {
        assert(ranked_views(rest@).len() == rest@.len());
        assert(i < orig.len());
        assert(ranked_views(rest@)[0] == rest@[0]@);
        let ghost before = rest@;
        let x = rest.remove(0);
        let ghost xv = x@;
        assert(xv == orig[i]) by {
            assert(orig.skip(i)[0] == orig[i]);
        }
        let mut k: usize = 0;
        while k < r.len() && r[k].rank > x.rank
            invariant
                0 <= k <= r.len(),
                forall|j: int| 0 <= j < k ==> ranked_views(r@)[j].rank > xv.rank,
                xv == x@,
            decreases r.len() - k,
        {
            assert(ranked_views(r@)[k as int] == r@[k as int]@);
            k = k + 1;
        }
        proof {
            let s = ranked_views(r@);
            lemma_insert_by_rank(s, xv);
            let p = insert_position(s, xv.rank);
            if k < r.len() {
                assert(s[k as int] == r@[k as int]@);
                assert(s[k as int].rank <= xv.rank);
                if p < k {
                    assert(s[p].rank > xv.rank);
                }
                if k < p {
                    assert(s[k as int].rank > xv.rank);
                }
            } else {
                if p < k {
                    assert(s[p].rank > xv.rank);
                }
            }
            assert(p == k);
            assert(orig.take(i + 1).drop_last() =~= orig.take(i));
            assert(orig.take(i + 1).last() == xv);
            assert(ranked_views(r@.insert(k as int, x)) =~= s.insert(k as int, xv));
            assert forall|j: int| 0 <= j < rest@.len() implies #[trigger] ranked_views(rest@)[j]
                == orig.skip(i + 1)[j] by {
                assert(rest@[j] == before[j + 1]);
                assert(ranked_views(before)[j + 1] == orig.skip(i)[j + 1]);
            }
            assert(ranked_views(rest@) =~= orig.skip(i + 1));
            i = i + 1;
        }
        r.insert(k, x);
    }
    assert(orig.take(i) =~= orig);
    r
}

} // verus!
