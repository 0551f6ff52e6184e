//! Recipes as the recipe list holds them, and recipes ranked against the
//! ingredients at hand.

use vstd::prelude::*;
use crate::text::{
    chars_of, comma_list, decimal, decimal_string, join, join_strings, law_trim_idempotent,
    lemma_split_concat, lemma_split_pieces, lemma_split_without_sep,
    lemma_trim_after_space, lemma_trim_is_stretch, lemma_trims_push, lemma_views_push, split,
    string_from_chars, trim, trim_bounds, views,
};

verus! {

/// One recipe: its name, how to make it, and what goes into it.
#[derive(Debug)]
pub struct Recipe {
    pub recipe: String,
    pub instructions: String,
    pub ingredients: Vec<String>,
}

/// A recipe with the ingredients at hand that it needs, and their number.
#[derive(Debug)]
pub struct RankedRecipe {
    pub recipe: Recipe,
    pub rank: usize,
    pub available_ingredients: Vec<String>,
}

/// The mathematical value of a recipe.
pub struct RecipeView {
    pub name: Seq<char>,
    pub instructions: Seq<char>,
    pub ingredients: Seq<Seq<char>>,
}

/// The mathematical value of a ranked recipe.
pub struct RankedRecipeView {
    pub recipe: RecipeView,
    pub rank: nat,
    pub available_ingredients: Seq<Seq<char>>,
}

impl View for Recipe {
    type V = RecipeView;

    open spec fn view(&self) -> RecipeView {
        RecipeView {
            name: self.recipe@,
            instructions: self.instructions@,
            ingredients: views(self.ingredients@),
        }
    }
}

impl View for RankedRecipe {
    type V = RankedRecipeView;

    open spec fn view(&self) -> RankedRecipeView {
        RankedRecipeView {
            recipe: self.recipe@,
            rank: self.rank as nat,
            available_ingredients: views(self.available_ingredients@),
        }
    }
}

/// A copy of a list of strings.
pub fn copy_strings(v: &Vec<String>) -> (r: Vec<String>)
    ensures
        r@ == v@,
{
    let mut r: Vec<String> = Vec::new();
    let mut i: usize = 0;
    while i < v.len()
        invariant
            0 <= i <= v.len(),
            r@ == v@.take(i as int),
        decreases v.len() - i,
    {
        r.push(v[i].clone());
        i = i + 1;
        assert(r@ =~= v@.take(i as int));
    }
    assert(v@.take(v.len() as int) =~= v@);
    r
}

impl Clone for Recipe {
    fn clone(&self) -> (r: Self)
        ensures
            r@ == self@,
    {
        Recipe {
            recipe: self.recipe.clone(),
            instructions: self.instructions.clone(),
            ingredients: copy_strings(&self.ingredients),
        }
    }
}

/// What the `Display` of a recipe shows.
pub open spec fn recipe_text(r: RecipeView) -> Seq<char> {
    "Recipe: "@ + r.name + "\nInstructions: \n"@ + r.instructions + "\n ingredients: \n"@ + join(
        r.ingredients,
        ", "@,
    )
}

/// What the `Display` of a ranked recipe shows.
pub open spec fn ranked_recipe_text(r: RankedRecipeView) -> Seq<char> {
    "Rank: "@ + decimal(r.rank) + "\n\n"@ + recipe_text(r.recipe)
}

impl Recipe {
    /// The text that the recipe is displayed as: its name, its
    /// instructions, and its ingredients joined by `", "`.
    pub fn to_string(&self) -> (s: String)
        ensures
            s@ == recipe_text(self@),
    {
        let mut s = String::from_str("Recipe: ");
        s.append(self.recipe.as_str());
        s.append("\nInstructions: \n");
        s.append(self.instructions.as_str());
        s.append("\n ingredients: \n");
        let list = join_strings(&self.ingredients, ", ");
        s.append(list.as_str());
        s
    }
}

impl RankedRecipe {
    /// The text that the ranked recipe is displayed as: its rank, then the
    /// recipe's own text.
    pub fn to_string(&self) -> (s: String)
        ensures
            s@ == ranked_recipe_text(self@),
    {
        let mut s = String::from_str("Rank: ");
        let n = decimal_string(self.rank);
        s.append(n.as_str());
        s.append("\n\n");
        let r = self.recipe.to_string();
        s.append(r.as_str());
        s
    }
}

/// Reads a comma-separated list: `""` gives no item; otherwise the text is
/// cut at every comma and each piece is trimmed of whitespace.
pub fn vec_string_from_string(keywords: &str) -> (items: Vec<String>)
    ensures
        views(items@) == comma_list(keywords@),
{
    let v = chars_of(keywords);
    let mut items: Vec<String> = Vec::new();
    if v.len() == 0 {
        assert(views(items@) =~= comma_list(keywords@));
        return items;
    }
    let ghost mut raw: Seq<Seq<char>> = Seq::empty();
    let mut start: usize = 0;
    let mut i: usize = 0;
    assert(v@.take(0) =~= Seq::<char>::empty());
    while i < v.len()
        invariant
            0 <= start <= i <= v.len(),
            split(v@.take(i as int), ',') == raw.push(v@.subrange(start as int, i as int)),
            views(items@) == raw.map_values(|p: Seq<char>| trim(p)),
        decreases v.len() - i,
    {
        let ghost prev = v@.take(i as int);
        assert(v@.take(i + 1).drop_last() =~= prev);
        if v[i] == ',' {
            let (lo, hi) = trim_bounds(&v, start, i);
            let piece = string_from_chars(&v, lo, hi);
            proof {
                lemma_views_push(items@, piece);
                lemma_trims_push(raw, v@.subrange(start as int, i as int));
                raw = raw.push(v@.subrange(start as int, i as int));
            }
            items.push(piece);
            start = i + 1;
            assert(v@.subrange(start as int, i + 1) =~= Seq::<char>::empty());
        } else {
            assert(v@.subrange(start as int, i + 1) =~= v@.subrange(start as int, i as int).push(v[i as int]));
        }
        i = i + 1;
        assert(split(v@.take(i as int), ',') =~= raw.push(v@.subrange(start as int, i as int)));
    }
    let (lo, hi) = trim_bounds(&v, start, v.len());
    let piece = string_from_chars(&v, lo, hi);
    proof {
        lemma_views_push(items@, piece);
        lemma_trims_push(raw, v@.subrange(start as int, v.len() as int));
        assert(v@.take(v.len() as int) =~= keywords@);
    }
    items.push(piece);
    items
}

/// The values that the `csv` crate reads from CSV bytes as one string per
/// record (the first line taken as the header), or `None` where it reports
/// an error.
pub uninterp spec fn csv_string_records(bytes: Seq<u8>) -> Option<Seq<Seq<char>>>;

/// `csv::Reader::from_reader(bytes).deserialize::<String>()`, collected.
/// Trusted to give the records that `csv_string_records` names, and `None`
/// exactly when the reader reports an error; what those records are is not
/// stated here.
#[verifier::external_body]
fn csv_strings(bytes: &[u8]) -> (r: Option<Vec<String>>)
    ensures
        match r {
            Some(v) => csv_string_records(bytes@) == Some(views(v@)),
            None => csv_string_records(bytes@) is None,
        },
{
    csv::Reader::from_reader(bytes).deserialize().collect::<Result<Vec<String>, csv::Error>>().ok()
}

/// Reads the list of ingredients at hand from the bytes of its CSV file: one
/// ingredient per record, after the header line; `None` where the file is
/// not valid CSV of that shape.
pub fn read_available_ingredients(bytes: &[u8]) -> (r: Option<Vec<String>>)
    ensures
        match r {
            Some(v) => csv_string_records(bytes@) == Some(views(v@)),
            None => csv_string_records(bytes@) is None,
        },
{
    csv_strings(bytes)
}

/// Law: every item of a comma-separated list is trimmed and holds no
/// comma.
pub proof fn law_comma_list_items(s: Seq<char>)
    ensures
        forall|i: int|
            0 <= i < comma_list(s).len() ==> trim(#[trigger] comma_list(s)[i]) == comma_list(s)[i]
                && !comma_list(s)[i].contains(','),
{
    if s.len() > 0 {
        lemma_split_pieces(s, ',');
        assert forall|i: int| 0 <= i < comma_list(s).len() implies trim(
            #[trigger] comma_list(s)[i],
        ) == comma_list(s)[i] && !comma_list(s)[i].contains(',') by {
            let p = split(s, ',')[i];
            assert(comma_list(s)[i] == trim(p));
            law_trim_idempotent(p);
            lemma_trim_is_stretch(p);
            let (a, b) = choose|a: int, b: int| 0 <= a <= b <= p.len() && trim(p) == p.subrange(a, b);
            if trim(p).contains(',') {
                let k = choose|k: int| 0 <= k < trim(p).len() && trim(p)[k] == ',';
                assert(p[a + k] == ',');
            }
        }
    }
}

/// The pieces of `join(xs, ", ")` when cut at commas: the first item, then
/// each further item with the space in front.
proof fn lemma_split_joined(xs: Seq<Seq<char>>)
    requires
        xs.len() >= 1,
        forall|i: int| 0 <= i < xs.len() ==> !(#[trigger] xs[i]).contains(','),
    ensures
        split(join(xs, ", "@), ',') == Seq::new(
            xs.len(),
            |i: int|
                if i == 0 {
                    xs[0]
                } else {
                    " "@ + xs[i]
                },
        ),
    decreases xs.len(),
{
    reveal_strlit(", ");
    reveal_strlit(" ");
    if xs.len() == 1 {
        lemma_split_without_sep(xs[0], ',');
        assert(split(join(xs, ", "@), ',') =~= Seq::new(
            xs.len(),
            |i: int|
                if i == 0 {
                    xs[0]
                } else {
                    " "@ + xs[i]
                },
        ));
    } else {
        let init = xs.drop_last();
        assert forall|i: int| 0 <= i < init.len() implies !(#[trigger] init[i]).contains(',') by {
            assert(init[i] == xs[i]);
        }
        lemma_split_joined(init);
        let last = " "@ + xs.last();
        assert(!last.contains(',')) by {
            assert(!xs[xs.len() - 1].contains(','));
            if last.contains(',') {
                let k = choose|k: int| 0 <= k < last.len() && last[k] == ',';
                assert(k > 0);
                assert(xs.last()[k - 1] == ',');
            }
        }
        lemma_split_without_sep(last, ',');
        assert(", "@ =~= seq![','] + " "@);
        assert(join(xs, ", "@) =~= join(init, ", "@) + seq![','] + last);
        lemma_split_concat(join(init, ", "@), last, ',');
        assert(split(join(xs, ", "@), ',') =~= Seq::new(
            xs.len(),
            |i: int|
                if i == 0 {
                    xs[0]
                } else {
                    " "@ + xs[i]
                },
        ));
    }
}

/// Law: reading back a list of ingredients that was written joined by
/// `", "` (as a recipe's text shows them) gives the same list, when every
/// item is trimmed and holds no comma. The one list it fails for is the
/// list of a single empty item, which is written as the empty text.
pub proof fn law_comma_list_of_joined(xs: Seq<Seq<char>>)
    requires
        forall|i: int|
            0 <= i < xs.len() ==> trim(#[trigger] xs[i]) == xs[i] && !xs[i].contains(','),
        !(xs.len() == 1 && xs[0].len() == 0),
    ensures
        comma_list(join(xs, ", "@)) == xs,
{
    reveal_strlit(", ");
    if xs.len() == 0 {
        assert(comma_list(join(xs, ", "@)) =~= xs);
    } else {
        lemma_split_joined(xs);
        if xs.len() >= 2 {
            assert(join(xs, ", "@).len() >= 2);
        }
        let pieces = split(join(xs, ", "@), ',');
        assert forall|i: int| 0 <= i < xs.len() implies trim(#[trigger] pieces[i]) == xs[i] by {
            if i > 0 {
                lemma_trim_after_space(xs[i]);
            }
        }
        assert(comma_list(join(xs, ", "@)) =~= xs);
    }
}

} // verus!
