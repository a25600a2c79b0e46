use vstd::prelude::*;
use crate::logic::{
    LogicError, Logic, TagTable, strs, solves, evaluates, ends_always, referenced, references_end,
    try_rec_solve_logic, try_rec_get_all_referenced_recipes, outcome, strs_outcome, contains_string, prepend,
    law_more_items_keep_formula_satisfied,
};
use crate::recipe::{Recipe, RecipeView};
use crate::config::{AgeGroups, keys_distinct};

verus! {

/// The models of a sequence of recipes.
pub open spec fn recipe_views(v: Seq<Recipe>) -> Seq<RecipeView> {
    Seq::new(v.len(), |i: int| v[i]@)
}

/// The position of the last occurrence of `x` in `s`, or -1.
pub open spec fn last_index(s: Seq<Seq<char>>, x: Seq<char>) -> int
    decreases s.len(),
{
    if s.len() == 0 {
        -1
    } else if s.last() == x {
        s.len() - 1
    } else {
        last_index(s.drop_last(), x)
    }
}

/// `s` without the last occurrence of `x`; `s` itself when `x` does not occur.
pub open spec fn remove_last(s: Seq<Seq<char>>, x: Seq<char>) -> Seq<Seq<char>> {
    let i = last_index(s, x);
    if i < 0 { s } else { s.remove(i) }
}

proof fn lemma_last_index(s: Seq<Seq<char>>, x: Seq<char>)
    ensures
        -1 <= last_index(s, x) < s.len(),
        last_index(s, x) >= 0 ==> s[last_index(s, x)] == x,
        forall|j: int| last_index(s, x) < j < s.len() ==> #[trigger] s[j] != x,
    decreases s.len(),
{
    if s.len() > 0 && s.last() != x {
        lemma_last_index(s.drop_last(), x);
        assert forall|j: int| last_index(s, x) < j < s.len() implies #[trigger] s[j] != x by {
            if j < s.len() - 1 {
                assert(s.drop_last()[j] == s[j]);
            }
        }
    }
}

/// Removes the last occurrence of `to_remove` from `items`, if any.
pub fn find_and_remove(items: &mut Vec<String>, to_remove: &str)
    ensures
        strs(final(items)@) == remove_last(strs(old(items)@), to_remove@),
{
    proof {
        lemma_last_index(strs(items@), to_remove@);
    }
    let target = to_remove.to_owned();
    let mut n = items.len();
    while n > 0
        invariant
            n <= items.len(),
            items@ == old(items)@,
            target@ == to_remove@,
            -1 <= last_index(strs(items@), to_remove@) < items.len(),
            last_index(strs(items@), to_remove@) >= 0 ==> strs(items@)[last_index(strs(items@), to_remove@)] == to_remove@,
            forall|j: int| last_index(strs(items@), to_remove@) < j < items.len() ==> #[trigger] strs(items@)[j] != to_remove@,
            forall|j: int| n <= j < items.len() ==> #[trigger] strs(items@)[j] != to_remove@,
        decreases n,
    {
        if items[n - 1] == target {
            assert(strs(items@)[n - 1] == to_remove@);
            let ghost i = last_index(strs(items@), to_remove@);
            assert(i == n - 1);
            items.remove(n - 1);
            assert(strs(items@) =~= strs(old(items)@).remove(i));
            return;
        }
        assert(strs(items@)[n - 1] != to_remove@);
        n = n - 1;
    }
    assert(last_index(strs(items@), to_remove@) < 0);
}

/// Adds `chosen_item` to the unlocked items; always reports success.
pub fn unlock_item(unlocked_items: &mut Vec<String>, chosen_item: &str) -> (r: bool)
    ensures
        r,
        strs(final(unlocked_items)@) == strs(old(unlocked_items)@).push(chosen_item@),
{
    unlocked_items.push(chosen_item.to_owned());
    assert(strs(unlocked_items@) =~= strs(old(unlocked_items)@).push(chosen_item@));
    true
}

/// Adds every item of `chosen_items`, in order, to the unlocked items.
pub fn unlock_all_items(unlocked_items: &mut Vec<String>, chosen_items: &Vec<String>)
    ensures
        strs(final(unlocked_items)@) == strs(old(unlocked_items)@) + strs(chosen_items@),
{
    let mut i: usize = 0;
    while i < chosen_items.len()
        invariant
            i <= chosen_items.len(),
            strs(unlocked_items@) == strs(old(unlocked_items)@) + strs(chosen_items@).subrange(0, i as int),
        decreases chosen_items.len() - i,
    {
        let ghost before = strs(unlocked_items@);
        unlock_item(unlocked_items, chosen_items[i].as_str());
        assert(strs(chosen_items@).subrange(0, i + 1) =~= strs(chosen_items@).subrange(0, i as int).push(chosen_items@[i as int]@));
        assert(strs(unlocked_items@) =~= strs(old(unlocked_items)@) + strs(chosen_items@).subrange(0, i + 1));
        i = i + 1;
    }
    assert(strs(chosen_items@).subrange(0, i as int) =~= strs(chosen_items@));
}

/// A copy of a list of strings.
pub fn clone_strings(v: &Vec<String>) -> (r: Vec<String>)
    ensures
        strs(r@) == strs(v@),
{
    let mut out: Vec<String> = Vec::new();
    let mut i: usize = 0;
    while i < v.len()
        invariant
            i <= v.len(),
            out.len() == i,
            forall|j: int| 0 <= j < i ==> out@[j]@ == v@[j]@,
        decreases v.len() - i,
    {
        out.push(v[i].clone());
        i = i + 1;
    }
    assert(strs(out@) =~= strs(v@));
    out
}

/// A copy of a list of recipes.
pub fn clone_recipes(v: &Vec<Recipe>) -> (r: Vec<Recipe>)
    ensures
        recipe_views(r@) == recipe_views(v@),
{
    let mut out: Vec<Recipe> = Vec::new();
    let mut i: usize = 0;
    while i < v.len()
        invariant
            i <= v.len(),
            out.len() == i,
            forall|j: int| 0 <= j < i ==> out@[j]@ == v@[j]@,
        decreases v.len() - i,
    {
        out.push(v[i].clone());
        i = i + 1;
    }
    assert(recipe_views(out@) =~= recipe_views(v@));
    out
}

/// The products of the recipes, in order.
pub open spec fn products_of(v: Seq<RecipeView>) -> Seq<Seq<char>> {
    Seq::new(v.len(), |i: int| v[i].result)
}

/// The product of every recipe, in order.
pub fn get_products_from_recipes(recipes: &Vec<Recipe>) -> (r: Vec<String>)
    ensures
        strs(r@) == products_of(recipe_views(recipes@)),
{
    let mut result: Vec<String> = Vec::new();
    let mut i: usize = 0;
    while i < recipes.len()
        invariant
            i <= recipes.len(),
            result.len() == i,
            forall|j: int| 0 <= j < i ==> result@[j]@ == recipes@[j].result@,
        decreases recipes.len() - i,
    {
        result.push(recipes[i].result.clone());
        i = i + 1;
    }
    assert(strs(result@) =~= products_of(recipe_views(recipes@)));
    result
}

/// The product of the first recipe read from the file `file`.
pub open spec fn result_for_file(v: Seq<RecipeView>, file: Seq<char>) -> Option<Seq<char>>
    decreases v.len(),
{
    if v.len() == 0 {
        None
    } else if v[0].file == file {
        Some(v[0].result)
    } else {
        result_for_file(v.subrange(1, v.len() as int), file)
    }
}

/// The product of the first recipe read from the file named `file_name`.
pub fn try_get_result_from_file(file_name: &str, recipes: &Vec<Recipe>) -> (r: Option<String>)
    ensures
        match r {
            Some(s) => result_for_file(recipe_views(recipes@), file_name@) == Some(s@),
            None => result_for_file(recipe_views(recipes@), file_name@) is None,
        },
{
    let filename = file_name.to_owned();
    let ghost rv = recipe_views(recipes@);
    let mut i: usize = 0;
    assert(rv.subrange(0, rv.len() as int) =~= rv);
    while i < recipes.len()
        invariant
            i <= recipes.len(),
            rv == recipe_views(recipes@),
            filename@ == file_name@,
            result_for_file(rv, file_name@) == result_for_file(rv.subrange(i as int, rv.len() as int), file_name@),
        decreases recipes.len() - i,
    {
        let ghost rest = rv.subrange(i as int, rv.len() as int);
        assert(rest[0] == rv[i as int]);
        assert(rest.subrange(1, rest.len() as int) =~= rv.subrange(i + 1, rv.len() as int));
        if recipes[i].file == filename {
            return Some(recipes[i].result.clone());
        }
        i = i + 1;
    }
    None
}


/// The formulas of the recipes, in order.
pub open spec fn ingredients_of(v: Seq<RecipeView>) -> Seq<Logic> {
    Seq::new(v.len(), |i: int| v[i].ingredients)
}

/// Whether `items` satisfy every formula of `ls`, checked from the last to
/// the first; the first formula from the end that fails or errs decides.
pub open spec fn all_solved_rev(ls: Seq<Logic>, items: Seq<Seq<char>>, tags: Map<Seq<char>, Logic>) -> Result<bool, Seq<char>>
    decreases ls.len(),
{
    if ls.len() == 0 {
        Ok(true)
    } else {
        match solves(ls.last(), items, tags) {
            Ok(true) => all_solved_rev(ls.drop_last(), items, tags),
            other => other,
        }
    }
}

/// The evaluations that `all_solved_rev` makes come to an end.
pub open spec fn all_solved_rev_ends(ls: Seq<Logic>, items: Seq<Seq<char>>, tags: Map<Seq<char>, Logic>) -> bool
    decreases ls.len(),
{
    ls.len() == 0 || {
        &&& evaluates(ls.last(), items, tags)
        &&& solves(ls.last(), items, tags) == Ok::<bool, Seq<char>>(true) ==> all_solved_rev_ends(ls.drop_last(), items, tags)
    }
}

/// Whether `item` can be taken back from the unlocked items: it is not
/// significant, and without its last copy every recipe in `craftable`
/// can still be made.
pub open spec fn removal_is_safe(
    unlocked: Seq<Seq<char>>,
    item: Seq<char>,
    craftable: Seq<RecipeView>,
    tags: Map<Seq<char>, Logic>,
    sig_items: Seq<Seq<char>>,
) -> Result<bool, Seq<char>> {
    if sig_items.contains(item) {
        Ok(false)
    } else {
        all_solved_rev(ingredients_of(craftable), remove_last(unlocked, item), tags)
    }
}

/// The evaluations that `removal_is_safe` makes come to an end.
pub open spec fn removal_check_ends(
    unlocked: Seq<Seq<char>>,
    item: Seq<char>,
    craftable: Seq<RecipeView>,
    tags: Map<Seq<char>, Logic>,
    sig_items: Seq<Seq<char>>,
) -> bool {
    !sig_items.contains(item) ==> all_solved_rev_ends(ingredients_of(craftable), remove_last(unlocked, item), tags)
}

/// Whether taking `item_to_remove` back keeps every craftable recipe craftable.
#[verifier::loop_isolation(false)]
pub fn safe_to_remove(
    unlocked_items: &Vec<String>,
    item_to_remove: &String,
    craftable_recipes: &Vec<Recipe>,
    tags: &TagTable,
    sig_items: &Vec<String>,
) -> (r: Result<bool, LogicError>)
    requires
        removal_check_ends(strs(unlocked_items@), item_to_remove@, recipe_views(craftable_recipes@), tags@, strs(sig_items@)),
    ensures
        outcome(
            r,
            removal_is_safe(strs(unlocked_items@), item_to_remove@, recipe_views(craftable_recipes@), tags@, strs(sig_items@)),
        ),
{
    if contains_string(sig_items, item_to_remove) {
        return Ok(false);
    }
    let mut new_unlocked_items = clone_strings(unlocked_items);
    find_and_remove(&mut new_unlocked_items, item_to_remove.as_str());
    let ghost items = strs(new_unlocked_items@);
    let ghost ls = ingredients_of(recipe_views(craftable_recipes@));
    let mut n = craftable_recipes.len();
    assert(ls.subrange(0, ls.len() as int) =~= ls);
    while n > 0
        invariant
            n <= craftable_recipes.len(),
            ls.len() == craftable_recipes.len(),
            ls == ingredients_of(recipe_views(craftable_recipes@)),
            items == strs(new_unlocked_items@),
            all_solved_rev(ls, items, tags@) == all_solved_rev(ls.subrange(0, n as int), items, tags@),
            all_solved_rev_ends(ls.subrange(0, n as int), items, tags@),
        decreases n,
    {
        let ghost pre = ls.subrange(0, n as int);
        assert(pre.drop_last() =~= ls.subrange(0, n - 1));
        assert(pre.last() == craftable_recipes@[n - 1].ingredients@);
        match try_rec_solve_logic(&craftable_recipes[n - 1].ingredients, &new_unlocked_items, tags) {
            Err(e) => return Err(e),
            Ok(false) => return Ok(false),
            Ok(true) => {},
        }
        n = n - 1;
    }
    Ok(true)
}

proof fn lemma_all_solved_rev(ls: Seq<Logic>, items: Seq<Seq<char>>, tags: Map<Seq<char>, Logic>)
    requires
        all_solved_rev(ls, items, tags) == Ok::<bool, Seq<char>>(true),
    ensures
        forall|i: int| 0 <= i < ls.len() ==> solves(#[trigger] ls[i], items, tags) == Ok::<bool, Seq<char>>(true),
    decreases ls.len(),
{
    if ls.len() > 0 {
        let init = ls.drop_last();
        lemma_all_solved_rev(init, items, tags);
        assert forall|i: int| 0 <= i < ls.len() implies solves(#[trigger] ls[i], items, tags) == Ok::<bool, Seq<char>>(true) by {
            if i < ls.len() - 1 {
                assert(init[i] == ls[i]);
            }
        }
    }
}

/// A take-back judged safe keeps every craftable recipe craftable without the
/// item, and never takes back a significant item.
pub proof fn law_safe_removal_keeps_craftable(
    unlocked: Seq<Seq<char>>,
    item: Seq<char>,
    craftable: Seq<RecipeView>,
    tags: Map<Seq<char>, Logic>,
    sig_items: Seq<Seq<char>>,
)
    requires
        removal_is_safe(unlocked, item, craftable, tags, sig_items) == Ok::<bool, Seq<char>>(true),
    ensures
        !sig_items.contains(item),
        forall|i: int| 0 <= i < craftable.len()
            ==> solves(#[trigger] craftable[i].ingredients, remove_last(unlocked, item), tags) == Ok::<bool, Seq<char>>(true),
{
    let ls = ingredients_of(craftable);
    lemma_all_solved_rev(ls, remove_last(unlocked, item), tags);
    assert forall|i: int| 0 <= i < craftable.len()
        implies solves(#[trigger] craftable[i].ingredients, remove_last(unlocked, item), tags) == Ok::<bool, Seq<char>>(true) by {
        assert(ls[i] == craftable[i].ingredients);
    }
}

/// The first formula of `ls`, from the last to the first, whose evaluation
/// meets a missing tag, and that tag.
pub open spec fn first_error_rev(ls: Seq<Logic>, items: Seq<Seq<char>>, tags: Map<Seq<char>, Logic>) -> Option<Seq<char>>
    decreases ls.len(),
{
    if ls.len() == 0 {
        None
    } else {
        match solves(ls.last(), items, tags) {
            Err(e) => Some(e),
            Ok(_) => first_error_rev(ls.drop_last(), items, tags),
        }
    }
}

/// The evaluations that `first_error_rev` makes come to an end.
pub open spec fn all_rev_ends(ls: Seq<Logic>, items: Seq<Seq<char>>, tags: Map<Seq<char>, Logic>) -> bool
    decreases ls.len(),
{
    ls.len() == 0 || {
        &&& evaluates(ls.last(), items, tags)
        &&& solves(ls.last(), items, tags) is Ok ==> all_rev_ends(ls.drop_last(), items, tags)
    }
}

/// The recipes that `items` let one make.
pub open spec fn makeable(items: Seq<Seq<char>>, tags: Map<Seq<char>, Logic>) -> spec_fn(RecipeView) -> bool {
    |r: RecipeView| solves(r.ingredients, items, tags) == Ok::<bool, Seq<char>>(true)
}

/// The recipes that `items` do not let one make.
pub open spec fn not_makeable(items: Seq<Seq<char>>, tags: Map<Seq<char>, Logic>) -> spec_fn(RecipeView) -> bool {
    |r: RecipeView| solves(r.ingredients, items, tags) != Ok::<bool, Seq<char>>(true)
}

/// Moves every recipe of `not_craftable_recipes` that the unlocked items let
/// one make to the end of `craftable_recipes`, from the last such recipe to
/// the first; the others keep their order. When a formula meets a missing
/// tag, nothing moves.
pub fn find_craftable_recipes(
    unlocked_items: &Vec<String>,
    craftable_recipes: &mut Vec<Recipe>,
    not_craftable_recipes: &mut Vec<Recipe>,
    tags: &TagTable,
) -> (r: Result<(), LogicError>)
    requires
        all_rev_ends(ingredients_of(recipe_views(old(not_craftable_recipes)@)), strs(unlocked_items@), tags@),
    ensures
        ({
            let rs = recipe_views(old(not_craftable_recipes)@);
            let items = strs(unlocked_items@);
            match r {
                Ok(_) => first_error_rev(ingredients_of(rs), items, tags@) is None
                    && recipe_views(final(craftable_recipes)@)
                        == recipe_views(old(craftable_recipes)@) + rs.filter(makeable(items, tags@)).reverse()
                    && recipe_views(final(not_craftable_recipes)@) == rs.filter(not_makeable(items, tags@)),
                Err(e) => first_error_rev(ingredients_of(rs), items, tags@) == Some(e@)
                    && final(craftable_recipes)@ == old(craftable_recipes)@
                    && final(not_craftable_recipes)@ == old(not_craftable_recipes)@,
            }
        }),
{
    let ghost rs = recipe_views(not_craftable_recipes@);
    let ghost ls = ingredients_of(rs);
    let ghost items = strs(unlocked_items@);
    let len = not_craftable_recipes.len();
    let mut flags: Vec<bool> = Vec::new();
    let mut k: usize = 0;
    while k < len
        invariant
            k <= len,
            flags.len() == k,
        decreases len - k,
    {
        flags.push(false);
        k = k + 1;
    }
    let mut n = len;
    assert(ls.subrange(0, ls.len() as int) =~= ls);
    while n > 0
        invariant
            n <= len,
            len == not_craftable_recipes.len(),
            flags.len() == len,
            rs == recipe_views(not_craftable_recipes@),
            ls == ingredients_of(rs),
            items == strs(unlocked_items@),
            all_rev_ends(ls.subrange(0, n as int), items, tags@),
            not_craftable_recipes@ == old(not_craftable_recipes)@,
            craftable_recipes@ == old(craftable_recipes)@,
            first_error_rev(ls, items, tags@) == first_error_rev(ls.subrange(0, n as int), items, tags@),
            forall|j: int| n <= j < len ==> #[trigger] flags@[j] == (solves(ls[j], items, tags@) == Ok::<bool, Seq<char>>(true)),
        decreases n,
    {
        let ghost pre = ls.subrange(0, n as int);
        assert(pre.drop_last() =~= ls.subrange(0, n - 1));
        assert(pre.last() == not_craftable_recipes@[n - 1].ingredients@);
        match try_rec_solve_logic(&not_craftable_recipes[n - 1].ingredients, unlocked_items, tags) {
            Err(e) => return Err(e),
            Ok(b) => {
                flags.set(n - 1, b);
            },
        }
        n = n - 1;
    }
    assert(ls.subrange(0, 0) =~= Seq::<Logic>::empty());
    let ghost ok = makeable(items, tags@);
    let ghost nok = not_makeable(items, tags@);
    let ghost oldc = recipe_views(craftable_recipes@);
    let mut n = len;
    assert(rs.subrange(len as int, len as int) =~= Seq::<RecipeView>::empty());
    assert(recipe_views(not_craftable_recipes@) =~= rs.subrange(0, len as int) + rs.subrange(len as int, len as int).filter(nok));
    assert(recipe_views(craftable_recipes@) =~= oldc + rs.subrange(len as int, len as int).filter(ok).reverse());
    while n > 0
        invariant
            n <= len,
            len == rs.len(),
            flags.len() == len,
            ls == ingredients_of(rs),
            forall|j: int| 0 <= j < len ==> #[trigger] flags@[j] == (solves(ls[j], items, tags@) == Ok::<bool, Seq<char>>(true)),
            ok == makeable(items, tags@),
            nok == not_makeable(items, tags@),
            not_craftable_recipes.len() >= n,
            recipe_views(not_craftable_recipes@) == rs.subrange(0, n as int) + rs.subrange(n as int, len as int).filter(nok),
            recipe_views(craftable_recipes@) == oldc + rs.subrange(n as int, len as int).filter(ok).reverse(),
        decreases n,
    {
        let ghost x = rs[n - 1];
        let ghost tail = rs.subrange(n as int, len as int);
        proof {
            assert(rs.subrange(n - 1, len as int) =~= seq![x] + tail);
            tail.lemma_filter_prepend(x, ok);
            tail.lemma_filter_prepend(x, nok);
            assert(flags@[n - 1] == ok(x));
            assert(ok(x) == !nok(x));
            assert(recipe_views(not_craftable_recipes@)[n - 1] == x);
        }
        let ghost before_nc = recipe_views(not_craftable_recipes@);
        let ghost before_c = recipe_views(craftable_recipes@);
        if flags[n - 1] {
            let r = not_craftable_recipes.remove(n - 1);
            craftable_recipes.push(r);
            proof {
                assert(recipe_views(not_craftable_recipes@) =~= before_nc.remove(n - 1));
                assert(recipe_views(not_craftable_recipes@) =~= rs.subrange(0, n - 1) + rs.subrange(n - 1, len as int).filter(nok));
                assert(recipe_views(craftable_recipes@) =~= before_c.push(x));
                assert((seq![x] + tail.filter(ok)).reverse() =~= tail.filter(ok).reverse().push(x));
                assert(recipe_views(craftable_recipes@) =~= oldc + rs.subrange(n - 1, len as int).filter(ok).reverse());
            }
        } else {
            proof {
                assert(rs.subrange(0, n as int) + tail.filter(nok) =~= rs.subrange(0, n - 1) + (seq![x] + tail.filter(nok)));
            }
        }
        n = n - 1;
    }
    assert(rs.subrange(0, 0) + rs.subrange(0, len as int).filter(nok) =~= rs.filter(nok));
    assert(rs.subrange(0, len as int) =~= rs);
    Ok(())
}


/// The unlocked items after visiting the age groups in order: a group whose
/// formula the items satisfy adds its items, and later groups see them.
pub open spec fn unlock_groups(
    groups: Seq<(Logic, Seq<Seq<char>>)>,
    items: Seq<Seq<char>>,
    tags: Map<Seq<char>, Logic>,
) -> Result<Seq<Seq<char>>, Seq<char>>
    decreases groups.len(),
{
    if groups.len() == 0 {
        Ok(items)
    } else {
        match solves(groups[0].0, items, tags) {
            Err(e) => Err(e),
            Ok(b) => unlock_groups(
                groups.subrange(1, groups.len() as int),
                if b { items + groups[0].1 } else { items },
                tags,
            ),
        }
    }
}

/// The evaluations that `unlock_groups` makes come to an end.
pub open spec fn unlock_groups_end(
    groups: Seq<(Logic, Seq<Seq<char>>)>,
    items: Seq<Seq<char>>,
    tags: Map<Seq<char>, Logic>,
) -> bool
    decreases groups.len(),
{
    groups.len() == 0 || {
        &&& evaluates(groups[0].0, items, tags)
        &&& match solves(groups[0].0, items, tags) {
            Err(_) => true,
            Ok(b) => unlock_groups_end(
                groups.subrange(1, groups.len() as int),
                if b { items + groups[0].1 } else { items },
                tags,
            ),
        }
    }
}

/// The evaluations that `unlock_and_check` makes come to an end.
pub open spec fn unlock_check_ends(
    items: Seq<Seq<char>>,
    chosen: Seq<char>,
    tags: Map<Seq<char>, Logic>,
    groups: Seq<(Logic, Seq<Seq<char>>)>,
    sig_items: Seq<Seq<char>>,
) -> bool {
    sig_items.contains(chosen) ==> unlock_groups_end(groups, items.push(chosen), tags)
}

/// The unlocked items after `chosen` is unlocked: when `chosen` is
/// significant, every age group is checked as `unlock_groups` says.
pub open spec fn unlock_and_check(
    items: Seq<Seq<char>>,
    chosen: Seq<char>,
    tags: Map<Seq<char>, Logic>,
    groups: Seq<(Logic, Seq<Seq<char>>)>,
    sig_items: Seq<Seq<char>>,
) -> Result<Seq<Seq<char>>, Seq<char>> {
    let with_chosen = items.push(chosen);
    if sig_items.contains(chosen) {
        unlock_groups(groups, with_chosen, tags)
    } else {
        Ok(with_chosen)
    }
}

/// Unlocks `chosen_item` and, when it is significant, the items of every age
/// group whose formula then holds. When a formula meets a missing tag, the
/// unlocked items stay as they were.
#[verifier::loop_isolation(false)]
pub fn unlock_items_and_check(
    unlocked_items: &mut Vec<String>,
    chosen_item: &String,
    tags: &TagTable,
    age_groups: &AgeGroups,
    sig_items: &Vec<String>,
) -> (r: Result<(), LogicError>)
    requires
        unlock_check_ends(strs(old(unlocked_items)@), chosen_item@, tags@, age_groups@, strs(sig_items@)),
    ensures
        ({
            let expected = unlock_and_check(strs(old(unlocked_items)@), chosen_item@, tags@, age_groups@, strs(sig_items@));
            match r {
                Ok(_) => expected == Ok::<Seq<Seq<char>>, Seq<char>>(strs(final(unlocked_items)@)),
                Err(e) => expected == Err::<Seq<Seq<char>>, Seq<char>>(e@) && final(unlocked_items)@ == old(unlocked_items)@,
            }
        }),
        keys_distinct(age_groups@),
{
    let n_groups = age_groups.len();
    let mut work = clone_strings(unlocked_items);
    if unlock_item(&mut work, chosen_item.as_str()) && contains_string(sig_items, chosen_item) {
        let ghost g = age_groups@;
        let mut i: usize = 0;
        assert(g.subrange(0, g.len() as int) =~= g);
        while i < n_groups
            invariant
                i <= age_groups@.len(),
                n_groups == age_groups@.len(),
                g == age_groups@,
                unlock_and_check(strs(old(unlocked_items)@), chosen_item@, tags@, g, strs(sig_items@))
                    == unlock_groups(g.subrange(i as int, g.len() as int), strs(work@), tags@),
                unlock_groups_end(g.subrange(i as int, g.len() as int), strs(work@), tags@),
            decreases age_groups@.len() - i,
        {
            let ghost rest = g.subrange(i as int, g.len() as int);
            assert(rest[0] == g[i as int]);
            assert(rest.subrange(1, rest.len() as int) =~= g.subrange(i + 1, g.len() as int));
            let key = age_groups.key_at(i);
            match try_rec_solve_logic(key, &work, tags) {
                Err(e) => return Err(e),
                Ok(true) => {
                    unlock_all_items(&mut work, age_groups.items_at(i));
                },
                Ok(false) => {},
            }
            i = i + 1;
        }
    }
    *unlocked_items = work;
    Ok(())
}

proof fn lemma_unlock_groups_grows(groups: Seq<(Logic, Seq<Seq<char>>)>, items: Seq<Seq<char>>, tags: Map<Seq<char>, Logic>)
    requires
        unlock_groups(groups, items, tags) is Ok,
    ensures
        items.len() <= unlock_groups(groups, items, tags)->Ok_0.len(),
        unlock_groups(groups, items, tags)->Ok_0.subrange(0, items.len() as int) == items,
    decreases groups.len(),
{
    if groups.len() > 0 {
        let b = solves(groups[0].0, items, tags)->Ok_0;
        let next = if b { items + groups[0].1 } else { items };
        let rest = groups.subrange(1, groups.len() as int);
        lemma_unlock_groups_grows(rest, next, tags);
        let out = unlock_groups(rest, next, tags)->Ok_0;
        assert(next.subrange(0, items.len() as int) =~= items);
        assert(out.subrange(0, items.len() as int) =~= next.subrange(0, items.len() as int));
    } else {
        assert(items.subrange(0, items.len() as int) =~= items);
    }
}

/// Unlocking never takes an item away: the items held before come first,
/// in their order, then the chosen item, then whatever age groups added.
pub proof fn law_unlock_only_adds(
    items: Seq<Seq<char>>,
    chosen: Seq<char>,
    tags: Map<Seq<char>, Logic>,
    groups: Seq<(Logic, Seq<Seq<char>>)>,
    sig_items: Seq<Seq<char>>,
)
    requires
        unlock_and_check(items, chosen, tags, groups, sig_items) is Ok,
    ensures
        ({
            let out = unlock_and_check(items, chosen, tags, groups, sig_items)->Ok_0;
            &&& items.len() < out.len()
            &&& out.subrange(0, items.len() as int) == items
            &&& out[items.len() as int] == chosen
        }),
{
    let with_chosen = items.push(chosen);
    let out = unlock_and_check(items, chosen, tags, groups, sig_items)->Ok_0;
    if sig_items.contains(chosen) {
        lemma_unlock_groups_grows(groups, with_chosen, tags);
        assert(out.subrange(0, with_chosen.len() as int)[items.len() as int] == out[items.len() as int]);
        assert(out.subrange(0, items.len() as int) =~= with_chosen.subrange(0, items.len() as int));
    } else {
        assert(out.subrange(0, items.len() as int) =~= items);
    }
}

/// The items that the age groups' formulas mention, group by group.
pub open spec fn crucial(groups: Seq<(Logic, Seq<Seq<char>>)>, tags: Map<Seq<char>, Logic>) -> Result<Seq<Seq<char>>, Seq<char>>
    decreases groups.len(),
{
    if groups.len() == 0 {
        Ok(Seq::empty())
    } else {
        match referenced(groups[0].0, tags) {
            Err(e) => Err(e),
            Ok(first) => prepend(first, crucial(groups.subrange(1, groups.len() as int), tags)),
        }
    }
}

/// The listings that `crucial` makes come to an end.
pub open spec fn crucial_ends(groups: Seq<(Logic, Seq<Seq<char>>)>, tags: Map<Seq<char>, Logic>) -> bool
    decreases groups.len(),
{
    groups.len() == 0 || {
        &&& references_end(groups[0].0, tags)
        &&& referenced(groups[0].0, tags) is Ok ==> crucial_ends(groups.subrange(1, groups.len() as int), tags)
    }
}

/// The significant items: every item that an age group's formula mentions.
#[verifier::loop_isolation(false)]
pub fn get_crucial_items(age_groups: &AgeGroups, tags: &TagTable) -> (r: Result<Vec<String>, LogicError>)
    requires
        crucial_ends(age_groups@, tags@),
    ensures
        strs_outcome(r, crucial(age_groups@, tags@)),
        keys_distinct(age_groups@),
{
    let n_groups = age_groups.len();
    let ghost g = age_groups@;
    let mut v: Vec<String> = Vec::new();
    let mut i: usize = 0;
    assert(g.subrange(0, g.len() as int) =~= g);
    assert(strs(v@) + Seq::<Seq<char>>::empty() =~= Seq::<Seq<char>>::empty());
    assert(strs(v@) =~= Seq::<Seq<char>>::empty());
    while i < n_groups
        invariant
            i <= age_groups@.len(),
            n_groups == age_groups@.len(),
            g == age_groups@,
            crucial(g, tags@) == prepend(strs(v@), crucial(g.subrange(i as int, g.len() as int), tags@)),
            crucial_ends(g.subrange(i as int, g.len() as int), tags@),
        decreases age_groups@.len() - i,
    {
        let ghost rest = g.subrange(i as int, g.len() as int);
        assert(rest[0] == g[i as int]);
        assert(rest.subrange(1, rest.len() as int) =~= g.subrange(i + 1, g.len() as int));
        match try_rec_get_all_referenced_recipes(age_groups.key_at(i), tags) {
            Err(e) => return Err(e),
            Ok(mut sub) => {
                let ghost before = v@;
                let ghost added = sub@;
                v.append(&mut sub);
                proof {
                    assert(strs(v@) =~= strs(before) + strs(added));
                    let tail = crucial(g.subrange(i + 1, g.len() as int), tags@);
                    match tail {
                        Ok(t) => {
                            assert(strs(before) + (strs(added) + t) =~= strs(v@) + t);
                        },
                        Err(_) => {},
                    }
                }
            },
        }
        i = i + 1;
    }
    assert(strs(v@) + Seq::<Seq<char>>::empty() =~= strs(v@));
    Ok(v)
}


/// How often `x` occurs in `s`.
pub open spec fn count_of(s: Seq<Seq<char>>, x: Seq<char>) -> nat
    decreases s.len(),
{
    if s.len() == 0 {
        0
    } else {
        count_of(s.drop_last(), x) + if s.last() == x { 1nat } else { 0nat }
    }
}

proof fn lemma_count_prefix(s: Seq<Seq<char>>, x: Seq<char>, t: int)
    requires
        0 <= t <= s.len(),
    ensures
        count_of(s.subrange(0, t), x) <= count_of(s, x),
    decreases s.len() - t,
{
    if t < s.len() {
        let pre = s.subrange(0, t + 1);
        assert(pre.drop_last() =~= s.subrange(0, t));
        lemma_count_prefix(s, x, t + 1);
    } else {
        assert(s.subrange(0, t) =~= s);
    }
}

/// One pass of the dead-end search over `left`: from position `n - 1` down
/// to 0, the product at the position is removed once for every time `reqs`
/// names it, each removal taking the entry at that same position; `None`
/// when a removal has nothing left at that position.
pub open spec fn sweep_dead(left: Seq<Seq<char>>, reqs: Seq<Seq<char>>, n: nat) -> Option<Seq<Seq<char>>>
    decreases n,
{
    if n == 0 {
        Some(left)
    } else {
        let j = n - 1;
        let c = count_of(reqs, left[j]);
        if j + c > left.len() {
            None
        } else {
            sweep_dead(left.subrange(0, j) + left.subrange(j + c, left.len() as int), reqs, j as nat)
        }
    }
}

/// The products left after the dead-end search over the recipes, in order:
/// `Err(Some(tag))` for a missing tag, `Err(None)` for a removal with
/// nothing left at its position.
pub open spec fn dead_ends(
    recipes: Seq<RecipeView>,
    products: Seq<Seq<char>>,
    tags: Map<Seq<char>, Logic>,
) -> Result<Seq<Seq<char>>, Option<Seq<char>>>
    decreases recipes.len(),
{
    if recipes.len() == 0 {
        Ok(products)
    } else {
        match dead_ends(recipes.drop_last(), products, tags) {
            Err(e) => Err(e),
            Ok(left) => match referenced(recipes.last().ingredients, tags) {
                Err(t) => Err(Some(t)),
                Ok(reqs) => match sweep_dead(left, reqs, left.len()) {
                    None => Err(None),
                    Some(rest) => Ok(rest),
                },
            },
        }
    }
}

/// Why the dead-end search stopped.
#[derive(Debug)]
pub enum DeadEndError {
    MissingTag(String),
    RemovalOutOfRange,
}

impl DeadEndError {
    pub open spec fn view(&self) -> Option<Seq<char>> {
        match self {
            DeadEndError::MissingTag(t) => Some(t@),
            DeadEndError::RemovalOutOfRange => None,
        }
    }
}

proof fn lemma_dead_ends_err(recipes: Seq<RecipeView>, products: Seq<Seq<char>>, tags: Map<Seq<char>, Logic>, n: int)
    requires
        0 <= n <= recipes.len(),
        dead_ends(recipes.subrange(0, n), products, tags) is Err,
    ensures
        dead_ends(recipes, products, tags) == dead_ends(recipes.subrange(0, n), products, tags),
    decreases recipes.len() - n,
{
    if n < recipes.len() {
        let pre = recipes.subrange(0, n + 1);
        assert(pre.drop_last() =~= recipes.subrange(0, n));
        lemma_dead_ends_err(recipes, products, tags, n + 1);
    } else {
        assert(recipes.subrange(0, n) =~= recipes);
    }
}

/// One pass of the dead-end search with the items that one recipe mentions.
#[verifier::loop_isolation(false)]
fn sweep_dead_exec(left: &mut Vec<String>, reqs: &Vec<String>) -> (ok: bool)
    ensures
        match sweep_dead(strs(old(left)@), strs(reqs@), old(left)@.len()) {
            Some(rest) => ok && strs(final(left)@) == rest,
            None => !ok,
        },
{
    let ghost rq = strs(reqs@);
    let mut n = left.len();
    while n > 0
        invariant
            n <= left.len(),
            sweep_dead(strs(old(left)@), rq, old(left)@.len()) == sweep_dead(strs(left@), rq, n as nat),
        decreases n,
    {
        let j = n - 1;
        let product = left[j].clone();
        let ghost l0 = strs(left@);
        let ghost c = count_of(rq, l0[j as int]);
        let mut t: usize = 0;
        let ghost mut m: nat = 0;
        assert(rq.subrange(0, 0) =~= Seq::<Seq<char>>::empty());
        while t < reqs.len()
            invariant
                t <= reqs.len(),
                j < l0.len(),
                product@ == l0[j as int],
                m == count_of(rq.subrange(0, t as int), product@),
                j + m <= l0.len(),
                strs(left@) == l0.subrange(0, j as int) + l0.subrange(j + m, l0.len() as int),
            decreases reqs.len() - t,
        {
            let ghost pre = rq.subrange(0, t + 1);
            assert(pre.drop_last() =~= rq.subrange(0, t as int));
            assert(pre.last() == reqs@[t as int]@);
            if reqs[t] == product {
                if j >= left.len() {
                    proof {
                        lemma_count_prefix(rq, product@, t + 1);
                    }
                    return false;
                }
                let ghost before = strs(left@);
                left.remove(j);
                proof {
                    m = m + 1;
                    assert(strs(left@) =~= before.remove(j as int));
                    assert(strs(left@) =~= l0.subrange(0, j as int) + l0.subrange(j + m, l0.len() as int));
                }
            }
            t = t + 1;
        }
        assert(rq.subrange(0, reqs.len() as int) =~= rq);
        n = j;
    }
    true
}

/// The listings that `dead_ends` makes come to an end: that of every recipe
/// that the search reaches.
pub open spec fn dead_ends_end(recipes: Seq<RecipeView>, products: Seq<Seq<char>>, tags: Map<Seq<char>, Logic>) -> bool {
    forall|k: int| 0 <= k < recipes.len() && #[trigger] dead_ends(recipes.subrange(0, k), products, tags) is Ok
        ==> references_end(recipes[k].ingredients, tags)
}

/// The products that no recipe needs, found by removing, recipe by recipe,
/// every product that the recipe's formula mentions.
#[verifier::loop_isolation(false)]
pub fn get_dead_end_products(recipes: &Vec<Recipe>, products: &Vec<String>, tags: &TagTable) -> (r: Result<Vec<String>, DeadEndError>)
    requires
        dead_ends_end(recipe_views(recipes@), strs(products@), tags@),
    ensures
        match r {
            Ok(v) => dead_ends(recipe_views(recipes@), strs(products@), tags@) == Ok::<Seq<Seq<char>>, Option<Seq<char>>>(strs(v@)),
            Err(e) => dead_ends(recipe_views(recipes@), strs(products@), tags@) == Err::<Seq<Seq<char>>, Option<Seq<char>>>(e@),
        },
{
    let ghost rv = recipe_views(recipes@);
    let mut products_left = clone_strings(products);
    let mut k: usize = 0;
    assert(rv.subrange(0, 0) =~= Seq::<RecipeView>::empty());
    while k < recipes.len()
        invariant
            k <= recipes.len(),
            rv == recipe_views(recipes@),
            dead_ends(rv.subrange(0, k as int), strs(products@), tags@) == Ok::<Seq<Seq<char>>, Option<Seq<char>>>(strs(products_left@)),
        decreases recipes.len() - k,
    {
        let ghost pre = rv.subrange(0, k + 1);
        assert(pre.drop_last() =~= rv.subrange(0, k as int));
        assert(pre.last() == recipes@[k as int]@);
        assert(dead_ends(rv.subrange(0, k as int), strs(products@), tags@) is Ok);
        let requirements = match try_rec_get_all_referenced_recipes(&recipes[k].ingredients, tags) {
            Err(LogicError::MissingTag(t)) => {
                proof {
                    lemma_dead_ends_err(rv, strs(products@), tags@, k + 1);
                }
                return Err(DeadEndError::MissingTag(t));
            },
            Ok(v) => v,
        };
        if !sweep_dead_exec(&mut products_left, &requirements) {
            proof {
                lemma_dead_ends_err(rv, strs(products@), tags@, k + 1);
            }
            return Err(DeadEndError::RemovalOutOfRange);
        }
        k = k + 1;
    }
    assert(rv.subrange(0, recipes.len() as int) =~= rv);
    Ok(products_left)
}

/// When every formula of `ls` always comes to an end, so do the evaluations
/// of the list.
pub proof fn lemma_rev_ends(ls: Seq<Logic>, items: Seq<Seq<char>>, tags: Map<Seq<char>, Logic>)
    requires
        forall|i: int| 0 <= i < ls.len() ==> #[trigger] ends_always(ls[i], tags),
    ensures
        all_solved_rev_ends(ls, items, tags),
        all_rev_ends(ls, items, tags),
    decreases ls.len(),
{
    if ls.len() > 0 {
        assert(ends_always(ls[ls.len() - 1], tags));
        assert(evaluates(ls.last(), items, tags));
        let init = ls.drop_last();
        assert forall|i: int| 0 <= i < init.len() implies #[trigger] ends_always(init[i], tags) by {
            assert(init[i] == ls[i]);
        }
        lemma_rev_ends(init, items, tags);
    }
}

/// When the formula of every age group always comes to an end, so does
/// checking the groups.
pub proof fn lemma_groups_end(groups: Seq<(Logic, Seq<Seq<char>>)>, items: Seq<Seq<char>>, tags: Map<Seq<char>, Logic>)
    requires
        forall|i: int| 0 <= i < groups.len() ==> #[trigger] ends_always(groups[i].0, tags),
    ensures
        unlock_groups_end(groups, items, tags),
    decreases groups.len(),
{
    if groups.len() > 0 {
        assert(ends_always(groups[0].0, tags));
        assert(evaluates(groups[0].0, items, tags));
        let rest = groups.subrange(1, groups.len() as int);
        assert forall|i: int| 0 <= i < rest.len() implies #[trigger] ends_always(rest[i].0, tags) by {
            assert(rest[i] == groups[i + 1]);
        }
        lemma_groups_end(rest, items, tags);
        lemma_groups_end(rest, items + groups[0].1, tags);
    }
}

/// A formula whose listing ends without a missing tag evaluates to `Ok`,
/// whatever the items.
pub proof fn lemma_clean_solves(l: Logic, items: Seq<Seq<char>>, tags: Map<Seq<char>, Logic>)
    requires
        references_end(l, tags),
        referenced(l, tags) is Ok,
    ensures
        solves(l, items, tags) is Ok,
{
    law_more_items_keep_formula_satisfied(l, items, items, tags);
}

/// When every formula of `ls` lists to its end without a missing tag, checking
/// them all from the last meets no missing tag.
pub proof fn lemma_clean_all_solved(ls: Seq<Logic>, items: Seq<Seq<char>>, tags: Map<Seq<char>, Logic>)
    requires
        forall|i: int| 0 <= i < ls.len() ==> references_end(#[trigger] ls[i], tags) && referenced(ls[i], tags) is Ok,
    ensures
        all_solved_rev(ls, items, tags) is Ok,
        first_error_rev(ls, items, tags) is None,
    decreases ls.len(),
{
    if ls.len() > 0 {
        assert(references_end(ls[ls.len() - 1], tags));
        lemma_clean_solves(ls.last(), items, tags);
        let init = ls.drop_last();
        assert forall|i: int| 0 <= i < init.len() implies references_end(#[trigger] init[i], tags) && referenced(init[i], tags) is Ok by {
            assert(init[i] == ls[i]);
        }
        lemma_clean_all_solved(init, items, tags);
    }
}

/// When the formula of every age group lists to its end without a missing
/// tag, checking the groups meets no missing tag.
pub proof fn lemma_clean_groups(groups: Seq<(Logic, Seq<Seq<char>>)>, items: Seq<Seq<char>>, tags: Map<Seq<char>, Logic>)
    requires
        forall|i: int| 0 <= i < groups.len() ==> references_end(#[trigger] groups[i].0, tags) && referenced(groups[i].0, tags) is Ok,
    ensures
        unlock_groups(groups, items, tags) is Ok,
    decreases groups.len(),
{
    if groups.len() > 0 {
        assert(references_end(groups[0].0, tags));
        lemma_clean_solves(groups[0].0, items, tags);
        let rest = groups.subrange(1, groups.len() as int);
        assert forall|i: int| 0 <= i < rest.len() implies references_end(#[trigger] rest[i].0, tags) && referenced(rest[i].0, tags) is Ok by {
            assert(rest[i] == groups[i + 1]);
        }
        lemma_clean_groups(rest, items, tags);
        lemma_clean_groups(rest, items + groups[0].1, tags);
    }
}

/// Taking back the last copy of an unlocked item and unlocking it again
/// leaves the same items, counted; taking back an item that is not
/// unlocked changes nothing.
pub proof fn law_take_back_then_unlock(items: Seq<Seq<char>>, x: Seq<char>)
    ensures
        items.contains(x) ==> remove_last(items, x).push(x).to_multiset() == items.to_multiset(),
        !items.contains(x) ==> remove_last(items, x) == items,
{
    broadcast use vstd::seq_lib::group_to_multiset_ensures;
    broadcast use vstd::multiset::group_multiset_axioms;
    lemma_last_index(items, x);
    let i = last_index(items, x);
    if items.contains(x) {
        let k = choose|k: int| 0 <= k < items.len() && items[k] == x;
        assert(i >= 0);
        assert(items.remove(i).push(x).to_multiset() =~= items.to_multiset());
    } else if i >= 0 {
        assert(items[i] == x);
    }
}

/// Splitting a sequence by a predicate and its negation keeps every element.
pub proof fn lemma_filter_partition<A>(s: Seq<A>, p: spec_fn(A) -> bool, q: spec_fn(A) -> bool)
    requires
        forall|a: A| #[trigger] q(a) == !p(a),
    ensures
        s.filter(p).to_multiset().add(s.filter(q).to_multiset()) == s.to_multiset(),
    decreases s.len(),
{
    broadcast use vstd::seq_lib::group_to_multiset_ensures;
    broadcast use vstd::multiset::group_multiset_axioms;
    reveal(Seq::filter);
    if s.len() == 0 {
        assert(s.filter(p) =~= Seq::<A>::empty());
        assert(s.filter(q) =~= Seq::<A>::empty());
        vstd::multiset::lemma_multiset_empty_len(s.to_multiset());
        vstd::multiset::lemma_multiset_empty_len(s.filter(p).to_multiset());
        vstd::multiset::lemma_multiset_empty_len(s.filter(q).to_multiset());
        assert(s.filter(p).to_multiset().add(s.filter(q).to_multiset()) =~= s.to_multiset());
    } else {
        let init = s.drop_last();
        lemma_filter_partition(init, p, q);
        assert(s =~= init.push(s.last()));
        assert(s.filter(p).to_multiset().add(s.filter(q).to_multiset()) =~= s.to_multiset());
    }
}

/// `find_craftable_recipes` only moves recipes: the two lists hold the same
/// recipes as before, counted; every recipe it moves can be made and every
/// recipe it keeps cannot.
pub proof fn law_find_craftable_moves_only(
    craftable: Seq<RecipeView>,
    rs: Seq<RecipeView>,
    items: Seq<Seq<char>>,
    tags: Map<Seq<char>, Logic>,
)
    ensures
        (craftable + rs.filter(makeable(items, tags)).reverse()).to_multiset().add(
            rs.filter(not_makeable(items, tags)).to_multiset(),
        ) == craftable.to_multiset().add(rs.to_multiset()),
        forall|i: int| 0 <= i < rs.filter(makeable(items, tags)).len()
            ==> solves(#[trigger] rs.filter(makeable(items, tags))[i].ingredients, items, tags) == Ok::<bool, Seq<char>>(true),
        forall|i: int| 0 <= i < rs.filter(not_makeable(items, tags)).len()
            ==> solves(#[trigger] rs.filter(not_makeable(items, tags))[i].ingredients, items, tags) != Ok::<bool, Seq<char>>(true),
{
    broadcast use vstd::multiset::group_multiset_axioms;
    let ok = makeable(items, tags);
    let nok = not_makeable(items, tags);
    lemma_filter_partition(rs, ok, nok);
    vstd::seq_lib::lemma_multiset_commutative(craftable, rs.filter(ok).reverse());
    rs.filter(ok).lemma_reverse_to_multiset();
    assert forall|i: int| 0 <= i < rs.filter(ok).len() implies solves(#[trigger] rs.filter(ok)[i].ingredients, items, tags) == Ok::<bool, Seq<char>>(true) by {
        rs.lemma_filter_pred(ok, i);
    }
    assert forall|i: int| 0 <= i < rs.filter(nok).len() implies solves(#[trigger] rs.filter(nok)[i].ingredients, items, tags) != Ok::<bool, Seq<char>>(true) by {
        rs.lemma_filter_pred(nok, i);
    }
    assert((craftable + rs.filter(ok).reverse()).to_multiset().add(rs.filter(nok).to_multiset())
        =~= craftable.to_multiset().add(rs.to_multiset()));
}

proof fn lemma_filter_none<A>(s: Seq<A>, p: spec_fn(A) -> bool)
    requires
        forall|x: A| !#[trigger] p(x),
    ensures
        s.filter(p) == Seq::<A>::empty(),
    decreases s.len(),
{
    reveal(Seq::filter);
    if s.len() > 0 {
        lemma_filter_none(s.drop_last(), p);
    }
    assert(s.filter(p) =~= Seq::<A>::empty());
}

/// Searching for craftable recipes a second time with the same items moves
/// nothing more: the recipes left behind stay behind, all of them.
pub proof fn law_find_craftable_settles(rs: Seq<RecipeView>, items: Seq<Seq<char>>, tags: Map<Seq<char>, Logic>)
    ensures
        rs.filter(not_makeable(items, tags)).filter(makeable(items, tags)) == Seq::<RecipeView>::empty(),
        rs.filter(not_makeable(items, tags)).filter(not_makeable(items, tags)) == rs.filter(not_makeable(items, tags)),
{
    let ok = makeable(items, tags);
    let nok = not_makeable(items, tags);
    let never = |r: RecipeView| false;
    lemma_filter_filter(rs, nok, ok, never);
    lemma_filter_none(rs, never);
    lemma_filter_filter(rs, nok, nok, nok);
}

/// The products that `reqs` does not name.
pub open spec fn not_named_by(reqs: Seq<Seq<char>>) -> spec_fn(Seq<char>) -> bool {
    |p: Seq<char>| !reqs.contains(p)
}

proof fn lemma_count_no_dups(reqs: Seq<Seq<char>>, x: Seq<char>)
    requires
        reqs.no_duplicates(),
    ensures
        count_of(reqs, x) == if reqs.contains(x) { 1nat } else { 0nat },
    decreases reqs.len(),
{
    if reqs.len() > 0 {
        let init = reqs.drop_last();
        assert(init.no_duplicates());
        lemma_count_no_dups(init, x);
        if reqs.last() == x {
            if init.contains(x) {
                let k = choose|k: int| 0 <= k < init.len() && init[k] == x;
                assert(reqs[k] == reqs[reqs.len() - 1]);
            }
        } else {
            if reqs.contains(x) {
                let k = choose|k: int| 0 <= k < reqs.len() && reqs[k] == x;
                assert(init[k] == x);
            }
            if init.contains(x) {
                let k = choose|k: int| 0 <= k < init.len() && init[k] == x;
                assert(reqs[k] == x);
            }
        }
    }
}

proof fn lemma_sweep_no_dups(left: Seq<Seq<char>>, reqs: Seq<Seq<char>>, n: nat)
    requires
        reqs.no_duplicates(),
        n <= left.len(),
    ensures
        sweep_dead(left, reqs, n) == Some(left.subrange(0, n as int).filter(not_named_by(reqs)) + left.subrange(n as int, left.len() as int)),
    decreases n,
{
    reveal(Seq::filter);
    let np = not_named_by(reqs);
    if n == 0 {
        assert(left.subrange(0, 0).filter(np) =~= Seq::<Seq<char>>::empty());
        assert(left.subrange(0, 0).filter(np) + left.subrange(0, left.len() as int) =~= left);
    } else {
        let j = n - 1;
        let x = left[j];
        lemma_count_no_dups(reqs, x);
        let c = count_of(reqs, x);
        let next = left.subrange(0, j) + left.subrange(j + c, left.len() as int);
        lemma_sweep_no_dups(next, reqs, j as nat);
        assert(next.subrange(0, j) =~= left.subrange(0, j));
        assert(next.subrange(j, next.len() as int) =~= left.subrange(j + c, left.len() as int));
        let pre = left.subrange(0, n as int);
        assert(pre.drop_last() =~= left.subrange(0, j));
        assert(pre.last() == x);
        if c == 0 {
            assert(np(x));
            assert(left.subrange(0, j).filter(np).push(x) + left.subrange(n as int, left.len() as int)
                =~= left.subrange(0, j).filter(np) + left.subrange(j, left.len() as int));
        } else {
            assert(!np(x));
        }
    }
}

/// One pass of the dead-end search, with a list of requirements that names
/// no item twice, removes exactly the products that the list names.
pub proof fn law_dead_end_pass_removes_named(left: Seq<Seq<char>>, reqs: Seq<Seq<char>>)
    requires
        reqs.no_duplicates(),
    ensures
        sweep_dead(left, reqs, left.len()) == Some(left.filter(not_named_by(reqs))),
{
    lemma_sweep_no_dups(left, reqs, left.len());
    assert(left.subrange(0, left.len() as int) =~= left);
    assert(left.filter(not_named_by(reqs)) + left.subrange(left.len() as int, left.len() as int) =~= left.filter(not_named_by(reqs)));
}

/// The requirement list of every recipe is known and names no item twice.
pub open spec fn requirements_well_formed(recipes: Seq<RecipeView>, tags: Map<Seq<char>, Logic>) -> bool {
    forall|k: int| 0 <= k < recipes.len() ==> {
        &&& #[trigger] referenced(recipes[k].ingredients, tags) is Ok
        &&& referenced(recipes[k].ingredients, tags)->Ok_0.no_duplicates()
    }
}

/// The products that no recipe's requirement list names.
pub open spec fn unneeded(recipes: Seq<RecipeView>, tags: Map<Seq<char>, Logic>) -> spec_fn(Seq<char>) -> bool {
    |p: Seq<char>| forall|k: int| 0 <= k < recipes.len() ==> !(#[trigger] referenced(recipes[k].ingredients, tags))->Ok_0.contains(p)
}

proof fn lemma_filter_filter<A>(s: Seq<A>, p: spec_fn(A) -> bool, q: spec_fn(A) -> bool, r: spec_fn(A) -> bool)
    requires
        forall|x: A| #[trigger] r(x) == (p(x) && q(x)),
    ensures
        s.filter(p).filter(q) == s.filter(r),
    decreases s.len(),
{
    reveal(Seq::filter);
    if s.len() > 0 {
        lemma_filter_filter(s.drop_last(), p, q, r);
        let x = s.last();
        if p(x) {
            let a = s.drop_last().filter(p);
            assert(a.push(x).drop_last() =~= a);
        }
    }
}

/// When every recipe's requirement list is known and names no item twice,
/// the dead-end search keeps exactly the products that no recipe needs, in
/// their order.
pub proof fn law_dead_ends_are_unneeded_products(recipes: Seq<RecipeView>, products: Seq<Seq<char>>, tags: Map<Seq<char>, Logic>)
    requires
        requirements_well_formed(recipes, tags),
    ensures
        dead_ends(recipes, products, tags) == Ok::<Seq<Seq<char>>, Option<Seq<char>>>(products.filter(unneeded(recipes, tags))),
    decreases recipes.len(),
{
    reveal(Seq::filter);
    if recipes.len() == 0 {
        assert(products.filter(unneeded(recipes, tags)) =~= products) by {
            lemma_filter_all(products, unneeded(recipes, tags));
        }
    } else {
        let init = recipes.drop_last();
        assert(requirements_well_formed(init, tags)) by {
            assert forall|k: int| 0 <= k < init.len() implies {
                &&& #[trigger] referenced(init[k].ingredients, tags) is Ok
                &&& referenced(init[k].ingredients, tags)->Ok_0.no_duplicates()
            } by {
                assert(init[k] == recipes[k]);
            }
        }
        law_dead_ends_are_unneeded_products(init, products, tags);
        let last = recipes.len() - 1;
        assert(referenced(recipes[last].ingredients, tags) is Ok);
        let reqs = referenced(recipes.last().ingredients, tags)->Ok_0;
        let left = products.filter(unneeded(init, tags));
        law_dead_end_pass_removes_named(left, reqs);
        assert forall|x: Seq<char>| #[trigger] unneeded(recipes, tags)(x) == (unneeded(init, tags)(x) && not_named_by(reqs)(x)) by {
            if unneeded(init, tags)(x) && not_named_by(reqs)(x) {
                assert forall|k: int| 0 <= k < recipes.len() implies !(#[trigger] referenced(recipes[k].ingredients, tags))->Ok_0.contains(x) by {
                    if k < last {
                        assert(init[k] == recipes[k]);
                    }
                }
            }
            if unneeded(recipes, tags)(x) {
                assert forall|k: int| 0 <= k < init.len() implies !(#[trigger] referenced(init[k].ingredients, tags))->Ok_0.contains(x) by {
                    assert(init[k] == recipes[k]);
                }
                assert(!referenced(recipes[last].ingredients, tags)->Ok_0.contains(x));
            }
        }
        lemma_filter_filter(products, unneeded(init, tags), not_named_by(reqs), unneeded(recipes, tags));
    }
}

proof fn lemma_filter_all<A>(s: Seq<A>, p: spec_fn(A) -> bool)
    requires
        forall|x: A| #[trigger] p(x),
    ensures
        s.filter(p) == s,
    decreases s.len(),
{
    reveal(Seq::filter);
    if s.len() > 0 {
        lemma_filter_all(s.drop_last(), p);
        assert(s.drop_last().push(s.last()) =~= s);
    }
}

/// The product of the first recipe read from the file named `file_name`,
/// for a name that some recipe was read from.
pub fn get_result_from_file(file_name: &str, recipes: &Vec<Recipe>) -> (r: String)
    requires
        result_for_file(recipe_views(recipes@), file_name@) is Some,
    ensures
        result_for_file(recipe_views(recipes@), file_name@) == Some(r@),
{
    match try_get_result_from_file(file_name, recipes) {
        Some(s) => s,
        // `requires` rules this branch out.
        None => String::new(),
    }
}

/// The significant items of a single age group are every item its formula
/// mentions, in order.
pub proof fn law_crucial_one_group(g: (Logic, Seq<Seq<char>>), tags: Map<Seq<char>, Logic>)
    ensures
        crucial(seq![g], tags) == referenced(g.0, tags),
{
    let s = seq![g];
    assert(s[0] == g);
    assert(s.subrange(1, 1) =~= Seq::<(Logic, Seq<Seq<char>>)>::empty());
    assert(crucial(s.subrange(1, 1), tags) == Ok::<Seq<Seq<char>>, Seq<char>>(Seq::empty()));
    match referenced(g.0, tags) {
        Ok(first) => {
            assert(first + Seq::<Seq<char>>::empty() =~= first);
        },
        Err(_) => {},
    }
}

/// The significant items of two lists of age groups, one after the other,
/// are those of the first list followed by those of the second; the first
/// missing tag decides.
pub proof fn law_crucial_concat(a: Seq<(Logic, Seq<Seq<char>>)>, b: Seq<(Logic, Seq<Seq<char>>)>, tags: Map<Seq<char>, Logic>)
    ensures
        crucial(a + b, tags) == match crucial(a, tags) {
            Ok(x) => match crucial(b, tags) {
                Ok(y) => Ok(x + y),
                Err(e) => Err(e),
            },
            Err(e) => Err::<Seq<Seq<char>>, Seq<char>>(e),
        },
    decreases a.len(),
{
    if a.len() == 0 {
        assert(a + b =~= b);
        match crucial(b, tags) {
            Ok(y) => {
                assert(Seq::<Seq<char>>::empty() + y =~= y);
            },
            Err(_) => {},
        }
    } else {
        let rest = a.subrange(1, a.len() as int);
        let ab = a + b;
        assert(ab[0] == a[0]);
        assert(ab.subrange(1, ab.len() as int) =~= rest + b);
        law_crucial_concat(rest, b, tags);
        match referenced(a[0].0, tags) {
            Ok(first) => {
                match crucial(rest, tags) {
                    Ok(x) => {
                        match crucial(b, tags) {
                            Ok(y) => {
                                assert(first + (x + y) =~= (first + x) + y);
                            },
                            Err(_) => {},
                        }
                    },
                    Err(_) => {},
                }
            },
            Err(_) => {},
        }
    }
}

} // verus!
