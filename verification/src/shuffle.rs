use vstd::prelude::*;
use rand::Rng;
use vstd::multiset::Multiset;
use crate::logic::{Logic, LogicError, TagTable, strs, ends_always, solves, references_end, referenced};
use crate::recipe::{Recipe, RecipeView};
use crate::config::{AgeGroups, group_pos};
use crate::progression::{
    recipe_views, products_of, remove_last, clone_strings, clone_recipes, get_products_from_recipes,
    find_and_remove, unlock_and_check, unlock_items_and_check, find_craftable_recipes, makeable,
    not_makeable, removal_is_safe, safe_to_remove, ingredients_of, first_error_rev, lemma_rev_ends, lemma_groups_end,
};

verus! {

/// The recipe shape that the shuffle never changes: what it needs and its file.
pub open spec fn shape_of(r: RecipeView) -> (Logic, Seq<char>) {
    (r.ingredients, r.file)
}

/// The shapes of a list of recipes, counted.
pub open spec fn shapes(v: Seq<RecipeView>) -> Multiset<(Logic, Seq<char>)> {
    v.map_values(|r: RecipeView| shape_of(r)).to_multiset()
}

/// Where the shuffle stands.
pub struct ShuffleState {
    /// The items the player can be expected to hold.
    pub unlocked_items: Vec<String>,
    /// Recipes that the unlocked items do not yet let one make.
    pub not_craftable_recipes: Vec<Recipe>,
    /// Recipes that can be made and still wait for a product.
    pub craftable_recipes: Vec<Recipe>,
    /// Recipes that have been given a product.
    pub scrambled_recipes: Vec<Recipe>,
    /// Products not yet given to a recipe.
    pub remaining_products: Vec<String>,
    /// Rounds completed.
    pub iterations: i32,
}

/// Mathematical model of a `ShuffleState`.
pub struct ShuffleView {
    pub unlocked: Seq<Seq<char>>,
    pub not_craftable: Seq<RecipeView>,
    pub craftable: Seq<RecipeView>,
    pub scrambled: Seq<RecipeView>,
    pub remaining: Seq<Seq<char>>,
    pub iterations: i32,
}

impl ShuffleState {
    pub open spec fn view(&self) -> ShuffleView {
        ShuffleView {
            unlocked: strs(self.unlocked_items@),
            not_craftable: recipe_views(self.not_craftable_recipes@),
            craftable: recipe_views(self.craftable_recipes@),
            scrambled: recipe_views(self.scrambled_recipes@),
            remaining: strs(self.remaining_products@),
            iterations: self.iterations,
        }
    }
}

/// Nothing is lost or made up: the recipes in the three lists are the
/// recipes of `all` up to their products, and the products still to give
/// together with those given are the products of `all`.
pub open spec fn shuffle_inv(st: ShuffleView, all: Seq<RecipeView>) -> bool {
    &&& shapes(st.not_craftable).add(shapes(st.craftable)).add(shapes(st.scrambled)) == shapes(all)
    &&& st.remaining.to_multiset().add(products_of(st.scrambled).to_multiset()) == products_of(all).to_multiset()
}

/// The state that the shuffle starts from.
pub open spec fn initial_state(all: Seq<RecipeView>, base_items: Seq<Seq<char>>) -> ShuffleView {
    ShuffleView {
        unlocked: base_items,
        not_craftable: all,
        craftable: Seq::empty(),
        scrambled: Seq::empty(),
        remaining: products_of(all),
        iterations: 0,
    }
}

/// The formula of every recipe of `v` satisfies `p`.
pub open spec fn formulas_satisfy(v: Seq<RecipeView>, p: spec_fn(Logic) -> bool) -> bool {
    forall|r: RecipeView| #[trigger] v.contains(r) ==> p(r.ingredients)
}

/// Every evaluation of a formula comes to an end, whatever the items.
pub open spec fn ends_pred(tags: Map<Seq<char>, Logic>) -> spec_fn(Logic) -> bool {
    |l: Logic| ends_always(l, tags)
}

/// Listing a formula comes to an end and meets no missing tag.
pub open spec fn clean_pred(tags: Map<Seq<char>, Logic>) -> spec_fn(Logic) -> bool {
    |l: Logic| references_end(l, tags) && referenced(l, tags) is Ok
}

/// Every evaluation of the formula of a recipe of `v` comes to an end,
/// whatever the items.
pub open spec fn recipes_end(v: Seq<RecipeView>, tags: Map<Seq<char>, Logic>) -> bool {
    formulas_satisfy(v, ends_pred(tags))
}

/// Every evaluation of the formula of an age group comes to an end,
/// whatever the items.
pub open spec fn keys_end(groups: Seq<(Logic, Seq<Seq<char>>)>, tags: Map<Seq<char>, Logic>) -> bool {
    forall|i: int| 0 <= i < groups.len() ==> #[trigger] ends_always(groups[i].0, tags)
}

/// Every evaluation that the shuffle can make from `st` comes to an end.
pub open spec fn shuffle_ends(st: ShuffleView, groups: Seq<(Logic, Seq<Seq<char>>)>, tags: Map<Seq<char>, Logic>) -> bool {
    &&& recipes_end(st.not_craftable, tags)
    &&& recipes_end(st.craftable, tags)
    &&& recipes_end(st.scrambled, tags)
    &&& keys_end(groups, tags)
}

/// `items` satisfy a formula.
pub open spec fn solved_pred(items: Seq<Seq<char>>, tags: Map<Seq<char>, Logic>) -> spec_fn(Logic) -> bool {
    |l: Logic| solves(l, items, tags) == Ok::<bool, Seq<char>>(true)
}

/// The formula of every age group lists to its end without meeting a
/// missing tag.
pub open spec fn keys_clean(groups: Seq<(Logic, Seq<Seq<char>>)>, tags: Map<Seq<char>, Logic>) -> bool {
    forall|i: int| 0 <= i < groups.len() ==> #[trigger] clean_pred(tags)(groups[i].0)
}

/// From `st` no round can fail, the round counter aside: every formula meets
/// only tags of the table and its evaluation ends, every waiting recipe can
/// be made, the waiting and craftable recipes are as many as the products
/// left, some product is left, and once a round is done some recipe has a
/// product.
pub open spec fn smooth(st: ShuffleView, groups: Seq<(Logic, Seq<Seq<char>>)>, tags: Map<Seq<char>, Logic>) -> bool {
    &&& shuffle_ends(st, groups, tags)
    &&& formulas_satisfy(st.not_craftable, clean_pred(tags))
    &&& formulas_satisfy(st.craftable, clean_pred(tags))
    &&& formulas_satisfy(st.scrambled, clean_pred(tags))
    &&& keys_clean(groups, tags)
    &&& formulas_satisfy(st.not_craftable, solved_pred(st.unlocked, tags))
    &&& st.not_craftable.len() + st.craftable.len() == st.remaining.len()
    &&& st.remaining.len() > 0
    &&& st.iterations > 0 ==> st.scrambled.len() > 0
}

proof fn lemma_recipes_end_formulas(v: Seq<RecipeView>, tags: Map<Seq<char>, Logic>)
    requires
        recipes_end(v, tags),
    ensures
        forall|i: int| 0 <= i < ingredients_of(v).len() ==> #[trigger] ends_always(ingredients_of(v)[i], tags),
{
    assert forall|i: int| 0 <= i < ingredients_of(v).len() implies #[trigger] ends_always(ingredients_of(v)[i], tags) by {
        assert(v.contains(v[i]));
    }
}

proof fn lemma_updated_keeps(s: ShuffleView, tags: Map<Seq<char>, Logic>, p: spec_fn(Logic) -> bool)
    requires
        formulas_satisfy(s.not_craftable, p),
        formulas_satisfy(s.craftable, p),
    ensures
        formulas_satisfy(updated(s, tags).not_craftable, p),
        formulas_satisfy(updated(s, tags).craftable, p),
{
    let u = updated(s, tags);
    let ok = makeable(s.unlocked, tags);
    let nok = not_makeable(s.unlocked, tags);
    assert forall|r: RecipeView| #[trigger] u.not_craftable.contains(r) implies p(r.ingredients) by {
        s.not_craftable.lemma_filter_contains_rev(nok, r);
    }
    assert forall|r: RecipeView| #[trigger] u.craftable.contains(r) implies p(r.ingredients) by {
        let moved = s.not_craftable.filter(ok);
        let k = choose|k: int| 0 <= k < u.craftable.len() && u.craftable[k] == r;
        if k < s.craftable.len() {
            assert(s.craftable[k] == r);
            assert(s.craftable.contains(r));
        } else {
            let j = k - s.craftable.len();
            assert(moved.reverse()[j] == r);
            assert(moved[moved.len() - 1 - j] == r);
            assert(moved.contains(r));
            s.not_craftable.lemma_filter_contains_rev(ok, r);
        }
    }
}

proof fn lemma_taken_back_keeps(s: ShuffleView, i: int, p: spec_fn(Logic) -> bool)
    requires
        formulas_satisfy(s.craftable, p),
        formulas_satisfy(s.scrambled, p),
        0 <= i < s.scrambled.len(),
    ensures
        formulas_satisfy(taken_back(s, i).craftable, p),
        formulas_satisfy(taken_back(s, i).scrambled, p),
{
    let t = taken_back(s, i);
    assert(s.scrambled.contains(s.scrambled[i]));
    assert forall|r: RecipeView| #[trigger] t.craftable.contains(r) implies p(r.ingredients) by {
        let k = choose|k: int| 0 <= k < t.craftable.len() && t.craftable[k] == r;
        if k < s.craftable.len() {
            assert(s.craftable[k] == r);
            assert(s.craftable.contains(r));
        }
    }
    assert forall|r: RecipeView| #[trigger] t.scrambled.contains(r) implies p(r.ingredients) by {
        let k = choose|k: int| 0 <= k < t.scrambled.len() && t.scrambled[k] == r;
        if k < i {
            assert(s.scrambled[k] == r);
        } else {
            assert(s.scrambled[k + 1] == r);
        }
        assert(s.scrambled.contains(r));
    }
}

proof fn lemma_given_keeps(s: ShuffleView, ri: int, pi: int, unlocked: Seq<Seq<char>>, p: spec_fn(Logic) -> bool)
    requires
        formulas_satisfy(s.craftable, p),
        formulas_satisfy(s.scrambled, p),
        0 <= ri < s.craftable.len(),
        0 <= pi < s.remaining.len(),
    ensures
        formulas_satisfy(given(s, ri, pi, unlocked).craftable, p),
        formulas_satisfy(given(s, ri, pi, unlocked).scrambled, p),
{
    let g = given(s, ri, pi, unlocked);
    let x = s.craftable[ri];
    assert(s.craftable.contains(x));
    assert forall|r: RecipeView| #[trigger] g.craftable.contains(r) implies p(r.ingredients) by {
        let k = choose|k: int| 0 <= k < g.craftable.len() && g.craftable[k] == r;
        if k < ri {
            assert(s.craftable[k] == r);
        } else {
            assert(s.craftable[k + 1] == r);
        }
        assert(s.craftable.contains(r));
    }
    assert forall|r: RecipeView| #[trigger] g.scrambled.contains(r) implies p(r.ingredients) by {
        let k = choose|k: int| 0 <= k < g.scrambled.len() && g.scrambled[k] == r;
        if k < s.scrambled.len() {
            assert(s.scrambled[k] == r);
            assert(s.scrambled.contains(r));
        }
    }
}

proof fn lemma_filter_keeps_all(v: Seq<RecipeView>, p: spec_fn(RecipeView) -> bool)
    requires
        forall|i: int| 0 <= i < v.len() ==> #[trigger] p(v[i]),
    ensures
        v.filter(p) == v,
    decreases v.len(),
{
    reveal(Seq::filter);
    if v.len() > 0 {
        let init = v.drop_last();
        assert forall|i: int| 0 <= i < init.len() implies #[trigger] p(init[i]) by {
            assert(init[i] == v[i]);
        }
        lemma_filter_keeps_all(init, p);
        assert(p(v[v.len() - 1]));
        assert(init.push(v.last()) =~= v);
    }
}

proof fn lemma_filter_drops_all(v: Seq<RecipeView>, p: spec_fn(RecipeView) -> bool)
    requires
        forall|i: int| 0 <= i < v.len() ==> !#[trigger] p(v[i]),
    ensures
        v.filter(p) == Seq::<RecipeView>::empty(),
    decreases v.len(),
{
    reveal(Seq::filter);
    if v.len() > 0 {
        let init = v.drop_last();
        assert forall|i: int| 0 <= i < init.len() implies !#[trigger] p(init[i]) by {
            assert(init[i] == v[i]);
        }
        lemma_filter_drops_all(init, p);
        assert(!p(v[v.len() - 1]));
    }
    assert(v.filter(p) =~= Seq::<RecipeView>::empty());
}

/// From a smooth state the update meets no missing tag and moves every
/// waiting recipe to the craftable ones.
proof fn lemma_smooth_updated(o: ShuffleView, groups: Seq<(Logic, Seq<Seq<char>>)>, tags: Map<Seq<char>, Logic>)
    requires
        smooth(o, groups, tags),
    ensures
        first_error_rev(ingredients_of(o.not_craftable), o.unlocked, tags) is None,
        updated(o, tags).not_craftable.len() == 0,
        updated(o, tags).craftable.len() == o.remaining.len(),
        formulas_satisfy(updated(o, tags).craftable, clean_pred(tags)),
        formulas_satisfy(updated(o, tags).not_craftable, clean_pred(tags)),
        shuffle_ends(updated(o, tags), groups, tags),
{
    let nc = o.not_craftable;
    let ls = ingredients_of(nc);
    assert forall|i: int| 0 <= i < ls.len() implies references_end(#[trigger] ls[i], tags) && referenced(ls[i], tags) is Ok by {
        assert(nc.contains(nc[i]));
    }
    crate::progression::lemma_clean_all_solved(ls, o.unlocked, tags);
    let ok = makeable(o.unlocked, tags);
    let nok = not_makeable(o.unlocked, tags);
    assert forall|i: int| 0 <= i < nc.len() implies #[trigger] ok(nc[i]) by {
        assert(nc.contains(nc[i]));
    }
    assert forall|i: int| 0 <= i < nc.len() implies !#[trigger] nok(nc[i]) by {
        assert(ok(nc[i]));
    }
    lemma_filter_keeps_all(nc, ok);
    lemma_filter_drops_all(nc, nok);
    lemma_updated_keeps(o, tags, clean_pred(tags));
    lemma_updated_keeps(o, tags, ends_pred(tags));
}

/// With craftable formulas that meet no missing tag, no take-back check meets one.
proof fn lemma_clean_safety(s: ShuffleView, tags: Map<Seq<char>, Logic>, sig_items: Seq<Seq<char>>)
    requires
        formulas_satisfy(s.craftable, clean_pred(tags)),
    ensures
        forall|i: int| 0 <= i < s.scrambled.len() ==> #[trigger] take_back_safety(s, i, tags, sig_items) is Ok,
{
    let ls = ingredients_of(s.craftable);
    assert forall|i: int| 0 <= i < ls.len() implies references_end(#[trigger] ls[i], tags) && referenced(ls[i], tags) is Ok by {
        assert(s.craftable.contains(s.craftable[i]));
    }
    assert forall|i: int| 0 <= i < s.scrambled.len() implies #[trigger] take_back_safety(s, i, tags, sig_items) is Ok by {
        crate::progression::lemma_clean_all_solved(ls, remove_last(s.unlocked, s.scrambled[i].result), tags);
    }
}

/// Why the shuffle stopped.
#[derive(Debug)]
pub enum ShuffleError {
    /// The configuration has no age group for `True`.
    NoBaseItems,
    /// A formula mentions a tag that the table does not hold.
    MissingTag(String),
    /// No recipe can be made, and none has a product to take back.
    NothingToTakeBack,
    /// No recipe can be made, and no product could be taken back.
    Stuck,
    /// No product is left to give.
    NoProducts,
    /// The round counter is full.
    IterationOverflow,
}

/// Whether the product of the scrambled recipe at `i` can be taken back.
pub open spec fn take_back_safety(st: ShuffleView, i: int, tags: Map<Seq<char>, Logic>, sig_items: Seq<Seq<char>>) -> Result<bool, Seq<char>> {
    removal_is_safe(st.unlocked, st.scrambled[i].result, st.craftable, tags, sig_items)
}

/// `s` once the recipes that its unlocked items let one make have moved
/// from the waiting recipes to the craftable ones.
pub open spec fn updated(s: ShuffleView, tags: Map<Seq<char>, Logic>) -> ShuffleView {
    ShuffleView {
        craftable: s.craftable + s.not_craftable.filter(makeable(s.unlocked, tags)).reverse(),
        not_craftable: s.not_craftable.filter(not_makeable(s.unlocked, tags)),
        ..s
    }
}

/// `s` once the product of its scrambled recipe at `i` has been taken back.
pub open spec fn taken_back(s: ShuffleView, i: int) -> ShuffleView {
    let x = s.scrambled[i];
    ShuffleView {
        unlocked: remove_last(s.unlocked, x.result),
        craftable: s.craftable.push(x),
        scrambled: s.scrambled.remove(i),
        remaining: s.remaining.push(x.result),
        ..s
    }
}

/// `s` once its remaining product at `pi` has gone to its craftable recipe
/// at `ri`, with `unlocked` the items unlocked afterwards.
pub open spec fn given(s: ShuffleView, ri: int, pi: int, unlocked: Seq<Seq<char>>) -> ShuffleView {
    ShuffleView {
        unlocked: unlocked,
        craftable: s.craftable.remove(ri),
        scrambled: s.scrambled.push(RecipeView { result: s.remaining[pi], ..s.craftable[ri] }),
        remaining: s.remaining.remove(pi),
        ..s
    }
}

/// `f` is what a round makes of the updated state `s1` when it takes back
/// the product of the scrambled recipe at `take` (or none) and then gives
/// the remaining product at `pi` to the craftable recipe at `ri`; the round
/// counter aside. A product is taken back only from the sixth round on or
/// when no recipe can be made, and only when that is safe; without a
/// take-back some recipe must be craftable.
pub open spec fn round_choice(
    s1: ShuffleView,
    f: ShuffleView,
    take: Option<int>,
    ri: int,
    pi: int,
    tags: Map<Seq<char>, Logic>,
    groups: Seq<(Logic, Seq<Seq<char>>)>,
    sig_items: Seq<Seq<char>>,
) -> bool {
    let s2 = match take {
        Some(i) => taken_back(s1, i),
        None => s1,
    };
    &&& match take {
        Some(i) => {
            &&& s1.iterations >= 5 || s1.craftable.len() == 0
            &&& 0 <= i < s1.scrambled.len()
            &&& take_back_safety(s1, i, tags, sig_items) == Ok::<bool, Seq<char>>(true)
        },
        None => s1.craftable.len() > 0,
    }
    &&& 0 <= ri < s2.craftable.len()
    &&& 0 <= pi < s2.remaining.len()
    &&& unlock_and_check(s2.unlocked, s2.remaining[pi], tags, groups, sig_items) == Ok::<Seq<Seq<char>>, Seq<char>>(f.unlocked)
    &&& f == ShuffleView { iterations: f.iterations, ..given(s2, ri, pi, f.unlocked) }
}

/// A round from the updated state `s1` took back the product at `take` (or
/// none), as `round_choice` permits, and then met the missing tag `t` when
/// unlocking the remaining product at `pi`; `f` is the state it left.
pub open spec fn missing_at_unlock(
    s1: ShuffleView,
    f: ShuffleView,
    take: Option<int>,
    pi: int,
    t: Seq<char>,
    tags: Map<Seq<char>, Logic>,
    groups: Seq<(Logic, Seq<Seq<char>>)>,
    sig_items: Seq<Seq<char>>,
) -> bool {
    let s2 = match take {
        Some(i) => taken_back(s1, i),
        None => s1,
    };
    &&& match take {
        Some(i) => {
            &&& s1.iterations >= 5 || s1.craftable.len() == 0
            &&& 0 <= i < s1.scrambled.len()
            &&& take_back_safety(s1, i, tags, sig_items) == Ok::<bool, Seq<char>>(true)
        },
        None => s1.craftable.len() > 0,
    }
    &&& 0 <= pi < s2.remaining.len()
    &&& unlock_and_check(s2.unlocked, s2.remaining[pi], tags, groups, sig_items) == Err::<Seq<Seq<char>>, Seq<char>>(t)
    &&& f == s2
}

/// A round from `a` met the missing tag `t` and left the state `f`: in the
/// update (nothing changes), in a take-back check (after the update), or
/// when unlocking the product it gave.
pub open spec fn missing_in_round(
    a: ShuffleView,
    f: ShuffleView,
    t: Seq<char>,
    tags: Map<Seq<char>, Logic>,
    groups: Seq<(Logic, Seq<Seq<char>>)>,
    sig_items: Seq<Seq<char>>,
) -> bool {
    let s1 = updated(a, tags);
    let checked = first_error_rev(ingredients_of(a.not_craftable), a.unlocked, tags);
    ||| checked == Some(t) && f == a
    ||| {
        &&& checked is None
        &&& f == s1
        &&& exists|i: int| 0 <= i < s1.scrambled.len() && #[trigger] take_back_safety(s1, i, tags, sig_items) == Err::<bool, Seq<char>>(t)
    }
    ||| {
        &&& checked is None
        &&& exists|take: Option<int>, pi: int| #[trigger] missing_at_unlock(s1, f, take, pi, t, tags, groups, sig_items)
    }
}

/// `b` is what one round makes of `a`: after the update, a permitted
/// take-back and a product given to a craftable recipe (`round_choice`),
/// the round counter aside.
pub open spec fn round_step(
    a: ShuffleView,
    b: ShuffleView,
    tags: Map<Seq<char>, Logic>,
    groups: Seq<(Logic, Seq<Seq<char>>)>,
    sig_items: Seq<Seq<char>>,
) -> bool {
    exists|take: Option<int>, ri: int, pi: int| #[trigger] round_choice(updated(a, tags), b, take, ri, pi, tags, groups, sig_items)
}

/// The `k`-th state of `trace` leads to the next by one round.
pub open spec fn step_at(
    trace: Seq<ShuffleView>,
    k: int,
    tags: Map<Seq<char>, Logic>,
    groups: Seq<(Logic, Seq<Seq<char>>)>,
    sig_items: Seq<Seq<char>>,
) -> bool {
    round_step(trace[k], trace[k + 1], tags, groups, sig_items)
}

/// `trace` is a play of the shuffle: a first state and the states that
/// rounds made of it, one after another.
pub open spec fn played(
    trace: Seq<ShuffleView>,
    tags: Map<Seq<char>, Logic>,
    groups: Seq<(Logic, Seq<Seq<char>>)>,
    sig_items: Seq<Seq<char>>,
) -> bool {
    &&& trace.len() >= 1
    &&& forall|k: int| 0 <= k < trace.len() - 1 ==> #[trigger] step_at(trace, k, tags, groups, sig_items)
}

proof fn lemma_played_push(
    trace: Seq<ShuffleView>,
    b: ShuffleView,
    tags: Map<Seq<char>, Logic>,
    groups: Seq<(Logic, Seq<Seq<char>>)>,
    sig_items: Seq<Seq<char>>,
)
    requires
        played(trace, tags, groups, sig_items),
        round_step(trace.last(), b, tags, groups, sig_items),
    ensures
        played(trace.push(b), tags, groups, sig_items),
        trace.push(b)[0] == trace[0],
        trace.push(b).last() == b,
{
    let t = trace.push(b);
    assert forall|k: int| 0 <= k < t.len() - 1 implies #[trigger] step_at(t, k, tags, groups, sig_items) by {
        assert(t[k] == trace[k]);
        if k < trace.len() - 1 {
            assert(t[k + 1] == trace[k + 1]);
            assert(step_at(trace, k, tags, groups, sig_items));
        }
    }
}

/// How a round ended.
#[derive(Debug, PartialEq, Eq, Structural)]
pub enum RoundOutcome {
    /// Products remain to be given.
    Continue,
    /// Every product has been given.
    Finished,
}

#[verifier::external_type_specification]
#[verifier::external_body]
pub struct ExThreadRng(rand::rngs::ThreadRng);

/// `rand::Rng::gen_range(0, bound)` on the thread's generator: the sampler
/// asserts `0 < bound` and returns `low` plus an offset below `high - low`,
/// so the result lies in `0..bound`. Which number comes is left open.
#[verifier::external_body]
fn random_below(rng: &mut rand::rngs::ThreadRng, bound: usize) -> (r: usize)
    requires
        bound > 0,
    ensures
        r < bound,
{
    rng.gen_range(0, bound)
}

proof fn lemma_shapes_push(v: Seq<RecipeView>, x: RecipeView)
    ensures
        shapes(v.push(x)) == shapes(v).insert(shape_of(x)),
{
    broadcast use vstd::seq_lib::group_to_multiset_ensures;
    let f = |r: RecipeView| shape_of(r);
    assert(v.push(x).map_values(f) =~= v.map_values(f).push(f(x)));
}

proof fn lemma_shapes_remove(v: Seq<RecipeView>, i: int)
    requires
        0 <= i < v.len(),
    ensures
        shapes(v.remove(i)) == shapes(v).remove(shape_of(v[i])),
        shapes(v).count(shape_of(v[i])) > 0,
{
    broadcast use vstd::seq_lib::group_to_multiset_ensures;
    let f = |r: RecipeView| shape_of(r);
    assert(v.remove(i).map_values(f) =~= v.map_values(f).remove(i));
    assert(v.map_values(f)[i] == shape_of(v[i]));
    assert(v.map_values(f).contains(shape_of(v[i])));
}

proof fn lemma_shapes_empty()
    ensures
        shapes(Seq::<RecipeView>::empty()) == Multiset::<(Logic, Seq<char>)>::empty(),
{
    broadcast use vstd::seq_lib::group_to_multiset_ensures;
    let f = |r: RecipeView| shape_of(r);
    assert(Seq::<RecipeView>::empty().map_values(f) =~= Seq::<(Logic, Seq<char>)>::empty());
    assert(shapes(Seq::<RecipeView>::empty()).len() == 0);
}

proof fn lemma_products_push(v: Seq<RecipeView>, x: RecipeView)
    ensures
        products_of(v.push(x)) == products_of(v).push(x.result),
{
    assert(products_of(v.push(x)) =~= products_of(v).push(x.result));
}

proof fn lemma_products_remove(v: Seq<RecipeView>, i: int)
    requires
        0 <= i < v.len(),
    ensures
        products_of(v.remove(i)) == products_of(v).remove(i),
        products_of(v).to_multiset().count(v[i].result) > 0,
{
    broadcast use vstd::seq_lib::group_to_multiset_ensures;
    assert(products_of(v)[i] == v[i].result);
    assert(products_of(v).contains(v[i].result));
    assert(products_of(v.remove(i)) =~= products_of(v).remove(i));
}

proof fn lemma_shapes_concat(a: Seq<RecipeView>, b: Seq<RecipeView>)
    ensures
        shapes(a + b) == shapes(a).add(shapes(b)),
{
    let f = |r: RecipeView| shape_of(r);
    assert((a + b).map_values(f) =~= a.map_values(f) + b.map_values(f));
    vstd::seq_lib::lemma_multiset_commutative(a.map_values(f), b.map_values(f));
}

proof fn lemma_shapes_reverse(a: Seq<RecipeView>)
    ensures
        shapes(a.reverse()) == shapes(a),
{
    let f = |r: RecipeView| shape_of(r);
    assert(a.reverse().map_values(f) =~= a.map_values(f).reverse());
    a.map_values(f).lemma_reverse_to_multiset();
}

proof fn lemma_shapes_partition(s: Seq<RecipeView>, p: spec_fn(RecipeView) -> bool, q: spec_fn(RecipeView) -> bool)
    requires
        forall|r: RecipeView| #[trigger] q(r) == !p(r),
    ensures
        shapes(s.filter(p)).add(shapes(s.filter(q))) == shapes(s),
    decreases s.len(),
{
    broadcast use vstd::multiset::group_multiset_axioms;
    reveal(Seq::filter);
    if s.len() == 0 {
        lemma_shapes_empty();
        assert(s.filter(p) =~= Seq::<RecipeView>::empty());
        assert(s.filter(q) =~= Seq::<RecipeView>::empty());
        assert(s =~= Seq::<RecipeView>::empty());
        assert(shapes(s.filter(p)).add(shapes(s.filter(q))) =~= shapes(s));
    } else {
        let init = s.drop_last();
        let x = s.last();
        lemma_shapes_partition(init, p, q);
        assert(s =~= init.push(x));
        lemma_shapes_push(init, x);
        if p(x) {
            lemma_shapes_push(init.filter(p), x);
        } else {
            lemma_shapes_push(init.filter(q), x);
        }
        assert(shapes(s.filter(p)).add(shapes(s.filter(q))) =~= shapes(s));
    }
}

impl ShuffleState {
    /// The state the shuffle starts from: the base items of the `True` age
    /// group unlocked, every recipe waiting, every product to give.
    pub fn new(all_recipes: &Vec<Recipe>, age_groups: &AgeGroups) -> (r: Result<ShuffleState, ShuffleError>)
        ensures
            match r {
                Ok(st) => {
                    let p = group_pos(age_groups@, Logic::True);
                    &&& p >= 0
                    &&& st@ == initial_state(recipe_views(all_recipes@), age_groups@[p].1)
                    &&& shuffle_inv(st@, recipe_views(all_recipes@))
                },
                Err(e) => e is NoBaseItems && group_pos(age_groups@, Logic::True) < 0,
            },
    {
        let base = match age_groups.get(&crate::logic::LogicDependency::True) {
            None => return Err(ShuffleError::NoBaseItems),
            Some(items) => items,
        };
        let st = ShuffleState {
            unlocked_items: clone_strings(base),
            not_craftable_recipes: clone_recipes(all_recipes),
            craftable_recipes: Vec::new(),
            scrambled_recipes: Vec::new(),
            remaining_products: get_products_from_recipes(all_recipes),
            iterations: 0,
        };
        proof {
            broadcast use vstd::seq_lib::group_to_multiset_ensures;
            assert(st@.craftable =~= Seq::<RecipeView>::empty());
            assert(st@.scrambled =~= Seq::<RecipeView>::empty());
            lemma_shapes_empty();
            assert(products_of(st@.scrambled) =~= Seq::<Seq<char>>::empty());
            assert(products_of(st@.scrambled).to_multiset() =~= Multiset::<Seq<char>>::empty());
            assert(shapes(st@.not_craftable).add(shapes(st@.craftable)).add(shapes(st@.scrambled))
                =~= shapes(st@.not_craftable));
            assert(st@.remaining.to_multiset().add(products_of(st@.scrambled).to_multiset())
                =~= st@.remaining.to_multiset());
            assert(st@ == initial_state(recipe_views(all_recipes@), strs(base@)));
        }
        Ok(st)
    }

    /// Takes back the product of the scrambled recipe at `index`: the recipe
    /// waits again among the craftable ones, its product is given up again,
    /// and the last copy of the product leaves the unlocked items.
    pub fn restore_recipe(&mut self, index: usize)
        requires
            index < old(self)@.scrambled.len(),
        ensures
            ({
                let o = old(self)@;
                let x = o.scrambled[index as int];
                final(self)@ == ShuffleView {
                    unlocked: remove_last(o.unlocked, x.result),
                    craftable: o.craftable.push(x),
                    scrambled: o.scrambled.remove(index as int),
                    remaining: o.remaining.push(x.result),
                    ..o
                }
            }),
            forall|all: Seq<RecipeView>| shuffle_inv(old(self)@, all) ==> shuffle_inv(#[trigger] final(self)@, all),
    {
        let ghost o = self@;
        let removed = self.scrambled_recipes.remove(index);
        let ghost x = removed@;
        find_and_remove(&mut self.unlocked_items, removed.result.as_str());
        self.remaining_products.push(removed.result.clone());
        self.craftable_recipes.push(removed);
        proof {
            broadcast use vstd::seq_lib::group_to_multiset_ensures;
            assert(self@.craftable =~= o.craftable.push(x));
            assert(self@.scrambled =~= o.scrambled.remove(index as int));
            assert(self@.remaining =~= o.remaining.push(x.result));
            lemma_shapes_push(o.craftable, x);
            lemma_shapes_remove(o.scrambled, index as int);
            lemma_products_remove(o.scrambled, index as int);
            assert forall|all: Seq<RecipeView>| shuffle_inv(o, all) implies #[trigger] shuffle_inv(self@, all) by {
                broadcast use vstd::multiset::group_multiset_axioms;
                assert(shapes(self@.not_craftable).add(shapes(self@.craftable)).add(shapes(self@.scrambled))
                    =~= shapes(o.not_craftable).add(shapes(o.craftable)).add(shapes(o.scrambled)));
                assert(self@.remaining.to_multiset().add(products_of(self@.scrambled).to_multiset())
                    =~= o.remaining.to_multiset().add(products_of(o.scrambled).to_multiset()));
            }
        }
    }

    /// Gives the remaining product at `product_index` to the craftable recipe
    /// at `recipe_index`, which becomes scrambled, and unlocks the product as
    /// `unlock_items_and_check` does. When a formula meets a missing tag,
    /// nothing changes.
    pub fn assign_product(
        &mut self,
        recipe_index: usize,
        product_index: usize,
        tags: &TagTable,
        age_groups: &AgeGroups,
        sig_items: &Vec<String>,
    ) -> (r: Result<(), LogicError>)
        requires
            recipe_index < old(self)@.craftable.len(),
            product_index < old(self)@.remaining.len(),
            keys_end(age_groups@, tags@),
        ensures
            ({
                let o = old(self)@;
                let chosen = o.remaining[product_index as int];
                let x = o.craftable[recipe_index as int];
                let expected = unlock_and_check(o.unlocked, chosen, tags@, age_groups@, strs(sig_items@));
                match r {
                    Ok(_) => expected == Ok::<Seq<Seq<char>>, Seq<char>>(final(self)@.unlocked)
                        && final(self)@ == ShuffleView {
                            unlocked: final(self)@.unlocked,
                            craftable: o.craftable.remove(recipe_index as int),
                            scrambled: o.scrambled.push(RecipeView { result: chosen, ..x }),
                            remaining: o.remaining.remove(product_index as int),
                            ..o
                        },
                    Err(e) => expected == Err::<Seq<Seq<char>>, Seq<char>>(e@) && final(self)@ == o,
                }
            }),
            forall|all: Seq<RecipeView>| shuffle_inv(old(self)@, all) ==> shuffle_inv(#[trigger] final(self)@, all),
    {
        let ghost o = self@;
        let chosen = self.remaining_products[product_index].clone();
        proof {
            lemma_groups_end(age_groups@, o.unlocked.push(chosen@), tags@);
        }
        match unlock_items_and_check(&mut self.unlocked_items, &chosen, tags, age_groups, sig_items) {
            Err(e) => {
                assert(self@ == o);
                return Err(e);
            },
            Ok(_) => {},
        }
        self.remaining_products.remove(product_index);
        let mut rec = self.craftable_recipes.remove(recipe_index);
        rec.result = chosen;
        let ghost y = rec@;
        self.scrambled_recipes.push(rec);
        proof {
            broadcast use vstd::seq_lib::group_to_multiset_ensures;
            let x = o.craftable[recipe_index as int];
            assert(y == RecipeView { result: o.remaining[product_index as int], ..x });
            assert(self@.craftable =~= o.craftable.remove(recipe_index as int));
            assert(self@.scrambled =~= o.scrambled.push(y));
            assert(self@.remaining =~= o.remaining.remove(product_index as int));
            lemma_shapes_push(o.scrambled, y);
            lemma_shapes_remove(o.craftable, recipe_index as int);
            lemma_products_push(o.scrambled, y);
            assert(o.remaining.contains(o.remaining[product_index as int]));
            assert forall|all: Seq<RecipeView>| shuffle_inv(o, all) implies #[trigger] shuffle_inv(self@, all) by {
                broadcast use vstd::multiset::group_multiset_axioms;
                assert(shape_of(y) == shape_of(x));
                assert(shapes(self@.not_craftable).add(shapes(self@.craftable)).add(shapes(self@.scrambled))
                    =~= shapes(o.not_craftable).add(shapes(o.craftable)).add(shapes(o.scrambled)));
                assert(self@.remaining.to_multiset().add(products_of(self@.scrambled).to_multiset())
                    =~= o.remaining.to_multiset().add(products_of(o.scrambled).to_multiset()));
            }
        }
        Ok(())
    }

    /// Moves every waiting recipe that the unlocked items now let one make to
    /// the craftable ones, as `find_craftable_recipes` does.
    pub fn update_craftable(&mut self, tags: &TagTable) -> (r: Result<(), LogicError>)
        requires
            recipes_end(old(self)@.not_craftable, tags@),
        ensures
            ({
                let o = old(self)@;
                let rs = o.not_craftable;
                match r {
                    Ok(_) => first_error_rev(ingredients_of(rs), o.unlocked, tags@) is None
                        && final(self)@ == ShuffleView {
                            craftable: o.craftable + rs.filter(makeable(o.unlocked, tags@)).reverse(),
                            not_craftable: rs.filter(not_makeable(o.unlocked, tags@)),
                            ..o
                        },
                    Err(e) => first_error_rev(ingredients_of(rs), o.unlocked, tags@) == Some(e@)
                        && final(self)@ == o,
                }
            }),
            forall|all: Seq<RecipeView>| shuffle_inv(old(self)@, all) ==> shuffle_inv(#[trigger] final(self)@, all),
    {
        let ghost o = self@;
        proof {
            lemma_recipes_end_formulas(o.not_craftable, tags@);
            lemma_rev_ends(ingredients_of(o.not_craftable), o.unlocked, tags@);
        }
        let r = find_craftable_recipes(
            &self.unlocked_items,
            &mut self.craftable_recipes,
            &mut self.not_craftable_recipes,
            tags,
        );
        proof {
            broadcast use vstd::multiset::group_multiset_axioms;
            let ok = makeable(o.unlocked, tags@);
            let nok = not_makeable(o.unlocked, tags@);
            let rs = o.not_craftable;
            if r is Ok {
                lemma_shapes_partition(rs, ok, nok);
                lemma_shapes_concat(o.craftable, rs.filter(ok).reverse());
                lemma_shapes_reverse(rs.filter(ok));
                assert forall|all: Seq<RecipeView>| shuffle_inv(o, all) implies #[trigger] shuffle_inv(self@, all) by {
                    assert(shapes(self@.not_craftable).add(shapes(self@.craftable)).add(shapes(self@.scrambled))
                        =~= shapes(o.not_craftable).add(shapes(o.craftable)).add(shapes(o.scrambled)));
                }
            }
        }
        r
    }

    /// Draws up to twelve scrambled recipes, looking for one whose product can
    /// be taken back safely (`removal_is_safe`); gives up without one when some
    /// recipe can still be made.
    pub fn pick_recipe_to_take_back(
        &self,
        rng: &mut rand::rngs::ThreadRng,
        tags: &TagTable,
        sig_items: &Vec<String>,
    ) -> (r: Result<Option<usize>, ShuffleError>)
        requires
            recipes_end(self@.craftable, tags@),
        ensures
            ({
                let st = self@;
                match r {
                    Ok(Some(i)) => i < st.scrambled.len() && take_back_safety(st, i as int, tags@, strs(sig_items@)) == Ok::<bool, Seq<char>>(true),
                    Ok(None) => st.craftable.len() > 0 && st.scrambled.len() > 0,
                    Err(ShuffleError::Stuck) => st.craftable.len() == 0 && st.scrambled.len() > 0,
                    Err(ShuffleError::NothingToTakeBack) => st.scrambled.len() == 0,
                    Err(ShuffleError::MissingTag(t)) => exists|i: int|
                        0 <= i < st.scrambled.len() && #[trigger] take_back_safety(st, i, tags@, strs(sig_items@)) == Err::<bool, Seq<char>>(t@),
                    _ => false,
                }
            }),
            self@.scrambled.len() == 0 ==> r matches Err(ShuffleError::NothingToTakeBack),
            self@.scrambled.len() > 0
                && (forall|i: int| 0 <= i < self@.scrambled.len()
                    ==> #[trigger] take_back_safety(self@, i, tags@, strs(sig_items@)) == Ok::<bool, Seq<char>>(true))
                ==> r matches Ok(Some(_)),
    {
        let mut i: i32 = 0;
        loop
            invariant
                0 <= i <= 11,
                recipes_end(self@.craftable, tags@),
            decreases 11 - i,
        {
            if self.scrambled_recipes.len() == 0 {
                return Err(ShuffleError::NothingToTakeBack);
            }
            let idx = random_below(rng, self.scrambled_recipes.len());
            let result = &self.scrambled_recipes[idx].result;
            proof {
                lemma_recipes_end_formulas(self@.craftable, tags@);
                lemma_rev_ends(ingredients_of(self@.craftable), remove_last(self@.unlocked, result@), tags@);
            }
            match safe_to_remove(&self.unlocked_items, result, &self.craftable_recipes, tags, sig_items) {
                Err(LogicError::MissingTag(t)) => {
                    assert(take_back_safety(self@, idx as int, tags@, strs(sig_items@)) == Err::<bool, Seq<char>>(t@));
                    return Err(ShuffleError::MissingTag(t));
                },
                Ok(true) => return Ok(Some(idx)),
                Ok(false) => {
                    assert(take_back_safety(self@, idx as int, tags@, strs(sig_items@)) == Ok::<bool, Seq<char>>(false));
                },
            }
            if i > 10 {
                if self.craftable_recipes.len() == 0 {
                    return Err(ShuffleError::Stuck);
                }
                return Ok(None);
            }
            i = i + 1;
        }
    }

    /// One round of the shuffle: update the craftable recipes; when none can
    /// be made, or from the sixth round on at the toss of a coin, take a
    /// product back from a scrambled recipe; then give a random remaining
    /// product to a random craftable recipe.
    pub fn shuffle_round(
        &mut self,
        rng: &mut rand::rngs::ThreadRng,
        tags: &TagTable,
        age_groups: &AgeGroups,
        sig_items: &Vec<String>,
    ) -> (r: Result<RoundOutcome, ShuffleError>)
        requires
            shuffle_ends(old(self)@, age_groups@, tags@),
        ensures
            forall|all: Seq<RecipeView>| shuffle_inv(old(self)@, all) ==> shuffle_inv(#[trigger] final(self)@, all),
            shuffle_ends(final(self)@, age_groups@, tags@),
            r == Ok::<RoundOutcome, ShuffleError>(RoundOutcome::Finished) ==> final(self)@.remaining.len() == 0,
            r == Ok::<RoundOutcome, ShuffleError>(RoundOutcome::Continue) ==> final(self)@.remaining.len() > 0
                && final(self)@.iterations == old(self)@.iterations + 1,
            r matches Err(ShuffleError::NoProducts) ==> final(self)@.remaining.len() == 0,
            r matches Err(ShuffleError::IterationOverflow) ==> old(self)@.iterations == i32::MAX,
            !(r matches Err(ShuffleError::NoBaseItems)),
            r is Err ==> final(self)@.iterations == old(self)@.iterations,
            r is Ok ==> final(self)@.not_craftable
                == old(self)@.not_craftable.filter(not_makeable(old(self)@.unlocked, tags@)),
            r is Ok ==> exists|take: Option<int>, ri: int, pi: int| #[trigger]
                round_choice(updated(old(self)@, tags@), final(self)@, take, ri, pi, tags@, age_groups@, strs(sig_items@)),
            r is Ok ==> final(self)@.scrambled.len() > 0 && final(self)@.scrambled.len() >= old(self)@.scrambled.len(),
            first_error_rev(ingredients_of(old(self)@.not_craftable), old(self)@.unlocked, tags@) matches Some(t)
                ==> (r matches Err(ShuffleError::MissingTag(u)) && u@ == t && final(self)@ == old(self)@),
            first_error_rev(ingredients_of(old(self)@.not_craftable), old(self)@.unlocked, tags@) is None
                && updated(old(self)@, tags@).craftable.len() == 0 && old(self)@.scrambled.len() == 0
                ==> r matches Err(ShuffleError::NothingToTakeBack),
            r matches Err(ShuffleError::NothingToTakeBack)
                ==> first_error_rev(ingredients_of(old(self)@.not_craftable), old(self)@.unlocked, tags@) is None
                && old(self)@.scrambled.len() == 0
                && (updated(old(self)@, tags@).craftable.len() == 0 || old(self)@.iterations >= 5),
            smooth(old(self)@, age_groups@, tags@) && old(self)@.iterations < i32::MAX ==> r is Ok,
            smooth(old(self)@, age_groups@, tags@) ==> r is Ok || r matches Err(ShuffleError::IterationOverflow),
            first_error_rev(ingredients_of(old(self)@.not_craftable), old(self)@.unlocked, tags@) is None
                && updated(old(self)@, tags@).craftable.len() > 0
                && old(self)@.iterations < 5
                && old(self)@.remaining.len() > 0
                && (forall|i: int| 0 <= i < old(self)@.remaining.len()
                    ==> #[trigger] unlock_and_check(old(self)@.unlocked, old(self)@.remaining[i], tags@, age_groups@, strs(sig_items@)) is Ok)
                ==> r is Ok,
            smooth(old(self)@, age_groups@, tags@) && r == Ok::<RoundOutcome, ShuffleError>(RoundOutcome::Continue)
                ==> smooth(final(self)@, age_groups@, tags@),
            old(self)@.iterations < 5 && updated(old(self)@, tags@).craftable.len() > 0 && r is Ok
                ==> final(self)@.remaining.len() + 1 == old(self)@.remaining.len(),
            r matches Err(ShuffleError::Stuck) ==> final(self)@ == updated(old(self)@, tags@)
                && final(self)@.craftable.len() == 0 && final(self)@.scrambled.len() > 0,
            r matches Err(ShuffleError::NoProducts) ==> old(self)@.remaining.len() == 0
                && final(self)@ == updated(old(self)@, tags@),
            r matches Err(ShuffleError::IterationOverflow) ==> final(self)@.remaining.len() > 0
                && final(self)@.iterations == i32::MAX
                && round_step(old(self)@, final(self)@, tags@, age_groups@, strs(sig_items@)),
            r matches Err(ShuffleError::MissingTag(t))
                ==> missing_in_round(old(self)@, final(self)@, t@, tags@, age_groups@, strs(sig_items@)),
    {
        let ghost o = self@;
        let ghost sm = smooth(o, age_groups@, tags@);
        proof {
            if sm {
                lemma_smooth_updated(o, age_groups@, tags@);
            }
        }
        match self.update_craftable(tags) {
            Err(LogicError::MissingTag(t)) => {
                assert(missing_in_round(o, self@, t@, tags@, age_groups@, strs(sig_items@)));
                return Err(ShuffleError::MissingTag(t));
            },
            Ok(_) => {},
        }
        let ghost s1 = self@;
        assert(s1 == updated(o, tags@));
        proof {
            lemma_updated_keeps(o, tags@, ends_pred(tags@));
            if sm {
                lemma_clean_safety(s1, tags@, strs(sig_items@));
            }
        }
        let ghost mut take: Option<int> = None;
        let toss = if self.iterations >= 5 {
            random_below(rng, 2) == 1
        } else {
            false
        };
        if toss || self.craftable_recipes.len() == 0 {
            match self.pick_recipe_to_take_back(rng, tags, sig_items) {
                Err(e) => {
                    match &e {
                        ShuffleError::MissingTag(t) => {
                            assert(missing_in_round(o, self@, t@, tags@, age_groups@, strs(sig_items@)));
                        },
                        _ => {},
                    }
                    return Err(e);
                },
                Ok(Some(idx)) => {
                    self.restore_recipe(idx);
                    proof {
                        take = Some(idx as int);
                        lemma_taken_back_keeps(s1, idx as int, ends_pred(tags@));
                        if sm {
                            lemma_taken_back_keeps(s1, idx as int, clean_pred(tags@));
                        }
                    }
                    assert(self@ == taken_back(s1, idx as int));
                    assert(self@.craftable.len() > 0);
                },
                Ok(None) => {
                    assert(self@.craftable.len() > 0);
                },
            }
        }
        let ghost s2 = self@;
        assert(match take {
            Some(i) => s2 == taken_back(s1, i),
            None => s2 == s1,
        });
        assert(self.craftable_recipes.len() > 0);
        let recipe_index = random_below(rng, self.craftable_recipes.len());
        if self.remaining_products.len() == 0 {
            assert(take is None) by {
                if take is Some {
                    assert(s2.remaining.len() == s1.remaining.len() + 1);
                }
            }
            return Err(ShuffleError::NoProducts);
        }
        let product_index = random_below(rng, self.remaining_products.len());
        proof {
            if sm {
                let g = age_groups@;
                assert forall|i: int| 0 <= i < g.len() implies references_end(#[trigger] g[i].0, tags@) && referenced(g[i].0, tags@) is Ok by {
                    assert(clean_pred(tags@)(g[i].0));
                }
                crate::progression::lemma_clean_groups(g, s2.unlocked.push(s2.remaining[product_index as int]), tags@);
            }
        }
        match self.assign_product(recipe_index, product_index, tags, age_groups, sig_items) {
            Err(LogicError::MissingTag(t)) => {
                assert(missing_at_unlock(s1, self@, take, product_index as int, t@, tags@, age_groups@, strs(sig_items@)));
                assert(missing_in_round(o, self@, t@, tags@, age_groups@, strs(sig_items@)));
                return Err(ShuffleError::MissingTag(t));
            },
            Ok(_) => {},
        }
        assert(round_choice(s1, self@, take, recipe_index as int, product_index as int, tags@, age_groups@, strs(sig_items@)));
        proof {
            lemma_given_keeps(s2, recipe_index as int, product_index as int, self@.unlocked, ends_pred(tags@));
            assert(self@ == ShuffleView { iterations: self@.iterations, ..given(s2, recipe_index as int, product_index as int, self@.unlocked) });
            if sm {
                lemma_given_keeps(s2, recipe_index as int, product_index as int, self@.unlocked, clean_pred(tags@));
                assert(self@.not_craftable.len() == 0);
                assert(self@.not_craftable =~= Seq::<RecipeView>::empty());
            }
        }
        if self.remaining_products.len() == 0 {
            return Ok(RoundOutcome::Finished);
        }
        if self.iterations == i32::MAX {
            return Err(ShuffleError::IterationOverflow);
        }
        let ghost before_count = self@;
        self.iterations = self.iterations + 1;
        assert(self@ == ShuffleView { iterations: self@.iterations, ..before_count });
        assert(round_choice(s1, self@, take, recipe_index as int, product_index as int, tags@, age_groups@, strs(sig_items@)));
        Ok(RoundOutcome::Continue)
    }
}

proof fn lemma_shapes_len(v: Seq<RecipeView>)
    ensures
        shapes(v).len() == v.len(),
{
    broadcast use vstd::seq_lib::group_to_multiset_ensures;
    let f = |r: RecipeView| shape_of(r);
    assert(v.map_values(f).len() == v.len());
}

/// When no product remains, the shuffle is complete: no recipe waits any
/// more, the scrambled recipes are the recipes of `all` (each once, up to
/// its product), and the products they were given are the products of
/// `all`, each once.
pub proof fn law_finished_shuffle(st: ShuffleView, all: Seq<RecipeView>)
    requires
        shuffle_inv(st, all),
        st.remaining.len() == 0,
    ensures
        st.not_craftable.len() == 0,
        st.craftable.len() == 0,
        st.scrambled.len() == all.len(),
        shapes(st.scrambled) == shapes(all),
        products_of(st.scrambled).to_multiset() == products_of(all).to_multiset(),
{
    broadcast use vstd::seq_lib::group_to_multiset_ensures;
    broadcast use vstd::multiset::group_multiset_axioms;
    lemma_shapes_len(st.not_craftable);
    lemma_shapes_len(st.craftable);
    lemma_shapes_len(st.scrambled);
    lemma_shapes_len(all);
    assert(st.remaining.to_multiset().len() == 0);
    assert(products_of(st.scrambled).len() == st.scrambled.len());
    assert(products_of(all).len() == all.len());
    vstd::multiset::lemma_multiset_empty_len(st.remaining.to_multiset());
    assert(st.remaining.to_multiset() =~= Multiset::<Seq<char>>::empty());
    assert(st.remaining.to_multiset().add(products_of(st.scrambled).to_multiset()) =~= products_of(st.scrambled).to_multiset());
    assert(products_of(st.scrambled).to_multiset().len() == st.scrambled.len());
    assert(products_of(all).to_multiset().len() == all.len());
    assert(st.scrambled.len() == all.len());
    assert(shapes(st.not_craftable).add(shapes(st.craftable)).add(shapes(st.scrambled)).len()
        == st.not_craftable.len() + st.craftable.len() + st.scrambled.len());
    assert(st.not_craftable.len() == 0);
    assert(st.craftable.len() == 0);
    vstd::multiset::lemma_multiset_empty_len(shapes(st.not_craftable));
    vstd::multiset::lemma_multiset_empty_len(shapes(st.craftable));
    assert(shapes(st.not_craftable) =~= Multiset::<(Logic, Seq<char>)>::empty());
    assert(shapes(st.craftable) =~= Multiset::<(Logic, Seq<char>)>::empty());
    assert(shapes(st.not_craftable).add(shapes(st.craftable)).add(shapes(st.scrambled)) =~= shapes(st.scrambled));
}

impl ShuffleState {
    /// Plays rounds until every product has been given, or a round fails.
    pub fn run(
        &mut self,
        rng: &mut rand::rngs::ThreadRng,
        tags: &TagTable,
        age_groups: &AgeGroups,
        sig_items: &Vec<String>,
    ) -> (r: Result<(), ShuffleError>)
        requires
            shuffle_ends(old(self)@, age_groups@, tags@),
        ensures
            forall|all: Seq<RecipeView>| shuffle_inv(old(self)@, all) ==> shuffle_inv(#[trigger] final(self)@, all),
            shuffle_ends(final(self)@, age_groups@, tags@),
            r is Ok ==> final(self)@.remaining.len() == 0,
            r matches Err(ShuffleError::IterationOverflow) ==> final(self)@.iterations == i32::MAX,
            !(r matches Err(ShuffleError::NoBaseItems)),
            first_error_rev(ingredients_of(old(self)@.not_craftable), old(self)@.unlocked, tags@) matches Some(t)
                ==> (r matches Err(ShuffleError::MissingTag(u)) && u@ == t && final(self)@ == old(self)@),
            first_error_rev(ingredients_of(old(self)@.not_craftable), old(self)@.unlocked, tags@) is None
                && updated(old(self)@, tags@).craftable.len() == 0 && old(self)@.scrambled.len() == 0
                ==> r matches Err(ShuffleError::NothingToTakeBack),
            r matches Err(ShuffleError::NothingToTakeBack)
                ==> first_error_rev(ingredients_of(old(self)@.not_craftable), old(self)@.unlocked, tags@) is None
                && old(self)@.scrambled.len() == 0
                && (updated(old(self)@, tags@).craftable.len() == 0 || old(self)@.iterations >= 5),
            smooth(old(self)@, age_groups@, tags@) ==> r is Ok || r matches Err(ShuffleError::IterationOverflow),
            r is Ok ==> exists|trace: Seq<ShuffleView>| #[trigger] played(trace, tags@, age_groups@, strs(sig_items@))
                && trace[0] == old(self)@ && trace.last() == final(self)@,
            smooth(old(self)@, age_groups@, tags@) && old(self)@.iterations + old(self)@.remaining.len() <= 5 ==> r is Ok,
            r matches Err(ShuffleError::Stuck) ==> exists|trace: Seq<ShuffleView>|
                #[trigger] played(trace, tags@, age_groups@, strs(sig_items@)) && trace[0] == old(self)@
                && final(self)@ == updated(trace.last(), tags@)
                && final(self)@.craftable.len() == 0 && final(self)@.scrambled.len() > 0,
            r matches Err(ShuffleError::NoProducts) ==> old(self)@.remaining.len() == 0
                && final(self)@ == updated(old(self)@, tags@),
            r matches Err(ShuffleError::IterationOverflow) ==> final(self)@.remaining.len() > 0
                && exists|trace: Seq<ShuffleView>| #[trigger] played(trace, tags@, age_groups@, strs(sig_items@))
                && trace[0] == old(self)@ && trace.last() == final(self)@,
            r matches Err(ShuffleError::MissingTag(t)) ==> exists|trace: Seq<ShuffleView>|
                #[trigger] played(trace, tags@, age_groups@, strs(sig_items@)) && trace[0] == old(self)@
                && missing_in_round(trace.last(), final(self)@, t@, tags@, age_groups@, strs(sig_items@)),
    {
        let ghost o = self@;
        let ghost sm = smooth(o, age_groups@, tags@);
        let ghost mut trace: Seq<ShuffleView> = seq![o];
        assert forall|k: int| 0 <= k < trace.len() - 1 implies #[trigger] step_at(trace, k, tags@, age_groups@, strs(sig_items@)) by {}
        loop
            invariant
                shuffle_ends(self@, age_groups@, tags@),
                forall|all: Seq<RecipeView>| shuffle_inv(o, all) ==> shuffle_inv(#[trigger] self@, all),
                o == old(self)@,
                self@ == o || {
                    &&& self@.scrambled.len() > 0
                    &&& self@.remaining.len() > 0
                    &&& first_error_rev(ingredients_of(o.not_craftable), o.unlocked, tags@) is None
                    &&& !(updated(o, tags@).craftable.len() == 0 && o.scrambled.len() == 0)
                },
                sm == smooth(o, age_groups@, tags@),
                sm ==> smooth(self@, age_groups@, tags@),
                sm && o.iterations + o.remaining.len() <= 5 ==> self@.iterations + self@.remaining.len() <= 5,
                played(trace, tags@, age_groups@, strs(sig_items@)),
                trace[0] == o,
                trace.last() == self@,
            decreases i32::MAX - self.iterations,
        {
            let ghost before = self@;
            proof {
                if sm {
                    lemma_smooth_updated(before, age_groups@, tags@);
                }
            }
            let round = self.shuffle_round(rng, tags, age_groups, sig_items);
            assert forall|all: Seq<RecipeView>| shuffle_inv(o, all) implies #[trigger] shuffle_inv(self@, all) by {
                assert(shuffle_inv(before, all));
            }
            proof {
                if round is Ok {
                    lemma_played_push(trace, self@, tags@, age_groups@, strs(sig_items@));
                    trace = trace.push(self@);
                }
            }
            match round {
                Ok(RoundOutcome::Finished) => {
                    assert(played(trace, tags@, age_groups@, strs(sig_items@)) && trace[0] == o && trace.last() == self@);
                    return Ok(());
                },
                Ok(RoundOutcome::Continue) => {},
                Err(e) => {
                    match &e {
                        ShuffleError::MissingTag(t) => {
                            assert(missing_in_round(trace.last(), self@, t@, tags@, age_groups@, strs(sig_items@)));
                        },
                        ShuffleError::IterationOverflow => {
                            proof {
                                lemma_played_push(trace, self@, tags@, age_groups@, strs(sig_items@));
                                assert(played(trace.push(self@), tags@, age_groups@, strs(sig_items@)));
                            }
                        },
                        _ => {},
                    }
                    return Err(e);
                },
            }
        }
    }
}

/// Gives every recipe of `all_recipes` a product of `all_recipes`, round by
/// round from the base items of the `True` age group: each round gives a
/// product to a recipe that was craftable after that round's update, and the
/// recipes come back in the order of the rounds' final lists.
pub fn shuffle_recipes(
    all_recipes: &Vec<Recipe>,
    age_groups: &AgeGroups,
    tags: &TagTable,
    sig_items: &Vec<String>,
    rng: &mut rand::rngs::ThreadRng,
) -> (r: Result<Vec<Recipe>, ShuffleError>)
    requires
        recipes_end(recipe_views(all_recipes@), tags@),
        keys_end(age_groups@, tags@),
    ensures
        r matches Ok(s) ==> {
            &&& s.len() == all_recipes.len()
            &&& shapes(recipe_views(s@)) == shapes(recipe_views(all_recipes@))
            &&& products_of(recipe_views(s@)).to_multiset() == products_of(recipe_views(all_recipes@)).to_multiset()
            &&& exists|trace: Seq<ShuffleView>| #[trigger] played(trace, tags@, age_groups@, strs(sig_items@))
                && trace[0] == initial_state(recipe_views(all_recipes@), age_groups@[group_pos(age_groups@, Logic::True)].1)
                && trace.last().scrambled == recipe_views(s@)
                && trace.last().remaining.len() == 0
        },
        r matches Err(ShuffleError::NoBaseItems) <==> group_pos(age_groups@, Logic::True) < 0,
        ({
            let p = group_pos(age_groups@, Logic::True);
            let base = age_groups@[p].1;
            let rs = recipe_views(all_recipes@);
            &&& p >= 0 ==> (first_error_rev(ingredients_of(rs), base, tags@) matches Some(t)
                ==> (r matches Err(ShuffleError::MissingTag(u)) && u@ == t))
            &&& p >= 0 && first_error_rev(ingredients_of(rs), base, tags@) is None
                ==> (r matches Err(ShuffleError::NothingToTakeBack) <==> rs.filter(makeable(base, tags@)).len() == 0)
            &&& p >= 0 && rs.len() > 0
                && formulas_satisfy(rs, clean_pred(tags@))
                && formulas_satisfy(rs, solved_pred(base, tags@))
                && keys_clean(age_groups@, tags@)
                ==> (r is Ok || r matches Err(ShuffleError::IterationOverflow))
            &&& p >= 0 && 0 < rs.len() <= 5
                && formulas_satisfy(rs, clean_pred(tags@))
                && formulas_satisfy(rs, solved_pred(base, tags@))
                && keys_clean(age_groups@, tags@)
                ==> r is Ok
            &&& !(r matches Err(ShuffleError::NoProducts))
            &&& (r matches Err(ShuffleError::IterationOverflow) ==> exists|trace: Seq<ShuffleView>|
                #[trigger] played(trace, tags@, age_groups@, strs(sig_items@))
                && trace[0] == initial_state(rs, base)
                && trace.last().iterations == i32::MAX && trace.last().remaining.len() > 0)
            &&& (r matches Err(ShuffleError::Stuck) ==> exists|trace: Seq<ShuffleView>|
                #[trigger] played(trace, tags@, age_groups@, strs(sig_items@))
                && trace[0] == initial_state(rs, base)
                && updated(trace.last(), tags@).craftable.len() == 0 && trace.last().scrambled.len() > 0)
            &&& (r matches Err(ShuffleError::MissingTag(t)) ==> exists|trace: Seq<ShuffleView>, f: ShuffleView|
                #[trigger] played(trace, tags@, age_groups@, strs(sig_items@))
                && trace[0] == initial_state(rs, base)
                && #[trigger] missing_in_round(trace.last(), f, t@, tags@, age_groups@, strs(sig_items@)))
        }),
{
    let mut state = match ShuffleState::new(all_recipes, age_groups) {
        Err(e) => return Err(e),
        Ok(st) => st,
    };
    let ghost all = recipe_views(all_recipes@);
    assert(recipes_end(state@.craftable, tags@));
    assert(recipes_end(state@.scrambled, tags@));
    proof {
        let p = group_pos(age_groups@, Logic::True);
        let base = age_groups@[p].1;
        assert(state@.unlocked == base);
        assert(state@.not_craftable == all);
        assert(updated(state@, tags@).craftable.len() == all.filter(makeable(base, tags@)).len());
        assert(formulas_satisfy(state@.craftable, clean_pred(tags@)));
        assert(formulas_satisfy(state@.scrambled, clean_pred(tags@)));
        assert(products_of(all).len() == all.len());
    }
    let ghost start = state@;
    match state.run(rng, tags, age_groups, sig_items) {
        Err(e) => {
            match &e {
                ShuffleError::MissingTag(t) => {
                    proof {
                        let tr = choose|trace: Seq<ShuffleView>|
                            #[trigger] played(trace, tags@, age_groups@, strs(sig_items@)) && trace[0] == start
                            && missing_in_round(trace.last(), state@, t@, tags@, age_groups@, strs(sig_items@));
                        assert(played(tr, tags@, age_groups@, strs(sig_items@)) && tr[0] == start
                            && missing_in_round(tr.last(), state@, t@, tags@, age_groups@, strs(sig_items@)));
                    }
                },
                _ => {},
            }
            return Err(e);
        },
        Ok(_) => {},
    }
    proof {
        law_finished_shuffle(state@, all);
    }
    let ghost fin = state@;
    let out = state.scrambled_recipes;
    assert(recipe_views(out@) == fin.scrambled);
    Ok(out)
}

} // verus!
