use vstd::prelude::*;
use crate::json::{JsonValue, obj_get, object_get, eq_lit};
use crate::logic::{LogicDependency, Logic, logics, lemma_view_and_or};

verus! {

/// A crafting recipe: what it needs, what it makes, and the file it came from.
#[derive(Debug)]
pub struct Recipe {
    pub ingredients: LogicDependency,
    pub result: String,
    pub file: String,
}

/// Mathematical model of a `Recipe`.
pub struct RecipeView {
    pub ingredients: Logic,
    pub result: Seq<char>,
    pub file: Seq<char>,
}

impl Recipe {
    pub open spec fn view(&self) -> RecipeView {
        RecipeView { ingredients: self.ingredients@, result: self.result@, file: self.file@ }
    }

}

impl Clone for Recipe {
    /// A copy with the same model.
    fn clone(&self) -> (r: Recipe)
        ensures
            r@ == self@,
    {
        Recipe {
            ingredients: self.ingredients.clone(),
            result: self.result.clone(),
            file: self.file.clone(),
        }
    }
}

/// Why a recipe file cannot be read as a recipe.
#[derive(Debug, PartialEq, Eq, Structural)]
pub enum RecipeError {
    MalformedJson,
    NoTypeTag,
    IncorrectTypeTag,
    NoKeyTag,
    BrokenKeyTag,
    NoPattern,
    PatternNotArray,
    EmptyPattern,
    PatternRowNotString,
    BrokenIngredients,
    NoRecipeBinding,
    BrokenItemTag,
    NoResult,
    NoItem,
    ResultItemNotString,
    MalformedResult,
}

/// The formula that one ingredient entry stands for: an array lists
/// alternatives, an object names an item or a tag.
pub open spec fn logic_from_item(j: JsonValue) -> Result<Logic, RecipeError>
    decreases j,
{
    match j {
        JsonValue::Array(v) => match logic_list(v@) {
            Ok(ls) => Ok(Logic::Or(ls)),
            Err(e) => Err(e),
        },
        JsonValue::Object(o) => match obj_get(o@, "item"@) {
            Some(JsonValue::Str(s)) => Ok(Logic::Item(s@)),
            _ => match obj_get(o@, "tag"@) {
                Some(JsonValue::Str(s)) => Ok(Logic::Tag(s@)),
                _ => Err(RecipeError::BrokenItemTag),
            },
        },
        _ => Err(RecipeError::BrokenItemTag),
    }
}

/// The formulas of a list of ingredient entries, in order; the first
/// entry that fails decides the error.
pub open spec fn logic_list(v: Seq<JsonValue>) -> Result<Seq<Logic>, RecipeError>
    decreases v,
{
    if v.len() == 0 {
        Ok(Seq::empty())
    } else {
        match logic_from_item(v[0]) {
            Err(e) => Err(e),
            Ok(l) => match logic_list(v.subrange(1, v.len() as int)) {
                Err(e) => Err(e),
                Ok(rest) => Ok(seq![l] + rest),
            },
        }
    }
}

/// `r` is the executable form of the modelled formula outcome `s`.
pub open spec fn logic_outcome(r: Result<LogicDependency, RecipeError>, s: Result<Logic, RecipeError>) -> bool {
    match r {
        Ok(l) => s == Ok::<Logic, RecipeError>(l@),
        Err(e) => s == Err::<Logic, RecipeError>(e),
    }
}

pub open spec fn prepend_logics(prefix: Seq<Logic>, r: Result<Seq<Logic>, RecipeError>) -> Result<Seq<Logic>, RecipeError> {
    match r {
        Ok(rest) => Ok(prefix + rest),
        Err(e) => Err(e),
    }
}

/// The formulas of `tags`, in order.
#[verifier::loop_isolation(false)]
fn logic_list_exec(tags: &Vec<JsonValue>) -> (r: Result<Vec<LogicDependency>, RecipeError>)
    ensures
        match r {
            Ok(v) => logic_list(tags@) == Ok::<Seq<Logic>, RecipeError>(logics(v@)),
            Err(e) => logic_list(tags@) == Err::<Seq<Logic>, RecipeError>(e),
        },
    decreases tags@,
{
    let mut out: Vec<LogicDependency> = Vec::new();
    let mut i: usize = 0;
    assert(tags@.subrange(0, tags@.len() as int) =~= tags@);
    assert(logics(out@) + Seq::<Logic>::empty() =~= Seq::<Logic>::empty());
    assert(logics(out@) =~= Seq::<Logic>::empty());
    while i < tags.len()
        invariant
            i <= tags.len(),
            logic_list(tags@) == prepend_logics(
                logics(out@),
                logic_list(tags@.subrange(i as int, tags@.len() as int)),
            ),
        decreases tags.len() - i,
    {
        let ghost rest = tags@.subrange(i as int, tags@.len() as int);
        assert(rest[0] == tags@[i as int]);
        assert(rest.subrange(1, rest.len() as int) =~= tags@.subrange(i + 1, tags@.len() as int));
        let ghost before = logics(out@);
        match get_logic_from_item_inner(&tags[i]) {
            Err(e) => return Err(e),
            Ok(l) => {
                let ghost lv = l@;
                out.push(l);
                proof {
                    assert(logics(out@) =~= before + seq![lv]);
                    let tail = logic_list(tags@.subrange(i + 1, tags@.len() as int));
                    match tail {
                        Ok(t) => {
                            assert(before + (seq![lv] + t) =~= logics(out@) + t);
                        },
                        Err(_) => {},
                    }
                }
            },
        }
        i = i + 1;
    }
    assert(logics(out@) + Seq::<Logic>::empty() =~= logics(out@));
    Ok(out)
}

fn get_logic_from_item_inner(tag: &JsonValue) -> (r: Result<LogicDependency, RecipeError>)
    ensures
        logic_outcome(r, logic_from_item(*tag)),
    decreases tag,
{
    match tag {
        JsonValue::Array(v) => {
            match logic_list_exec(v) {
                Ok(ls) => {
                    let ghost lv = logics(ls@);
                    let r = LogicDependency::Or(ls);
                    proof {
                        lemma_view_and_or(r);
                    }
                    Ok(r)
                },
                Err(e) => Err(e),
            }
        },
        JsonValue::Object(o) => {
            match object_get(o, "item") {
                Some(JsonValue::Str(s)) => return Ok(LogicDependency::Item(s.clone())),
                _ => {},
            }
            match object_get(o, "tag") {
                Some(JsonValue::Str(s)) => Ok(LogicDependency::Tag(s.clone())),
                _ => Err(RecipeError::BrokenItemTag),
            }
        },
        _ => Err(RecipeError::BrokenItemTag),
    }
}

/// The formula of one ingredient entry: an array is a choice among its
/// entries, an object names an item or a tag.
pub fn try_get_logic_from_item(tag: &JsonValue) -> (r: Result<LogicDependency, RecipeError>)
    ensures
        logic_outcome(r, logic_from_item(*tag)),
{
    get_logic_from_item_inner(tag)
}

/// The formulas of a list of entries joined by `And` (shapeless) or `Or`.
pub fn try_get_logic_from_options(tags: &Vec<JsonValue>, shapeless: bool) -> (r: Result<LogicDependency, RecipeError>)
    ensures
        logic_outcome(
            r,
            match logic_list(tags@) {
                Ok(ls) => Ok(if shapeless { Logic::And(ls) } else { Logic::Or(ls) }),
                Err(e) => Err(e),
            },
        ),
{
    match logic_list_exec(tags) {
        Ok(ls) => {
            let r = if shapeless { LogicDependency::And(ls) } else { LogicDependency::Or(ls) };
            proof {
                lemma_view_and_or(r);
            }
            Ok(r)
        },
        Err(e) => Err(e),
    }
}


/// The values of the members of an object, in order.
pub open spec fn member_values(o: Seq<(String, JsonValue)>) -> Seq<JsonValue> {
    Seq::new(o.len(), |i: int| o[i].1)
}

/// The formula of a shaped recipe's key: every symbol's entry is needed.
pub open spec fn logic_from_key(key: Seq<(String, JsonValue)>) -> Result<Logic, RecipeError> {
    match logic_list(member_values(key)) {
        Ok(ls) => Ok(Logic::And(ls)),
        Err(e) => Err(e),
    }
}

/// The formula of a shaped recipe's key: every symbol's entry is needed.
pub fn try_get_logic_from_key(key: &Vec<(String, JsonValue)>) -> (r: Result<LogicDependency, RecipeError>)
    ensures
        logic_outcome(r, logic_from_key(key@)),
{
    let ghost vals = member_values(key@);
    let mut out: Vec<LogicDependency> = Vec::new();
    let mut i: usize = 0;
    assert(vals.subrange(0, vals.len() as int) =~= vals);
    assert(logics(out@) + Seq::<Logic>::empty() =~= Seq::<Logic>::empty());
    assert(logics(out@) =~= Seq::<Logic>::empty());
    while i < key.len()
        invariant
            i <= key.len(),
            vals == member_values(key@),
            logic_list(vals) == prepend_logics(
                logics(out@),
                logic_list(vals.subrange(i as int, vals.len() as int)),
            ),
        decreases key.len() - i,
    {
        let ghost rest = vals.subrange(i as int, vals.len() as int);
        assert(rest[0] == key@[i as int].1);
        assert(rest.subrange(1, rest.len() as int) =~= vals.subrange(i + 1, vals.len() as int));
        let ghost before = logics(out@);
        match try_get_logic_from_item(&key[i].1) {
            Err(e) => return Err(e),
            Ok(l) => {
                let ghost lv = l@;
                out.push(l);
                proof {
                    assert(logics(out@) =~= before + seq![lv]);
                    let tail = logic_list(vals.subrange(i + 1, vals.len() as int));
                    match tail {
                        Ok(t) => {
                            assert(before + (seq![lv] + t) =~= logics(out@) + t);
                        },
                        Err(_) => {},
                    }
                }
            },
        }
        i = i + 1;
    }
    assert(logics(out@) + Seq::<Logic>::empty() =~= logics(out@));
    let r = LogicDependency::And(out);
    proof {
        lemma_view_and_or(r);
    }
    Ok(r)
}


/// The side of the crafting grid that a shaped pattern needs: 3 when it has
/// more than two rows or its first row is longer than two bytes, else 2.
pub open spec fn pattern_size(p: Seq<JsonValue>) -> Result<u8, RecipeError> {
    if p.len() > 2 {
        Ok(3)
    } else if p.len() == 0 {
        Err(RecipeError::EmptyPattern)
    } else {
        match p[0] {
            JsonValue::Str(row) => if (vstd::utf8::encode_utf8(row@).len() as usize) > 2 {
                Ok(3)
            } else {
                Ok(2)
            },
            _ => Err(RecipeError::PatternRowNotString),
        }
    }
}

/// The side of the crafting grid that a shaped pattern needs.
pub fn try_get_crafting_pattern_size(pattern: &Vec<JsonValue>) -> (r: Result<u8, RecipeError>)
    ensures
        r == pattern_size(pattern@),
{
    if pattern.len() > 2 {
        return Ok(3);
    }
    if pattern.len() == 0 {
        return Err(RecipeError::EmptyPattern);
    }
    match &pattern[0] {
        JsonValue::Str(row) => if row.as_str().len() > 2 {
            Ok(3)
        } else {
            Ok(2)
        },
        _ => Err(RecipeError::PatternRowNotString),
    }
}

/// The item that must be owned to use a station recipe of type `rtype`.
pub open spec fn station_for(rtype: Seq<char>) -> Option<Seq<char>> {
    if rtype == "minecraft:stonecutting"@ {
        Some("minecraft:stonecutter"@)
    } else if rtype == "minecraft:smelting"@ {
        Some("minecraft:furnace"@)
    } else if rtype == "minecraft:campfire_cooking"@ {
        Some("minecraft:campfire"@)
    } else if rtype == "minecraft:smoking"@ {
        Some("minecraft:smoker"@)
    } else if rtype == "minecraft:blasting"@ {
        Some("minecraft:blast_furnace"@)
    } else {
        None
    }
}

/// What a recipe object needs, by its `type`:
/// - shaped: every key entry, and a crafting table when the pattern needs a 3x3 grid;
/// - shapeless: every ingredient, and a crafting table when there are more than four;
/// - stonecutting, smelting, campfire cooking, smoking, blasting: the station and
///   the `ingredients` entry (or, without one, the `ingredient` entry).
pub open spec fn logic_from_data(o: Seq<(String, JsonValue)>) -> Result<Logic, RecipeError> {
    match obj_get(o, "type"@) {
        None => Err(RecipeError::NoTypeTag),
        Some(JsonValue::Str(t)) => {
            let rtype = t@;
            if rtype == "minecraft:crafting_shaped"@ {
                match obj_get(o, "key"@) {
                    None => Err(RecipeError::NoKeyTag),
                    Some(JsonValue::Object(k)) => match logic_from_key(k@) {
                        Err(e) => Err(e),
                        Ok(key_logic) => match obj_get(o, "pattern"@) {
                            None => Err(RecipeError::NoPattern),
                            Some(JsonValue::Array(p)) => match pattern_size(p@) {
                                Err(e) => Err(e),
                                Ok(n) => Ok(Logic::And(
                                    if n == 3 {
                                        seq![key_logic, Logic::Item("minecraft:crafting_table"@)]
                                    } else {
                                        seq![key_logic]
                                    },
                                )),
                            },
                            Some(_) => Err(RecipeError::PatternNotArray),
                        },
                    },
                    Some(_) => Err(RecipeError::BrokenKeyTag),
                }
            } else if rtype == "minecraft:crafting_shapeless"@ {
                match obj_get(o, "ingredients"@) {
                    Some(JsonValue::Array(i)) => match logic_list(i@) {
                        Err(e) => Err(e),
                        Ok(deps) => Ok(
                            if deps.len() > 4 {
                                Logic::And(seq![Logic::And(deps), Logic::Item("minecraft:crafting_table"@)])
                            } else {
                                Logic::And(deps)
                            },
                        ),
                    },
                    _ => Err(RecipeError::BrokenIngredients),
                }
            } else {
                match station_for(rtype) {
                    None => Err(RecipeError::NoRecipeBinding),
                    Some(station) => {
                        let entry = match obj_get(o, "ingredients"@) {
                            Some(i) => Some(i),
                            None => obj_get(o, "ingredient"@),
                        };
                        match entry {
                            None => Err(RecipeError::BrokenIngredients),
                            Some(i) => match logic_from_item(i) {
                                Err(e) => Err(e),
                                Ok(l) => Ok(Logic::And(seq![Logic::Item(station), l])),
                            },
                        }
                    },
                }
            }
        },
        Some(_) => Err(RecipeError::IncorrectTypeTag),
    }
}

fn station_item(rtype: &String) -> (r: Option<String>)
    ensures
        match r {
            Some(s) => station_for(rtype@) == Some(s@),
            None => station_for(rtype@) is None,
        },
{
    if eq_lit(rtype, "minecraft:stonecutting") {
        Some("minecraft:stonecutter".to_owned())
    } else if eq_lit(rtype, "minecraft:smelting") {
        Some("minecraft:furnace".to_owned())
    } else if eq_lit(rtype, "minecraft:campfire_cooking") {
        Some("minecraft:campfire".to_owned())
    } else if eq_lit(rtype, "minecraft:smoking") {
        Some("minecraft:smoker".to_owned())
    } else if eq_lit(rtype, "minecraft:blasting") {
        Some("minecraft:blast_furnace".to_owned())
    } else {
        None
    }
}

/// What a recipe object needs before it can be crafted.
pub fn try_get_logic_from_data(obj: &Vec<(String, JsonValue)>) -> (r: Result<LogicDependency, RecipeError>)
    ensures
        logic_outcome(r, logic_from_data(obj@)),
{
    let rtype = match object_get(obj, "type") {
        None => return Err(RecipeError::NoTypeTag),
        Some(JsonValue::Str(t)) => t,
        Some(_) => return Err(RecipeError::IncorrectTypeTag),
    };
    if eq_lit(rtype, "minecraft:crafting_shaped") {
        let key = match object_get(obj, "key") {
            None => return Err(RecipeError::NoKeyTag),
            Some(JsonValue::Object(k)) => k,
            Some(_) => return Err(RecipeError::BrokenKeyTag),
        };
        let key_logic = match try_get_logic_from_key(key) {
            Err(e) => return Err(e),
            Ok(l) => l,
        };
        let ghost kv = key_logic@;
        let pattern_arr = match object_get(obj, "pattern") {
            None => return Err(RecipeError::NoPattern),
            Some(JsonValue::Array(p)) => p,
            Some(_) => return Err(RecipeError::PatternNotArray),
        };
        let size = match try_get_crafting_pattern_size(pattern_arr) {
            Err(e) => return Err(e),
            Ok(n) => n,
        };
        let mut and_compound: Vec<LogicDependency> = Vec::new();
        and_compound.push(key_logic);
        if size == 3 {
            and_compound.push(LogicDependency::Item("minecraft:crafting_table".to_owned()));
        }
        let r = LogicDependency::And(and_compound);
        proof {
            lemma_view_and_or(r);
            if size == 3 {
                assert(logics(and_compound@) =~= seq![kv, Logic::Item("minecraft:crafting_table"@)]);
            } else {
                assert(logics(and_compound@) =~= seq![kv]);
            }
        }
        Ok(r)
    } else if eq_lit(rtype, "minecraft:crafting_shapeless") {
        match object_get(obj, "ingredients") {
            Some(JsonValue::Array(i)) => {
                let ret = match try_get_logic_from_options(i, true) {
                    Err(e) => return Err(e),
                    Ok(l) => l,
                };
                let n = match &ret {
                    LogicDependency::And(deps) => deps.len(),
                    _ => 0,
                };
                proof {
                    lemma_view_and_or(ret);
                }
                if n > 4 {
                    let ghost rv = ret@;
                    let mut v: Vec<LogicDependency> = Vec::new();
                    v.push(ret);
                    v.push(LogicDependency::Item("minecraft:crafting_table".to_owned()));
                    let r = LogicDependency::And(v);
                    proof {
                        lemma_view_and_or(r);
                        assert(logics(v@) =~= seq![rv, Logic::Item("minecraft:crafting_table"@)]);
                    }
                    Ok(r)
                } else {
                    Ok(ret)
                }
            },
            _ => Err(RecipeError::BrokenIngredients),
        }
    } else {
        let station = match station_item(rtype) {
            None => return Err(RecipeError::NoRecipeBinding),
            Some(s) => s,
        };
        let entry = match object_get(obj, "ingredients") {
            Some(i) => i,
            None => match object_get(obj, "ingredient") {
                Some(i) => i,
                None => return Err(RecipeError::BrokenIngredients),
            },
        };
        let l = match try_get_logic_from_item(entry) {
            Err(e) => return Err(e),
            Ok(l) => l,
        };
        let ghost lv = l@;
        let ghost sv = station@;
        let mut v: Vec<LogicDependency> = Vec::new();
        v.push(LogicDependency::Item(station));
        v.push(l);
        let r = LogicDependency::And(v);
        proof {
            lemma_view_and_or(r);
            assert(logics(v@) =~= seq![Logic::Item(sv), lv]);
        }
        Ok(r)
    }
}

/// The product that a recipe object names: `result` is either the product's
/// name or an object whose `item` names it.
pub open spec fn result_from_data(o: Seq<(String, JsonValue)>) -> Result<Seq<char>, RecipeError> {
    match obj_get(o, "result"@) {
        None => Err(RecipeError::NoResult),
        Some(JsonValue::Object(r)) => match obj_get(r@, "item"@) {
            None => Err(RecipeError::NoItem),
            Some(JsonValue::Str(s)) => Ok(s@),
            Some(_) => Err(RecipeError::ResultItemNotString),
        },
        Some(JsonValue::Str(s)) => Ok(s@),
        Some(_) => Err(RecipeError::MalformedResult),
    }
}

/// The product that a recipe object names.
pub fn try_get_result_from_data(obj: &Vec<(String, JsonValue)>) -> (r: Result<String, RecipeError>)
    ensures
        match r {
            Ok(s) => result_from_data(obj@) == Ok::<Seq<char>, RecipeError>(s@),
            Err(e) => result_from_data(obj@) == Err::<Seq<char>, RecipeError>(e),
        },
{
    match object_get(obj, "result") {
        None => Err(RecipeError::NoResult),
        Some(JsonValue::Object(ro)) => match object_get(ro, "item") {
            None => Err(RecipeError::NoItem),
            Some(JsonValue::Str(s)) => Ok(s.clone()),
            Some(_) => Err(RecipeError::ResultItemNotString),
        },
        Some(JsonValue::Str(s)) => Ok(s.clone()),
        Some(_) => Err(RecipeError::MalformedResult),
    }
}

/// The recipe that a recipe file holds, read from its JSON document;
/// `file` names the file.
pub fn try_recipe_from_json(data: &JsonValue, file: String) -> (r: Result<Recipe, RecipeError>)
    ensures
        match data {
            JsonValue::Object(o) => match r {
                Ok(rec) => logic_from_data(o@) == Ok::<Logic, RecipeError>(rec.ingredients@)
                    && result_from_data(o@) == Ok::<Seq<char>, RecipeError>(rec.result@)
                    && rec.file@ == file@,
                Err(e) => logic_from_data(o@) == Err::<Logic, RecipeError>(e)
                    || (logic_from_data(o@) is Ok && result_from_data(o@) == Err::<Seq<char>, RecipeError>(e)),
            },
            _ => r == Err::<Recipe, RecipeError>(RecipeError::MalformedJson),
        },
{
    match data {
        JsonValue::Object(obj) => {
            let ingredients = match try_get_logic_from_data(obj) {
                Err(e) => return Err(e),
                Ok(l) => l,
            };
            let result = match try_get_result_from_data(obj) {
                Err(e) => return Err(e),
                Ok(s) => s,
            };
            Ok(Recipe { ingredients, result, file })
        },
        _ => Err(RecipeError::MalformedJson),
    }
}

/// Where a recipe document keeps the name of its product.
#[derive(Debug, PartialEq, Eq, Structural)]
pub enum ResultSlot {
    /// `result` is an object, and its `item` member names the product.
    ItemMember,
    /// `result` itself is the product's name.
    Whole,
}

/// Where the product's name stands in a recipe document, so that it can be
/// replaced.
pub fn result_slot(data: &JsonValue) -> (r: Result<ResultSlot, RecipeError>)
    ensures
        r == match data {
            JsonValue::Object(o) => match obj_get(o@, "result"@) {
                None => Err(RecipeError::NoResult),
                Some(JsonValue::Object(ro)) => if obj_get(ro@, "item"@) is Some {
                    Ok(ResultSlot::ItemMember)
                } else {
                    Err(RecipeError::NoItem)
                },
                Some(JsonValue::Str(_)) => Ok(ResultSlot::Whole),
                Some(_) => Err(RecipeError::MalformedResult),
            },
            _ => Err(RecipeError::MalformedJson),
        },
{
    match data {
        JsonValue::Object(obj) => match object_get(obj, "result") {
            None => Err(RecipeError::NoResult),
            Some(JsonValue::Object(ro)) => match object_get(ro, "item") {
                Some(_) => Ok(ResultSlot::ItemMember),
                None => Err(RecipeError::NoItem),
            },
            Some(JsonValue::Str(_)) => Ok(ResultSlot::Whole),
            Some(_) => Err(RecipeError::MalformedResult),
        },
        _ => Err(RecipeError::MalformedJson),
    }
}

/// The formula of one ingredient entry, for an entry that has one.
pub fn get_logic_from_item(tag: &JsonValue) -> (r: LogicDependency)
    requires
        logic_from_item(*tag) is Ok,
    ensures
        logic_from_item(*tag) == Ok::<Logic, RecipeError>(r@),
{
    match try_get_logic_from_item(tag) {
        Ok(l) => l,
        // `requires` rules this branch out.
        Err(_) => LogicDependency::True,
    }
}

/// The formulas of a list of entries joined by `And` (shapeless) or `Or`,
/// for entries that all have one.
pub fn get_logic_from_options(tags: &Vec<JsonValue>, shapeless: bool) -> (r: LogicDependency)
    requires
        logic_list(tags@) is Ok,
    ensures
        r@ == (if shapeless { Logic::And(logic_list(tags@)->Ok_0) } else { Logic::Or(logic_list(tags@)->Ok_0) }),
{
    match try_get_logic_from_options(tags, shapeless) {
        Ok(l) => l,
        // `requires` rules this branch out.
        Err(_) => LogicDependency::True,
    }
}

/// The formula of a shaped recipe's key, for a key whose entries all have one.
pub fn get_logic_from_key(key: &Vec<(String, JsonValue)>) -> (r: LogicDependency)
    requires
        logic_from_key(key@) is Ok,
    ensures
        logic_from_key(key@) == Ok::<Logic, RecipeError>(r@),
{
    match try_get_logic_from_key(key) {
        Ok(l) => l,
        // `requires` rules this branch out.
        Err(_) => LogicDependency::True,
    }
}

/// The side of the crafting grid that a shaped pattern needs, for a pattern
/// with more than two rows or a first row that is a string.
pub fn get_crafting_pattern_size(pattern: &Vec<JsonValue>) -> (r: u8)
    requires
        pattern_size(pattern@) is Ok,
    ensures
        pattern_size(pattern@) == Ok::<u8, RecipeError>(r),
{
    match try_get_crafting_pattern_size(pattern) {
        Ok(n) => n,
        // `requires` rules this branch out.
        Err(_) => 0,
    }
}

/// What a well-formed recipe object needs before it can be crafted.
pub fn get_logic_from_data(obj: &Vec<(String, JsonValue)>) -> (r: LogicDependency)
    requires
        logic_from_data(obj@) is Ok,
    ensures
        logic_from_data(obj@) == Ok::<Logic, RecipeError>(r@),
{
    match try_get_logic_from_data(obj) {
        Ok(l) => l,
        // `requires` rules this branch out.
        Err(_) => LogicDependency::True,
    }
}

/// The product that a recipe object with a well-formed `result` names.
pub fn get_result_from_data(obj: &Vec<(String, JsonValue)>) -> (r: String)
    requires
        result_from_data(obj@) is Ok,
    ensures
        result_from_data(obj@) == Ok::<Seq<char>, RecipeError>(r@),
{
    match try_get_result_from_data(obj) {
        Ok(s) => s,
        // `requires` rules this branch out.
        Err(_) => String::new(),
    }
}

/// The recipe that a well-formed recipe document holds; `file` names the file.
pub fn recipe_from_json(data: &JsonValue, file: String) -> (r: Recipe)
    requires
        data matches JsonValue::Object(o) && logic_from_data(o@) is Ok && result_from_data(o@) is Ok,
    ensures
        data matches JsonValue::Object(o)
            && logic_from_data(o@) == Ok::<Logic, RecipeError>(r.ingredients@)
            && result_from_data(o@) == Ok::<Seq<char>, RecipeError>(r.result@),
        r.file@ == file@,
{
    let ghost f = file@;
    match try_recipe_from_json(data, file) {
        Ok(rec) => rec,
        // `requires` rules this branch out.
        Err(_) => Recipe { ingredients: LogicDependency::True, result: String::new(), file: String::new() },
    }
}

/// A shaped recipe needs the crafting table exactly when its pattern needs
/// the 3x3 grid: when it has more than two rows or its first row is longer
/// than two bytes. Its formula is `And` of the key's formula, followed by
/// the crafting table in that case.
pub proof fn law_shaped_table(o: Seq<(String, JsonValue)>)
    requires
        obj_get(o, "type"@) matches Some(JsonValue::Str(t)) && t@ == "minecraft:crafting_shaped"@,
        logic_from_data(o) is Ok,
    ensures
        obj_get(o, "pattern"@) matches Some(JsonValue::Array(_)),
        obj_get(o, "key"@) matches Some(JsonValue::Object(_)),
        ({
            let p = obj_get(o, "pattern"@)->Some_0->Array_0@;
            let k = obj_get(o, "key"@)->Some_0->Object_0@;
            let big = p.len() > 2 || (p.len() > 0 && p[0] is Str
                && (vstd::utf8::encode_utf8(p[0]->Str_0@).len() as usize) > 2);
            let parts = logic_from_data(o)->Ok_0->And_0;
            &&& logic_from_data(o)->Ok_0 is And
            &&& parts.len() == if big { 2int } else { 1int }
            &&& parts[0] == logic_from_key(k)->Ok_0
            &&& parts.contains(Logic::Item("minecraft:crafting_table"@)) <==> big
        }),
{
    let p = obj_get(o, "pattern"@)->Some_0->Array_0@;
    let parts = logic_from_data(o)->Ok_0->And_0;
    let table = Logic::Item("minecraft:crafting_table"@);
    if parts.contains(table) {
        let i = choose|i: int| 0 <= i < parts.len() && parts[i] == table;
        if parts.len() == 1 {
            assert(parts[0] is And);
        }
    }
    if p.len() > 2 || (p.len() > 0 && p[0] is Str
        && (vstd::utf8::encode_utf8(p[0]->Str_0@).len() as usize) > 2) {
        assert(parts[1] == table);
    }
}

} // verus!
