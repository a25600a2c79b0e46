use recipe_randomizer::config::{try_age_groups_from_json, convert_to_mc_name, try_get_age_logic, ConfigError};
use recipe_randomizer::json::JsonValue;
use recipe_randomizer::logic::{same_logic, LogicDependency};
use recipe_randomizer::recipe::{
    try_get_crafting_pattern_size, try_get_logic_from_data, try_get_logic_from_item, try_get_logic_from_key,
    try_get_logic_from_options, try_get_result_from_data, try_recipe_from_json, result_slot, RecipeError, ResultSlot,
};
use recipe_randomizer::tag_file::{get_all_tags, try_get_all_tags, try_tag_from_json, try_tag_name_from_file_name, TagFileError};

fn s(x: &str) -> String {
    x.to_string()
}

fn jstr(x: &str) -> JsonValue {
    JsonValue::Str(s(x))
}

fn obj(members: Vec<(&str, JsonValue)>) -> JsonValue {
    JsonValue::Object(members.into_iter().map(|(k, v)| (s(k), v)).collect())
}

fn members(members: Vec<(&str, JsonValue)>) -> Vec<(String, JsonValue)> {
    members.into_iter().map(|(k, v)| (s(k), v)).collect()
}

fn item(x: &str) -> LogicDependency {
    LogicDependency::Item(s(x))
}

fn tag(x: &str) -> LogicDependency {
    LogicDependency::Tag(s(x))
}

fn and(v: Vec<LogicDependency>) -> LogicDependency {
    LogicDependency::And(v)
}

fn or(v: Vec<LogicDependency>) -> LogicDependency {
    LogicDependency::Or(v)
}

fn ingredient_item(x: &str) -> JsonValue {
    obj(vec![("item", jstr(x))])
}

fn ingredient_tag(x: &str) -> JsonValue {
    obj(vec![("tag", jstr(x))])
}

#[test]
fn item_entry_kinds() {
    assert!(same_logic(&try_get_logic_from_item(&ingredient_item("minecraft:stick")).unwrap(), &item("minecraft:stick")));
    assert!(same_logic(&try_get_logic_from_item(&ingredient_tag("minecraft:planks")).unwrap(), &tag("minecraft:planks")));
    let alts = JsonValue::Array(vec![ingredient_item("a"), ingredient_tag("t")]);
    assert!(same_logic(&try_get_logic_from_item(&alts).unwrap(), &or(vec![item("a"), tag("t")])));
    // `item` wins over `tag`, and a non-string `item` falls back to `tag`.
    let both = obj(vec![("item", jstr("a")), ("tag", jstr("t"))]);
    assert!(same_logic(&try_get_logic_from_item(&both).unwrap(), &item("a")));
    let fallback = obj(vec![("item", JsonValue::Number), ("tag", jstr("t"))]);
    assert!(same_logic(&try_get_logic_from_item(&fallback).unwrap(), &tag("t")));
}

#[test]
fn item_entry_errors() {
    assert_eq!(try_get_logic_from_item(&jstr("a")).unwrap_err(), RecipeError::BrokenItemTag);
    assert_eq!(try_get_logic_from_item(&obj(vec![("count", JsonValue::Number)])).unwrap_err(), RecipeError::BrokenItemTag);
    let nested = JsonValue::Array(vec![ingredient_item("a"), JsonValue::Null]);
    assert_eq!(try_get_logic_from_item(&nested).unwrap_err(), RecipeError::BrokenItemTag);
}

#[test]
fn options_and_key() {
    let list = vec![ingredient_item("a"), ingredient_item("b")];
    assert!(same_logic(&try_get_logic_from_options(&list, true).unwrap(), &and(vec![item("a"), item("b")])));
    assert!(same_logic(&try_get_logic_from_options(&list, false).unwrap(), &or(vec![item("a"), item("b")])));
    let key = members(vec![("#", ingredient_item("a")), ("X", ingredient_tag("t"))]);
    assert!(same_logic(&try_get_logic_from_key(&key).unwrap(), &and(vec![item("a"), tag("t")])));
}

#[test]
fn pattern_size_counts_rows_and_bytes() {
    assert_eq!(try_get_crafting_pattern_size(&vec![jstr("##"), jstr("##")]), Ok(2));
    assert_eq!(try_get_crafting_pattern_size(&vec![jstr("###")]), Ok(3));
    assert_eq!(try_get_crafting_pattern_size(&vec![jstr("#"), jstr("#"), jstr("#")]), Ok(3));
    // Two characters, three bytes.
    assert_eq!(try_get_crafting_pattern_size(&vec![jstr("é#")]), Ok(3));
    assert_eq!(try_get_crafting_pattern_size(&vec![]), Err(RecipeError::EmptyPattern));
    assert_eq!(try_get_crafting_pattern_size(&vec![JsonValue::Null]), Err(RecipeError::PatternRowNotString));
}

fn shaped(pattern: Vec<&str>) -> Vec<(String, JsonValue)> {
    members(vec![
        ("type", jstr("minecraft:crafting_shaped")),
        ("pattern", JsonValue::Array(pattern.into_iter().map(jstr).collect())),
        ("key", obj(vec![("#", ingredient_tag("minecraft:planks"))])),
        ("result", obj(vec![("item", jstr("minecraft:crafting_table")), ("count", JsonValue::Number)])),
    ])
}

#[test]
fn shaped_recipes() {
    let small = try_get_logic_from_data(&shaped(vec!["##", "##"])).unwrap();
    assert!(same_logic(&small, &and(vec![and(vec![tag("minecraft:planks")])])));
    let large = try_get_logic_from_data(&shaped(vec!["###", "# #", "###"])).unwrap();
    assert!(same_logic(
        &large,
        &and(vec![and(vec![tag("minecraft:planks")]), item("minecraft:crafting_table")])
    ));
}

#[test]
fn shaped_recipe_errors() {
    let no_key = members(vec![("type", jstr("minecraft:crafting_shaped"))]);
    assert_eq!(try_get_logic_from_data(&no_key).unwrap_err(), RecipeError::NoKeyTag);
    let bad_key = members(vec![("type", jstr("minecraft:crafting_shaped")), ("key", JsonValue::Array(vec![]))]);
    assert_eq!(try_get_logic_from_data(&bad_key).unwrap_err(), RecipeError::BrokenKeyTag);
    let no_pattern = members(vec![("type", jstr("minecraft:crafting_shaped")), ("key", obj(vec![]))]);
    assert_eq!(try_get_logic_from_data(&no_pattern).unwrap_err(), RecipeError::NoPattern);
    let bad_pattern = members(vec![
        ("type", jstr("minecraft:crafting_shaped")),
        ("key", obj(vec![])),
        ("pattern", jstr("##")),
    ]);
    assert_eq!(try_get_logic_from_data(&bad_pattern).unwrap_err(), RecipeError::PatternNotArray);
}

#[test]
fn shapeless_recipes() {
    let four: Vec<JsonValue> = vec!["a", "b", "c", "d"].into_iter().map(ingredient_item).collect();
    let r = members(vec![("type", jstr("minecraft:crafting_shapeless")), ("ingredients", JsonValue::Array(four))]);
    assert!(same_logic(
        &try_get_logic_from_data(&r).unwrap(),
        &and(vec![item("a"), item("b"), item("c"), item("d")])
    ));
    let five: Vec<JsonValue> = vec!["a", "b", "c", "d", "e"].into_iter().map(ingredient_item).collect();
    let r = members(vec![("type", jstr("minecraft:crafting_shapeless")), ("ingredients", JsonValue::Array(five))]);
    assert!(same_logic(
        &try_get_logic_from_data(&r).unwrap(),
        &and(vec![and(vec![item("a"), item("b"), item("c"), item("d"), item("e")]), item("minecraft:crafting_table")])
    ));
    let broken = members(vec![("type", jstr("minecraft:crafting_shapeless")), ("ingredients", ingredient_item("a"))]);
    assert_eq!(try_get_logic_from_data(&broken).unwrap_err(), RecipeError::BrokenIngredients);
}

#[test]
fn station_recipes() {
    let smelt = members(vec![("type", jstr("minecraft:smelting")), ("ingredient", ingredient_item("minecraft:iron_ore"))]);
    assert!(same_logic(
        &try_get_logic_from_data(&smelt).unwrap(),
        &and(vec![item("minecraft:furnace"), item("minecraft:iron_ore")])
    ));
    let cut = members(vec![("type", jstr("minecraft:stonecutting")), ("ingredients", ingredient_tag("minecraft:stone"))]);
    assert!(same_logic(
        &try_get_logic_from_data(&cut).unwrap(),
        &and(vec![item("minecraft:stonecutter"), tag("minecraft:stone")])
    ));
    for (t, station) in [
        ("minecraft:campfire_cooking", "minecraft:campfire"),
        ("minecraft:smoking", "minecraft:smoker"),
        ("minecraft:blasting", "minecraft:blast_furnace"),
    ] {
        let r = members(vec![("type", jstr(t)), ("ingredient", ingredient_item("x"))]);
        assert!(same_logic(&try_get_logic_from_data(&r).unwrap(), &and(vec![item(station), item("x")])));
    }
    let missing = members(vec![("type", jstr("minecraft:smelting"))]);
    assert_eq!(try_get_logic_from_data(&missing).unwrap_err(), RecipeError::BrokenIngredients);
    let unknown = members(vec![("type", jstr("minecraft:smithing")), ("ingredient", ingredient_item("x"))]);
    assert_eq!(try_get_logic_from_data(&unknown).unwrap_err(), RecipeError::NoRecipeBinding);
}

#[test]
fn type_errors() {
    assert_eq!(try_get_logic_from_data(&members(vec![])).unwrap_err(), RecipeError::NoTypeTag);
    assert_eq!(try_get_logic_from_data(&members(vec![("type", JsonValue::Bool(true))])).unwrap_err(), RecipeError::IncorrectTypeTag);
}

#[test]
fn results() {
    let r = members(vec![("result", obj(vec![("item", jstr("minecraft:torch")), ("count", JsonValue::Number)]))]);
    assert_eq!(try_get_result_from_data(&r).unwrap(), "minecraft:torch");
    let r = members(vec![("result", jstr("minecraft:iron_ingot"))]);
    assert_eq!(try_get_result_from_data(&r).unwrap(), "minecraft:iron_ingot");
    assert_eq!(try_get_result_from_data(&members(vec![])).unwrap_err(), RecipeError::NoResult);
    assert_eq!(try_get_result_from_data(&members(vec![("result", obj(vec![]))])).unwrap_err(), RecipeError::NoItem);
    assert_eq!(
        try_get_result_from_data(&members(vec![("result", obj(vec![("item", JsonValue::Number)]))])).unwrap_err(),
        RecipeError::ResultItemNotString
    );
    assert_eq!(try_get_result_from_data(&members(vec![("result", JsonValue::Null)])).unwrap_err(), RecipeError::MalformedResult);
}

#[test]
fn whole_recipe_document() {
    let doc = JsonValue::Object(shaped(vec!["##", "##"]));
    let r = try_recipe_from_json(&doc, s("crafting_table.json")).unwrap();
    assert_eq!(r.result, "minecraft:crafting_table");
    assert_eq!(r.file, "crafting_table.json");
    assert!(same_logic(&r.ingredients, &and(vec![and(vec![tag("minecraft:planks")])])));
    assert_eq!(try_recipe_from_json(&jstr("x"), s("f")).unwrap_err(), RecipeError::MalformedJson);
    // The ingredients are read before the result.
    let both_bad = obj(vec![("type", jstr("minecraft:smelting"))]);
    assert_eq!(try_recipe_from_json(&both_bad, s("f")).unwrap_err(), RecipeError::BrokenIngredients);
}

#[test]
fn result_slots() {
    let doc = JsonValue::Object(shaped(vec!["#"]));
    assert_eq!(result_slot(&doc), Ok(ResultSlot::ItemMember));
    assert_eq!(result_slot(&obj(vec![("result", jstr("a"))])), Ok(ResultSlot::Whole));
    assert_eq!(result_slot(&obj(vec![("result", obj(vec![]))])), Err(RecipeError::NoItem));
    assert_eq!(result_slot(&obj(vec![])), Err(RecipeError::NoResult));
    assert_eq!(result_slot(&obj(vec![("result", JsonValue::Bool(false))])), Err(RecipeError::MalformedResult));
    assert_eq!(result_slot(&JsonValue::Null), Err(RecipeError::MalformedJson));
}

#[test]
fn mc_names() {
    assert_eq!(convert_to_mc_name(&jstr("stone")), Some(s("minecraft:stone")));
    assert_eq!(convert_to_mc_name(&JsonValue::Number), None);
}

#[test]
fn age_logic_forms() {
    assert!(same_logic(&try_get_age_logic(&jstr("furnace")).unwrap(), &item("minecraft:furnace")));
    let t = obj(vec![("type", jstr("True"))]);
    assert!(same_logic(&try_get_age_logic(&t).unwrap(), &LogicDependency::True));
    let a = obj(vec![("type", jstr("And")), ("items", JsonValue::Array(vec![jstr("a"), jstr("b")]))]);
    assert!(same_logic(&try_get_age_logic(&a).unwrap(), &and(vec![item("minecraft:a"), item("minecraft:b")])));
    let o = obj(vec![("type", jstr("Or")), ("items", JsonValue::Array(vec![jstr("a"), a]))]);
    assert!(same_logic(
        &try_get_age_logic(&o).unwrap(),
        &or(vec![item("minecraft:a"), and(vec![item("minecraft:a"), item("minecraft:b")])])
    ));
}

#[test]
fn age_logic_errors() {
    assert_eq!(try_get_age_logic(&JsonValue::Number).unwrap_err(), ConfigError::BrokenConfig);
    assert_eq!(try_get_age_logic(&obj(vec![])).unwrap_err(), ConfigError::MissingTypeTag);
    assert_eq!(try_get_age_logic(&obj(vec![("type", jstr("And"))])).unwrap_err(), ConfigError::MissingItemsTag);
    assert_eq!(try_get_age_logic(&obj(vec![("type", jstr("And")), ("items", jstr("a"))])).unwrap_err(), ConfigError::BrokenItemsTag);
    let bad = obj(vec![("type", jstr("Xor")), ("items", JsonValue::Array(vec![]))]);
    assert_eq!(try_get_age_logic(&bad).unwrap_err(), ConfigError::InvalidType);
    // Operands are read before the type is checked.
    let bad_inner = obj(vec![("type", jstr("Xor")), ("items", JsonValue::Array(vec![JsonValue::Null]))]);
    assert_eq!(try_get_age_logic(&bad_inner).unwrap_err(), ConfigError::BrokenConfig);
}

fn group(requires: JsonValue, results: Vec<&str>) -> JsonValue {
    obj(vec![("requires", requires), ("results", JsonValue::Array(results.into_iter().map(jstr).collect()))])
}

#[test]
fn age_groups_document() {
    let doc = JsonValue::Array(vec![
        group(obj(vec![("type", jstr("True"))]), vec!["oak_log", "dirt"]),
        group(jstr("furnace"), vec!["iron_ore"]),
        group(obj(vec![("type", jstr("True"))]), vec!["stone"]),
    ]);
    let g = try_age_groups_from_json(&doc).unwrap();
    // The later `True` entry replaces the items of the earlier one in place.
    assert_eq!(g.len(), 2);
    assert!(same_logic(g.key_at(0), &LogicDependency::True));
    assert_eq!(g.items_at(0), &vec![s("minecraft:stone")]);
    assert!(same_logic(g.key_at(1), &item("minecraft:furnace")));
    assert_eq!(g.get(&item("minecraft:furnace")).unwrap(), &vec![s("minecraft:iron_ore")]);
    assert!(g.get(&item("minecraft:anvil")).is_none());
}

#[test]
fn age_groups_errors() {
    assert_eq!(try_age_groups_from_json(&obj(vec![])).err(), Some(ConfigError::NotArray));
    assert_eq!(try_age_groups_from_json(&JsonValue::Array(vec![obj(vec![])])).err(), Some(ConfigError::MissingRequires));
    assert_eq!(try_age_groups_from_json(&JsonValue::Array(vec![jstr("x")])).err(), Some(ConfigError::MissingRequires));
    let no_results = obj(vec![("requires", jstr("a"))]);
    assert_eq!(try_age_groups_from_json(&JsonValue::Array(vec![no_results])).err(), Some(ConfigError::MissingResults));
    let bad_results = obj(vec![("requires", jstr("a")), ("results", jstr("b"))]);
    assert_eq!(try_age_groups_from_json(&JsonValue::Array(vec![bad_results])).err(), Some(ConfigError::MalformedResults));
    let bad_name = obj(vec![("requires", jstr("a")), ("results", JsonValue::Array(vec![JsonValue::Number]))]);
    assert_eq!(try_age_groups_from_json(&JsonValue::Array(vec![bad_name])).err(), Some(ConfigError::ResultNotString));
}

#[test]
fn tag_documents() {
    let doc = obj(vec![("values", JsonValue::Array(vec![jstr("minecraft:oak_log"), jstr("#minecraft:birch_logs")]))]);
    assert!(same_logic(
        &try_tag_from_json(&doc).unwrap(),
        &or(vec![item("minecraft:oak_log"), tag("minecraft:birch_logs")])
    ));
    let not_list = obj(vec![("values", jstr("x"))]);
    assert!(same_logic(&try_tag_from_json(&not_list).unwrap(), &or(vec![])));
    assert_eq!(try_tag_from_json(&obj(vec![])).unwrap_err(), TagFileError::NoValues);
    assert_eq!(try_tag_from_json(&JsonValue::Array(vec![])).unwrap_err(), TagFileError::NoValues);
    let bad = obj(vec![("values", JsonValue::Array(vec![JsonValue::Number]))]);
    assert_eq!(try_tag_from_json(&bad).unwrap_err(), TagFileError::ValueNotString);
    let empty = obj(vec![("values", JsonValue::Array(vec![jstr("")]))]);
    assert_eq!(try_tag_from_json(&empty).unwrap_err(), TagFileError::BadFirstChar);
    let wide = obj(vec![("values", JsonValue::Array(vec![jstr("élan")]))]);
    assert_eq!(try_tag_from_json(&wide).unwrap_err(), TagFileError::BadFirstChar);
}

#[test]
fn tag_names() {
    assert_eq!(try_tag_name_from_file_name("planks.json").unwrap(), "minecraft:planks");
    assert_eq!(try_tag_name_from_file_name(".json").unwrap(), "minecraft:");
    assert_eq!(try_tag_name_from_file_name("a.js").unwrap_err(), TagFileError::NameTooShort);
    // Six bytes; the cut after the first byte falls inside `é`.
    assert_eq!(try_tag_name_from_file_name("éjson").unwrap_err(), TagFileError::NameNotCharBoundary);
    // The last five bytes go, whatever they are.
    assert_eq!(try_tag_name_from_file_name("wool.txt!").unwrap(), "minecraft:wool");
}

#[test]
fn tag_files_build_a_table() {
    let logs = obj(vec![("values", JsonValue::Array(vec![jstr("oak"), jstr("birch")]))]);
    let logs2 = obj(vec![("values", JsonValue::Array(vec![jstr("spruce")]))]);
    let planks = obj(vec![("values", JsonValue::Array(vec![jstr("#minecraft:logs")]))]);
    let files = vec![(s("logs.json"), logs), (s("planks.json"), planks), (s("logs.json"), logs2)];
    let t = get_all_tags(&files);
    // The later `logs.json` replaces the earlier one.
    assert!(same_logic(t.get(&s("minecraft:logs")).unwrap(), &or(vec![item("spruce")])));
    assert!(same_logic(t.get(&s("minecraft:planks")).unwrap(), &or(vec![tag("minecraft:logs")])));
    let bad = vec![(s("a.json"), obj(vec![])), (s("x"), obj(vec![("values", JsonValue::Array(vec![]))]))];
    assert_eq!(try_get_all_tags(&bad).err(), Some(TagFileError::NoValues));
    let short = vec![(s("x"), obj(vec![("values", JsonValue::Array(vec![]))]))];
    assert_eq!(try_get_all_tags(&short).err(), Some(TagFileError::NameTooShort));
}
