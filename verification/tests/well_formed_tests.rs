use recipe_randomizer::config::{age_groups_from_json, get_age_logic};
use recipe_randomizer::json::JsonValue;
use recipe_randomizer::logic::{rec_get_all_referenced_recipes, rec_solve_logic, same_logic, LogicDependency, TagTable};
use recipe_randomizer::progression::get_result_from_file;
use recipe_randomizer::recipe::{
    get_crafting_pattern_size, get_logic_from_data, get_logic_from_item, get_logic_from_key, get_logic_from_options,
    get_result_from_data, recipe_from_json,
};
use recipe_randomizer::tag_file::{tag_from_json, tag_name_from_file_name};

fn s(x: &str) -> String {
    x.to_string()
}

fn jstr(x: &str) -> JsonValue {
    JsonValue::Str(s(x))
}

fn members(m: Vec<(&str, JsonValue)>) -> Vec<(String, JsonValue)> {
    m.into_iter().map(|(k, v)| (s(k), v)).collect()
}

fn item(x: &str) -> LogicDependency {
    LogicDependency::Item(s(x))
}

fn ingredient(x: &str) -> JsonValue {
    JsonValue::Object(members(vec![("item", jstr(x))]))
}

#[test]
fn well_formed_ingredients() {
    assert!(same_logic(&get_logic_from_item(&ingredient("minecraft:stick")), &item("minecraft:stick")));
    let opts = vec![ingredient("a"), ingredient("b")];
    assert!(same_logic(&get_logic_from_options(&opts, false), &LogicDependency::Or(vec![item("a"), item("b")])));
    assert!(same_logic(&get_logic_from_options(&opts, true), &LogicDependency::And(vec![item("a"), item("b")])));
    let key = members(vec![("#", ingredient("planks"))]);
    assert!(same_logic(&get_logic_from_key(&key), &LogicDependency::And(vec![item("planks")])));
    assert_eq!(get_crafting_pattern_size(&vec![jstr("###"), jstr("# #")]), 3);
    assert_eq!(get_crafting_pattern_size(&vec![jstr("##")]), 2);
}

#[test]
fn well_formed_recipe_document() {
    let o = members(vec![
        ("type", jstr("minecraft:smelting")),
        ("ingredient", ingredient("minecraft:iron_ore")),
        ("result", jstr("minecraft:iron_ingot")),
    ]);
    let expected = LogicDependency::And(vec![item("minecraft:furnace"), item("minecraft:iron_ore")]);
    assert!(same_logic(&get_logic_from_data(&o), &expected));
    assert_eq!(get_result_from_data(&o), "minecraft:iron_ingot");
    let r = recipe_from_json(&JsonValue::Object(o), s("iron_ingot.json"));
    assert!(same_logic(&r.ingredients, &expected));
    assert_eq!(r.result, "minecraft:iron_ingot");
    assert_eq!(r.file, "iron_ingot.json");
    let rs = vec![r];
    assert_eq!(get_result_from_file("iron_ingot.json", &rs), "minecraft:iron_ingot");
}

#[test]
fn well_formed_config_and_tags() {
    assert!(same_logic(&get_age_logic(&jstr("furnace")), &item("minecraft:furnace")));
    let doc = JsonValue::Array(vec![JsonValue::Object(members(vec![
        ("requires", JsonValue::Object(members(vec![("type", jstr("True"))]))),
        ("results", JsonValue::Array(vec![jstr("dirt")])),
    ]))]);
    let g = age_groups_from_json(&doc);
    assert_eq!(g.len(), 1);
    assert_eq!(g.items_at(0), &vec![s("minecraft:dirt")]);
    let t = JsonValue::Object(members(vec![("values", JsonValue::Array(vec![jstr("a"), jstr("#b")]))]));
    assert!(same_logic(&tag_from_json(&t), &LogicDependency::Or(vec![item("a"), LogicDependency::Tag(s("b"))])));
    assert_eq!(tag_name_from_file_name("logs.json"), "minecraft:logs");
}

#[test]
fn well_formed_evaluation_and_listing() {
    let mut tags = TagTable::new();
    tags.insert(s("minecraft:logs"), LogicDependency::Or(vec![item("oak"), item("birch")]));
    let f = LogicDependency::And(vec![LogicDependency::Tag(s("minecraft:logs")), item("stick")]);
    assert!(rec_solve_logic(&f, &vec![s("birch"), s("stick")], &tags));
    assert!(!rec_solve_logic(&f, &vec![s("birch")], &tags));
    assert_eq!(rec_get_all_referenced_recipes(&f, &tags), vec![s("oak"), s("birch"), s("stick")]);
}
