use recipe_randomizer::config::AgeGroups;
use recipe_randomizer::logic::{try_rec_solve_logic, LogicDependency, LogicError, TagTable};
use recipe_randomizer::progression::{
    find_and_remove, find_craftable_recipes, get_crucial_items, get_dead_end_products,
    get_products_from_recipes, try_get_result_from_file, safe_to_remove, unlock_all_items, unlock_item,
    unlock_items_and_check, DeadEndError,
};
use recipe_randomizer::recipe::Recipe;

fn s(x: &str) -> String {
    x.to_string()
}

fn items(xs: &[&str]) -> Vec<String> {
    xs.iter().map(|x| s(x)).collect()
}

fn item(x: &str) -> LogicDependency {
    LogicDependency::Item(s(x))
}

fn recipe(needs: LogicDependency, result: &str, file: &str) -> Recipe {
    Recipe { ingredients: needs, result: s(result), file: s(file) }
}

fn files(v: &Vec<Recipe>) -> Vec<String> {
    v.iter().map(|r| r.file.clone()).collect()
}

#[test]
fn find_and_remove_takes_the_last_copy() {
    let mut v = items(&["a", "b", "a", "c"]);
    find_and_remove(&mut v, "a");
    assert_eq!(v, items(&["a", "b", "c"]));
    find_and_remove(&mut v, "z");
    assert_eq!(v, items(&["a", "b", "c"]));
}

#[test]
fn take_back_then_unlock_gives_the_same_items() {
    let original = items(&["a", "b", "a", "c"]);
    let mut v = original.clone();
    find_and_remove(&mut v, "b");
    assert!(unlock_item(&mut v, "b"));
    let mut x = v.clone();
    x.sort();
    let mut y = original.clone();
    y.sort();
    assert_eq!(x, y);
}

#[test]
fn unlocking_appends() {
    let mut v = items(&["a"]);
    assert!(unlock_item(&mut v, "b"));
    unlock_all_items(&mut v, &items(&["c", "a"]));
    assert_eq!(v, items(&["a", "b", "c", "a"]));
}

#[test]
fn products_and_files() {
    let rs = vec![recipe(item("x"), "p1", "f1"), recipe(item("y"), "p2", "f2"), recipe(item("z"), "p3", "f1")];
    assert_eq!(get_products_from_recipes(&rs), items(&["p1", "p2", "p3"]));
    assert_eq!(try_get_result_from_file("f1", &rs), Some(s("p1")));
    assert_eq!(try_get_result_from_file("f2", &rs), Some(s("p2")));
    assert_eq!(try_get_result_from_file("f9", &rs), None);
}

#[test]
fn craftable_recipes_move_from_last_to_first() {
    let tags = TagTable::new();
    let have = items(&["a", "b"]);
    let mut craftable = vec![recipe(item("a"), "p0", "f0")];
    let mut waiting = vec![
        recipe(item("a"), "p1", "f1"),
        recipe(item("c"), "p2", "f2"),
        recipe(item("b"), "p3", "f3"),
        recipe(item("d"), "p4", "f4"),
    ];
    find_craftable_recipes(&have, &mut craftable, &mut waiting, &tags).unwrap();
    assert_eq!(files(&craftable), items(&["f0", "f3", "f1"]));
    assert_eq!(files(&waiting), items(&["f2", "f4"]));
}

#[test]
fn craftable_search_error_moves_nothing() {
    let tags = TagTable::new();
    let have = items(&["a"]);
    let mut craftable = vec![];
    let mut waiting = vec![
        recipe(LogicDependency::Tag(s("missing")), "p1", "f1"),
        recipe(item("a"), "p2", "f2"),
    ];
    match find_craftable_recipes(&have, &mut craftable, &mut waiting, &tags) {
        Err(LogicError::MissingTag(t)) => assert_eq!(t, "missing"),
        other => panic!("unexpected {:?}", other),
    }
    assert!(craftable.is_empty());
    assert_eq!(files(&waiting), items(&["f1", "f2"]));
}

#[test]
fn safe_removal() {
    let tags = TagTable::new();
    let unlocked = items(&["a", "b", "b"]);
    let craftable = vec![recipe(item("b"), "p", "f")];
    let sig = items(&["s"]);
    // One copy of `b` is left.
    assert!(matches!(safe_to_remove(&unlocked, &s("b"), &craftable, &tags, &sig), Ok(true)));
    // Without `a` nothing listed needs it.
    assert!(matches!(safe_to_remove(&unlocked, &s("a"), &craftable, &tags, &sig), Ok(true)));
    let single = items(&["a", "b"]);
    assert!(matches!(safe_to_remove(&single, &s("b"), &craftable, &tags, &sig), Ok(false)));
    // A significant item is never taken back.
    let with_sig = items(&["s"]);
    assert!(matches!(safe_to_remove(&with_sig, &s("s"), &vec![], &tags, &sig), Ok(false)));
}

fn groups() -> AgeGroups {
    let mut g = AgeGroups::new();
    g.insert(LogicDependency::True, items(&["minecraft:dirt"]));
    g.insert(item("minecraft:furnace"), items(&["minecraft:iron_ore"]));
    g.insert(item("minecraft:iron_ore"), items(&["minecraft:diamond_ore"]));
    g
}

#[test]
fn unlocking_a_significant_item_opens_age_groups_in_order() {
    let tags = TagTable::new();
    let g = groups();
    let sig = get_crucial_items(&g, &tags).unwrap();
    assert_eq!(sig, items(&["minecraft:furnace", "minecraft:iron_ore"]));
    let mut unlocked = items(&["minecraft:dirt"]);
    unlock_items_and_check(&mut unlocked, &s("minecraft:furnace"), &tags, &g, &sig).unwrap();
    assert_eq!(
        unlocked,
        items(&[
            "minecraft:dirt",
            "minecraft:furnace",
            "minecraft:dirt",
            "minecraft:iron_ore",
            "minecraft:diamond_ore",
        ])
    );
}

#[test]
fn unlocking_an_ordinary_item_only_adds_it() {
    let tags = TagTable::new();
    let g = groups();
    let sig = items(&["minecraft:furnace"]);
    let mut unlocked = items(&["minecraft:dirt"]);
    unlock_items_and_check(&mut unlocked, &s("minecraft:stick"), &tags, &g, &sig).unwrap();
    assert_eq!(unlocked, items(&["minecraft:dirt", "minecraft:stick"]));
}

#[test]
fn unlocking_error_leaves_items() {
    let tags = TagTable::new();
    let mut g = AgeGroups::new();
    g.insert(LogicDependency::Tag(s("missing")), items(&["x"]));
    let sig = items(&["k"]);
    let mut unlocked = items(&["a"]);
    assert!(unlock_items_and_check(&mut unlocked, &s("k"), &tags, &g, &sig).is_err());
    assert_eq!(unlocked, items(&["a"]));
    assert!(get_crucial_items(&g, &tags).is_err());
}

#[test]
fn dead_ends_are_the_unneeded_products() {
    let tags = TagTable::new();
    let rs = vec![
        recipe(LogicDependency::And(vec![item("p1"), item("p3")]), "p4", "f1"),
        recipe(item("p2"), "p5", "f2"),
    ];
    let products = items(&["p1", "p2", "p3", "p4", "p5", "p1"]);
    assert_eq!(get_dead_end_products(&rs, &products, &tags).unwrap(), items(&["p4", "p5"]));
}

#[test]
fn dead_ends_with_a_repeated_requirement() {
    let tags = TagTable::new();
    // `p1` is named twice: the second removal takes the entry after it.
    let rs = vec![recipe(LogicDependency::And(vec![item("p1"), item("p1")]), "x", "f")];
    let products = items(&["p0", "p1", "p2"]);
    assert_eq!(get_dead_end_products(&rs, &products, &tags).unwrap(), items(&["p0"]));
    // At the end of the list there is nothing to take the second time.
    let products = items(&["p0", "p1"]);
    assert!(matches!(get_dead_end_products(&rs, &products, &tags), Err(DeadEndError::RemovalOutOfRange)));
}

#[test]
fn dead_ends_missing_tag() {
    let tags = TagTable::new();
    let rs = vec![recipe(LogicDependency::Tag(s("t")), "x", "f")];
    match get_dead_end_products(&rs, &items(&["a"]), &tags) {
        Err(DeadEndError::MissingTag(t)) => assert_eq!(t, "t"),
        other => panic!("unexpected {:?}", other),
    }
}

#[test]
fn a_safe_take_back_keeps_every_craftable_recipe_craftable() {
    let mut tags = TagTable::new();
    tags.insert(s("minecraft:wood"), LogicDependency::Or(vec![item("oak"), item("birch")]));
    let unlocked = items(&["oak", "birch", "stone", "oak"]);
    let craftable = vec![
        recipe(LogicDependency::Tag(s("minecraft:wood")), "planks", "planks.json"),
        recipe(LogicDependency::And(vec![item("stone"), item("oak")]), "axe", "axe.json"),
    ];
    let sig = items(&["stone"]);
    for x in ["oak", "birch"] {
        assert!(matches!(safe_to_remove(&unlocked, &s(x), &craftable, &tags, &sig), Ok(true)));
        let mut left = unlocked.clone();
        find_and_remove(&mut left, x);
        for r in &craftable {
            assert!(matches!(try_rec_solve_logic(&r.ingredients, &left, &tags), Ok(true)));
        }
    }
    assert!(matches!(safe_to_remove(&unlocked, &s("stone"), &craftable, &tags, &sig), Ok(false)));
}

#[test]
fn unlocking_keeps_what_was_held() {
    let tags = TagTable::new();
    let g = groups();
    let sig = get_crucial_items(&g, &tags).unwrap();
    let before = items(&["minecraft:stick", "minecraft:dirt"]);
    for chosen in ["minecraft:furnace", "minecraft:iron_ore", "minecraft:stick"] {
        let mut unlocked = before.clone();
        unlock_items_and_check(&mut unlocked, &s(chosen), &tags, &g, &sig).unwrap();
        assert!(unlocked.len() > before.len());
        assert_eq!(&unlocked[..before.len()], &before[..]);
        assert_eq!(unlocked[before.len()], chosen);
    }
}

#[test]
fn a_second_craftable_search_moves_nothing() {
    let tags = TagTable::new();
    let have = items(&["a", "b"]);
    let mut craftable = vec![];
    let mut waiting = vec![
        recipe(item("a"), "p1", "f1"),
        recipe(item("c"), "p2", "f2"),
        recipe(LogicDependency::Or(vec![item("d"), item("b")]), "p3", "f3"),
        recipe(item("d"), "p4", "f4"),
    ];
    find_craftable_recipes(&have, &mut craftable, &mut waiting, &tags).unwrap();
    assert_eq!(files(&craftable), items(&["f3", "f1"]));
    assert_eq!(files(&waiting), items(&["f2", "f4"]));
    find_craftable_recipes(&have, &mut craftable, &mut waiting, &tags).unwrap();
    assert_eq!(files(&craftable), items(&["f3", "f1"]));
    assert_eq!(files(&waiting), items(&["f2", "f4"]));
}

#[test]
fn age_groups_keep_one_group_per_formula() {
    let tags = TagTable::new();
    let mut g = AgeGroups::new();
    g.insert(item("minecraft:furnace"), items(&["minecraft:iron_ore"]));
    g.insert(item("minecraft:furnace"), items(&["minecraft:coal"]));
    assert_eq!(g.len(), 1);
    let sig = get_crucial_items(&g, &tags).unwrap();
    assert_eq!(sig, items(&["minecraft:furnace"]));
    let mut unlocked = items(&[]);
    unlock_items_and_check(&mut unlocked, &s("minecraft:furnace"), &tags, &g, &sig).unwrap();
    assert_eq!(unlocked, items(&["minecraft:furnace", "minecraft:coal"]));
}
