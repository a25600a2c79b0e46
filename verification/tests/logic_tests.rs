use recipe_randomizer::logic::{
    try_rec_get_all_referenced_recipes, try_rec_solve_logic, same_logic, LogicDependency, LogicError, TagTable,
};

fn s(x: &str) -> String {
    x.to_string()
}

fn item(x: &str) -> LogicDependency {
    LogicDependency::Item(s(x))
}

fn tag(x: &str) -> LogicDependency {
    LogicDependency::Tag(s(x))
}

fn items(xs: &[&str]) -> Vec<String> {
    xs.iter().map(|x| s(x)).collect()
}

fn planks_table() -> TagTable {
    let mut tags = TagTable::new();
    tags.insert(
        s("minecraft:logs"),
        LogicDependency::Or(vec![item("minecraft:oak_log"), item("minecraft:birch_log")]),
    );
    tags.insert(
        s("minecraft:planks"),
        LogicDependency::Or(vec![item("minecraft:oak_planks"), tag("minecraft:logs")]),
    );
    tags
}

#[test]
fn solve_item_present_and_absent() {
    let tags = TagTable::new();
    let have = items(&["minecraft:stick"]);
    assert!(matches!(try_rec_solve_logic(&item("minecraft:stick"), &have, &tags), Ok(true)));
    assert!(matches!(try_rec_solve_logic(&item("minecraft:stone"), &have, &tags), Ok(false)));
    assert!(matches!(try_rec_solve_logic(&LogicDependency::True, &have, &tags), Ok(true)));
}

#[test]
fn solve_and_or() {
    let tags = TagTable::new();
    let have = items(&["a", "b"]);
    let both = LogicDependency::And(vec![item("a"), item("b")]);
    let need_c = LogicDependency::And(vec![item("a"), item("c")]);
    let either = LogicDependency::Or(vec![item("c"), item("b")]);
    let none = LogicDependency::Or(vec![]);
    let all_of_nothing = LogicDependency::And(vec![]);
    assert!(matches!(try_rec_solve_logic(&both, &have, &tags), Ok(true)));
    assert!(matches!(try_rec_solve_logic(&need_c, &have, &tags), Ok(false)));
    assert!(matches!(try_rec_solve_logic(&either, &have, &tags), Ok(true)));
    assert!(matches!(try_rec_solve_logic(&none, &have, &tags), Ok(false)));
    assert!(matches!(try_rec_solve_logic(&all_of_nothing, &have, &tags), Ok(true)));
}

#[test]
fn solve_through_nested_tags() {
    let tags = planks_table();
    let have = items(&["minecraft:birch_log"]);
    assert!(matches!(try_rec_solve_logic(&tag("minecraft:planks"), &have, &tags), Ok(true)));
    let none = items(&["minecraft:dirt"]);
    assert!(matches!(try_rec_solve_logic(&tag("minecraft:planks"), &none, &tags), Ok(false)));
}

#[test]
fn solve_missing_tag_is_an_error() {
    let tags = TagTable::new();
    let have = items(&["a"]);
    match try_rec_solve_logic(&tag("minecraft:wool"), &have, &tags) {
        Err(LogicError::MissingTag(t)) => assert_eq!(t, "minecraft:wool"),
        other => panic!("unexpected {:?}", other),
    }
}

#[test]
fn solve_stops_at_the_deciding_operand() {
    let tags = TagTable::new();
    let have = items(&["a"]);
    // `Or` is decided by `a` before it reaches the missing tag.
    let or = LogicDependency::Or(vec![item("a"), tag("missing")]);
    assert!(matches!(try_rec_solve_logic(&or, &have, &tags), Ok(true)));
    // `And` fails at `b` before it reaches the missing tag.
    let and = LogicDependency::And(vec![item("b"), tag("missing")]);
    assert!(matches!(try_rec_solve_logic(&and, &have, &tags), Ok(false)));
    // Otherwise the missing tag is met.
    let and2 = LogicDependency::And(vec![item("a"), tag("missing")]);
    assert!(matches!(try_rec_solve_logic(&and2, &have, &tags), Err(LogicError::MissingTag(_))));
}

#[test]
fn more_items_keep_formula_satisfied() {
    let tags = planks_table();
    let f = LogicDependency::And(vec![tag("minecraft:planks"), item("minecraft:stick")]);
    let few = items(&["minecraft:oak_log", "minecraft:stick"]);
    let more = items(&["minecraft:oak_log", "minecraft:stick", "minecraft:dirt", "minecraft:oak_planks"]);
    assert!(matches!(try_rec_solve_logic(&f, &few, &tags), Ok(true)));
    assert!(matches!(try_rec_solve_logic(&f, &more, &tags), Ok(true)));
}

#[test]
fn referenced_items_in_order() {
    let tags = planks_table();
    let f = LogicDependency::And(vec![tag("minecraft:planks"), item("minecraft:stick"), LogicDependency::True]);
    let r = try_rec_get_all_referenced_recipes(&f, &tags).unwrap();
    assert_eq!(
        r,
        items(&["minecraft:oak_planks", "minecraft:oak_log", "minecraft:birch_log", "minecraft:stick"])
    );
}

#[test]
fn referenced_missing_tag_even_behind_an_or() {
    let tags = TagTable::new();
    let f = LogicDependency::Or(vec![item("a"), tag("missing")]);
    match try_rec_get_all_referenced_recipes(&f, &tags) {
        Err(LogicError::MissingTag(t)) => assert_eq!(t, "missing"),
        other => panic!("unexpected {:?}", other),
    }
}

#[test]
fn tag_table_read_after_write() {
    let mut tags = TagTable::new();
    assert!(tags.get(&s("x")).is_none());
    tags.insert(s("x"), item("first"));
    tags.insert(s("y"), item("other"));
    tags.insert(s("x"), item("second"));
    let got = tags.get(&s("x")).unwrap();
    assert!(same_logic(got, &item("second")));
    assert!(same_logic(tags.get(&s("y")).unwrap(), &item("other")));
    assert!(tags.get(&s("z")).is_none());
}

#[test]
fn same_logic_and_clone() {
    let a = LogicDependency::Or(vec![item("a"), LogicDependency::And(vec![tag("t"), LogicDependency::True])]);
    let b = a.clone();
    assert!(same_logic(&a, &b));
    assert_eq!(a, b);
    let c = LogicDependency::Or(vec![item("a"), LogicDependency::And(vec![tag("u"), LogicDependency::True])]);
    assert!(!same_logic(&a, &c));
    assert!(!same_logic(&item("a"), &tag("a")));
    assert!(!same_logic(&LogicDependency::And(vec![]), &LogicDependency::Or(vec![])));
    assert!(!same_logic(&LogicDependency::And(vec![item("a")]), &LogicDependency::And(vec![])));
}

#[test]
fn acyclic_tables() {
    assert!(planks_table().is_acyclic());
    assert!(TagTable::new().is_acyclic());
    // A tag may name a tag the table does not hold.
    let mut open = TagTable::new();
    open.insert(s("a"), tag("elsewhere"));
    assert!(open.is_acyclic());
}

#[test]
fn cyclic_tables() {
    let mut selfish = TagTable::new();
    selfish.insert(s("a"), LogicDependency::Or(vec![item("x"), tag("a")]));
    assert!(!selfish.is_acyclic());
    let mut pair = TagTable::new();
    pair.insert(s("a"), tag("b"));
    pair.insert(s("b"), LogicDependency::And(vec![item("y"), tag("a")]));
    pair.insert(s("c"), item("z"));
    assert!(!pair.is_acyclic());
    // Replacing the binding breaks the cycle.
    pair.insert(s("b"), item("y"));
    assert!(pair.is_acyclic());
}

#[test]
fn more_items_can_reach_a_missing_tag() {
    let tags = TagTable::new();
    let f = LogicDependency::Or(vec![LogicDependency::And(vec![item("a"), tag("missing")]), item("b")]);
    assert!(matches!(try_rec_solve_logic(&f, &items(&["b"]), &tags), Ok(true)));
    assert!(matches!(try_rec_solve_logic(&f, &items(&["a", "b"]), &tags), Err(LogicError::MissingTag(_))));
}

#[test]
fn a_cycle_that_the_evaluation_never_enters() {
    let mut tags = TagTable::new();
    tags.insert(s("a"), LogicDependency::Or(vec![item("x"), tag("a")]));
    tags.insert(s("b"), item("y"));
    assert!(!tags.is_acyclic());
    // `x` decides the `Or` before the tag comes up again.
    assert!(matches!(try_rec_solve_logic(&tag("a"), &items(&["x"]), &tags), Ok(true)));
    assert!(matches!(try_rec_solve_logic(&tag("b"), &items(&[]), &tags), Ok(false)));
    assert_eq!(try_rec_get_all_referenced_recipes(&tag("b"), &tags).unwrap(), items(&["y"]));
}

#[test]
fn listing_an_and_of_two_lists() {
    let tags = planks_table();
    let v1 = vec![tag("minecraft:logs"), item("a")];
    let v2 = vec![item("b"), tag("minecraft:planks")];
    let both: Vec<LogicDependency> = v1.iter().chain(v2.iter()).cloned().collect();
    let mut expected = try_rec_get_all_referenced_recipes(&LogicDependency::And(v1), &tags).unwrap();
    expected.extend(try_rec_get_all_referenced_recipes(&LogicDependency::And(v2), &tags).unwrap());
    assert_eq!(try_rec_get_all_referenced_recipes(&LogicDependency::And(both), &tags).unwrap(), expected);
}

#[test]
fn only_mentioned_items_matter() {
    let tags = planks_table();
    let f = LogicDependency::And(vec![tag("minecraft:planks"), item("minecraft:stick")]);
    let refs = try_rec_get_all_referenced_recipes(&f, &tags).unwrap();
    let many = items(&["minecraft:dirt", "minecraft:birch_log", "minecraft:stone", "minecraft:stick"]);
    let only: Vec<String> = many.iter().filter(|x| refs.contains(x)).cloned().collect();
    assert_eq!(only, items(&["minecraft:birch_log", "minecraft:stick"]));
    assert!(matches!(try_rec_solve_logic(&f, &many, &tags), Ok(true)));
    assert!(matches!(try_rec_solve_logic(&f, &only, &tags), Ok(true)));
}

#[test]
fn holding_every_mentioned_item_satisfies_a_formula() {
    let tags = planks_table();
    let f = LogicDependency::And(vec![tag("minecraft:planks"), LogicDependency::Or(vec![item("x"), item("y")])]);
    let refs = try_rec_get_all_referenced_recipes(&f, &tags).unwrap();
    assert!(matches!(try_rec_solve_logic(&f, &refs, &tags), Ok(true)));
    // An `Or` without operands is never satisfied.
    let g = LogicDependency::And(vec![item("x"), LogicDependency::Or(vec![])]);
    let grefs = try_rec_get_all_referenced_recipes(&g, &tags).unwrap();
    assert!(matches!(try_rec_solve_logic(&g, &grefs, &tags), Ok(false)));
}
