use recipe_randomizer::config::AgeGroups;
use recipe_randomizer::logic::{LogicDependency, TagTable};
use recipe_randomizer::progression::get_crucial_items;
use recipe_randomizer::recipe::Recipe;
use recipe_randomizer::shuffle::{shuffle_recipes, RoundOutcome, ShuffleError, ShuffleState};

fn s(x: &str) -> String {
    x.to_string()
}

fn items(xs: &[&str]) -> Vec<String> {
    xs.iter().map(|x| s(x)).collect()
}

fn item(x: &str) -> LogicDependency {
    LogicDependency::Item(s(x))
}

fn recipe(needs: LogicDependency, result: &str, file: &str) -> Recipe {
    Recipe { ingredients: needs, result: s(result), file: s(file) }
}

fn base_groups() -> AgeGroups {
    let mut g = AgeGroups::new();
    g.insert(LogicDependency::True, items(&["log"]));
    g
}

fn world() -> Vec<Recipe> {
    vec![
        recipe(item("log"), "planks", "planks.json"),
        recipe(item("planks"), "stick", "stick.json"),
        recipe(LogicDependency::And(vec![item("planks"), item("stick")]), "pickaxe", "pickaxe.json"),
        recipe(LogicDependency::True, "dirt", "dirt.json"),
        recipe(LogicDependency::Or(vec![item("log"), item("dirt")]), "torch", "torch.json"),
    ]
}

fn sorted(mut v: Vec<String>) -> Vec<String> {
    v.sort();
    v
}

#[test]
fn start_needs_base_items() {
    let empty = AgeGroups::new();
    assert!(matches!(ShuffleState::new(&world(), &empty), Err(ShuffleError::NoBaseItems)));
    let st = ShuffleState::new(&world(), &base_groups()).unwrap();
    assert_eq!(st.unlocked_items, items(&["log"]));
    assert_eq!(st.remaining_products, items(&["planks", "stick", "pickaxe", "dirt", "torch"]));
    assert_eq!(st.not_craftable_recipes.len(), 5);
    assert!(st.craftable_recipes.is_empty() && st.scrambled_recipes.is_empty());
    assert_eq!(st.iterations, 0);
}

#[test]
fn update_craftable_moves_makeable_recipes() {
    let tags = TagTable::new();
    let mut st = ShuffleState::new(&world(), &base_groups()).unwrap();
    st.update_craftable(&tags).unwrap();
    let files: Vec<String> = st.craftable_recipes.iter().map(|r| r.file.clone()).collect();
    assert_eq!(files, items(&["torch.json", "dirt.json", "planks.json"]));
    assert_eq!(st.not_craftable_recipes.len(), 2);
}

#[test]
fn assign_then_restore() {
    let tags = TagTable::new();
    let groups = base_groups();
    let sig = get_crucial_items(&groups, &tags).unwrap();
    let mut st = ShuffleState::new(&world(), &groups).unwrap();
    st.update_craftable(&tags).unwrap();
    // Give `pickaxe` (remaining index 2) to the `dirt` recipe (craftable index 1).
    st.assign_product(1, 2, &tags, &groups, &sig).unwrap();
    assert_eq!(st.scrambled_recipes.len(), 1);
    assert_eq!(st.scrambled_recipes[0].file, "dirt.json");
    assert_eq!(st.scrambled_recipes[0].result, "pickaxe");
    assert_eq!(st.remaining_products, items(&["planks", "stick", "dirt", "torch"]));
    assert_eq!(st.unlocked_items, items(&["log", "pickaxe"]));
    assert_eq!(st.craftable_recipes.len(), 2);
    // Take it back.
    st.restore_recipe(0);
    assert!(st.scrambled_recipes.is_empty());
    assert_eq!(st.remaining_products, items(&["planks", "stick", "dirt", "torch", "pickaxe"]));
    assert_eq!(st.unlocked_items, items(&["log"]));
    assert_eq!(st.craftable_recipes.last().unwrap().file, "dirt.json");
}

#[test]
fn assigning_a_significant_item_opens_its_age_group() {
    let tags = TagTable::new();
    let mut groups = base_groups();
    groups.insert(item("pickaxe"), items(&["iron_ore"]));
    let sig = get_crucial_items(&groups, &tags).unwrap();
    assert_eq!(sig, items(&["pickaxe"]));
    let mut st = ShuffleState::new(&world(), &groups).unwrap();
    st.update_craftable(&tags).unwrap();
    st.assign_product(0, 2, &tags, &groups, &sig).unwrap();
    assert_eq!(st.unlocked_items, items(&["log", "pickaxe", "log", "iron_ore"]));
}

#[test]
fn a_full_shuffle_gives_every_recipe_one_product() {
    let tags = TagTable::new();
    let groups = base_groups();
    let sig = get_crucial_items(&groups, &tags).unwrap();
    for _ in 0..20 {
        let mut rng = rand::thread_rng();
        let mut st = ShuffleState::new(&world(), &groups).unwrap();
        let mut rounds = 0;
        loop {
            match st.shuffle_round(&mut rng, &tags, &groups, &sig) {
                Ok(RoundOutcome::Finished) => break,
                Ok(RoundOutcome::Continue) => {},
                Err(e) => panic!("shuffle stopped: {:?}", e),
            }
            rounds += 1;
            assert!(rounds < 100_000);
        }
        assert!(st.remaining_products.is_empty());
        assert!(st.craftable_recipes.is_empty());
        assert!(st.not_craftable_recipes.is_empty());
        let files: Vec<String> = st.scrambled_recipes.iter().map(|r| r.file.clone()).collect();
        let products: Vec<String> = st.scrambled_recipes.iter().map(|r| r.result.clone()).collect();
        assert_eq!(
            sorted(files),
            sorted(items(&["planks.json", "stick.json", "pickaxe.json", "dirt.json", "torch.json"]))
        );
        assert_eq!(sorted(products), sorted(items(&["planks", "stick", "pickaxe", "dirt", "torch"])));
    }
}

#[test]
fn a_shuffle_with_nothing_makeable_is_stuck_without_recipes_to_take_back() {
    let tags = TagTable::new();
    let groups = base_groups();
    let sig = get_crucial_items(&groups, &tags).unwrap();
    let rs = vec![recipe(item("gold"), "crown", "crown.json")];
    let mut st = ShuffleState::new(&rs, &groups).unwrap();
    let mut rng = rand::thread_rng();
    assert!(matches!(
        st.shuffle_round(&mut rng, &tags, &groups, &sig),
        Err(ShuffleError::NothingToTakeBack)
    ));
}

#[test]
fn a_shuffle_without_recipes_has_no_products() {
    let tags = TagTable::new();
    let groups = base_groups();
    let sig = get_crucial_items(&groups, &tags).unwrap();
    let rs = vec![];
    let mut st = ShuffleState::new(&rs, &groups).unwrap();
    let mut rng = rand::thread_rng();
    assert!(matches!(
        st.shuffle_round(&mut rng, &tags, &groups, &sig),
        Err(ShuffleError::NothingToTakeBack)
    ));
}

#[test]
fn a_round_with_nothing_left_to_give() {
    let tags = TagTable::new();
    let groups = base_groups();
    let sig = get_crucial_items(&groups, &tags).unwrap();
    let mut st = ShuffleState {
        unlocked_items: items(&["log"]),
        not_craftable_recipes: vec![],
        craftable_recipes: vec![recipe(item("log"), "planks", "planks.json")],
        scrambled_recipes: vec![],
        remaining_products: vec![],
        iterations: 0,
    };
    let mut rng = rand::thread_rng();
    assert!(matches!(st.shuffle_round(&mut rng, &tags, &groups, &sig), Err(ShuffleError::NoProducts)));
}

#[test]
fn the_round_counter_does_not_wrap() {
    let tags = TagTable::new();
    let groups = base_groups();
    let sig = get_crucial_items(&groups, &tags).unwrap();
    let mut st = ShuffleState {
        unlocked_items: items(&["log", "dirt"]),
        not_craftable_recipes: vec![],
        craftable_recipes: vec![recipe(LogicDependency::True, "planks", "planks.json")],
        scrambled_recipes: vec![recipe(LogicDependency::True, "dirt", "dirt.json")],
        remaining_products: items(&["planks", "stick"]),
        iterations: i32::MAX,
    };
    let mut rng = rand::thread_rng();
    assert!(matches!(
        st.shuffle_round(&mut rng, &tags, &groups, &sig),
        Err(ShuffleError::IterationOverflow)
    ));
}

#[test]
fn shuffle_recipes_permutes_the_products() {
    let tags = TagTable::new();
    let groups = base_groups();
    let sig = get_crucial_items(&groups, &tags).unwrap();
    let mut rng = rand::thread_rng();
    for _ in 0..20 {
        let out = shuffle_recipes(&world(), &groups, &tags, &sig, &mut rng).unwrap();
        assert_eq!(out.len(), 5);
        let files: Vec<String> = out.iter().map(|r| r.file.clone()).collect();
        let products: Vec<String> = out.iter().map(|r| r.result.clone()).collect();
        assert_eq!(
            sorted(files),
            sorted(items(&["planks.json", "stick.json", "pickaxe.json", "dirt.json", "torch.json"]))
        );
        assert_eq!(sorted(products), sorted(items(&["planks", "stick", "pickaxe", "dirt", "torch"])));
        for r in &out {
            let original = world().into_iter().find(|w| w.file == r.file).unwrap();
            assert_eq!(format!("{:?}", r.ingredients), format!("{:?}", original.ingredients));
        }
    }
}

#[test]
fn shuffle_recipes_needs_base_items() {
    let tags = TagTable::new();
    let groups = AgeGroups::new();
    let mut rng = rand::thread_rng();
    assert!(matches!(
        shuffle_recipes(&world(), &groups, &tags, &vec![], &mut rng),
        Err(ShuffleError::NoBaseItems)
    ));
}

#[test]
fn run_stops_when_nothing_can_be_made() {
    let tags = TagTable::new();
    let groups = base_groups();
    let sig = get_crucial_items(&groups, &tags).unwrap();
    let rs = vec![recipe(item("gold"), "crown", "crown.json")];
    let mut st = ShuffleState::new(&rs, &groups).unwrap();
    let mut rng = rand::thread_rng();
    assert!(matches!(st.run(&mut rng, &tags, &groups, &sig), Err(ShuffleError::NothingToTakeBack)));
    assert_eq!(st.remaining_products, items(&["crown"]));
}

#[test]
fn a_round_is_stuck_when_only_significant_products_could_go_back() {
    let tags = TagTable::new();
    let groups = base_groups();
    let sig = items(&["pickaxe"]);
    let state = || ShuffleState {
        unlocked_items: items(&["log", "pickaxe"]),
        not_craftable_recipes: vec![recipe(item("gold"), "crown", "crown.json")],
        craftable_recipes: vec![],
        scrambled_recipes: vec![recipe(item("log"), "pickaxe", "planks.json")],
        remaining_products: items(&["planks"]),
        iterations: 0,
    };
    let mut rng = rand::thread_rng();
    assert!(matches!(state().pick_recipe_to_take_back(&mut rng, &tags, &sig), Err(ShuffleError::Stuck)));
    let mut st = state();
    assert!(matches!(st.shuffle_round(&mut rng, &tags, &groups, &sig), Err(ShuffleError::Stuck)));
}

#[test]
fn no_take_back_is_picked_while_recipes_wait_with_only_significant_products() {
    let tags = TagTable::new();
    let sig = items(&["pickaxe"]);
    let st = ShuffleState {
        unlocked_items: items(&["log", "pickaxe"]),
        not_craftable_recipes: vec![],
        craftable_recipes: vec![recipe(item("log"), "stick", "stick.json")],
        scrambled_recipes: vec![recipe(item("log"), "pickaxe", "planks.json")],
        remaining_products: items(&["planks"]),
        iterations: 0,
    };
    let mut rng = rand::thread_rng();
    assert!(matches!(st.pick_recipe_to_take_back(&mut rng, &tags, &sig), Ok(None)));
}

#[test]
fn shuffle_recipes_reports_a_missing_tag_of_the_first_update() {
    let tags = TagTable::new();
    let groups = base_groups();
    let rs = vec![recipe(LogicDependency::Tag(s("minecraft:logs")), "planks", "planks.json")];
    let mut rng = rand::thread_rng();
    match shuffle_recipes(&rs, &groups, &tags, &vec![], &mut rng) {
        Err(ShuffleError::MissingTag(t)) => assert_eq!(t, "minecraft:logs"),
        other => panic!("unexpected {:?}", other.map(|v| v.len())),
    }
}

#[test]
fn shuffle_recipes_with_nothing_makeable_from_the_base_items() {
    let tags = TagTable::new();
    let groups = base_groups();
    let rs = vec![recipe(item("gold"), "crown", "crown.json"), recipe(item("crown"), "gold", "gold.json")];
    let mut rng = rand::thread_rng();
    assert!(matches!(shuffle_recipes(&rs, &groups, &tags, &vec![], &mut rng), Err(ShuffleError::NothingToTakeBack)));
}

#[test]
fn shuffle_recipes_succeeds_when_everything_is_makeable_from_the_base_items() {
    let tags = TagTable::new();
    let groups = base_groups();
    let sig = get_crucial_items(&groups, &tags).unwrap();
    let rs = vec![
        recipe(item("log"), "planks", "planks.json"),
        recipe(LogicDependency::True, "dirt", "dirt.json"),
        recipe(LogicDependency::Or(vec![item("log"), item("stone")]), "torch", "torch.json"),
        recipe(LogicDependency::And(vec![item("log")]), "stick", "stick.json"),
        recipe(item("log"), "chest", "chest.json"),
        recipe(item("log"), "boat", "boat.json"),
        recipe(item("log"), "door", "door.json"),
    ];
    let mut rng = rand::thread_rng();
    for _ in 0..20 {
        let out = shuffle_recipes(&rs, &groups, &tags, &sig, &mut rng).unwrap();
        assert_eq!(out.len(), rs.len());
    }
}

#[test]
fn five_makeable_recipes_always_shuffle() {
    let tags = TagTable::new();
    let groups = base_groups();
    let sig = get_crucial_items(&groups, &tags).unwrap();
    let rs = vec![
        recipe(item("log"), "planks", "planks.json"),
        recipe(LogicDependency::True, "dirt", "dirt.json"),
        recipe(LogicDependency::Or(vec![item("log"), item("stone")]), "torch", "torch.json"),
        recipe(item("log"), "chest", "chest.json"),
        recipe(item("log"), "boat", "boat.json"),
    ];
    let mut rng = rand::thread_rng();
    for _ in 0..50 {
        assert!(shuffle_recipes(&rs, &groups, &tags, &sig, &mut rng).is_ok());
    }
}

#[test]
fn run_reports_a_missing_tag_met_when_unlocking() {
    let tags = TagTable::new();
    let mut groups = base_groups();
    groups.insert(LogicDependency::Tag(s("missing")), items(&["x"]));
    let sig = items(&["planks"]);
    let rs = vec![recipe(item("log"), "planks", "planks.json")];
    let mut st = ShuffleState::new(&rs, &groups).unwrap();
    let mut rng = rand::thread_rng();
    assert!(matches!(st.run(&mut rng, &tags, &groups, &sig), Err(ShuffleError::MissingTag(_))));
    assert_eq!(st.remaining_products, items(&["planks"]));
}
