# recipe_randomizer

Shuffles the products of Minecraft crafting recipes round by round: a round
gives a random remaining product to a recipe that the items unlocked so far
let one make, and may first take back a product whose removal keeps the
craftable recipes craftable.

The library under `src/` is verified with Verus:

- `logic` – requirement formulas (`LogicDependency`), the tag table, formula
  evaluation and the items a formula mentions; the check that no tag reaches
  itself.
- `json` – the JSON documents the data files hold.
- `recipe` – reading a recipe document: its requirement formula and product.
- `config` – reading the age groups of the configuration.
- `tag_file` – reading a tag document and naming the tag after its file.
- `progression` – unlocking items, taking them back, moving recipes that
  become craftable, significant items and dead-end products.
- `shuffle` – the shuffle itself, one round at a time or to the end, with the
  invariant that recipes and products are only moved, never lost or made up.

`app/main.rs` reads `./recipes`, `./tags` and `./config.json`, runs the
shuffle and writes the new products back into the recipe files.
