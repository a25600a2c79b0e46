//! Logic of a crafting-recipe randomizer: recipe requirement formulas,
//! tag tables, recipe and configuration formats, unlock progression and
//! the product shuffle.

pub mod json;
pub mod logic;
pub mod recipe;
pub mod config;
pub mod tag_file;
pub mod progression;
pub mod shuffle;
