//! Parsing of item descriptions copied from the game client, a plain
//! model of Lua data tables, and a lookup of item modifiers by their text.

mod text;
pub mod item_parser;
pub mod lua_struct;
pub mod decimal;
pub mod binary64;
pub mod mod_lookup;
