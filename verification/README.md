# poe_items

Tools around the items of an action role-playing game:

- `item_parser`: reads the text that the game client copies for an item
  (class, rarity, name, base, requirements, sockets, level, quality,
  affixes and their bracketed notes, corruption) into an `Item`.
- `lua_struct`: a plain model of the data of a Lua table (string keys and
  the list of values under integer keys).
- `mod_lookup`: a store of item modifiers filed under their text with the
  numbers replaced by `#`, and the lookup of the tier that an affix line
  shows.
- `decimal`: decimal numbers as written in modifier texts, read digit by
  digit.
- `binary64`: the binary64 (double) value nearest a decimal number, computed
  exactly on numbers of any size and given by its bit pattern, so that
  modifier ranges compare as doubles do.
- `text`: character helpers.

Every function in `src/` carries a contract that Verus proves, but for a
few small trusted wrappers whose contracts are documented beside them: the
calls into the `regex` crate, and one call into std that collects
characters into a `String`. `app/` holds the program: it reads an item file and
a Lua file (through `piccolo`) and prints what it read.
