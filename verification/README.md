# Arc Maze

The rules of a small first-person dungeon game, written in Verus and proved
against their contracts: loot rolling, the bag grid and equipment, the maze
generator, skeleton and chest placement, the start-screen trader and stash,
the in-game panels and hotkeys, spell charges, and a few procedural helpers.

Layout:

- `src/` is the verified library (`arc_maze`).
  - `rng.rs`: the random generator (`rand`'s `StdRng`) behind trusted wrappers.
  - `items.rs`, `stats.rs`: items, rarities, attribute rolls, player stats.
  - `inventory.rs`: the bag grid, chests, and equipping.
  - `maze.rs`: depth-first maze carving, proved to give a perfect maze
    (every cell reachable through exactly `w * h - 1` passages) with three exits.
  - `encounters.rs`: skeleton placement (breadth-first, nearest first), gold
    drops, chest tiers and loot counts.
  - `menu.rs`: stash, trader, buyback shelf, refreshes, equipment slots.
  - `controls.rs`: bag and chest panels, window hotkeys, opening chests.
  - `loadout.rs`, `spells.rs`: held weapons, avatar parts, spell charges.
  - `procgen.rs`, `util.rs`: texture hash, stable item roll, WAV framing,
    weighted picks, decimal and hex-colour text.
- `tests/` exercises the library on concrete values.
- `app/` is the thin program around it: the JSON save file, the float-valued
  rules (limb health, movement speed), and building a level.

Every roll draws through `rng::Dice`, which keeps a ghost record of each draw
(what was asked of the generator and what came back). The contracts of the
rolls state that record: which draws a roll makes, with which arguments, and
what it makes of their values (see `item_draws`, `chest_draws`,
`stock_draws`).

Items carry no value scale of their own: the game refers to an item's base
value and its trader stock key but never defines either.
So the two rolls that keep the best of several candidates (`roll_chest_item`
and the trader's `restock`) take each candidate's base value from their
caller, and the trader's prices, which are computed from that value, are not
part of the library.
