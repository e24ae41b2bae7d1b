# pumpkin

The data-pack, scoreboard and command logic of a Minecraft server, written
as a Verus library: every function in `src/` carries a contract. Verus
proves them all, except the few marked `#[verifier::external_body]` that
wrap a standard-library call (UTF-8 decoding, `Debug` quoting) and
`String::push`'s specification, whose contracts are taken on trust.

- `src/` — the verified library: scoreboard state and its saved form,
  teams, display slots, objective criteria, command arguments (identifiers,
  NBT paths, score holders, functions, biome and item predicates), the
  function scheduler and stopwatches, data-pack loading decisions (function
  files, tags, pack order), advancements and their layout, recipes, block
  loot tables and what their draws drop, NBT values, the NBT form of world
  clocks and game rules with the types and directory of the world data
  files (the files themselves are not read or written by this crate), the
  steps of running a function, and the byte encodings of the scoreboard
  and advancement packets.
- `tests/` — tests of the library on concrete values.
- `app/` — what stays outside the proofs: reading packs from directories
  and ZIP archives, turning `serde_json` values into the library's JSON
  values, the floating-point roll counts and weights and the random draws
  of loot, the wall clock and feedback of stopwatches, and running
  functions, tags and scheduled events through a command dispatcher handed
  in by the caller.
- `src/scoreboard_laws.rs` — what each scoreboard operation means for every
  name and key, and that loading saved data and saving it again gives it
  back.
