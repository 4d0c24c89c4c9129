# lua_script_manager

The boundary between a card-game engine written in Rust and the Luau scripts
that define its cards. Each card script is registered from a package's
`manifest.toml`, loaded once into its own sandboxed environment, and then
called by the engine (procedures such as `when_enters_battlefield`) or read
(data sub-tables such as `define = { ... }`). Scripts and the engine talk
through an event bus in both directions.

## Layout

- `src/` — the library, verified with Verus:
  - `registry.rs`: the registered scripts (path and version of each id);
  - `cache.rs`: the W-TinyLFU cache of loaded environments (`caches`);
  - `manager.rs`: what registering, invalidating, loading, calling and
    reading a sub-table come to;
  - `event_bus.rs`: subscriptions by event and the order of an emission;
  - `convert.rs`: conversion of Luau values into `LuaTableValue`s;
  - `lua_table.rs`, `from_table.rs`: the values handed to the engine and the
    field-by-field conversion into typed structs (`FromLuaTable`);
  - `call_result.rs`, `manifest.rs`, `test_state.rs`, `decimal.rs`;
  - `laws.rs`: properties that span several operations.
- `app/` — the Luau VM (`mlua`), files on disk (`walkdir`, `toml`, `serde`),
  the scripting API modules, and the handlers behind the bus. It performs the
  steps the library decides.
- `tests/` — tests of the library.
