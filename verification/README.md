# RRMF

A runtime modding framework for Rust programs, built on ptrace. A target needs no changes of its source:
its debug information is enough. Mods are [Rhai](https://rhai.rs) scripts that hook functions of the
running target.

1. `cargo rrmf build` builds the target and writes what its debug information says (functions, layouts of
   types, statics) into a metadata file next to the binary. `cargo rrmf extract` does so for a binary that
   is already there.
2. `rrmf-launcher` starts the binary under ptrace, sets breakpoints on the functions that the mod hooks,
   and runs the mod when they are hit.

```
cargo rrmf build [--crate NAME]... [cargo args]
cargo rrmf extract [--crate NAME]... <binary>
rrmf-launcher <binary> <mod.rhai> [args...]
```

Linux on x86-64 only.

## Layout

`src/` is the library, verified with Verus.

- Extraction: `object_file` and `dwarf_reader` read binaries and debug information; `debug_unit` is what
  can be asked of a unit, `binary_unit` one of a binary, `unit_image` one that is held in memory.
  `entries`, `params`, `fields`, `symbols` and `walk` say what is gathered from a unit, `catalog` how it
  is collected, `extract` what becomes of a binary. `names` and `location` put symbols and places in
  words.
- Metadata: `meta`, with `build_id` to tell whether it belongs to a binary.
- The traced process: `trace` is the conversation with the kernel, `inferior` the state of a process and
  what is done to it, `threads`, `stepping` and `calls` how it is run, stepped and made to call its own
  functions, `maps` where it was loaded.
- Mods: `hooks` and `session` say which breakpoints hooks ask for and what hitting them leads to; `peek`,
  `values`, `statics`, `arguments`, `invoke`, `switches` and `caches` are what a mod can do.
- The command line: `cli`, `build_log` and `report`.
- Laws that span several of these: `walk_laws`, `extract_laws`, `orderly`, `stopped_laws`, `replay`,
  `memory_laws`, `field_laws` and `session_laws`.

An operation on a traced process is a function of the kernel's replies so far. Run with too few of them it
names the request that it needs a reply to; with that reply added it is run again, from the same state.
`app/` performs those requests and holds what else touches the system: files, child processes, signals,
the script engine and the JSON of the metadata file.
