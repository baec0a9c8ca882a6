# kanshiui

An editor of [kanshi](https://sr.ht/~emersion/kanshi/) output profiles for
sway, with its core verified in Verus.

## Layout

- `src/` — the verified library:
  - `text.rs`: characters, whitespace, lines, number parsing and formatting;
  - `model.rs`: modes, outputs, screens, profiles, display identifiers and
    the best mode of an output;
  - `grammar.rs`, `parse.rs`: the configuration grammar (inline and block
    output declarations, aliases, profile headers, mirror comments) and the
    profiles a configuration text gives;
  - `generate.rs`: the block written for a profile (quoting, mirror
    placement) and writing it into a configuration;
  - `matching.rs`: profiles matched to the connected outputs by multiset of
    identifiers;
  - `order.rs`: ordering and sorting texts as Rust orders strings;
  - `editor.rs`: the editor state and what each user action does to it;
  - `sidebar.rs`, `overlay.rs`: the rules behind the screen cards, the
    canvas and the identification overlays;
  - `sway.rs`, `restart.rs`: what sway reports, and the order in which
    kanshi is restarted;
  - `laws.rs`, `readback.rs`: properties over several functions, among them
    that the block written for a profile reads back as that profile, and
    that a configuration made of written blocks, with a profile written
    into it, reads back as its profiles with that one replaced or added.
- `tests/` — tests of the library.
- `app/` — the program: the egui windows, files, processes and the sway IPC
  connection.
