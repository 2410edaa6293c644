# steno_core

A chorded-keyboard (stenography) engine for any keyboard and any language,
with its specification proved by Verus.

## Layout

- `src/` — the verified library. Physical key events become chords
  (`chord`), chords become steno key ids through a layout (`layout`), ids are
  rendered as canonical stroke strings and parsed back (`stroke`), and strokes
  are translated by greedy longest match against a dictionary
  (`dictionary`); `engine` ties these together. A language pack (`pack`)
  bundles layout, dictionary and metadata. `reverse` reads a dictionary
  backwards, `lesson` derives a curriculum from a pack and drills it,
  `progression` states and proves the laws every curriculum keeps, and
  `learning`, `practice`, `stats` and `progress` follow a learner through
  drills and free practice. `capture`, `events`, `screens` and `keyboard`
  hold the decisions an application makes around the engine. `text` and `assoc` are the string and association-list helpers
  these share.
- `tests/` — tests of the library on concrete values.
- `app/` — the desktop application around the library (egui window, global
  key capture, text injection, settings on disk, TOML pack files,
  floating-point rates). It embeds two official packs from
  `packs/<code>/{pack.toml,layout.toml,dict.json}` and a kana font from
  `assets/NotoSansJP-kana-subset.otf`; those data files are not part of this
  crate and must be supplied next to `app/` to build it.
