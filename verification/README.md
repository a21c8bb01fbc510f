# rabex

Inspect Unity serialized files, asset bundles and addressables from the command line.

```sh
rabex --steam-game 'Hollow Knight' game info        # unity version, file/addressable counts
rabex scene Menu_Title tree --components            # transform hierarchy
rabex scene Tutorial_01 object '_Enemies/Crawler 3@DamageHero' cat
rabex file globalgamemanagers object TagManager info
rabex bundle heroloading_assets_all.bundle file objects
rabex bundle .._monoscripts.bundle file object PlayMakerFSM references --limit 20
```

## Layout

- `src/` is the library, verified with Verus. It holds what the commands decide and
  compute, on plain values:
  - `component_path` reads and writes component paths (`Root/Child:1@SpriteRenderer`).
  - `model` is a serialized file as the commands see it; `resolve` finds the object that a
    path or name selects, `qualify` builds the path of an object, and `addressing` and
    `listing` prove that the two undo each other.
  - `commands` has one module per command: listings, the hierarchy, searches for
    references, preload tables, addressables, scenes, bundles.
  - `ctx` and `locate` decide which game, scene or addressable is meant; `complete` offers
    shell completions; `dispatch` turns a command line into an action.
  - `output`, `text`, `number`, `sort`, `group` and `json` are the vocabulary of the rest.
- `app/` is the `rabex` binary around it: arguments, files, terminal. It opens games with
  `rabex-env` and runs jq filters with `rabex-jq`.
- `tests/` runs the library.

## What is trusted

Functions of other crates that the library calls are stated, not proved: each stands in a
small function or declaration whose comment names what it wraps. They are `String::push`
and `str::to_lowercase` (`src/text.rs`), the class names of `rabex`
(`src/classes.rs`), the display width of `unicode-width` (`src/commands/scenes.rs`), and
string quoting and parsing of `serde_json` (`src/complete.rs`).
