# Junkyard

Cross-platform system trash, with its logic verified by Verus.

## Layout

- `src/` is the library. Every operation on the trash is a machine (`src/machine.rs`): it asks the
  operating system for one thing at a time, and each answer decides what it asks next or how it
  ends. The contracts say which request comes when, and what is given back.
- `src/guarantee.rs` states and proves what discarding guarantees, whatever the operating system
  answers.
- `src/coexistence.rs` states and proves what discarding leaves of the things that were there
  before it, among them the items that are in the trash already.
- `app/` carries out the requests and offers the API below.
- `tests/` runs the library, on a filesystem in memory where one is needed.

## Usage

Use `discard` to move a single path to the trash:

```rust
let item = discard("file.txt")?;

assert_eq!(item.original_name(), "file.txt");
```

Use `discard_all` to move multiple paths to the trash:

```rust
let items = discard_all(["first.txt", "directory"])?;

assert_eq!(items.len(), 2);
```

All paths are resolved before any item is moved to the trash. If resolution fails, no items are
moved. Once trashing begins, paths are processed in input order. If a later operation fails,
earlier items may already be in the trash.

Symbolic links are moved as links; their targets are left in place.

## Notes

- Linux: the trash of Freedesktop environments.
- macOS: the trash of the file manager.
- Windows: the names and times of the Shell only. There is no `discard` or `discard_all` there.
