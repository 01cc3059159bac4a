# nocli

`cargo nocli` installs nocomponents' styled layer into a Leptos project as source the project
owns: it fetches a component's file, rewrites its imports so it compiles inside the project,
pulls in the components it is built on, keeps a lock of what it wrote so an edited file is never
overwritten, and maintains the block of `mod.rs` that declares them.

The logic is a library verified with Verus; the command line around it is ordinary Rust.

- `src/` — the verified library.
  - `text`, `order`: strings as sequences of `char`s, searching, trimming, splitting, sorting.
  - `config`: the install directory and the Rust path it stands for.
  - `lock`: the FNV-1a hash, the lock of installed hashes, and which components are built on
    another.
  - `rewrite`: flattening `use` trees, redirecting paths, finding what a file is built on.
  - `install`: the `add` run as a state machine, the `mod.rs` block, `remove` and `list`.
  - `manifest`: what is read from `Cargo.toml` and `Cargo.lock`, and what `cargo add` is asked.
  - `init`: the project stylesheet, `Trunk.toml`, the features `init` asks for.
  - `remote`: addresses, the release to read from, HTTP statuses, the component catalogue.
  - `site`, `editor`, `board`, `search`: the rules of the documentation site's heading rail,
    theme palettes, text editor, kanban board, navigation and block search.
  - `demos`: the sample data the site's blocks show, and what those blocks decide: lookups,
    the invoice table's sort and paging, the deployments menu, the form's checks, the people
    picker, undoing a delete.
  - `canvas`: the canvas board's selection (press, band), deleting, duplicating, "to front",
    placing a node and what the board says of the selection.
  - The editor block and the invoice table are also held as states (`editor::Editor`,
    `demos::InvoiceTable`) whose every step is one of the verified functions.
- `app/` — the binary: argument parsing, files, HTTP, `cargo add`, printing.
- `tests/` — the tests, run against the compiled library.
