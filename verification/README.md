# rzip

A zip archive tool: a command line that packs files into an archive and
lists, extracts or deletes its entries, and the calls behind a desktop
archive browser.

## Layout

- `src/` is the library, verified with Verus. It holds the logic: the
  directory tree that an archive's entry names describe (`archive`, and
  the desktop variant with directory sizes in `desktop`), Unix path
  components (`path`), the listings drawn from a tree (`listing`), which
  entries a deletion keeps (`delete`), the names under which files go into
  a new archive (`compress`), the icon manifest (`icon`), dates (`date`)
  and error messages (`error`). Terminal colours come from the `colored`
  crate through `paint`.
- `app/` is the program around it: argument parsing (`clap`), reading and
  writing archives (`zip`), printing tables (`tabled`) and JSON
  (`serde_json`).
- `tests/` runs the library on concrete archives.
