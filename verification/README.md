# dotsym

A symlink manager for dotfiles. The dotfiles repo is laid out as
`<repo>/<host dir>/<literal dir>/<entry>`: every entry becomes a link under the
home directory, at the path that the literal directory and the entry's name spell
once the separator (default `__`) is read as `/` and a leading separator as `.`.

- `src/` is the library, verified with Verus: the path model, the repo layout and
  its inverse, the mappings the repo asks for, what `apply` does with each one and
  the file-system steps that carry it out, `dotsymize` (moving a file into the repo),
  `clean` (finding broken links) and the decisions of `setup`. The laws it proves
  include: expanding a collapsed name gives it back, every place `dotsymize`
  offers links back to the file, applying again leaves made links alone, applying
  never removes anything but a symlink, and `clean` reports exactly the broken
  links into the repo.
- `app/` is the command-line program: argument parsing, reading the disk,
  prompting, and performing the steps the library decides on.
- `tests/` exercises the library on concrete values.
