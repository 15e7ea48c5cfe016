# pop_vcs

A small version control system in layers. The library holds what the system decides and computes,
stated in contracts and proved with Verus; the program around it reads and writes files, runs
`curl` and `ssh`, and serves requests.

- `src/` is the library.
  - `text`, `bytes`, `strmap`, `encoding`: texts, bytes, ordered maps and sets, base64.
  - `model`: the files of a repository.
  - `objects`, `tree`, `walk`, `roundtrip`, `loading`: the object store and its trees.
  - `changes`, `merge`, `history`, `graph`: layers, differences, patches, merges and ancestry.
  - `commits`, `staging`, `paths`, `ignore`, `locks`: commits, the index, paths and locks.
  - `keep`, `fsck`: what is needed, what is garbage, what is broken.
  - `remote`, `bundle`, `server`, `auth`: exchange with other repositories.
  - `commands`, `report`: the commands and what they print.
- `tests/` runs the library on concrete values.
- `app/` is the command line program and the server.

Functions whose names start with `law_` state what holds of the library as a whole.
