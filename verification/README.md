# zipr

Inspect and patch zip, jar and war archives, nested ones included
(`outer.jar!/BOOT-INF/lib/inner.jar!/a.txt` names an entry inside an
archive inside an archive).

The library under `src/` is verified with Verus:

- `path_expr`: zip expressions, parsed and built.
- `config`: which names count as nested archives.
- `zipio`: the boundary with the `zip` crate, reading and writing archives
  held in memory, with the contracts the rest relies on.
- `archive`: reading, listing and rewriting (delete, replace) along a path of
  nested archives; `rewrite_laws` states what a rewrite promises.
- `diff`: comparing two archives entry by entry.
- `patch_spec`, `draft`, `apply`: patch specifications, drafting them from
  candidate files, and applying them one entry at a time.
- `report`, `text`, `error`: the text the command line prints.

`app/` is the command-line program: arguments, files, TOML, printing.
