# canon_builder

Builds the Engineering Canon page: `canon.toon` (the content) plus the
templates become one pre-rendered, minified `index.html` and its script
sidecar `app.<hash>.js`.

The library under `src/` is verified with Verus:

| Module | What it holds |
| --- | --- |
| `model` | The input model (`Canon`, `Card`, `Lineage`, the `NameMap` table) and `validate` |
| `text` | `slugify` and the collation key of card names |
| `graph` | The lineage graph: resolved predecessors, years, misses |
| `order` | The row order of the chronology and a stable insertion sort |
| `view` | `derive`: sections, subgroup runs, chips, cross-references, decades, edge data |
| `escape` | Guarding the inline script and the JSON blob inside `<script>` |
| `freshness` | The source hash, the files it covers, and the stale-binary check |
| `sidecar` | Sidecar names, the retention window, the manifest text and its checks |
| `page` | The build result, the script asset, minification |
| `util` | String helpers |

`app/` is the command line around it: finding the checkout, reading and
writing files, decoding TOON, rendering the Askama templates.

```sh
canon-builder                # write the minified index.html
canon-builder --check        # verify index.html matches the build
canon-builder --source-hash  # print the embedded source hash
```
