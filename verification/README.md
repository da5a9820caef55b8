# ATLAS

Aggregated Tensor Large Array Store: thousands of named datasets in a single
immutable file. A dataset is a set of named N-dimensional arrays with
attributes. A collection is a write-once container, `data.atlas`, beside an
optional deletion mask, `deleted.mask`.

The library in `src/` is written in Verus. It decides; it does not read or
write. Every function states in its contract what it returns, and laws that
relate several functions stand beside them as public proof functions whose
names begin with `law_`.

| Module | What it holds |
|---|---|
| `format` | framing, footer, pools, deletion mask, segments, object names |
| `schema` | types, attributes, layouts, and views of what a dataset declares |
| `reader` | opening a collection, listing, deleting, statistics |
| `writer` | datasets under construction, and the footer of a collection |
| `meta` | the metadata of a mutable store, and its merged types |
| `dataset` | one dataset of a mutable store, and attributes not yet written |
| `pruning` | the per-dataset statistics index and its file |
| `notation`, `binding` | what the Python layer accepts, refuses and plans |
| `codec`, `table`, `timestamp` | zstd and LZ4, an ordered map on `indexmap`, RFC 3339 |

`app/` is the ordinary Rust around it: object stores, array files, serialised
forms, and the Python classes. `tests/` runs the library on given values.
