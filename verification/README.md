# robo_croissant

The logic of a dashboard for reviewing LLM-generated Croissant metadata, as a Verus library: every function under
`src/` is proved to meet its contract. `app/` is the web server around it.

## Layout

| Module | What it holds |
|--------|---------------|
| `text`, `number`, `order`, `lookup`, `paging` | Text, decimal notation, sorting, lookups and grouping by key, pages |
| `patterns`, `paths` | The regular expressions for field paths; sections, natural order, anchors, indices, paths with dots only |
| `json`, `document` | JSON documents, their text form, and values set at dotted paths |
| `schema` | Record sets grouped by the fields that they define |
| `home`, `review`, `compare`, `issues`, `runs` | The pages |
| `fields` | Edits of single fields, and the corrections that they make |
| `validate` | Automatic approval of fields |
| `fixes`, `apply` | Fix suggestions, and what an approved fix does |
| `reconcile` | Differences from a staged version, and the document that the choices make |
| `export` | Names of exported files and messages |

Contracts are stated over views: texts are `Seq<char>`, a document is a `JsonView`. Public proof functions whose
names begin with `law_` state what holds of the library as a whole.

## What is trusted

Calls into other crates stand in small functions whose contracts are not proved: `regex` (`patterns`), `capitalize`
(`paths`), `serde_json` (`json`, `document`), `json_dotpath` (`document`), `percent-encoding` (`compare`), and a few
functions of the standard library (`text`, `fixes`, `validate`). Each says in its doc comment what it claims.
