# tokbench

Benchmarks tokenizer engines through one shared, verified timing loop, and checks
that every engine produced the same ids before their speeds are compared.

`src/` is the library, in Rust with Verus contracts:

| modules | what they hold |
|---|---|
| `engine`, `adapter`, `openai` | what an engine is, what every adapter does around a library's calls, and the engine over `bpe-openai` |
| `measure`, `scaling`, `threads`, `clock` | the timing loops: encode, decode, latency and scaling |
| `chunk`, `recurrence`, `cell` | the texts of a cell and the order of its tasks |
| `hash`, `stats`, `order`, `number` | id and text hashes, medians, percentiles and ranking |
| `ranks`, `spans`, `capacity`, `feed` | vocabularies, configs and buffers that the engines are built from |
| `report`, `memory`, `rss`, `registry` | results, their verification and their footprint |
| `cli`, `select`, `banner` | the command line, and what a run does with it |
| `table`, `collapse`, `sheet`, `layout` | the tables |
| `text`, `scan`, `json` | text and JSON |

`app/` is the program around it: files, processes, threads, the calls into the
tokenizer libraries, and everything in floating point. `tests/` run the library.

Names that start with `law_` are statements about the library as a whole. What is
taken on trust of other crates and of the standard library is marked
`external_body`, `assume_specification` or `uninterp`, each with what it claims.
