# Tamil query engine

A columnar query engine for a pipeline language written in Tamil, verified by Verus. The one
function of the library that is trusted instead is `debug_text` in `ingest`, which prints a list
of texts as the standard library does; `utf8` and `text` declare what `core::str::from_utf8` and
`String::push` of the standard library do.

```text
இருந்து பயனர்கள் | வடி வயது > 21 | அடுக்கு வயது | எடு 10 | தேடு பெயர், வயது;
```

| Keyword | Stage |
|---------|-------|
| இருந்து | the rows of a table |
| வடி | the rows whose column compares to a number |
| கணி | a derived column |
| அடுக்கு | rows sorted by a column |
| எடு | the first rows |
| தொகுப்பு | one row for each value of a column |
| சுருக்கு | the sum of a column over each group |
| இணை | a join with another table |
| எங்கே | a condition behind a join; it is parsed, and does not change the join |
| தேடு | the columns of the result |

A join pairs the rows whose `அடையாளம்` is equal, with or without a condition behind it.

## Layout

- `src/` is the library. `lexer` and `parser` read queries; `storage` and `kernels` hold and
  process columns; `runtime` runs queries; `ingest` reads comma-separated text; `columnar`,
  `zonemap` and `scan` work on column files as bytes. `order` and `flow` say what a pipeline
  means, and the contracts of the rest speak in their terms; `laws` states what holds of every
  pipeline.
- `tests/` runs the compiled library.
- `app/` is the command line around it: files, memory maps, threads and printing.
