# jsonl-peek

Fast, single-pass inspection of JSONL datasets, verified with Verus.

```
jsonl-peek head   [-n N] [FILE]
jsonl-peek sample [-n N] [--seed S] [FILE]
jsonl-peek stats  [--field PATH]... [--top N] [--max-errors N] [--json] [FILE]
jsonl-peek schema [--depth N] [--min-rate R] [--json] [FILE]
```

* `src/` is the library. Every function in it is verified: its contract says what it returns, and
  proof functions named `law_...` say what holds across functions, for example that every line of
  a file is counted once, that a JSON report parses back to what went in, and that, in records
  whose member names are plain and unique, a schema counts at a path exactly what the field path
  of the same text selects.
* `tests/` runs the library on concrete values.
* `app/` is the program: it opens files, reads lines and prints.

Percentages, means and rates are those of double precision. The library works them out with
integers (`rounding`), and takes a rate as the bits of its double.
