# tracing-texray

Introspects `tracing` spans and events in plain text. Once a span is examined,
the span and all of its descendants are tracked, and when it exits their
timeline is rendered:

```text
load_data                                52ms ├────────────────────────────────┤
  download_results{uri: www.crates.io}   11ms                ├─────┤
   >URI resolved                                             ┼
   >connected                                                   ┼
  compute_stats                          10ms                        ├─────┤
  render_response                         6ms                               ├──┤
```

The library under `src/` holds the logic and is verified with Verus. It does no
I/O: clocks, status files, output and the JSON file are handed in and out as
plain values. `app/` runs it inside a process, with locks, `/proc` and the
`tracing` types.

## Modules

- `root`: which spans are examined, and the tracker of each.
- `interest`: all that is tracked of one examined span and its descendants, by
  path.
- `span`, `fields`: one span, its events and the recorded fields that are shown.
- `dump`, `chart`: the timeline, its frame, the order of its rows and the
  geometry of its bars.
- `format`, `time`: sizes, durations and the lines of streaming mode.
- `json_sink`: one JSON record per closed span.
- `proc_status`, `rss_sampler`: reading `/proc/<pid>/status`, and the resident
  memory of a process tree.
- `double`, `order`, `accuracy`: double-precision arithmetic in exact integers,
  that rounding keeps the order of numbers, and how far rounded numbers are from
  exact ones.
- `text`: characters, padding and decimal numbers.

## What is proved

Every executable function has a contract that gives its result as a function of
its arguments: the text of a row, a line or a record, character by character.
What holds across functions stands in proof functions whose names start with
`law_`: bars are drawn to scale and fit the chart, rows follow the starts of
their spans, a span comes before the spans inside it, the timeline holds the rows
of every span, records and sizes read back, spans are tracked apart, and the
total of a process tree includes all descendants.

Arithmetic that is rounded to double precision is specified by the exact result
and the rounding, and computed without floating point.
