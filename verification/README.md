# ministat

Integer statistics over data sets read one number per line, in the manner of
BSD `ministat`: count, min, max, median, mean and variance, Student's t
comparison of two sets, and readers that split a file among threads at line
breaks.

- `src/` is the verified library (Verus):
  - `dataset.rs` — `DataSet`, its running sums and statistics, and laws on
    them (the sums track the points, min ≤ mean ≤ max, variance ≥ 0);
  - `text.rs` — line splitting and integer parsing on bytes;
  - `reading.rs` — sums, sorted values and data sets read from a text;
  - `work.rs` — splitting a byte range into per-CPU intervals and aligning
    them to line breaks (`num_cpus` is called here);
  - `split.rs` — laws: aligned intervals cut the data at line breaks, and
    reading piece by piece gives what reading the whole gives;
  - `sums.rs`, `order.rs` — sums, sortedness, and the wrapper of std's sort;
  - `plot.rs` — the height of the tallest stack of points in a plot.
- `app/` is the program: file reads, threads, floating-point statistics,
  the printed report and the plot's dimensions.
- `tests/` runs the library on concrete values.
