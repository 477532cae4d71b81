# student_performance

Predicts a student's final grade (`A`/`B`/`C`/`D`/`F`) from study habits,
attendance and background, with a multinomial logistic regression trained by
linfa. The decision logic of the pipeline is a Verus-verified library; the
program around it (file I/O, floating-point feature scaling, model fitting,
SVG charts) is ordinary Rust.

## Layout

- `src/` — the verified library
  - `text.rs`: whitespace, `trim`, splitting on commas, reading an `i64`
  - `data.rs`: a student row and `from_csv_line`
  - `features.rs`: grade ordinals, design-matrix column names, categorical
    one-hot encoding, grade counts
  - `matrix.rs`: a count matrix kept in an `ndarray::Array2<usize>`
  - `metrics.rs`: confusion matrix, accuracy, per-class precision / recall /
    F1 as exact ratios, majority baseline, and the laws relating them
  - `sampling.rs`: seeded shuffles (rand), train / test split, bootstrap rows
    and feature subsets
  - `voting.rs`: class counts, the trees' vote tally, majority vote, vote shares
- `app/` — the training program: CSV loading, z-score scaling, logistic
  regression, random forest fitting, printing, charts
- `tests/` — tests of the library
