# array_recipes

NumPy-style array helpers whose integer logic is verified with Verus.

- `src/number_theory.rs`: element-wise gcd and lcm (through `num-integer`), with
  the laws that make the specification the gcd and lcm.
- `src/sets.rs`: sorted distinct values, intersection, union and difference.
- `src/dates.rs`: calendar dates held as day numbers (through `chrono`), date
  ranges, shifting, day differences and business-day filtering.
- `src/text_table.rs`: whitespace tokenisation and table shape of plain-text
  matrices.
- `src/pipelines.rs`: the machine-learning pipeline entry points.

`app/` holds what stays outside the verified library: floating-point
numerics (statistics, polynomials, FFT, LSTM), file formats handled by outside
crates, the `linfa`/`smartcore` pipelines, and `ndarray`/`chrono` adapters.
