# cgrade

School grades across national scales, and the modified Bavarian formula
(KMK) that converts a passing foreign grade to the German scale:

    x = 1 + 3 * (Nmax - Nd) / (Nmax - Nmin), truncated to one decimal

with its inverse truncated to two decimals.

The library in `src/` is verified with Verus. It keeps every grade as an
integer number of thousandths, so the formulas divide and truncate exactly:

- `table.rs`: the seven scales (`at`, `ch`, `de`, `es`, `fr`, `it`, `us`),
  case-insensitive lookup, `is_pass`, `to_de`, `from_de`, `convert`;
- `bavarian.rs`: the formula and its inverse, with their laws (range,
  endpoints, truncation, monotonicity, round trip);
- `numeral.rs`: `parse_grade` (dot or comma separator, strict) and
  `format_grade` (always a dot), with the laws that a comma reads as a dot
  and that what is written reads back;
- `ascii.rs`: ASCII case folding of scale IDs.

`app/` is the float face of the library: it takes and returns `f64` grades,
quantizes them to thousandths, and carries the serde derive on `Scale`.
