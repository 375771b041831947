# invrev

Command line tool that reviews an invoice against one or more system price
lists. Invoice keys come from column `C` and prices from column `E`; system
keys from column `A` and prices from column `E`. Successive percentage
discounts may be applied to the invoice price, and a negative `--sensitivity`
hides small drops. The report lists wrong prices, keys not found and keys
found more than once in the deciding system file.

## Layout

- `src/` — the verified library (Verus):
  - `natural`, `decimal`, `numeral`, `number`: exact decimal arithmetic,
    reading numbers in the grammar of `f64::from_str` as exact decimals
    (not rounded to the nearest `f64`), rounding and
    printing;
  - `text`: trimming, prefixes, joining lines;
  - `types`: keys, prices, discounts, thresholds, row numbers;
  - `discounts`, `matching`, `review`: the review itself;
  - `spreadsheet`: the rows that can be read from the cells of the sheets;
  - `report`: the text report;
  - `cli`, `commands`, `errors`, `paths`: the command line, what it leads
    to, the error messages and path resolution.
- `app/` — the program: reads the workbooks, checks and writes files,
  serialises the JSON report and handles interruption.
- `tests/` — tests of the library.

Numbers are exact decimals: the discounts and the percentage variation are
computed without intermediate rounding. The variation is rounded to two
decimals as `((x + f64::EPSILON) * 100).round() / 100` would round it with
exact arithmetic: `f64::EPSILON` (2^-52) is added where `f64` addition keeps it
(a magnitude below 2), and the result then goes to the nearest hundredth, halves
away from zero. So `-0.125` becomes `-0.12` and `-87.655` becomes `-87.66`. Only the first sheet of each
workbook is read, and a row with a key but no valid price stops the review
with an error.
