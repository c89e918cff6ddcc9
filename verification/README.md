# irr

Amortised-cost (effective interest) loan schedules from a payments file and a
disbursements file.

- `src/` is the verified library. It holds the integer bookkeeping of
  the schedule: which rows belong to which loan and amendment (`ranges`,
  `tables`, `borrowings`), where each amendment's window and each dated
  transaction fall on a loan's daily grid (`plan`, `schedule`), and how the
  daily rows group into reporting periods (`report`).
- `app/` is the program around it: reading the CSV files with polars, the
  floating-point work (the rate search and the daily balances), the monthly
  report and the output file.
- `tests/` runs the library on concrete inputs.
