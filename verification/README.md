# block_explorer

A block explorer for Bitcoin Core, with its logic verified in Verus.

- `src/` is the verified library:
  - `decimal`: decimal text of integers, and reading it back as `str::parse::<i64>` does;
  - `grouping`: thousands separators (`format_int`) and fixed-point text;
  - `filters`: the `format_hash`, `format_time` and `format_number` template filters on plain values;
  - `clock`: the UTC calendar date and time of a timestamp, through `chrono`;
  - `chain`: the node's answers the explorer reads, the latest block heights, the inputs of a transaction;
  - `search`: the search box as a state machine between questions to the node;
  - `batch`: the results of a JSON-RPC batch.
- `app/` is the web server (Rocket, Tera templates, CORS, the `reqwest` RPC client), which does the I/O and the floating-point arithmetic around the library.
- `tests/` runs the library on concrete values.
