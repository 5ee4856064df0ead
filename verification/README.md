# driver

Settlement logic of a batch-auction driver, verified with Verus.

- `src/` is the verified library:
  - `amount`: 256-bit token amounts with saturating addition.
  - `lex`: lexicographic order on byte keys.
  - `eth`: addresses, spenders, required/existing allowances, approvals,
    transactions.
  - `access_list`: EIP-2930 access lists and their union.
  - `solution`: solutions of an auction; the normal form of the allowances
    a solution needs, the approvals to send, its user trades, the steps
    towards partial access lists, solution ids, scores and errors.
  - `decimal`: decimal text of integers, written and read back.
  - `rabbit`: bookkeeping of HTTP over a message broker (request ids,
    correlation ids, waiting requests, routing of responses, the request
    that is published).
- `app/` holds what the library leaves to its callers: the broker client
  (lapin, tokio), the command line (clap), the JSON sent to solvers (serde)
  and the asynchronous steps that query the chain and simulate.
- `tests/` runs the library on concrete values.
