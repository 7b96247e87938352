# Validator library

Parts of a validator whose behaviour is stated in contracts and proved with Verus: scheduling the
transactions of a block, limiting and verifying what comes in, keeping the ledger's database, and the
rules that the stages of a node go by.

- `src/` is the library. What is believed without proof of outside crates stands in items marked
  `#[verifier::external_body]`, each with a comment that says what is believed.
- `tests/` runs the library on concrete values.
- `app/` holds what surrounds it: threads, channels, sockets, files and command lines.

The properties that relate several functions are the proof functions whose names begin with `law_`.
