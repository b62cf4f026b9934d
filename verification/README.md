# fincapx

The verified core of a local-first personal finance ledger, written in Verus.

- `src/date.rs` — calendar dates that cannot name a day that does not exist,
  their chronological order and their ISO-8601 text.
- `src/money.rs` — ISO 4217 currency codes and amounts in minor units, with
  addition, subtraction and negation that give the exact result or fail.
- `src/ledger.rs` — the balance rule of double-entry bookkeeping (per
  currency, the amounts add up to exactly zero) and the posting.
- `src/text.rs` — decimal numerals and text order, with their proofs.
- `app/` — companion types that wrap the library's date and error types and
  carry `Display` and `std::error::Error`.
