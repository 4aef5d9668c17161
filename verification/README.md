# pallet_projects

A projects treasury, verified with Verus. Managers are registered per funding type by an
admin; a milestone spend creates an approved proposal for its beneficiary, with a bond of a
configured share of its value to hold on deposit; at the start of each block the pot is checked, and once a
spend period has passed the approved proposals are paid out of the pot, managers in storage
order and each manager's proposals from last to first; a paid proposal is awarded and its
index leaves the approvals. When no approved proposal had to be skipped, part of what is
left is burnt for each period passed.

The library holds an account as its SCALE encoding followed by zeroes up to 32 bytes, so a
runtime's accounts of at most 32 encoded bytes (`AccountId32`, `u64`, ...) convert into it and
back; the pallet's integrity test checks that bound.

Layout:

- `src/types.rs`: funding types, proposals, events and errors.
- `src/managers.rs`: the managers' entries and their view as a map.
- `src/pallet.rs`: configuration, storage, and the admin and spend calls.
- `src/spend.rs`: spend periods and the block hook.
- `src/permill.rs`, `src/account.rs`: the calls into `sp_arithmetic` and `sp_runtime`, and the
  comparison of accounts.
- `src/weights.rs`: weights and the asset rate weight functions.
- `src/laws.rs`: properties that hold across calls.
- `app/lib.rs`: the FRAME pallet that loads storage into the library, lets it decide, and
  performs the currency operations and events it returns.
