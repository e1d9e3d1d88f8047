# fm-offline-pos

A point of sale that takes federated ecash without being online: it reads bundles of notes from
text and QR codes, keeps single notes in a wallet, and gives change from it.

- `src/` is the library, verified with Verus: the two formats of note bundles (`oob_notes`,
  `ecash_fields`), their forms as text (`ecash`, `base32`, `base64_text`), invite codes (`invite`),
  the wallet and how notes are chosen (`storage`, `plan`, `withdraw`), what the till does with a
  deposit, a payment and a withdrawal (`till`), entry of PINs and amounts (`keypad`), transactions
  (`ledger`), QR frames (`qr`), and the rest of what needs no browser.
- `sound`, `round_trip` and `till_laws` state and prove what holds across those modules.
- `app/` is the web page around it: views, camera, local storage, the price feed and everything
  that needs floating-point numbers.
- `tests/` runs the library with the crates that it calls.
