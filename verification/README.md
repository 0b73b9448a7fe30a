# kaoruko

A small peer-to-peer item exchange, with its logic verified in Verus.

- `src/market`: the market's offer book (one offer per sender address and item),
  the messages it takes and gives, and the address of its offer list.
- `src/sender`: how a sender describes an item (files sorted by path, total size,
  SHA-256 info hash), the checks on requested paths, and what it publishes.
- `src/receiver`: offers as the receiver reads them, percent-encoding of file paths
  and the plan of where each file of an offer is fetched from and written to.
- `src/text.rs`: character-level string helpers.
- `app/`: the market and sender HTTP servers, the receiver command line, file and
  network I/O and the JSON forms of the messages.
